use laser_lockdown::sd::{CardOp, FileNameEnum, SdStorage, LOG_MAX_SIZE, LOG_PACKET_CHAR_COUNT};

fn empty() -> SdStorage {
    SdStorage::new(None, None, None, None)
}

fn with_users(text: &str) -> SdStorage {
    SdStorage::new(None, Some(text.as_bytes().to_vec()), None, None)
}

fn with_log(text: &str) -> SdStorage {
    SdStorage::new(Some(text.as_bytes().to_vec()), None, None, None)
}

fn carry_out(ops: &[CardOp], file: FileNameEnum, before: Option<Vec<u8>>) -> Option<Vec<u8>> {
    let mut now = before;
    for op in ops {
        match op {
            CardOp::Write { file: f, data, overwrite } if *f == file => {
                let mut bytes = if *overwrite { Vec::new() } else { now.unwrap_or_default() };
                bytes.extend_from_slice(data);
                now = Some(bytes);
            }
            CardOp::Delete { file: f } if *f == file => now = None,
            _ => {}
        }
    }
    now
}

#[test]
fn file_names() {
    assert_eq!(FileNameEnum::Log.as_str(), "LOG.TXT");
    assert_eq!(FileNameEnum::Users.as_str(), "USER.TXT");
    assert_eq!(FileNameEnum::Password.as_str(), "PSWD.TXT");
    assert_eq!(FileNameEnum::Temp.as_str(), "TMP.TXT");
}

#[test]
fn written_text_is_read_back() {
    let mut sd = empty();
    assert_eq!(sd.read(FileNameEnum::Temp, None), "");
    sd.write(FileNameEnum::Temp, "one\n", false);
    sd.write(FileNameEnum::Temp, "two\n", false);
    assert_eq!(sd.read(FileNameEnum::Temp, None), "one\ntwo\n");
    sd.write(FileNameEnum::Temp, "three", true);
    assert_eq!(sd.read(FileNameEnum::Temp, None), "three");
    sd.remove(FileNameEnum::Temp);
    assert_eq!(sd.read(FileNameEnum::Temp, None), "");
}

#[test]
fn one_line_is_read() {
    let mut sd = empty();
    sd.write(FileNameEnum::Temp, "one\r\ntwo\n\nfour", false);
    assert_eq!(sd.read(FileNameEnum::Temp, Some(0)), "one");
    assert_eq!(sd.read(FileNameEnum::Temp, Some(1)), "two");
    assert_eq!(sd.read(FileNameEnum::Temp, Some(2)), "");
    assert_eq!(sd.read(FileNameEnum::Temp, Some(3)), "four");
    assert_eq!(sd.read(FileNameEnum::Temp, Some(4)), "");
    assert_eq!(sd.read(FileNameEnum::Log, Some(0)), "");
}

#[test]
fn lines_end_where_a_part_of_the_file_ends() {
    let mut sd = empty();
    let long = "x".repeat(300);
    sd.write(FileNameEnum::Temp, &long, false);
    assert_eq!(sd.read(FileNameEnum::Temp, Some(0)), "x".repeat(256));
    assert_eq!(sd.read(FileNameEnum::Temp, Some(1)), "x".repeat(44));
    assert_eq!(sd.read(FileNameEnum::Temp, None), long);
}

#[test]
fn part_that_is_not_utf8_is_lost() {
    let mut bytes = vec![b'a'; 256];
    bytes[10] = 0xff;
    bytes.extend_from_slice(&[b'b'; 10]);
    let sd = SdStorage::new(None, None, None, Some(bytes));
    assert_eq!(sd.read(FileNameEnum::Temp, None), "b".repeat(10));
}

#[test]
fn end_of_a_file_is_read() {
    let sd = with_log("0123456789");
    assert_eq!(sd.read_from_end(FileNameEnum::Log, 4), "6789");
    assert_eq!(sd.read_from_end(FileNameEnum::Log, 10), "0123456789");
    assert_eq!(sd.read_from_end(FileNameEnum::Log, 11), "0123456789");
    assert_eq!(sd.read_from_end(FileNameEnum::Log, 0), "");
    assert_eq!(sd.read_from_end(FileNameEnum::Users, 4), "");
}

#[test]
fn file_over_the_threshold_is_cut() {
    let mut sd = with_log("0123456789");
    sd.truncate(FileNameEnum::Log, 10, 4);
    assert_eq!(sd.read(FileNameEnum::Log, None), "0123456789");
    assert!(sd.take_ops().is_empty());
    sd.truncate(FileNameEnum::Log, 9, 4);
    assert_eq!(sd.read(FileNameEnum::Log, None), "6789");
}

#[test]
fn text_across_the_parts_of_a_file_is_read() {
    let text = format!("{}é{}", "x".repeat(255), "y".repeat(300));
    let mut sd = empty();
    sd.write(FileNameEnum::Temp, &text, true);
    assert_eq!(sd.read(FileNameEnum::Temp, None), text);
}

#[test]
fn other_users_stay_whatever_their_names() {
    let mut db = "1:Ann\n".to_string();
    for i in 2..40 {
        db.push_str(&format!("{}:{}\n", i, "é".repeat(11)));
    }
    let mut sd = with_users(&db);
    sd.remove_user(1);
    assert_eq!(sd.read(FileNameEnum::Users, None), db[6..]);
    sd.change_name(2, "Bob");
    assert!((2..40).all(|i| sd.user_present(i)));
}

#[test]
fn last_1024_characters_of_the_log_are_shown() {
    let text: String = (0..300).map(|i| format!("line {:04}\n", i)).collect();
    let sd = with_log(&text);
    let shown = sd.read_logs();
    assert_eq!(shown.len(), LOG_PACKET_CHAR_COUNT);
    assert_eq!(shown, text[text.len() - 1024..]);
    assert_eq!(with_log(&"é".repeat(1024)).read_logs(), "é".repeat(1024));
    assert_eq!(with_log(&format!("a{}", "é".repeat(1024))).read_logs(), "é".repeat(1024));
    assert_eq!(with_log(&"é".repeat(2000)).read_from_end(FileNameEnum::Log, 3), "ééé");
    assert_eq!(with_log("short\n").read_logs(), "short\n");
    assert_eq!(empty().read_logs(), "");
}

#[test]
fn message_is_logged() {
    let mut sd = empty();
    sd.log_message("hello", None);
    sd.log_message("world", Some("11/14/23 17:13 "));
    assert_eq!(sd.read_logs(), "hello\n11/14/23 17:13  world\n");
    sd.clear_logs();
    assert_eq!(sd.read_logs(), "");
}

#[test]
fn log_over_its_limit_is_cut_before_a_message() {
    let limit = LOG_MAX_SIZE as usize;
    let mut sd = with_log(&"x".repeat(limit));
    sd.log_message("y", None);
    assert_eq!(sd.read(FileNameEnum::Log, None).len(), limit + 2);
    sd.log_message("z", None);
    let log = sd.read(FileNameEnum::Log, None);
    assert_eq!(log, format!("{}y\nz\n", "x".repeat(1022)));
}

#[test]
fn part_that_splits_a_character_is_lost_when_a_file_is_cut() {
    let mut sd = with_log(&"é".repeat(10));
    sd.truncate(FileNameEnum::Log, 19, 4);
    assert_eq!(sd.read(FileNameEnum::Log, None), "éé");
    let mut sd = with_log(&"é".repeat(10));
    sd.truncate(FileNameEnum::Log, 19, 5);
    assert_eq!(sd.read(FileNameEnum::Log, None), "");
    let text = format!("{}é{}", "x".repeat(600), "y".repeat(511));
    let mut sd = with_log(&text);
    sd.truncate(FileNameEnum::Log, 1000, 1024);
    assert_eq!(sd.read(FileNameEnum::Log, None), "");
    let text = format!("é{}", "y".repeat(1023));
    let mut sd = with_log(&text);
    sd.truncate(FileNameEnum::Log, 1000, 1024);
    assert_eq!(sd.read(FileNameEnum::Log, None), "y".repeat(512));
    let mut sd = SdStorage::new(Some(b"ab\xffcd".to_vec()), None, None, None);
    sd.truncate(FileNameEnum::Log, 4, 2);
    assert_eq!(sd.read(FileNameEnum::Log, None), "cd");
}

#[test]
fn any_log_has_at_most_128_line_feeds() {
    let mut bytes = vec![b'\n'; 300];
    bytes[7] = 0xff;
    bytes[250] = 0xff;
    let mut sd = SdStorage::new(Some(bytes.clone()), None, None, None);
    sd.log_message("new", None);
    let log = carry_out(&sd.take_ops(), FileNameEnum::Log, Some(bytes)).unwrap();
    assert_eq!(log.iter().filter(|b| **b == b'\n').count(), 128);
    assert!(log.ends_with(b"new\n"));
}

#[test]
fn log_has_at_most_128_lines() {
    let full: String = (0..128).map(|i| format!("{}\n", i)).collect();
    let mut sd = with_log(&full);
    sd.log_message("new", None);
    let log = sd.read(FileNameEnum::Log, None);
    assert_eq!(log.lines().count(), 128);
    assert!(log.starts_with("1\n2\n"));
    assert!(log.ends_with("127\nnew\n"));
    let ops = sd.take_ops();
    assert_eq!(ops.len(), 2);
    let start = Some(full.into_bytes());
    assert_eq!(carry_out(&ops, FileNameEnum::Log, start), Some(log.into_bytes()));
    let few: String = (0..127).map(|i| format!("{}\n", i)).collect();
    let mut sd = with_log(&few);
    sd.log_message("new", None);
    assert_eq!(sd.read(FileNameEnum::Log, None), format!("{}new\n", few));
    let mut sd = with_log(&"\n".repeat(500));
    sd.log_message("new", None);
    assert_eq!(sd.read(FileNameEnum::Log, None).lines().count(), 128);
}

#[test]
fn log_stays_bounded() {
    let mut sd = empty();
    let message = "m".repeat(99);
    for _ in 0..200 {
        sd.log_message(&message, None);
        let size = sd.read(FileNameEnum::Log, None).len();
        assert!(size <= LOG_MAX_SIZE as usize + 100);
    }
    assert!(sd.read_logs().ends_with(&format!("{}\n", message)));
}

#[test]
fn time_stamp_is_empty_without_a_time() {
    assert_eq!(SdStorage::get_timestamp(None), "");
    assert_eq!(SdStorage::get_timestamp(Some("now".to_string())), "now");
}

#[test]
fn users_come_and_go() {
    let mut sd = empty();
    assert!(!sd.user_present(5));
    sd.add_user(5, None);
    sd.add_user(6, Some("Ann"));
    assert_eq!(sd.read(FileNameEnum::Users, None), "5:NULL\n6:Ann\n");
    assert!(sd.user_present(5));
    assert!(sd.user_present(6));
    sd.remove_user(5);
    assert_eq!(sd.read(FileNameEnum::Users, None), "6:Ann\n");
    assert!(!sd.user_present(5));
    assert!(sd.user_present(6));
    sd.remove_all_users();
    assert!(!sd.user_present(6));
}

#[test]
fn user_gets_a_new_name() {
    let mut sd = with_users("5:NULL\n6:Ann\n");
    sd.change_name(5, "Bob");
    assert_eq!(sd.read(FileNameEnum::Users, None), "5:Bob\n6:Ann\n");
    assert!(sd.user_present(5));
}

#[test]
fn new_name_of_an_unknown_user_is_not_written() {
    let mut sd = with_users("rubbish\n5:NULL");
    sd.change_name(7, "Bob");
    assert_eq!(sd.read(FileNameEnum::Users, None), "rubbish\n5:NULL");
    assert!(sd.take_ops().is_empty());
}

#[test]
fn users_are_read_from_the_card() {
    let sd = with_users("5:Bob\n6:Ann\n");
    assert!(sd.users_listable());
    let users = sd.list_users();
    let users: Vec<(u64, &str)> = users.iter().map(|u| (u.id, u.name.as_str())).collect();
    assert_eq!(users, vec![(5, "Bob"), (6, "Ann")]);
    assert!(!with_users(&format!("5:{}\n", "x".repeat(33))).users_listable());
}

#[test]
fn password_is_stored() {
    let mut sd = SdStorage::new(None, None, Some(b"old".to_vec()), None);
    assert_eq!(sd.get_password(), "old");
    sd.set_password("0a0b");
    assert_eq!(sd.get_password(), "0a0b");
}

#[test]
fn noted_changes_lead_to_the_same_files() {
    let before = b"5:NULL\n".to_vec();
    let mut sd = SdStorage::new(None, Some(before.clone()), None, None);
    sd.add_user(6, Some("Ann"));
    let first = sd.take_ops();
    assert_eq!(first.len(), 1);
    sd.remove_user(5);
    sd.log_message("hello", None);
    sd.clear_logs();
    let second = sd.take_ops();
    assert_eq!(second.len(), 3);
    assert!(sd.take_ops().is_empty());
    let users = carry_out(&first, FileNameEnum::Users, Some(before));
    let users = carry_out(&second, FileNameEnum::Users, users);
    assert_eq!(users, Some(b"6:Ann\n".to_vec()));
    assert_eq!(carry_out(&second, FileNameEnum::Log, None), None);
    assert_eq!(sd.read(FileNameEnum::Users, None), "6:Ann\n");
}
