use laser_lockdown::text::{from_chars, to_chars};
use laser_lockdown::userdb::{
    check_names, drop_user, find_user, make_line, read_users, rename_user,
};

const DB: &str = "12:Ann\n34:NULL\n56:Bob: the builder\n";

fn listed(text: &str) -> Vec<(u64, String)> {
    read_users(&to_chars(text)).iter().map(|u| (u.id, u.name.clone())).collect()
}

fn dropped(text: &str, id: u64) -> String {
    from_chars(&drop_user(&to_chars(text), id))
}

fn renamed(text: &str, id: u64, name: &str) -> (String, bool) {
    let (t, found) = rename_user(&to_chars(text), id, &to_chars(name));
    (from_chars(&t), found)
}

fn found(text: &str, id: u64) -> bool {
    find_user(&to_chars(text), id)
}

#[test]
fn line_of_a_user() {
    assert_eq!(from_chars(&make_line(12, &to_chars("Ann"))), "12:Ann");
    assert_eq!(from_chars(&make_line(u64::MAX, &[])), "18446744073709551615:");
}

#[test]
fn users_are_found_by_their_id() {
    assert!(found(DB, 12));
    assert!(found(DB, 34));
    assert!(found(DB, 56));
    assert!(!found(DB, 1));
    assert!(!found(DB, 123));
    assert!(!found("", 1));
    assert!(!found("12\n", 12));
    assert!(!found("012:Ann\n", 12));
    assert!(found("12:", 12));
}

#[test]
fn removed_user_is_gone() {
    assert_eq!(dropped(DB, 34), "12:Ann\n56:Bob: the builder\n");
    assert_eq!(dropped(DB, 99), DB);
    assert_eq!(dropped("12:Ann\n12:Eve\n", 12), "");
    assert!(!found(&dropped(DB, 12), 12));
    assert!(found(&dropped(DB, 12), 56));
}

#[test]
fn lines_without_a_user_are_dropped() {
    assert_eq!(dropped("rubbish\n12:Ann\r\n\n34:Bob", 12), "34:Bob\n");
    assert_eq!(renamed("rubbish\n12:Ann\n", 12, "Amy"), ("12:Amy\n".to_string(), true));
}

#[test]
fn renamed_user_keeps_the_id() {
    assert_eq!(
        renamed(DB, 34, "Cid"),
        ("12:Ann\n34:Cid\n56:Bob: the builder\n".to_string(), true)
    );
    assert!(found(&renamed(DB, 34, "Cid").0, 34));
    assert!(!renamed(DB, 99, "Cid").1);
}

#[test]
fn added_user_is_found() {
    let mut db = to_chars(DB);
    db.extend(make_line(78, &to_chars("Dee")));
    db.push('\n');
    let db = from_chars(&db);
    assert!(found(&db, 78));
    assert!(found(&db, 12));
    assert_eq!(listed(&db).len(), 4);
}

#[test]
fn users_are_listed_in_order() {
    assert_eq!(
        listed(DB),
        vec![
            (12, "Ann".to_string()),
            (34, "NULL".to_string()),
            (56, "Bob: the builder".to_string()),
        ]
    );
    assert_eq!(listed("x:Ann\n:Bob\n7:Cid\nrubbish\n"), vec![(7, "Cid".to_string())]);
    assert_eq!(listed("+7:Cid\n"), vec![(7, "Cid".to_string())]);
    assert_eq!(listed("18446744073709551616:Cid\n"), vec![]);
    assert_eq!(listed(""), vec![]);
}

#[test]
fn first_32_users_are_listed() {
    let mut db = String::new();
    for i in 0..40 {
        db.push_str(&format!("{}:user {}\n", i, i));
    }
    let users = listed(&db);
    assert_eq!(users.len(), 32);
    assert_eq!(users[31], (31, "user 31".to_string()));
}

#[test]
fn names_of_up_to_32_bytes_fit() {
    assert!(check_names(&to_chars(&format!("1:{}\n", "x".repeat(32)))));
    assert!(!check_names(&to_chars(&format!("1:{}\n", "x".repeat(33)))));
    assert!(check_names(&to_chars(&format!("1:{}\n", "é".repeat(16)))));
    assert!(!check_names(&to_chars(&format!("1:{}\n", "é".repeat(17)))));
    assert!(check_names(&to_chars(&format!("no id:{}\n", "x".repeat(33)))));
    assert!(check_names(&to_chars("")));
}
