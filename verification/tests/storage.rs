use laser_lockdown::door::{AddMode, Door, DoorAction, DoorEvent, DoorNeed};
use laser_lockdown::hashing::hex_text;
use laser_lockdown::net::{
    login, remove_user, update_user, AuthenticatedUserID, AuthenticatedUserInfo, UserID, UserInfo,
};
use laser_lockdown::sd::{CardOp, FileNameEnum, SdStorage};
use laser_lockdown::signals::Command;
use laser_lockdown::storage::{execute, load_caches, required, Need, Supply};

fn card(users: &str) -> SdStorage {
    SdStorage::new(None, Some(users.as_bytes().to_vec()), None, None)
}

fn run(sd: &mut SdStorage, command: Command, supply: Supply) -> Option<bool> {
    let mut users: heapless::Vec<UserInfo, 32> = heapless::Vec::new();
    execute(sd, &mut users, &mut String::new(), &mut AddMode::new(), command, supply)
}

fn on_list(
    sd: &mut SdStorage,
    users: &mut heapless::Vec<UserInfo, 32>,
    command: Command,
    supply: Supply,
) -> Option<bool> {
    execute(sd, users, &mut String::new(), &mut AddMode::new(), command, supply)
}

fn known(sd: &mut SdStorage, users: &mut heapless::Vec<UserInfo, 32>, id: u64) -> bool {
    on_list(sd, users, Command::IsUser { id }, Supply::Nothing).unwrap()
}

fn users(sd: &SdStorage) -> Vec<(u64, String)> {
    load_caches(sd).users.iter().map(|u| (u.id, u.name.clone())).collect()
}

#[test]
fn needs_of_the_commands() {
    assert!(matches!(required(&Command::ClearLog), Need::Nothing));
    assert!(matches!(required(&Command::RemoveAllUsers), Need::Nothing));
    assert!(matches!(required(&Command::IsUser { id: 1 }), Need::Nothing));
    assert!(matches!(required(&Command::AddUserMode), Need::Now));
    assert!(matches!(required(&Command::AddUser { id: 1 }), Need::HashedId { id: 1 }));
    assert!(matches!(required(&Command::RemoveUser { id: 2 }), Need::Nothing));
    let update = Command::UpdateUser { id: 3, name: "Ann".to_string() };
    assert!(matches!(required(&update), Need::Nothing));
    let set = Command::SetPassword { password: "pw".to_string() };
    assert!(matches!(required(&set), Need::HashedPassword { password } if password == "pw"));
    assert!(matches!(required(&Command::LogUser { id: 1 }), Need::Stamp));
}

#[test]
fn caches_are_filled_from_the_card() {
    let sd = SdStorage::new(
        Some(b"hello\n".to_vec()),
        Some(b"5:Ann\n6:Bob\n".to_vec()),
        Some("0a".repeat(32).into_bytes()),
        None,
    );
    let c = load_caches(&sd);
    assert_eq!(c.logs, "hello\n");
    assert_eq!(c.password, Some([10; 32]));
    assert_eq!(users(&sd), vec![(5, "Ann".to_string()), (6, "Bob".to_string())]);
}

#[test]
fn caches_of_an_empty_card() {
    let c = load_caches(&SdStorage::new(None, None, None, None));
    assert_eq!(c.logs, "");
    assert_eq!(c.password, None);
    assert!(c.users.is_empty());
}

#[test]
fn add_mode_is_enabled() {
    let mut sd = card("");
    let mut mode = AddMode::new();
    let answer = execute(
        &mut sd,
        &mut heapless::Vec::new(),
        &mut String::new(),
        &mut mode,
        Command::AddUserMode,
        Supply::Now { now: 9 },
    );
    assert_eq!(answer, None);
    assert_eq!(mode, AddMode { enabled: true, enabled_at: 9 });
    assert!(sd.take_ops().is_empty());
}

#[test]
fn added_user_is_known_after_a_restart() {
    let mut sd = card("5:Ann\n");
    assert_eq!(run(&mut sd, Command::AddUser { id: 1 }, Supply::HashedId { id: 77 }), None);
    assert_eq!(users(&sd), vec![(5, "Ann".to_string()), (77, "NULL".to_string())]);
}

#[test]
fn removed_user_is_unknown_after_a_restart() {
    let mut sd = card("5:Ann\n77:NULL\n6:Bob\n");
    assert_eq!(run(&mut sd, Command::RemoveUser { id: 77 }, Supply::Nothing), None);
    assert_eq!(users(&sd), vec![(5, "Ann".to_string()), (6, "Bob".to_string())]);
}

#[test]
fn renamed_user_is_listed_under_the_new_name() {
    let mut sd = card("5:Ann\n77:NULL\n");
    let update = Command::UpdateUser { id: 77, name: "Cid".to_string() };
    assert_eq!(run(&mut sd, update, Supply::Nothing), None);
    assert_eq!(users(&sd), vec![(5, "Ann".to_string()), (77, "Cid".to_string())]);
    sd.take_ops();
    run(&mut sd, Command::UpdateUser { id: 78, name: "Cid".to_string() }, Supply::Nothing);
    assert!(sd.take_ops().is_empty());
}

#[test]
fn all_users_are_removed() {
    let mut sd = card("5:Ann\n");
    run(&mut sd, Command::RemoveAllUsers, Supply::Nothing);
    assert!(users(&sd).is_empty());
}

#[test]
fn users_are_looked_up_in_the_list() {
    let mut sd = card("5:Ann\n");
    let mut list = load_caches(&sd).users;
    assert!(known(&mut sd, &mut list, 5));
    assert!(!known(&mut sd, &mut list, 6));
    assert!(sd.take_ops().is_empty());
}

#[test]
fn added_user_is_known_at_once() {
    let mut sd = card("5:Ann\n");
    let mut list = load_caches(&sd).users;
    on_list(&mut sd, &mut list, Command::AddUser { id: 1 }, Supply::HashedId { id: 77 });
    assert!(known(&mut sd, &mut list, 77));
    assert_eq!(list[1].name, "NULL");
    on_list(&mut sd, &mut list, Command::RemoveUser { id: 5 }, Supply::Nothing);
    assert!(!known(&mut sd, &mut list, 5));
    assert!(known(&mut sd, &mut list, 77));
    on_list(&mut sd, &mut list, Command::RemoveAllUsers, Supply::Nothing);
    assert!(!known(&mut sd, &mut list, 77));
}

#[test]
fn full_list_takes_nobody() {
    let db: String = (0..32).map(|i| format!("{}:x\n", i)).collect();
    let mut sd = card(&db);
    let mut list = load_caches(&sd).users;
    on_list(&mut sd, &mut list, Command::AddUser { id: 1 }, Supply::HashedId { id: 77 });
    assert_eq!(list.len(), 32);
    assert!(!known(&mut sd, &mut list, 77));
}

#[test]
fn user_removed_in_the_panel_stays_removed() {
    let mut sd = card("5:Ann\n6:Bob\n5:Eve\n");
    let mut list = load_caches(&sd).users;
    let request = AuthenticatedUserID { body: UserID { id: 5 } };
    let (_, command) = remove_user(request, &mut list);
    on_list(&mut sd, &mut list, command.unwrap(), Supply::Nothing);
    assert!(!known(&mut sd, &mut list, 5));
    assert!(known(&mut sd, &mut list, 6));
    assert!(!sd.user_present(5));
    assert_eq!(users(&sd), vec![(6, "Bob".to_string())]);
}

#[test]
fn user_renamed_in_the_panel_keeps_the_name() {
    let mut sd = card("5:Ann\n6:Bob\n");
    let mut list = load_caches(&sd).users;
    let body = UserInfo { id: 6, name: "Ben".to_string() };
    let (_, command) = update_user(AuthenticatedUserInfo { body }, &mut list);
    on_list(&mut sd, &mut list, command.unwrap(), Supply::Nothing);
    assert_eq!(users(&sd), vec![(5, "Ann".to_string()), (6, "Ben".to_string())]);
    assert_eq!(list[1].name, "Ben");
}

#[test]
fn password_is_written_once_and_hashed() {
    let mut sd = card("");
    let set = Command::SetPassword { password: "pw".to_string() };
    run(&mut sd, set, Supply::HashedPassword { hash: [1; 32] });
    let ops = sd.take_ops();
    assert_eq!(ops.len(), 1);
    let expected = "01".repeat(32).into_bytes();
    assert!(matches!(&ops[0], CardOp::Write { file: FileNameEnum::Password, data, overwrite: true }
        if *data == expected));
}

#[test]
fn panel_shows_the_log_as_it_is() {
    let mut sd = card("");
    let mut logs = "old\n".to_string();
    let mut list = heapless::Vec::new();
    let mut mode = AddMode::new();
    let log = Command::LogUser { id: 5 };
    let stamp = Supply::Stamp { response: None };
    execute(&mut sd, &mut list, &mut logs, &mut mode, log, stamp);
    assert_eq!(logs, " Accessed: 5\n");
    let ask = Command::IsUser { id: 5 };
    execute(&mut sd, &mut list, &mut logs, &mut mode, ask, Supply::Nothing);
    assert_eq!(logs, " Accessed: 5\n");
    execute(&mut sd, &mut list, &mut logs, &mut mode, Command::ClearLog, Supply::Nothing);
    assert_eq!(logs, "");
}

#[test]
fn access_is_logged() {
    let mut sd = card("5:Ann\n");
    let stamp = Supply::Stamp { response: Some("11/14/23 17:13 ".to_string()) };
    run(&mut sd, Command::LogUser { id: 5 }, stamp);
    run(&mut sd, Command::LogUser { id: 6 }, Supply::Stamp { response: None });
    assert_eq!(sd.read_logs(), "11/14/23 17:13  Accessed: 5\n Accessed: 6\n");
    assert_eq!(sd.read(FileNameEnum::Users, None), "5:Ann\n");
    run(&mut sd, Command::ClearLog, Supply::Nothing);
    assert_eq!(sd.read_logs(), "");
}

#[test]
fn password_is_right_after_a_restart() {
    let mut sd = card("");
    let hash = [0x5a; 32];
    let set = Command::SetPassword { password: "pw".to_string() };
    run(&mut sd, set, Supply::HashedPassword { hash });
    assert_eq!(sd.get_password(), hex_text(&hash));
    let stored = load_caches(&sd).password;
    let mut session = None;
    login(&mut session, &stored, &hash, &[1; 32]);
    assert!(session.is_some());
}

#[test]
fn added_card_opens_the_door() {
    let hash = |id: u32| id as u64 * 7 + 1;
    let mut sd = card("5:Ann\n");
    let mut list = load_caches(&sd).users;
    let mut mode = AddMode::new();
    let mut door = Door::new().0;
    mode.enable(0);
    let code = 0x12_0042;
    let actions = door.step(&mut mode, DoorEvent::Card { code, now: 1 });
    let added = match &actions[0] {
        DoorAction::Send { command } => command.clone(),
        other => panic!("{:?}", other),
    };
    let id = match required(&added) {
        Need::HashedId { id } => id,
        other => panic!("{:?}", other),
    };
    assert_eq!(id, 0x42);
    on_list(&mut sd, &mut list, added, Supply::HashedId { id: hash(id) });
    door.step(&mut mode, DoorEvent::Card { code, now: 2 });
    door.step(&mut mode, DoorEvent::Sensor { high: true });
    assert_eq!(door.need(), DoorNeed::Hash { id: 0x42 });
    let question = door.step(&mut mode, DoorEvent::Hashed { id: hash(0x42) });
    let asked = match &question[0] {
        DoorAction::Send { command } => command.clone(),
        other => panic!("{:?}", other),
    };
    let mut restarted = load_caches(&sd).users;
    assert_eq!(on_list(&mut sd, &mut restarted, asked.clone(), Supply::Nothing), Some(true));
    assert_eq!(on_list(&mut sd, &mut list, asked, Supply::Nothing), Some(true));
    let actions = door.step(&mut mode, DoorEvent::Answer { known: true });
    assert!(matches!(actions[1], DoorAction::Opener { on: true }));
}

#[test]
fn unknown_card_does_not_open_the_door() {
    let mut sd = card("5:Ann\n");
    let mut list = load_caches(&sd).users;
    assert!(!known(&mut sd, &mut list, 6));
    let mut mode = AddMode::new();
    let mut door = Door::new().0;
    door.step(&mut mode, DoorEvent::Card { code: 1, now: 0 });
    door.step(&mut mode, DoorEvent::Sensor { high: true });
    door.step(&mut mode, DoorEvent::Hashed { id: 6 });
    let actions = door.step(&mut mode, DoorEvent::Answer { known: false });
    assert!(!actions.iter().any(|a| matches!(a, DoorAction::Opener { .. })));
}

#[test]
fn password_and_card_id_are_not_stored() {
    let mut one = card("");
    let mut two = card("");
    run(
        &mut one,
        Command::SetPassword { password: "first".to_string() },
        Supply::HashedPassword { hash: [1; 32] },
    );
    run(
        &mut two,
        Command::SetPassword { password: "second".to_string() },
        Supply::HashedPassword { hash: [1; 32] },
    );
    run(&mut one, Command::AddUser { id: 3 }, Supply::HashedId { id: 9 });
    run(&mut two, Command::AddUser { id: 4 }, Supply::HashedId { id: 9 });
    assert_eq!(one.get_password(), two.get_password());
    assert_eq!(one.read(FileNameEnum::Users, None), two.read(FileNameEnum::Users, None));
}
