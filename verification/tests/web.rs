use laser_lockdown::net::Reply;
use laser_lockdown::signals::Command;
use laser_lockdown::web::{
    add_user, clear_logs, clear_users, get_logs, get_users, login_old, logout, remove_user,
    reset_password, update_user, valid_user, AppState, Authenticated, RemoveUserRequest,
    ResetPasswordRequest, User, UserResponse,
};

fn state() -> AppState {
    let mut users: heapless::Vec<User, 32> = heapless::Vec::new();
    for (id, name) in [(1, "Ann"), (2, "Bob"), (3, "Cid")] {
        assert!(users.push(User { id, name: name.to_string() }).is_ok());
    }
    AppState {
        users,
        logs: "hello\n".to_string(),
        password_hash: [7; 32],
        password_salt: [3; 16],
        session_token: Some("abc".to_string()),
    }
}

fn rows(state: &AppState) -> Vec<(u32, String)> {
    get_users(state).into_iter().map(|u| (u.id, u.name)).collect()
}

fn reset(new_password: &str) -> ResetPasswordRequest {
    ResetPasswordRequest { current: "old".to_string(), new_password: new_password.to_string() }
}

#[test]
fn script_with_the_token_passes() {
    let s = state();
    let good = Some(b"session=abc".as_slice());
    assert_eq!(Authenticated::from_request_parts(&s, good), Ok(Authenticated));
    let bad = Some(b"session=abd".as_slice());
    assert_eq!(Authenticated::from_request_parts(&s, bad), Err(401));
    assert_eq!(Authenticated::from_request_parts(&s, None), Err(401));
}

#[test]
fn members_are_looked_up() {
    let s = state();
    assert!(valid_user(&s, 1));
    assert!(valid_user(&s, 3));
    assert!(!valid_user(&s, 4));
}

#[test]
fn script_logs_in() {
    let mut s = state();
    let reply = login_old(&mut s, &[7; 32], &[0xcd; 32]);
    let token = "cd".repeat(32);
    assert_eq!(s.session_token, Some(token.clone()));
    let expected = format!("session={}; Path=/; HttpOnly; SameSite=Strict", token);
    assert!(matches!(reply, Reply::Empty { status: 200, header, value }
        if header == "Set-Cookie" && value == expected));
    assert_eq!(s.password_hash, [7; 32]);
}

#[test]
fn script_with_a_wrong_password_is_refused() {
    let mut s = state();
    let reply = login_old(&mut s, &[8; 32], &[0xcd; 32]);
    assert!(matches!(reply, Reply::Empty { status: 401, .. }));
    assert_eq!(s.session_token.as_deref(), Some("abc"));
}

#[test]
fn script_logs_out() {
    let mut s = state();
    let reply = logout(&mut s);
    assert_eq!(s.session_token, None);
    assert!(matches!(reply, Reply::Empty { status: 200, value, .. }
        if value.starts_with("session=deleted; Max-Age=0;")));
    assert_eq!(rows(&s).len(), 3);
}

#[test]
fn short_password_is_refused() {
    let mut s = state();
    let (status, command) = reset_password(&mut s, reset("1234567"), [9; 16], [9; 32]);
    assert_eq!(status, 400);
    assert!(command.is_none());
    assert_eq!(s.password_hash, [7; 32]);
    assert_eq!(s.password_salt, [3; 16]);
}

#[test]
fn long_password_is_set() {
    let mut s = state();
    let (status, command) = reset_password(&mut s, reset("12345678"), [9; 16], [9; 32]);
    assert_eq!(status, 200);
    assert!(matches!(command, Some(Command::SetPassword { password }) if password == "12345678"));
    assert_eq!(s.password_hash, [9; 32]);
    assert_eq!(s.password_salt, [9; 16]);
    let (status, _) = reset_password(&mut s, reset("éééé"), [1; 16], [1; 32]);
    assert_eq!(status, 200);
}

#[test]
fn script_asks_for_add_mode() {
    let (status, command) = add_user();
    assert_eq!(status, 200);
    assert!(matches!(command, Command::AddUserMode));
}

#[test]
fn member_gets_a_new_name() {
    let mut s = state();
    let body = UserResponse { id: 2, name: "Ben".to_string() };
    let (status, command) = update_user(&mut s, body);
    assert_eq!(status, 200);
    assert!(matches!(command, Some(Command::UpdateUser { id: 2, name }) if name == "Ben"));
    assert_eq!(rows(&s)[1], (2, "Ben".to_string()));
    let (status, command) = update_user(&mut s, UserResponse { id: 2, name: "Ben".to_string() });
    assert_eq!(status, 200);
    assert!(command.is_none());
    let (status, command) = update_user(&mut s, UserResponse { id: 9, name: "Eve".to_string() });
    assert_eq!(status, 200);
    assert!(command.is_none());
    assert_eq!(rows(&s).len(), 3);
}

#[test]
fn member_is_removed() {
    let mut s = state();
    let (status, command) = remove_user(&mut s, RemoveUserRequest { id: 1 });
    assert_eq!(status, 200);
    assert!(matches!(command, Some(Command::RemoveUser { id: 1 })));
    assert_eq!(rows(&s), vec![(3, "Cid".to_string()), (2, "Bob".to_string())]);
    let (status, command) = remove_user(&mut s, RemoveUserRequest { id: 1 });
    assert_eq!(status, 404);
    assert!(command.is_none());
}

#[test]
fn all_members_are_removed() {
    let mut s = state();
    let (status, command) = clear_users(&mut s);
    assert_eq!(status, 200);
    assert!(matches!(command, Command::RemoveAllUsers));
    assert!(rows(&s).is_empty());
    assert_eq!(s.logs, "hello\n");
}

#[test]
fn log_of_the_panel() {
    let mut s = state();
    assert_eq!(get_logs(&s).logs, "hello\n");
    s.logs = format!("a{}", "é".repeat(4096));
    assert_eq!(get_logs(&s).logs, "é".repeat(4096));
    let (status, command) = clear_logs(&mut s);
    assert_eq!(status, 200);
    assert!(matches!(command, Command::ClearLog));
    assert_eq!(get_logs(&s).logs, "");
    assert_eq!(rows(&s).len(), 3);
}
