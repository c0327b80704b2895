use laser_lockdown::net::{
    add_user, change_password, clear_logs, generate_session_token, get_logs, get_users, login,
    logout, remove_user, stored_password, update_user, valid_user, AuthError,
    AuthenticatedLoginRequest, AuthenticatedUser, AuthenticatedUserID, AuthenticatedUserInfo,
    LoginRequest, Reply, UserID, UserInfo, MAX_NAME, WEB_PORT,
};
use laser_lockdown::signals::Command;

fn user(id: u64, name: &str) -> UserInfo {
    UserInfo { id, name: name.to_string() }
}

fn list(users: &[(u64, &str)]) -> heapless::Vec<UserInfo, 32> {
    let mut v = heapless::Vec::new();
    for (id, name) in users {
        assert!(v.push(user(*id, name)).is_ok());
    }
    v
}

fn rows(users: &heapless::Vec<UserInfo, 32>) -> Vec<(u64, String)> {
    users.iter().map(|u| (u.id, u.name.clone())).collect()
}

fn is_home(r: &Reply) -> bool {
    matches!(r, Reply::Redirect { to } if to == "/")
}

fn is_unauthorized(r: &Reply) -> bool {
    matches!(r, Reply::Empty { status: 401, header, value }
        if header == "Content-Type" && value == "text/plain")
}

fn cookie_of(r: &Reply) -> String {
    match r {
        Reply::Empty { status: 200, header, value } if header == "Set-Cookie" => value.clone(),
        _ => panic!("{:?}", r),
    }
}

fn check(cookie: Option<&str>, session: Option<&str>) -> Result<AuthenticatedUser, AuthError> {
    AuthenticatedUser::from_request(
        cookie.map(|c| c.as_bytes()),
        &session.map(|s| s.to_string()),
    )
}

#[test]
fn web_port_is_http() {
    assert_eq!(WEB_PORT, 80);
    assert_eq!(MAX_NAME, 32);
}

#[test]
fn request_with_the_token_passes() {
    assert_eq!(check(Some("session=abc"), Some("abc")), Ok(AuthenticatedUser));
    assert_eq!(check(Some("x=1; session=abc"), Some("abc")), Ok(AuthenticatedUser));
}

#[test]
fn request_without_cookie_is_refused() {
    assert_eq!(check(None, Some("abc")), Err(AuthError::MissingCookie));
}

#[test]
fn cookie_that_is_not_utf8_is_refused() {
    let r = AuthenticatedUser::from_request(
        Some(b"session=\xff".as_slice()),
        &Some("abc".to_string()),
    );
    assert_eq!(r, Err(AuthError::InvalidUtf8));
}

#[test]
fn cookie_without_session_is_refused() {
    assert_eq!(check(Some("x=1"), Some("abc")), Err(AuthError::NoSession));
}

#[test]
fn other_token_is_refused() {
    assert_eq!(check(Some("session=abd"), Some("abc")), Err(AuthError::TokenMismatch));
    assert_eq!(check(Some("session=abc"), None), Err(AuthError::TokenMismatch));
    assert_eq!(check(Some("session="), None), Err(AuthError::TokenMismatch));
}

#[test]
fn body_is_read_behind_the_token() {
    let session = Some("abc".to_string());
    let good = Some(b"session=abc".as_slice());
    let bad = Some(b"session=abd".as_slice());
    let r = AuthenticatedUserInfo::from_request(good, &session, Some(user(4, "Ann")));
    assert!(matches!(r, Ok(a) if a.body.id == 4 && a.body.name == "Ann"));
    let r = AuthenticatedUserInfo::from_request(good, &session, None);
    assert_eq!(r.err(), Some(AuthError::FormError));
    let r = AuthenticatedUserInfo::from_request(bad, &session, None);
    assert_eq!(r.err(), Some(AuthError::TokenMismatch));
    let r = AuthenticatedUserID::from_request(good, &session, Some(UserID { id: 4 }));
    assert_eq!(r, Ok(AuthenticatedUserID { body: UserID { id: 4 } }));
    let r = AuthenticatedUserID::from_request(good, &session, None);
    assert_eq!(r, Err(AuthError::FormError));
    let r = AuthenticatedUserID::from_request(None, &session, Some(UserID { id: 4 }));
    assert_eq!(r, Err(AuthError::MissingCookie));
    let request = LoginRequest { password: "pw".to_string() };
    let r = AuthenticatedLoginRequest::from_request(good, &session, Some(request));
    assert!(matches!(r, Ok(a) if a.body.password == "pw"));
    let r = AuthenticatedLoginRequest::from_request(good, &session, None);
    assert_eq!(r.err(), Some(AuthError::FormError));
}

#[test]
fn errors_tell_why() {
    assert_eq!(AuthError::MissingCookie.message(), "Missing cookie");
    assert_eq!(AuthError::InvalidUtf8.message(), "Invalid UTF-8 in cookie");
    assert_eq!(AuthError::NoSession.message(), "No session token found in cookie");
    assert_eq!(AuthError::TokenMismatch.message(), "Session token does not match");
    assert_eq!(AuthError::FormError.message(), "Form Error");
    assert_eq!(AuthError::FormError.status_code(), 401);
    assert!(is_unauthorized(&AuthError::NoSession.reply()));
}

#[test]
fn right_password_opens_a_session() {
    let mut session = None;
    let reply = login(&mut session, &Some([7; 32]), &[7; 32], &[0xab; 32]);
    let token = "ab".repeat(32);
    assert_eq!(session, Some(token.clone()));
    assert_eq!(
        cookie_of(&reply),
        format!("session={}; Path=/; HttpOnly; SameSite=Strict", token)
    );
    assert!(cookie_of(&reply).len() <= 128);
    let sent = format!("session={}", token);
    assert_eq!(check(Some(&sent), session.as_deref()), Ok(AuthenticatedUser));
    let sent = format!("theme=dark; session={}; lang=en", token);
    assert_eq!(check(Some(&sent), session.as_deref()), Ok(AuthenticatedUser));
}

#[test]
fn wrong_password_changes_nothing() {
    let mut session = Some("abc".to_string());
    let mut wrong = [7; 32];
    wrong[31] = 8;
    let reply = login(&mut session, &Some([7; 32]), &wrong, &[0xab; 32]);
    assert!(is_unauthorized(&reply));
    assert_eq!(session.as_deref(), Some("abc"));
    let reply = login(&mut session, &None, &[0; 32], &[0xab; 32]);
    assert!(is_unauthorized(&reply));
    assert_eq!(session.as_deref(), Some("abc"));
}

#[test]
fn new_login_ends_the_old_session() {
    let mut session = None;
    login(&mut session, &Some([7; 32]), &[7; 32], &[1; 32]);
    let first = format!("session={}", session.clone().unwrap());
    login(&mut session, &Some([7; 32]), &[7; 32], &[2; 32]);
    assert_eq!(check(Some(&first), session.as_deref()), Err(AuthError::TokenMismatch));
}

#[test]
fn logout_ends_the_session() {
    let mut session = Some("abc".to_string());
    let reply = logout(AuthenticatedUser, &mut session);
    assert_eq!(session, None);
    assert_eq!(
        cookie_of(&reply),
        "session=deleted; Max-Age=0; Expires=Thu, 01 Jan 1970 00:00:00 GMT; Path=/; HttpOnly; SameSite=Strict"
    );
    assert!(check(Some("session=abc"), session.as_deref()).is_err());
    assert!(check(Some("session=deleted"), session.as_deref()).is_err());
}

#[test]
fn session_token_is_hexadecimal() {
    let mut bytes = [0u8; 32];
    bytes[0] = 0x0f;
    bytes[31] = 0xf0;
    let token = generate_session_token(&bytes);
    assert_eq!(token.len(), 64);
    assert_eq!(token, format!("0f{}f0", "0".repeat(60)));
}

#[test]
fn changed_password_logs_in() {
    let mut stored = Some([7; 32]);
    let request = AuthenticatedLoginRequest {
        body: LoginRequest { password: "new".to_string() },
    };
    let (reply, command) = change_password(request, &mut stored, [9; 32]);
    assert!(is_home(&reply));
    assert!(matches!(command, Command::SetPassword { password } if password == "new"));
    assert_eq!(stored, Some([9; 32]));
    let mut session = None;
    login(&mut session, &stored, &[9; 32], &[1; 32]);
    assert!(session.is_some());
    let mut session = None;
    login(&mut session, &stored, &[7; 32], &[1; 32]);
    assert!(session.is_none());
}

#[test]
fn password_is_read_from_its_text() {
    assert_eq!(stored_password(&"0a".repeat(32)), Some([10; 32]));
    assert_eq!(stored_password(&String::new()), None);
    assert_eq!(stored_password(&"0g".repeat(32)), None);
}

#[test]
fn log_is_shown_and_cleared() {
    let mut logs = "one\ntwo\n".to_string();
    assert_eq!(get_logs(AuthenticatedUser, &logs), "one\ntwo\n");
    let (reply, command) = clear_logs(AuthenticatedUser, &mut logs);
    assert!(is_home(&reply));
    assert!(matches!(command, Command::ClearLog));
    assert_eq!(logs, "");
}

#[test]
fn add_user_asks_for_add_mode() {
    let (reply, command) = add_user(AuthenticatedUser);
    assert!(is_home(&reply));
    assert!(matches!(command, Command::AddUserMode));
}

#[test]
fn update_gives_the_first_user_a_new_name() {
    let mut users = list(&[(1, "Ann"), (2, "Bob"), (2, "Bea")]);
    let request = AuthenticatedUserInfo { body: user(2, "Ben") };
    let (reply, command) = update_user(request, &mut users);
    assert!(is_home(&reply));
    assert!(matches!(command, Some(Command::UpdateUser { id: 2, name }) if name == "Ben"));
    assert_eq!(
        rows(&users),
        vec![(1, "Ann".to_string()), (2, "Ben".to_string()), (2, "Bea".to_string())]
    );
}

#[test]
fn update_with_the_same_name_writes_nothing() {
    let mut users = list(&[(1, "Ann")]);
    let (reply, command) = update_user(
        AuthenticatedUserInfo { body: user(1, "Ann") },
        &mut users,
    );
    assert!(is_home(&reply));
    assert!(command.is_none());
    assert_eq!(rows(&users), vec![(1, "Ann".to_string())]);
}

#[test]
fn update_of_an_unknown_user_does_nothing() {
    let mut users = list(&[(1, "Ann")]);
    let (reply, command) = update_user(
        AuthenticatedUserInfo { body: user(3, "Eve") },
        &mut users,
    );
    assert!(is_home(&reply));
    assert!(command.is_none());
    assert_eq!(rows(&users), vec![(1, "Ann".to_string())]);
}

#[test]
fn remove_puts_the_last_user_in_the_gap() {
    let mut users = list(&[(1, "Ann"), (2, "Bob"), (3, "Cid")]);
    let request = AuthenticatedUserID { body: UserID { id: 1 } };
    let (reply, command) = remove_user(request, &mut users);
    assert!(is_home(&reply));
    assert!(matches!(command, Some(Command::RemoveUser { id: 1 })));
    assert_eq!(rows(&users), vec![(3, "Cid".to_string()), (2, "Bob".to_string())]);
    assert!(!valid_user(&users, 1));
    assert!(valid_user(&users, 2));
    assert!(valid_user(&users, 3));
    let (_, command) = remove_user(request, &mut users);
    assert!(command.is_none());
    assert_eq!(users.len(), 2);
}

#[test]
fn removing_the_last_user_leaves_none() {
    let mut users = list(&[(1, "Ann")]);
    remove_user(AuthenticatedUserID { body: UserID { id: 1 } }, &mut users);
    assert!(users.is_empty());
    assert!(!valid_user(&users, 1));
}

#[test]
fn users_are_listed() {
    let users = list(&[(1, "Ann"), (2, "Bob")]);
    let shown = get_users(AuthenticatedUser, &users);
    let shown: Vec<(u64, String)> = shown.into_iter().map(|u| (u.id, u.name)).collect();
    assert_eq!(shown, rows(&users));
    assert!(get_users(AuthenticatedUser, &list(&[])).is_empty());
}
