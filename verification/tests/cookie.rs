use laser_lockdown::cookie::find_session;

fn session(header: &str) -> Option<String> {
    let chars: Vec<char> = header.chars().collect();
    find_session(&chars).map(|t| t.into_iter().collect())
}

#[test]
fn session_alone() {
    assert_eq!(session("session=abc"), Some("abc".to_string()));
    assert_eq!(session("session="), Some(String::new()));
}

#[test]
fn session_among_others() {
    assert_eq!(session("theme=dark; session=abc; lang=en"), Some("abc".to_string()));
    assert_eq!(session("session=abc;lang=en"), Some("abc".to_string()));
    assert_eq!(session("a=1;b=2;session=x y"), Some("x y".to_string()));
}

#[test]
fn first_session_counts() {
    assert_eq!(session("session=one; session=two"), Some("one".to_string()));
}

#[test]
fn white_space_is_trimmed() {
    assert_eq!(session(" \t session=abc \u{a0}\u{3000}"), Some("abc".to_string()));
    assert_eq!(session("\u{2003}session=abc\u{85}; x"), Some("abc".to_string()));
    assert_eq!(session("\u{200b}session=abc"), None);
}

#[test]
fn no_session() {
    assert_eq!(session(""), None);
    assert_eq!(session(";;"), None);
    assert_eq!(session("sessions=abc"), None);
    assert_eq!(session("Session=abc"), None);
    assert_eq!(session("session =abc"), None);
    assert_eq!(session("xsession=abc"), None);
}
