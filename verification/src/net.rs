//! The administration panel: who may use it, and what its requests do.
use crate::cookie::{
    find_session, law_other_cookies_do_not_matter, law_session_before_other_cookies,
    law_session_cookie, law_space_makes_no_difference, plain_token, session_key, session_token, white_space,
};
use crate::hashing::{hex, hex_text, is_hex, law_hex_is_injective, lemma_hex, parse_hash};
use crate::roster::{roster, roster_slice, roster_slice_mut, roster_swap_remove, rows};
use crate::sd::{law_stored_password_is_read_back, password_text, FileNameEnum, Files};
use crate::signals::Command;
use crate::text::{find, from_chars, lemma_find_is, to_chars, utf8_text};
use vstd::prelude::*;
use vstd::utf8::{decode_utf8, encode_utf8, valid_utf8};

verus! {

/// The port of the web server.
pub const WEB_PORT: u16 = 80;

/// How many bytes a user's name may take.
pub const MAX_NAME: usize = 32;

/// A user of the lock: the hashed id of the keycard and a name.
#[derive(Clone, Debug)]
pub struct UserInfo {
    pub id: u64,
    pub name: String,
}

impl View for UserInfo {
    type V = (u64, Seq<char>);

    open spec fn view(&self) -> (u64, Seq<char>) {
        (self.id, self.name@)
    }
}

/// Whether a name is short enough for a user.
pub open spec fn name_fits(name: Seq<char>) -> bool {
    encode_utf8(name).len() <= MAX_NAME
}

/// Names a user by the hashed id.
#[derive(Copy, Clone, Debug, PartialEq, Eq, Structural)]
pub struct UserID {
    pub id: u64,
}

/// A password that somebody entered.
#[derive(Debug)]
pub struct LoginRequest {
    pub password: String,
}

/// A request that carries the session token.
#[derive(Copy, Clone, Debug, PartialEq, Eq, Structural)]
pub struct AuthenticatedUser;

/// A request that carries the session token and a user.
#[derive(Debug)]
pub struct AuthenticatedUserInfo {
    pub body: UserInfo,
}

/// A request that carries the session token and names a user.
#[derive(Copy, Clone, Debug, PartialEq, Eq, Structural)]
pub struct AuthenticatedUserID {
    pub body: UserID,
}

/// A request that carries the session token and a password.
#[derive(Debug)]
pub struct AuthenticatedLoginRequest {
    pub body: LoginRequest,
}

/// Why a request was refused.
#[derive(Copy, Clone, Debug, PartialEq, Eq, Structural)]
pub enum AuthError {
    MissingCookie,
    InvalidUtf8,
    NoSession,
    TokenMismatch,
    FormError,
}

/// The answer to a request.
#[derive(Debug)]
pub enum Reply {
    /// Leads the browser to another page.
    Redirect { to: String },
    /// A status and one header, without a body.
    Empty { status: u16, header: String, value: String },
}

impl Reply {
    /// Whether this is an answer without a body, with the given status and header.
    pub open spec fn is_empty_with(self, s: int, h: Seq<char>, v: Seq<char>) -> bool {
        self matches Reply::Empty { status, header, value } && status == s && header@ == h
            && value@ == v
    }

    /// Whether this leads to the start page.
    pub open spec fn is_home(self) -> bool {
        self matches Reply::Redirect { to } && to@ == "/"@
    }

    /// Whether this says that the request was not authorized.
    pub open spec fn is_unauthorized(self) -> bool {
        self.is_empty_with(401, "Content-Type"@, "text/plain"@)
    }

    fn home() -> (r: Reply)
        ensures
            r.is_home(),
    {
        Reply::Redirect { to: String::from_str("/") }
    }

    fn unauthorized() -> (r: Reply)
        ensures
            r.is_unauthorized(),
    {
        Reply::Empty {
            status: 401,
            header: String::from_str("Content-Type"),
            value: String::from_str("text/plain"),
        }
    }
}

impl AuthError {
    /// What the error says.
    pub open spec fn text(self) -> Seq<char> {
        match self {
            AuthError::MissingCookie => "Missing cookie"@,
            AuthError::InvalidUtf8 => "Invalid UTF-8 in cookie"@,
            AuthError::NoSession => "No session token found in cookie"@,
            AuthError::TokenMismatch => "Session token does not match"@,
            AuthError::FormError => "Form Error"@,
        }
    }

    /// What the error says.
    pub fn message(&self) -> (s: String)
        ensures
            s@ == self.text(),
    {
        match self {
            AuthError::MissingCookie => String::from_str("Missing cookie"),
            AuthError::InvalidUtf8 => String::from_str("Invalid UTF-8 in cookie"),
            AuthError::NoSession => String::from_str("No session token found in cookie"),
            AuthError::TokenMismatch => String::from_str("Session token does not match"),
            AuthError::FormError => String::from_str("Form Error"),
        }
    }

    /// The status of the answer to a refused request.
    pub fn status_code(&self) -> (c: u16)
        ensures
            c == 401,
    {
        401
    }

    /// The answer to a refused request.
    pub fn reply(&self) -> (r: Reply)
        ensures
            r.is_unauthorized(),
    {
        Reply::unauthorized()
    }
}

/// What a stored text holds.
pub open spec fn text_view(s: Option<String>) -> Option<Seq<char>> {
    match s {
        Some(t) => Some(t@),
        None => None,
    }
}

/// What a header holds.
pub open spec fn header_view(h: Option<&[u8]>) -> Option<Seq<u8>> {
    match h {
        Some(b) => Some(b@),
        None => None,
    }
}

/// Whether a request with the given `Cookie` header may pass: its session token has to be the
/// one of the session that is open.
pub open spec fn authorized(cookie: Option<Seq<u8>>, session: Option<Seq<char>>) -> Result<
    (),
    AuthError,
> {
    match cookie {
        None => Err(AuthError::MissingCookie),
        Some(bytes) => if !valid_utf8(bytes) {
            Err(AuthError::InvalidUtf8)
        } else {
            match session_token(decode_utf8(bytes)) {
                None => Err(AuthError::NoSession),
                Some(token) => if session == Some(token) {
                    Ok(())
                } else {
                    Err(AuthError::TokenMismatch)
                },
            }
        },
    }
}

impl AuthenticatedUser {
    /// Checks the `Cookie` header of a request against the open session.
    pub fn from_request(cookie: Option<&[u8]>, session: &Option<String>) -> (r: Result<
        AuthenticatedUser,
        AuthError,
    >)
        ensures
            match r {
                Ok(_) => authorized(header_view(cookie), text_view(*session)) is Ok,
                Err(e) => authorized(header_view(cookie), text_view(*session)) == Err::<(), _>(e),
            },
    {
        let bytes = match cookie {
            Some(b) => b,
            None => {
                return Err(AuthError::MissingCookie);
            },
        };
        let cookie_str = match utf8_text(bytes) {
            Some(s) => s,
            None => {
                return Err(AuthError::InvalidUtf8);
            },
        };
        let chars = to_chars(cookie_str);
        let token = match find_session(chars.as_slice()) {
            Some(t) => from_chars(t.as_slice()),
            None => {
                return Err(AuthError::NoSession);
            },
        };
        match session {
            Some(stored) => {
                if token == *stored {
                    Ok(AuthenticatedUser)
                } else {
                    Err(AuthError::TokenMismatch)
                }
            },
            None => Err(AuthError::TokenMismatch),
        }
    }
}

impl AuthenticatedUserInfo {
    /// Lets a request with a user through that carries the session token. A body that could
    /// not be read is refused.
    pub fn from_request(
        cookie: Option<&[u8]>,
        session: &Option<String>,
        body: Option<UserInfo>,
    ) -> (r: Result<AuthenticatedUserInfo, AuthError>)
        ensures
            match authorized(header_view(cookie), text_view(*session)) {
                Err(e) => r == Err::<AuthenticatedUserInfo, _>(e),
                Ok(_) => match body {
                    Some(b) => r == Ok::<_, AuthError>(AuthenticatedUserInfo { body: b }),
                    None => r == Err::<AuthenticatedUserInfo, _>(AuthError::FormError),
                },
            },
    {
        match AuthenticatedUser::from_request(cookie, session) {
            Err(e) => Err(e),
            Ok(_) => match body {
                Some(body) => Ok(AuthenticatedUserInfo { body }),
                None => Err(AuthError::FormError),
            },
        }
    }
}

impl AuthenticatedUserID {
    /// Lets a request that names a user through that carries the session token. A body that
    /// could not be read is refused.
    pub fn from_request(
        cookie: Option<&[u8]>,
        session: &Option<String>,
        body: Option<UserID>,
    ) -> (r: Result<AuthenticatedUserID, AuthError>)
        ensures
            match authorized(header_view(cookie), text_view(*session)) {
                Err(e) => r == Err::<AuthenticatedUserID, _>(e),
                Ok(_) => match body {
                    Some(b) => r == Ok::<_, AuthError>(AuthenticatedUserID { body: b }),
                    None => r == Err::<AuthenticatedUserID, _>(AuthError::FormError),
                },
            },
    {
        match AuthenticatedUser::from_request(cookie, session) {
            Err(e) => Err(e),
            Ok(_) => match body {
                Some(body) => Ok(AuthenticatedUserID { body }),
                None => Err(AuthError::FormError),
            },
        }
    }
}

impl AuthenticatedLoginRequest {
    /// Lets a request with a password through that carries the session token. A body that
    /// could not be read is refused.
    pub fn from_request(
        cookie: Option<&[u8]>,
        session: &Option<String>,
        body: Option<LoginRequest>,
    ) -> (r: Result<AuthenticatedLoginRequest, AuthError>)
        ensures
            match authorized(header_view(cookie), text_view(*session)) {
                Err(e) => r == Err::<AuthenticatedLoginRequest, _>(e),
                Ok(_) => match body {
                    Some(b) => r == Ok::<_, AuthError>(AuthenticatedLoginRequest { body: b }),
                    None => r == Err::<AuthenticatedLoginRequest, _>(AuthError::FormError),
                },
            },
    {
        match AuthenticatedUser::from_request(cookie, session) {
            Err(e) => Err(e),
            Ok(_) => match body {
                Some(body) => Ok(AuthenticatedLoginRequest { body }),
                None => Err(AuthError::FormError),
            },
        }
    }
}

/// The index of the first user with the given id, or the number of users where there is none.
pub open spec fn position(users: Seq<(u64, Seq<char>)>, id: u64) -> nat
    decreases users.len(),
{
    if users.len() == 0 {
        0
    } else if users[0].0 == id {
        0
    } else {
        1 + position(users.skip(1), id)
    }
}

pub proof fn lemma_position(users: Seq<(u64, Seq<char>)>, id: u64)
    ensures
        position(users, id) <= users.len(),
        position(users, id) < users.len() ==> users[position(users, id) as int].0 == id,
        forall|j: int| 0 <= j < position(users, id) ==> users[j].0 != id,
    decreases users.len(),
{
    if users.len() > 0 && users[0].0 != id {
        lemma_position(users.skip(1), id);
        assert forall|j: int| 0 <= j < position(users, id) implies users[j].0 != id by {
            if j > 0 {
                assert(users.skip(1)[j - 1] == users[j]);
            }
        }
    }
}

fn find_position(users: &[UserInfo], id: u64) -> (i: usize)
    ensures
        i == position(users@.map_values(|u: UserInfo| u@), id),
        i <= users@.len(),
{
    let ghost all = users@.map_values(|u: UserInfo| u@);
    let mut i: usize = 0;
    while i < users.len() && users[i].id != id
        invariant
            i <= users@.len(),
            all == users@.map_values(|u: UserInfo| u@),
            forall|j: int| 0 <= j < i ==> all[j].0 != id,
        decreases users@.len() - i,
    {
        i += 1;
    }
    proof {
        lemma_position(all, id);
        if i < users@.len() {
            assert(all[i as int].0 == id);
        }
    }
    i
}

/// Whether a user is in the list.
pub fn valid_user(users: &heapless::Vec<UserInfo, 32>, id: u64) -> (r: bool)
    ensures
        r == in_list(rows(*users), id),
{
    let s = roster_slice(users);
    let i = find_position(s, id);
    proof {
        lemma_position(rows(*users), id);
        assert(i < s@.len() ==> rows(*users)[i as int].0 == id);
    }
    i < s.len()
}

/// The log that is shown.
pub fn get_logs(_auth: AuthenticatedUser, logs: &String) -> (s: String)
    ensures
        s@ == logs@,
{
    logs.clone()
}

/// Clears the log.
pub fn clear_logs(_auth: AuthenticatedUser, logs: &mut String) -> (r: (Reply, Command))
    ensures
        final(logs)@ == Seq::<char>::empty(),
        r.0.is_home(),
        r.1 == Command::ClearLog,
{
    *logs = String::new();
    (Reply::home(), Command::ClearLog)
}

/// Puts the device into "add mode".
pub fn add_user(_auth: AuthenticatedUser) -> (r: (Reply, Command))
    ensures
        r.0.is_home(),
        r.1 == Command::AddUserMode,
{
    (Reply::home(), Command::AddUserMode)
}

/// The users after one of them was given a new name.
pub open spec fn users_renamed(
    users: Seq<(u64, Seq<char>)>,
    id: u64,
    name: Seq<char>,
) -> Seq<(u64, Seq<char>)> {
    let i = position(users, id) as int;
    if i < users.len() {
        users.update(i, (id, name))
    } else {
        users
    }
}

/// Whether this is what the storage is told of a new name: the first user with the id gets it,
/// where there is one who has another name.
pub open spec fn is_update(
    command: Option<Command>,
    users: Seq<(u64, Seq<char>)>,
    id: u64,
    name: Seq<char>,
) -> bool {
    let i = position(users, id) as int;
    if i < users.len() && users[i].1 != name {
        command matches Some(Command::UpdateUser { id: given, name: new }) && given == id && new@
            == name
    } else {
        command is None
    }
}

/// Gives the user with the id a new name. The card is written only where the name is another
/// one than before.
pub fn update_user(request: AuthenticatedUserInfo, users: &mut heapless::Vec<UserInfo, 32>) -> (r: (
    Reply,
    Option<Command>,
))
    ensures
        r.0.is_home(),
        rows(*final(users)) == users_renamed(
            rows(*old(users)),
            request.body.id,
            request.body.name@,
        ),
        is_update(r.1, rows(*old(users)), request.body.id, request.body.name@),
{
    let body = request.body;
    let ghost before = rows(*users);
    let s = roster_slice(users);
    let i = find_position(s, body.id);
    proof {
        lemma_position(before, body.id);
    }
    if i < s.len() {
        assert(before[i as int] == s@[i as int]@);
        if s[i].name == body.name {
            assert(before.update(i as int, (body.id, body.name@)) =~= before);
            return (Reply::home(), None);
        }
        let name = body.name.clone();
        let s = roster_slice_mut(users);
        s[i].name = body.name;
        assert(rows(*users) =~= before.update(i as int, (body.id, body.name@)));
        return (Reply::home(), Some(Command::UpdateUser { id: body.id, name }));
    }
    (Reply::home(), None)
}

/// The users after one of them was removed: the last one takes the place.
pub open spec fn users_removed(users: Seq<(u64, Seq<char>)>, id: u64) -> Seq<(u64, Seq<char>)> {
    let i = position(users, id) as int;
    if i < users.len() {
        users.update(i, users.last()).drop_last()
    } else {
        users
    }
}

/// What the storage is told of a user who is removed: nothing where there is no such user.
pub open spec fn removal(users: Seq<(u64, Seq<char>)>, id: u64) -> Option<Command> {
    if position(users, id) < users.len() {
        Some(Command::RemoveUser { id })
    } else {
        None
    }
}

/// Removes the user with the id.
pub fn remove_user(request: AuthenticatedUserID, users: &mut heapless::Vec<UserInfo, 32>) -> (r: (
    Reply,
    Option<Command>,
))
    ensures
        r.0.is_home(),
        rows(*final(users)) == users_removed(rows(*old(users)), request.body.id),
        r.1 == removal(rows(*old(users)), request.body.id),
{
    let body = request.body;
    let ghost before = rows(*users);
    let s = roster_slice(users);
    let n = s.len();
    let pos = find_position(s, body.id);
    if pos < n {
        let _ = roster_swap_remove(users, pos);
        assert(rows(*users) =~= before.update(pos as int, before.last()).drop_last());
        (Reply::home(), Some(Command::RemoveUser { id: body.id }))
    } else {
        (Reply::home(), None)
    }
}

/// The users of the list.
pub fn get_users(_auth: AuthenticatedUser, users: &heapless::Vec<UserInfo, 32>) -> (v: Vec<UserInfo>)
    ensures
        v@.map_values(|u: UserInfo| u@) == rows(*users),
        v@.len() == roster(*users).len(),
        forall|i: int|
            0 <= i < v@.len() ==> (#[trigger] v@[i]).id == roster(*users)[i].id && v@[i].name@
                == roster(*users)[i].name@,
{
    let s = roster_slice(users);
    let mut v: Vec<UserInfo> = Vec::new();
    for i in 0..s.len()
        invariant
            s@ == roster(*users),
            v@.len() == i,
            forall|j: int| 0 <= j < i ==> (#[trigger] v@[j])@ == s@[j]@,
            forall|j: int|
                0 <= j < i ==> (#[trigger] v@[j]).id == s@[j].id && v@[j].name@ == s@[j].name@,
    {
        v.push(UserInfo { id: s[i].id, name: s[i].name.clone() });
    }
    assert(v@.map_values(|u: UserInfo| u@) =~= rows(*users));
    v
}

fn same_hash(a: &[u8; 32], b: &[u8; 32]) -> (r: bool)
    ensures
        r == (a@ == b@),
{
    for i in 0..32usize
        invariant
            forall|j: int| 0 <= j < i ==> a@[j] == b@[j],
    {
        if a[i] != b[i] {
            return false;
        }
    }
    assert(a@ =~= b@);
    true
}

/// The token of a session: random bytes in hexadecimal.
pub fn generate_session_token(random: &[u8; 32]) -> (token: String)
    ensures
        token@ == hex(random@),
        token@.len() == 64,
{
    proof {
        lemma_hex(random@);
    }
    hex_text(random)
}

/// The cookie that carries a session token.
pub open spec fn login_cookie(token: Seq<char>) -> Seq<char> {
    "session="@ + token + "; Path=/; HttpOnly; SameSite=Strict"@
}

/// The cookie that takes the session token away.
pub open spec fn logout_cookie() -> Seq<char> {
    "session=deleted; Max-Age=0; Expires=Thu, 01 Jan 1970 00:00:00 GMT; Path=/; HttpOnly; SameSite=Strict"@
}

/// Whether a digest is that of the password.
pub open spec fn right_password(stored: Option<[u8; 32]>, computed: [u8; 32]) -> bool {
    stored matches Some(h) && h@ == computed@
}

/// Opens a session where the digest of the entered password is the stored one. Any other
/// session ends with that.
pub fn login(
    session: &mut Option<String>,
    stored: &Option<[u8; 32]>,
    computed: &[u8; 32],
    random: &[u8; 32],
) -> (r: Reply)
    ensures
        right_password(*stored, *computed) ==> text_view(*final(session)) == Some(hex(random@))
            && r.is_empty_with(200, "Set-Cookie"@, login_cookie(hex(random@))),
        !right_password(*stored, *computed) ==> *final(session) == *old(session)
            && r.is_unauthorized(),
        (stored matches Some(h) && h@ == computed@) ==> (*final(session) matches Some(token)
            && r matches Reply::Empty { status, header, value } && status == 200 && header@
            == "Set-Cookie"@ && authorized(
            Some(encode_utf8(value@.take(find(value@, ';') as int))),
            Some(token@),
        ) == Ok::<(), AuthError>(())),
{
    proof {
        law_login_cookie_is_sent_back(random@);
    }
    let valid = match stored {
        Some(h) => same_hash(h, computed),
        None => false,
    };
    if !valid {
        return Reply::unauthorized();
    }
    let token = generate_session_token(random);
    let mut value = String::from_str("session=");
    value.append(token.as_str());
    value.append("; Path=/; HttpOnly; SameSite=Strict");
    *session = Some(token);
    Reply::Empty { status: 200, header: String::from_str("Set-Cookie"), value }
}

/// Ends the session.
pub fn logout(_auth: AuthenticatedUser, session: &mut Option<String>) -> (r: Reply)
    ensures
        *final(session) is None,
        r.is_empty_with(200, "Set-Cookie"@, logout_cookie()),
{
    *session = None;
    Reply::Empty {
        status: 200,
        header: String::from_str("Set-Cookie"),
        value: String::from_str(
            "session=deleted; Max-Age=0; Expires=Thu, 01 Jan 1970 00:00:00 GMT; Path=/; HttpOnly; SameSite=Strict",
        ),
    }
}

/// Sets a new password, whose digest is given.
pub fn change_password(
    request: AuthenticatedLoginRequest,
    stored: &mut Option<[u8; 32]>,
    new_hash: [u8; 32],
) -> (r: (Reply, Command))
    ensures
        *final(stored) == Some(new_hash),
        r.0.is_home(),
        r.1 == (Command::SetPassword { password: request.body.password }),
        right_password(*final(stored), new_hash),
        r.1 matches Command::SetPassword { password } && password@ == request.body.password@,
{
    *stored = Some(new_hash);
    (Reply::home(), Command::SetPassword { password: request.body.password })
}

/// Reads the digest of the password from its text on the card. There is none where the text
/// is not that of a digest.
pub fn stored_password(text: &String) -> (r: Option<[u8; 32]>)
    ensures
        match r {
            Some(h) => hex(h@) == text@,
            None => forall|h: Seq<u8>| h.len() == 32 ==> #[trigger] hex(h) != text@,
        },
{
    let chars = to_chars(text.as_str());
    parse_hash(chars.as_slice())
}

/// The cookie that a browser sends back after a login passes, among whatever other cookies
/// that carry no session.
pub proof fn law_login_cookie_passes(random: Seq<u8>, before: Seq<char>, after: Seq<char>)
    requires
        session_token(before) is None,
    ensures
        authorized(Some(encode_utf8("session="@ + hex(random))), Some(hex(random))) == Ok::<
            (),
            AuthError,
        >(()),
        authorized(
            Some(
                encode_utf8(
                    before + seq![';'] + (seq![' '] + ("session="@ + hex(random) + seq![';'] + after)),
                ),
            ),
            Some(hex(random)),
        ) == Ok::<(), AuthError>(()),
{
    let token = hex(random);
    lemma_hex_is_plain(random);
    reveal_strlit("session=");
    assert("session="@ =~= session_key());
    law_session_cookie(token);
    let one = session_key() + token;
    vstd::utf8::encode_utf8_valid_utf8(one);
    vstd::utf8::encode_utf8_decode_utf8(one);
    law_session_before_other_cookies(token, after);
    law_space_makes_no_difference(one + seq![';'] + after);
    let rest = seq![' '] + (one + seq![';'] + after);
    law_other_cookies_do_not_matter(before, rest);
    let all = before + seq![';'] + rest;
    vstd::utf8::encode_utf8_valid_utf8(all);
    vstd::utf8::encode_utf8_decode_utf8(all);
}

proof fn lemma_hex_is_plain(bytes: Seq<u8>)
    ensures
        plain_token(hex(bytes)),
{
    lemma_hex(bytes);
    let token = hex(bytes);
    assert forall|i: int| 0 <= i < token.len() implies token[i] != ';' && !white_space(token[i]) by {
        assert(is_hex(token[i]));
    }
}

/// Without a session nothing passes: after a logout every request is refused.
pub proof fn law_nothing_passes_without_a_session(cookie: Option<Seq<u8>>)
    ensures
        authorized(cookie, None) is Err,
{
}

/// A cookie passes for one session at most: a new login, with other random bytes, ends the
/// session before it.
pub proof fn law_login_ends_other_sessions(cookie: Option<Seq<u8>>, a: Seq<u8>, b: Seq<u8>)
    requires
        a != b,
        authorized(cookie, Some(hex(a))) is Ok,
    ensures
        authorized(cookie, Some(hex(b))) == Err::<(), _>(AuthError::TokenMismatch),
{
    if hex(a) == hex(b) {
        law_hex_is_injective(a, b);
    }
}

/// After a change of the password, its digest opens a session and no other digest does.
pub proof fn law_changed_password_is_the_right_one(new_hash: [u8; 32], computed: [u8; 32])
    ensures
        right_password(Some(new_hash), computed) == (computed@ == new_hash@),
{
}

/// The digest of a password that was written to the card is the one that is read from there,
/// so the password is right after a restart as well.
pub proof fn law_password_survives_restart(files: Files, hash: [u8; 32], read: Option<[u8; 32]>)
    requires
        match read {
            Some(h) => hex(h@) == password_text(
                files.insert(FileNameEnum::Password, encode_utf8(hex(hash@))),
            ),
            None => forall|h: Seq<u8>|
                h.len() == 32 ==> #[trigger] hex(h) != password_text(
                    files.insert(FileNameEnum::Password, encode_utf8(hex(hash@))),
                ),
        },
    ensures
        right_password(read, hash),
{
    law_stored_password_is_read_back(files, hex(hash@));
    match read {
        Some(h) => {
            law_hex_is_injective(h@, hash@);
        },
        None => {
            assert(hash@.len() == 32);
        },
    }
}

/// Renaming a user keeps who is in the list.
pub proof fn law_update_keeps_users(users: Seq<(u64, Seq<char>)>, id: u64, name: Seq<char>)
    ensures
        users_renamed(users, id, name).len() == users.len(),
        forall|i: int| 0 <= i < users.len() ==> users_renamed(users, id, name)[i].0 == (#[trigger] users[i]).0,
{
    lemma_position(users, id);
}

/// Whether no two users of a list have one id.
pub open spec fn distinct_ids(users: Seq<(u64, Seq<char>)>) -> bool {
    forall|i: int, j: int| 0 <= i < j < users.len() ==> (#[trigger] users[i]).0 != (#[trigger] users[j]).0
}

/// Whether a list holds a user.
pub open spec fn in_list(users: Seq<(u64, Seq<char>)>, id: u64) -> bool {
    exists|i: int| 0 <= i < users.len() && (#[trigger] users[i]).0 == id
}

/// A removed user is not in the list any more, and all others still are, where no two users
/// have one id.
pub proof fn law_removed_user_is_not_valid(users: Seq<(u64, Seq<char>)>, id: u64, other: u64)
    requires
        distinct_ids(users),
    ensures
        in_list(users_removed(users, id), other) == (other != id && in_list(users, other)),
        distinct_ids(users_removed(users, id)),
{
    lemma_position(users, id);
    let p = position(users, id) as int;
    let left = users_removed(users, id);
    if p < users.len() {
        let last = users.len() - 1;
        assert forall|i: int| 0 <= i < left.len() implies left[i] == (if i == p {
            users[last]
        } else {
            users[i]
        }) by {}
        if in_list(users, other) && other != id {
            let i = choose|i: int| 0 <= i < users.len() && (#[trigger] users[i]).0 == other;
            if i == last {
                assert(left[p].0 == other);
            } else {
                assert(left[i].0 == other);
            }
        }
        if in_list(left, other) {
            let i = choose|i: int| 0 <= i < left.len() && (#[trigger] left[i]).0 == other;
            if i == p {
                assert(users[last].0 == other);
            } else {
                assert(users[i].0 == other);
            }
        }
    } else {
        assert(!in_list(users, id));
    }
}

/// After a login, what the reply sets up to its first semicolon is what a browser sends back,
/// and with that a request passes in the session of that login. Behind it stand the attributes
/// of the cookie.
pub proof fn law_login_cookie_is_sent_back(random: Seq<u8>)
    ensures
        ({
            let value = login_cookie(hex(random));
            let i = find(value, ';') as int;
            &&& i < value.len()
            &&& authorized(Some(encode_utf8(value.take(i))), Some(hex(random))) == Ok::<
                (),
                AuthError,
            >(())
            &&& value.skip(i) == "; Path=/; HttpOnly; SameSite=Strict"@
        }),
{
    let token = hex(random);
    let one = "session="@ + token;
    let value = login_cookie(token);
    lemma_hex_is_plain(random);
    reveal_strlit("session=");
    reveal_strlit("; Path=/; HttpOnly; SameSite=Strict");
    assert("session="@ =~= session_key());
    law_session_cookie(token);
    vstd::utf8::encode_utf8_valid_utf8(one);
    vstd::utf8::encode_utf8_decode_utf8(one);
    assert forall|j: int| 0 <= j < one.len() implies value[j] != ';' by {
        assert(value[j] == one[j]);
        if j >= 8 {
            assert(one[j] == token[j - 8]);
        } else {
            assert(one[j] == session_key()[j]);
        }
    }
    lemma_find_is(value, ';', one.len() as int);
    assert(value.take(one.len() as int) =~= one);
    assert(value.skip(one.len() as int) =~= "; Path=/; HttpOnly; SameSite=Strict"@);
}

/// A request passes exactly where its token is the one of the open session. Each refusal has its
/// reason: no cookie, a cookie that is not UTF-8, one without a session, or another token.
pub proof fn law_only_the_open_session_passes(
    token: Seq<char>,
    session: Option<Seq<char>>,
    text: Seq<char>,
    bytes: Seq<u8>,
)
    requires
        plain_token(token),
        session_token(text) is None,
    ensures
        authorized(Some(encode_utf8("session="@ + token)), session) == if session == Some(token) {
            Ok(())
        } else {
            Err(AuthError::TokenMismatch)
        },
        authorized(None, session) == Err::<(), _>(AuthError::MissingCookie),
        authorized(Some(encode_utf8(text)), session) == Err::<(), _>(AuthError::NoSession),
        !valid_utf8(bytes) ==> authorized(Some(bytes), session) == Err::<(), _>(
            AuthError::InvalidUtf8,
        ),
        valid_utf8(bytes) && session_token(decode_utf8(bytes)) is Some ==> authorized(
            Some(bytes),
            session,
        ) == if session == session_token(decode_utf8(bytes)) {
            Ok(())
        } else {
            Err(AuthError::TokenMismatch)
        },
{
    let one = "session="@ + token;
    reveal_strlit("session=");
    assert("session="@ =~= session_key());
    law_session_cookie(token);
    vstd::utf8::encode_utf8_valid_utf8(one);
    vstd::utf8::encode_utf8_decode_utf8(one);
    vstd::utf8::encode_utf8_valid_utf8(text);
    vstd::utf8::encode_utf8_decode_utf8(text);
}

/// Without a password nobody logs in.
pub proof fn law_no_password_is_never_right(computed: [u8; 32])
    ensures
        !right_password(None, computed),
{
}

/// What a session and a header hold is what was put there, and an answer is the one that was
/// made.
pub proof fn law_texts_are_taken_as_they_are(
    session: String,
    bytes: &[u8],
    status: u16,
    header: String,
    value: String,
    h: Seq<char>,
    v: Seq<char>,
    s: int,
)
    ensures
        text_view(Some(session)) == Some(session@),
        text_view(None) is None,
        header_view(Some(bytes)) == Some(bytes@),
        header_view(None) is None,
        (Reply::Empty { status, header, value }).is_empty_with(s, h, v) == (status == s && header@
            == h && value@ == v),
        !(Reply::Redirect { to: value }).is_empty_with(s, h, v),
        (Reply::Redirect { to: value }).is_home() == (value@ == "/"@),
{
}

/// Giving the first user with an id a new name changes that row and no other, and the storage is
/// told of it where the name is another one. Removing that user puts the last one in the place,
/// and the storage is told of the id.
pub proof fn law_first_user_with_the_id_is_meant(
    users: Seq<(u64, Seq<char>)>,
    id: u64,
    name: Seq<char>,
    i: int,
    given: u64,
    text: String,
)
    requires
        0 <= i < users.len(),
        users[i].0 == id,
        forall|j: int| 0 <= j < i ==> users[j].0 != id,
    ensures
        users_renamed(users, id, name).len() == users.len(),
        users_renamed(users, id, name)[i] == (id, name),
        forall|j: int|
            0 <= j < users.len() && j != i ==> users_renamed(users, id, name)[j] == #[trigger] users[j],
        is_update(None, users, id, name) == (users[i].1 == name),
        is_update(Some(Command::UpdateUser { id: given, name: text }), users, id, name) == (
        users[i].1 != name && given == id && text@ == name),
        users_removed(users, id).len() == users.len() - 1,
        forall|j: int|
            0 <= j < users.len() - 1 ==> #[trigger] users_removed(users, id)[j] == if j == i {
                users[users.len() - 1]
            } else {
                users[j]
            },
        removal(users, id) == Some(Command::RemoveUser { id }),
        in_list(users, id),
{
    lemma_position(users, id);
    let p = position(users, id) as int;
    assert(p == i) by {
        if p < i {
            assert(users[p].0 != id);
        }
    }
}

/// Where no user has an id, nothing is changed for it and the storage is told nothing.
pub proof fn law_absent_user_changes_nothing(
    users: Seq<(u64, Seq<char>)>,
    id: u64,
    name: Seq<char>,
    command: Option<Command>,
)
    requires
        forall|j: int| 0 <= j < users.len() ==> (#[trigger] users[j]).0 != id,
    ensures
        users_renamed(users, id, name) == users,
        users_removed(users, id) == users,
        removal(users, id) is None,
        is_update(command, users, id, name) == (command is None),
        !in_list(users, id),
{
    lemma_position(users, id);
}

/// Names of up to 32 bytes fit.
pub proof fn law_names_of_32_bytes_fit(name: Seq<char>)
    ensures
        name_fits(name) == (encode_utf8(name).len() <= 32),
{
}

/// The cookie of a logout takes the place of the one of the session and expires at once: what a
/// browser sends back of it passes in no session that a login opens.
pub proof fn law_logout_cookie_opens_nothing(random: Seq<u8>)
    requires
        random.len() == 32,
    ensures
        ({
            let value = logout_cookie();
            let i = find(value, ';') as int;
            &&& i < value.len()
            &&& authorized(Some(encode_utf8(value.take(i))), Some(hex(random))) == Err::<(), _>(
                AuthError::TokenMismatch,
            )
            &&& value.take(i) == "session=deleted"@
            &&& value.subrange(i, i + 12) == "; Max-Age=0;"@
        }),
{
    let value = logout_cookie();
    let token = "deleted"@;
    reveal_strlit("session=");
    reveal_strlit("deleted");
    reveal_strlit("session=deleted");
    reveal_strlit("; Max-Age=0;");
    reveal_strlit(
        "session=deleted; Max-Age=0; Expires=Thu, 01 Jan 1970 00:00:00 GMT; Path=/; HttpOnly; SameSite=Strict",
    );
    lemma_find_is(value, ';', 15);
    assert(value.take(15) =~= "session="@ + token);
    assert(value.take(15) =~= "session=deleted"@);
    assert(value.subrange(15, 27) =~= "; Max-Age=0;"@);
    lemma_hex(random);
    let none = Seq::<char>::empty();
    lemma_find_is(none, ';', 0);
    law_only_the_open_session_passes(token, Some(hex(random)), none, Seq::<u8>::empty());
}

} // verus!
