//! The panel's interface for scripts: its state in one place, answers by status code.
//!
//! The functions marked `external_body` call the methods of `heapless::Vec`; their contracts
//! are stated, not proved.
use crate::hashing::hex;
use crate::net::{
    authorized, header_view, in_list, is_update, lemma_position, login, login_cookie, logout_cookie,
    position, removal, text_view, users_removed, users_renamed, AuthError, AuthenticatedUser, Reply,
};
use crate::sd::last_chars;
use crate::signals::Command;
use crate::text::{copy_range, find, from_chars, to_chars};
use vstd::prelude::*;
use vstd::utf8::encode_utf8;

verus! {

pub const OK: u16 = 200;

pub const BAD_REQUEST: u16 = 400;

pub const UNAUTHORIZED: u16 = 401;

pub const NOT_FOUND: u16 = 404;

/// How many bytes a new password has at least.
pub const MIN_PASSWORD: usize = 8;

/// How many characters of the log are shown.
pub const LOG_CHARS: usize = 4096;

/// A user of the lock, with a short id.
#[derive(Debug)]
pub struct User {
    pub id: u32,
    pub name: String,
}

impl View for User {
    type V = (u64, Seq<char>);

    open spec fn view(&self) -> (u64, Seq<char>) {
        (self.id as u64, self.name@)
    }
}

/// What the panel knows.
pub struct AppState {
    pub users: heapless::Vec<User, 32>,
    pub logs: String,
    pub password_hash: [u8; 32],
    pub password_salt: [u8; 16],
    pub session_token: Option<String>,
}

/// A password that somebody entered.
#[derive(Debug)]
pub struct LoginRequest {
    pub password: String,
}

/// The password in use and the one that is to take its place.
#[derive(Debug)]
pub struct ResetPasswordRequest {
    pub current: String,
    pub new_password: String,
}

/// A user, as the panel shows one or sends one back.
#[derive(Debug)]
pub struct UserResponse {
    pub id: u32,
    pub name: String,
}

impl View for UserResponse {
    type V = (u64, Seq<char>);

    open spec fn view(&self) -> (u64, Seq<char>) {
        (self.id as u64, self.name@)
    }
}

/// Names the user to be removed.
#[derive(Copy, Clone, Debug, PartialEq, Eq, Structural)]
pub struct RemoveUserRequest {
    pub id: u32,
}

/// The log that is shown.
#[derive(Debug)]
pub struct LogsResponse {
    pub logs: String,
}

/// A request that carries the session token.
#[derive(Copy, Clone, Debug, PartialEq, Eq, Structural)]
pub struct Authenticated;

/// The users that a list holds, in order.
pub uninterp spec fn members(users: heapless::Vec<User, 32>) -> Seq<User>;

/// The id and the name of each user of a list.
pub open spec fn member_rows(users: heapless::Vec<User, 32>) -> Seq<(u64, Seq<char>)> {
    members(users).map_values(|u: User| u@)
}

/// Calls `heapless::Vec::as_slice`: the slice holds the users of the list, of which there are
/// at most 32.
#[verifier::external_body]
fn members_slice(users: &heapless::Vec<User, 32>) -> (s: &[User])
    ensures
        s@ == members(*users),
        s@.len() <= 32,
{
    users.as_slice()
}

/// Calls `heapless::Vec::as_mut_slice`: the list ends up with what the slice ends up with.
#[verifier::external_body]
fn members_slice_mut(users: &mut heapless::Vec<User, 32>) -> (s: &mut [User])
    ensures
        s@ == members(*old(users)),
        members(*final(users)) == final(s)@,
        final(s)@.len() == s@.len(),
{
    users.as_mut_slice()
}

/// Calls `heapless::Vec::swap_remove`: the user at the index comes out and the last user takes
/// its place. The method panics where the index is not below the length.
#[verifier::external_body]
fn members_swap_remove(users: &mut heapless::Vec<User, 32>, index: usize) -> (user: User)
    requires
        index < members(*old(users)).len(),
    ensures
        user == members(*old(users))[index as int],
        members(*final(users)) == members(*old(users)).update(
            index as int,
            members(*old(users)).last(),
        ).drop_last(),
{
    users.swap_remove(index)
}

/// Calls `heapless::Vec::clear`: the list is empty.
#[verifier::external_body]
fn members_clear(users: &mut heapless::Vec<User, 32>)
    ensures
        members(*final(users)) == Seq::<User>::empty(),
{
    users.clear()
}

impl Authenticated {
    /// Checks the `Cookie` header of a request against the open session.
    pub fn from_request_parts(state: &AppState, cookie: Option<&[u8]>) -> (r: Result<
        Authenticated,
        u16,
    >)
        ensures
            r == if authorized(header_view(cookie), text_view(state.session_token)) is Ok {
                Ok(Authenticated)
            } else {
                Err::<Authenticated, u16>(UNAUTHORIZED)
            },
    {
        match AuthenticatedUser::from_request(cookie, &state.session_token) {
            Ok(_) => Ok(Authenticated),
            Err(_) => Err(UNAUTHORIZED),
        }
    }
}

fn find_member(users: &[User], id: u32) -> (i: usize)
    ensures
        i == position(users@.map_values(|u: User| u@), id as u64),
        i <= users@.len(),
{
    let ghost all = users@.map_values(|u: User| u@);
    let mut i: usize = 0;
    while i < users.len() && users[i].id != id
        invariant
            i <= users@.len(),
            all == users@.map_values(|u: User| u@),
            forall|j: int| 0 <= j < i ==> all[j].0 != id,
        decreases users@.len() - i,
    {
        i += 1;
    }
    proof {
        lemma_position(all, id as u64);
        if i < users@.len() {
            assert(all[i as int].0 == id);
        }
    }
    i
}

/// Whether a user is in the list.
pub fn valid_user(app: &AppState, id: u32) -> (r: bool)
    ensures
        r == in_list(member_rows(app.users), id as u64),
{
    let s = members_slice(&app.users);
    let i = find_member(s, id);
    proof {
        lemma_position(member_rows(app.users), id as u64);
        assert(i < s@.len() ==> member_rows(app.users)[i as int].0 == id);
    }
    i < s.len()
}

/// Opens a session where the digest of the entered password is the stored one.
pub fn login_old(state: &mut AppState, computed: &[u8; 32], random: &[u8; 32]) -> (r: Reply)
    ensures
        final(state).users == old(state).users,
        final(state).logs == old(state).logs,
        final(state).password_hash == old(state).password_hash,
        final(state).password_salt == old(state).password_salt,
        old(state).password_hash@ == computed@ ==> text_view(final(state).session_token) == Some(
            hex(random@),
        ) && r.is_empty_with(200, "Set-Cookie"@, login_cookie(hex(random@))),
        old(state).password_hash@ != computed@ ==> *final(state) == *old(state)
            && r.is_unauthorized(),
        old(state).password_hash@ == computed@ ==> (final(state).session_token matches Some(token)
            && r matches Reply::Empty { status, header, value } && status == 200 && header@
            == "Set-Cookie"@ && authorized(
            Some(encode_utf8(value@.take(find(value@, ';') as int))),
            Some(token@),
        ) == Ok::<(), AuthError>(())),
{
    let stored = Some(state.password_hash);
    let mut token = state.session_token.take();
    let r = login(&mut token, &stored, computed, random);
    state.session_token = token;
    r
}

/// Ends the session.
pub fn logout(state: &mut AppState) -> (r: Reply)
    ensures
        *final(state) == (AppState { session_token: None, ..*old(state) }),
        r.is_empty_with(200, "Set-Cookie"@, logout_cookie()),
{
    crate::net::logout(AuthenticatedUser, &mut state.session_token)
}

/// Sets a new password, which has to be long enough. Its salt and its digest are given.
pub fn reset_password(
    state: &mut AppState,
    body: ResetPasswordRequest,
    new_salt: [u8; 16],
    new_hash: [u8; 32],
) -> (r: (u16, Option<Command>))
    ensures
        encode_utf8(body.new_password@).len() < MIN_PASSWORD ==> *final(state) == *old(state) && r
            == (BAD_REQUEST, None::<Command>),
        encode_utf8(body.new_password@).len() >= MIN_PASSWORD ==> *final(state) == (AppState {
            password_salt: new_salt,
            password_hash: new_hash,
            ..*old(state)
        }) && r == (OK, Some(Command::SetPassword { password: body.new_password })),
{
    if body.new_password.as_str().as_bytes().len() < MIN_PASSWORD {
        return (BAD_REQUEST, None);
    }
    state.password_salt = new_salt;
    state.password_hash = new_hash;
    (OK, Some(Command::SetPassword { password: body.new_password }))
}

/// The users of the list.
pub fn get_users(state: &AppState) -> (v: Vec<UserResponse>)
    ensures
        v@.map_values(|u: UserResponse| u@) == member_rows(state.users),
        v@.len() == members(state.users).len(),
        forall|i: int|
            0 <= i < v@.len() ==> (#[trigger] v@[i]).id == members(state.users)[i].id && v@[i].name@
                == members(state.users)[i].name@,
{
    let s = members_slice(&state.users);
    let mut v: Vec<UserResponse> = Vec::new();
    for i in 0..s.len()
        invariant
            s@ == members(state.users),
            v@.len() == i,
            forall|j: int| 0 <= j < i ==> (#[trigger] v@[j])@ == s@[j]@,
            forall|j: int|
                0 <= j < i ==> (#[trigger] v@[j]).id == s@[j].id && v@[j].name@ == s@[j].name@,
    {
        v.push(UserResponse { id: s[i].id, name: s[i].name.clone() });
    }
    assert(v@.map_values(|u: UserResponse| u@) =~= member_rows(state.users));
    v
}

/// Puts the device into "add mode".
pub fn add_user() -> (r: (u16, Command))
    ensures
        r == (OK, Command::AddUserMode),
{
    (OK, Command::AddUserMode)
}

/// Whether two states differ in their users alone.
pub open spec fn same_but_users(a: AppState, b: AppState) -> bool {
    &&& a.logs == b.logs
    &&& a.password_hash == b.password_hash
    &&& a.password_salt == b.password_salt
    &&& a.session_token == b.session_token
}

/// Gives the user with the id a new name. The card is written only where the name is another
/// one than before.
pub fn update_user(state: &mut AppState, body: UserResponse) -> (r: (u16, Option<Command>))
    ensures
        same_but_users(*final(state), *old(state)),
        member_rows(final(state).users) == users_renamed(
            member_rows(old(state).users),
            body.id as u64,
            body.name@,
        ),
        r.0 == OK,
        is_update(r.1, member_rows(old(state).users), body.id as u64, body.name@),
        ({
            let before = member_rows(old(state).users);
            let i = position(before, body.id as u64) as int;
            if i < before.len() && before[i].1 != body.name@ {
                r.1 matches Some(Command::UpdateUser { id, name }) && id == body.id && name@
                    == body.name@
            } else {
                r.1 is None
            }
        }),
{
    let ghost before = member_rows(state.users);
    let s = members_slice(&state.users);
    let i = find_member(s, body.id);
    proof {
        lemma_position(before, body.id as u64);
    }
    if i < s.len() {
        assert(before[i as int] == s@[i as int]@);
        if s[i].name == body.name {
            assert(before.update(i as int, (body.id as u64, body.name@)) =~= before);
            return (OK, None);
        }
        let name = body.name.clone();
        let s = members_slice_mut(&mut state.users);
        s[i].name = body.name;
        assert(member_rows(state.users) =~= before.update(i as int, (body.id as u64, body.name@)));
        return (OK, Some(Command::UpdateUser { id: body.id as u64, name }));
    }
    (OK, None)
}

/// Removes the user with the id.
pub fn remove_user(state: &mut AppState, body: RemoveUserRequest) -> (r: (u16, Option<Command>))
    ensures
        same_but_users(*final(state), *old(state)),
        member_rows(final(state).users) == users_removed(
            member_rows(old(state).users),
            body.id as u64,
        ),
        r == if in_list(member_rows(old(state).users), body.id as u64) {
            (OK, Some(Command::RemoveUser { id: body.id as u64 }))
        } else {
            (NOT_FOUND, None::<Command>)
        },
        r.1 == removal(member_rows(old(state).users), body.id as u64),
{
    let ghost before = member_rows(state.users);
    let s = members_slice(&state.users);
    let n = s.len();
    let pos = find_member(s, body.id);
    proof {
        lemma_position(before, body.id as u64);
        assert(pos < n ==> before[pos as int].0 == body.id);
    }
    if pos < n {
        let _ = members_swap_remove(&mut state.users, pos);
        assert(member_rows(state.users) =~= before.update(pos as int, before.last()).drop_last());
        (OK, Some(Command::RemoveUser { id: body.id as u64 }))
    } else {
        (NOT_FOUND, None)
    }
}

/// Removes all users.
pub fn clear_users(state: &mut AppState) -> (r: (u16, Command))
    ensures
        same_but_users(*final(state), *old(state)),
        member_rows(final(state).users) == Seq::<(u64, Seq<char>)>::empty(),
        r == (OK, Command::RemoveAllUsers),
{
    members_clear(&mut state.users);
    assert(member_rows(state.users) =~= Seq::<(u64, Seq<char>)>::empty());
    (OK, Command::RemoveAllUsers)
}

/// The last 4096 characters of the log.
pub fn get_logs(state: &AppState) -> (r: LogsResponse)
    ensures
        r.logs@ == last_chars(state.logs@, LOG_CHARS as nat),
{
    let text = to_chars(state.logs.as_str());
    let start = if text.len() <= LOG_CHARS {
        0
    } else {
        text.len() - LOG_CHARS
    };
    let end = copy_range(text.as_slice(), start, text.len());
    assert(end@ =~= last_chars(text@, LOG_CHARS as nat));
    LogsResponse { logs: from_chars(end.as_slice()) }
}

/// Clears the log.
pub fn clear_logs(state: &mut AppState) -> (r: (u16, Command))
    ensures
        final(state).logs@ == Seq::<char>::empty(),
        final(state).users == old(state).users,
        final(state).password_hash == old(state).password_hash,
        final(state).password_salt == old(state).password_salt,
        final(state).session_token == old(state).session_token,
        r == (OK, Command::ClearLog),
{
    state.logs = String::new();
    (OK, Command::ClearLog)
}

/// The rows of a list are the ids and the names of its users, as they are and in order, and so
/// are those of an answer.
pub proof fn law_rows_show_the_members(users: heapless::Vec<User, 32>, i: int, u: UserResponse)
    requires
        0 <= i < members(users).len(),
    ensures
        member_rows(users).len() == members(users).len(),
        member_rows(users)[i].0 == members(users)[i].id,
        member_rows(users)[i].1 == members(users)[i].name@,
        u@.0 == u.id,
        u@.1 == u.name@,
{
}

/// Of a log of more than 4096 characters the last 4096 are shown, and a shorter one is shown as
/// it is.
pub proof fn law_panel_shows_the_end_of_the_log(front: Seq<char>, end: Seq<char>)
    ensures
        end.len() == 4096 ==> last_chars(front + end, LOG_CHARS as nat) == end,
        end.len() <= 4096 ==> last_chars(end, LOG_CHARS as nat) == end,
{
    let all = front + end;
    if end.len() == 4096 {
        assert(all.skip(all.len() - 4096) =~= end);
        if front.len() == 0 {
            assert(all =~= end);
        }
    }
}

} // verus!
