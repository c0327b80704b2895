//! The storage task: what it keeps in memory, and what each command does.
use crate::door::{
    denied, door_step, law_door_opens_for_known_users_only, opens, user_part, AddMode, DoorAction,
    DoorEvent, DoorNeed, DoorState,
};
use crate::hashing::{hex, hex_text, law_hex_shows_the_bytes};
use crate::net::{
    in_list, is_update, lemma_position, name_fits, position, removal, stored_password, users_removed, valid_user,
    UserInfo,
};
use crate::roster::{roster, roster_new, roster_push, roster_slice, rows};
use crate::sd::{
    appended, contents, cut_changes, dropped_lines, file_text, files_with_name, files_with_user, files_without_user,
    law_appended_text_is_read_behind, law_last_characters_stand_at_the_end,
    law_log_keeps_128_lines, law_logged_line_is_shown,
    law_replay_in_parts, law_user_removed_from_card_is_absent, law_written_text_is_read_back,
    log_before, log_changes, log_cut, log_line, password_text, replaced, replay, shown_log,
    users_text, CardChange, FileNameEnum, Files, SdStorage, LOG_MAX_LINES,
};
use crate::signals::Command;
use crate::text::{
    decimal, from_chars, is_digit, lemma_decimal, lemma_parse_decimal, lines, one_line, parsed_u64,
    whole_lines, write_decimal,
};
use crate::userdb::{
    database, first_users, holds_user, law_adding_keeps_names_short, law_database_add,
    law_database_holds, law_database_remove, law_database_rename, law_edits_keep_names_short,
    law_listing_a_database, listed_users, names_fit, plain_name, plain_names, renamed, user_entry,
    with_name, without_user,
};
use vstd::arithmetic::power::pow;
use vstd::prelude::*;
use vstd::utf8::{decode_utf8, encode_utf8, valid_utf8};

verus! {

/// What is kept in memory of the files.
pub struct Caches {
    /// The users who may open the door.
    pub users: heapless::Vec<UserInfo, 32>,
    /// The end of the log, as the panel shows it.
    pub logs: String,
    /// The digest of the password.
    pub password: Option<[u8; 32]>,
}

/// Fills the caches from the card.
pub fn load_caches(sd: &SdStorage) -> (c: Caches)
    requires
        names_fit(users_text(sd@)),
    ensures
        rows(c.users) == first_users(listed_users(users_text(sd@))),
        c.logs@ == shown_log(sd@),
        match c.password {
            Some(h) => hex(h@) == password_text(sd@),
            None => forall|h: Seq<u8>| h.len() == 32 ==> #[trigger] hex(h) != password_text(sd@),
        },
{
    let users = sd.list_users();
    let logs = sd.read_logs();
    let text = sd.get_password();
    let password = stored_password(&text);
    Caches { users, logs, password }
}

/// What the storage needs from outside before it can carry out a command.
#[derive(Debug)]
pub enum Need {
    Nothing,
    /// The time, in microseconds.
    Now,
    /// The hash of the id on a keycard.
    HashedId { id: u32 },
    /// The digest of a password.
    HashedPassword { password: String },
    /// The time stamp from the clock.
    Stamp,
}

/// What the storage got from outside.
#[derive(Debug)]
pub enum Supply {
    Nothing,
    Now { now: u64 },
    HashedId { id: u64 },
    HashedPassword { hash: [u8; 32] },
    /// What the clock answered.
    Stamp { response: Option<String> },
}

/// Whether this is what a command needs.
pub open spec fn supplies(command: Command, supply: Supply) -> bool {
    match command {
        Command::AddUserMode => supply is Now,
        Command::AddUser { .. } => supply is HashedId,
        Command::SetPassword { .. } => supply is HashedPassword,
        Command::LogUser { .. } => supply is Stamp,
        _ => supply is Nothing,
    }
}

/// Whether a need is that of a command.
pub open spec fn is_need(command: Command, need: Need) -> bool {
    match (command, need) {
        (Command::AddUserMode, Need::Now) => true,
        (Command::AddUser { id }, Need::HashedId { id: asked }) => asked == id,
        (Command::SetPassword { password }, Need::HashedPassword { password: asked }) => asked@
            == password@,
        (Command::LogUser { .. }, Need::Stamp) => true,
        (command, Need::Nothing) => supplies(command, Supply::Nothing),
        _ => false,
    }
}

/// What a command needs: the id of a keycard is hashed before it is stored, and so is a
/// password. The other commands carry ids that are hashed already.
pub fn required(command: &Command) -> (need: Need)
    ensures
        match *command {
            Command::AddUserMode => need is Now,
            Command::AddUser { id } => need == (Need::HashedId { id }),
            Command::SetPassword { password } => need matches Need::HashedPassword { password: p }
                && p@ == password@,
            Command::LogUser { .. } => need is Stamp,
            _ => need is Nothing,
        },
        is_need(*command, need),
{
    match command {
        Command::AddUserMode => Need::Now,
        Command::AddUser { id } => Need::HashedId { id: *id },
        Command::SetPassword { password } => Need::HashedPassword { password: password.clone() },
        Command::LogUser { .. } => Need::Stamp,
        _ => Need::Nothing,
    }
}

/// The message that is logged when a user opens the door.
pub open spec fn access_message(id: u64) -> Seq<char> {
    "Accessed: "@ + decimal(id as nat)
}

/// The time stamp of a log line.
pub open spec fn stamp_of(response: Option<String>) -> Seq<char> {
    match response {
        Some(date) => date@,
        None => seq![],
    }
}

/// The line that is logged when a user opens the door.
pub open spec fn access_line(id: u64, response: Option<String>) -> Seq<char> {
    log_line(access_message(id), Some(stamp_of(response)))
}

/// The files after a command.
pub open spec fn files_after(files: Files, command: Command, supply: Supply) -> Files {
    match (command, supply) {
        (Command::ClearLog, _) => files.remove(FileNameEnum::Log),
        (Command::AddUser { .. }, Supply::HashedId { id }) => files_with_user(files, id, "NULL"@),
        (Command::RemoveUser { id }, _) => files_without_user(files, id),
        (Command::UpdateUser { id, name }, _) => if holds_user(users_text(files), id) {
            files_with_name(files, id, name@)
        } else {
            files
        },
        (Command::RemoveAllUsers, _) => files.remove(FileNameEnum::Users),
        (Command::SetPassword { .. }, Supply::HashedPassword { hash }) => files.insert(
            FileNameEnum::Password,
            encode_utf8(hex(hash@)),
        ),
        (Command::LogUser { id }, Supply::Stamp { response }) => files.insert(
            FileNameEnum::Log,
            log_before(contents(files, FileNameEnum::Log)) + encode_utf8(access_line(id, response)),
        ),
        _ => files,
    }
}

/// The changes that a command makes to the card, the first one first.
pub open spec fn changes_of(files: Files, command: Command, supply: Supply) -> Seq<CardChange> {
    match (command, supply) {
        (Command::ClearLog, _) => seq![CardChange::Delete { file: FileNameEnum::Log }],
        (Command::AddUser { .. }, Supply::HashedId { id }) => seq![
            appended(FileNameEnum::Users, user_entry(id, "NULL"@)),
        ],
        (Command::RemoveUser { id }, _) => seq![
            replaced(FileNameEnum::Users, without_user(users_text(files), id)),
        ],
        (Command::UpdateUser { id, name }, _) => if holds_user(users_text(files), id) {
            seq![replaced(FileNameEnum::Users, with_name(users_text(files), id, name@))]
        } else {
            seq![]
        },
        (Command::RemoveAllUsers, _) => seq![CardChange::Delete { file: FileNameEnum::Users }],
        (Command::SetPassword { .. }, Supply::HashedPassword { hash }) => seq![
            replaced(FileNameEnum::Password, hex(hash@)),
        ],
        (Command::LogUser { id }, Supply::Stamp { response }) => log_changes(
            contents(files, FileNameEnum::Log),
            access_line(id, response),
        ),
        _ => seq![],
    }
}

/// The list of users after a command. A user who is added goes to its end, where there is room.
pub open spec fn users_after(
    users: Seq<(u64, Seq<char>)>,
    command: Command,
    supply: Supply,
) -> Seq<(u64, Seq<char>)> {
    match (command, supply) {
        (Command::AddUser { .. }, Supply::HashedId { id }) => if users.len() < 32 {
            users.push((id, "NULL"@))
        } else {
            users
        },
        (Command::RemoveUser { id }, _) => users.filter(|u: (u64, Seq<char>)| u.0 != id),
        (Command::UpdateUser { id, name }, _) => renamed(users, id, name@),
        (Command::RemoveAllUsers, _) => seq![],
        _ => users,
    }
}

/// The log that is shown after a command that leads from one state of the files to another.
pub open spec fn logs_after(logs: Seq<char>, after: Files, command: Command) -> Seq<char> {
    if changed_file(command) == Some(FileNameEnum::Log) {
        shown_log(after)
    } else {
        logs
    }
}

/// "Add mode" after a command.
pub open spec fn mode_after(mode: AddMode, command: Command, supply: Supply) -> AddMode {
    match (command, supply) {
        (Command::AddUserMode, Supply::Now { now }) => AddMode { enabled: true, enabled_at: now },
        _ => mode,
    }
}

/// Puts a user at the end of the list, where there is room.
fn list_user(users: &mut heapless::Vec<UserInfo, 32>, id: u64)
    ensures
        rows(*final(users)) == if rows(*old(users)).len() < 32 {
            rows(*old(users)).push((id, "NULL"@))
        } else {
            rows(*old(users))
        },
{
    let user = UserInfo { id, name: String::from_str("NULL") };
    let ghost before = rows(*users);
    let pushed = roster_push(users, user);
    if pushed.is_ok() {
        assert(rows(*users) =~= before.push((id, "NULL"@)));
    }
}

/// Takes all users with an id off the list.
fn unlist_user(users: &mut heapless::Vec<UserInfo, 32>, id: u64)
    ensures
        rows(*final(users)) == rows(*old(users)).filter(|u: (u64, Seq<char>)| u.0 != id),
{
    let ghost p = |u: (u64, Seq<char>)| u.0 != id;
    let ghost all = rows(*users);
    let mut left = roster_new();
    let s = roster_slice(users);
    assert(all.take(0).filter(p) =~= rows(left)) by {
        reveal(Seq::filter);
    }
    for i in 0..s.len()
        invariant
            s@.len() <= 32,
            all == s@.map_values(|u: UserInfo| u@),
            p == (|u: (u64, Seq<char>)| u.0 != id),
            rows(left) == all.take(i as int).filter(p),
            rows(left).len() <= i,
            rows(left).len() == roster(left).len(),
    {
        let ghost before = rows(left);
        proof {
            reveal(Seq::filter);
            assert(all.take(i + 1).drop_last() =~= all.take(i as int));
            assert(all.take(i + 1).last() == s@[i as int]@);
        }
        if s[i].id != id {
            let user = UserInfo { id: s[i].id, name: s[i].name.clone() };
            let _ = roster_push(&mut left, user);
            assert(rows(left) =~= before.push(s@[i as int]@));
        }
    }
    assert(all.take(s@.len() as int) =~= all);
    *users = left;
}

/// Gives all users with an id a new name.
fn rename_listed(users: &mut heapless::Vec<UserInfo, 32>, id: u64, name: &String)
    ensures
        rows(*final(users)) == renamed(rows(*old(users)), id, name@),
{
    let ghost all = rows(*users);
    let mut list = roster_new();
    let s = roster_slice(users);
    for i in 0..s.len()
        invariant
            s@.len() <= 32,
            all == s@.map_values(|u: UserInfo| u@),
            rows(list) == renamed(all.take(i as int), id, name@),
            roster(list).len() == i,
    {
        let ghost before = rows(list);
        let new_name = if s[i].id == id {
            name.clone()
        } else {
            s[i].name.clone()
        };
        let user = UserInfo { id: s[i].id, name: new_name };
        let ghost row = user@;
        let _ = roster_push(&mut list, user);
        proof {
            assert(rows(list) =~= before.push(row));
            assert(all[i as int] == s@[i as int]@);
            assert(renamed(all.take(i + 1), id, name@) =~= before.push(row));
        }
    }
    assert(all.take(s@.len() as int) =~= all);
    *users = list;
}

/// Carries out a command, on the files and on what is kept in memory of them. Whether a user is
/// known is told where the command asks for that.
pub fn execute(
    sd: &mut SdStorage,
    users: &mut heapless::Vec<UserInfo, 32>,
    logs: &mut String,
    mode: &mut AddMode,
    command: Command,
    supply: Supply,
) -> (answer: Option<bool>)
    requires
        old(sd).wf(),
        supplies(command, supply),
    ensures
        final(sd).wf(),
        final(sd).on_card() == old(sd).on_card(),
        final(sd)@ == files_after(old(sd)@, command, supply),
        final(sd).pending() == old(sd).pending() + changes_of(old(sd)@, command, supply),
        rows(*final(users)) == users_after(rows(*old(users)), command, supply),
        final(logs)@ == logs_after(old(logs)@, final(sd)@, command),
        *final(mode) == mode_after(*old(mode), command, supply),
        answer == match command {
            Command::IsUser { id } => Some(in_list(rows(*old(users)), id)),
            _ => None::<bool>,
        },
{
    let ghost files = sd@;
    let ghost before = sd.pending();
    match command {
        Command::ClearLog => {
            sd.clear_logs();
            *logs = sd.read_logs();
        },
        Command::AddUserMode => {
            if let Supply::Now { now } = supply {
                mode.enable(now);
            }
        },
        Command::AddUser { .. } => {
            if let Supply::HashedId { id } = supply {
                sd.add_user(id, None);
                list_user(users, id);
            }
        },
        Command::RemoveUser { id } => {
            sd.remove_user(id);
            unlist_user(users, id);
        },
        Command::UpdateUser { id, name } => {
            sd.change_name(id, name.as_str());
            rename_listed(users, id, &name);
        },
        Command::RemoveAllUsers => {
            sd.remove_all_users();
            *users = roster_new();
            assert(rows(*users) =~= Seq::<(u64, Seq<char>)>::empty());
        },
        Command::IsUser { id } => {
            assert(before + Seq::<CardChange>::empty() =~= before);
            return Some(valid_user(users, id));
        },
        Command::SetPassword { .. } => {
            if let Supply::HashedPassword { hash } = supply {
                let text = hex_text(&hash);
                sd.set_password(text.as_str());
            }
        },
        Command::LogUser { id } => {
            if let Supply::Stamp { response } = supply {
                let timestamp = SdStorage::get_timestamp(response);
                let mut message = String::from_str("Accessed: ");
                let number = from_chars(write_decimal(id).as_slice());
                message.append(number.as_str());
                sd.log_message(message.as_str(), Some(timestamp.as_str()));
                *logs = sd.read_logs();
            }
        },
    }
    assert(sd.pending() =~= before + changes_of(files, command, supply));
    None
}

/// The file that a command changes.
pub open spec fn changed_file(command: Command) -> Option<FileNameEnum> {
    match command {
        Command::ClearLog | Command::LogUser { .. } => Some(FileNameEnum::Log),
        Command::AddUser { .. } | Command::RemoveUser { .. } | Command::UpdateUser { .. }
        | Command::RemoveAllUsers => Some(FileNameEnum::Users),
        Command::SetPassword { .. } => Some(FileNameEnum::Password),
        Command::AddUserMode | Command::IsUser { .. } => None,
    }
}

/// A command leaves all files but its own as they are, and it makes no change to another one.
pub proof fn law_command_keeps_other_files(
    files: Files,
    command: Command,
    supply: Supply,
    file: FileNameEnum,
)
    requires
        changed_file(command) != Some(file),
    ensures
        files_after(files, command, supply).contains_key(file) == files.contains_key(file),
        contents(files_after(files, command, supply), file) == contents(files, file),
        forall|i: int|
            0 <= i < changes_of(files, command, supply).len() ==> match #[trigger] changes_of(
                files,
                command,
                supply,
            )[i] {
                CardChange::Write { file: f, .. } => f != file,
                CardChange::Delete { file: f } => f != file,
            },
{
}

/// What is written depends on the hashes alone: neither the password nor the id on a keycard
/// ever goes to the card.
pub proof fn law_secrets_are_not_stored(
    files: Files,
    p: String,
    q: String,
    card: u32,
    other: u32,
    supply: Supply,
)
    ensures
        changes_of(files, Command::SetPassword { password: p }, supply) == changes_of(
            files,
            Command::SetPassword { password: q },
            supply,
        ),
        supply matches Supply::HashedPassword { hash } ==> changes_of(
            files,
            Command::SetPassword { password: p },
            supply,
        ) == seq![replaced(FileNameEnum::Password, hex(hash@))],
        changes_of(files, Command::AddUser { id: card }, supply) == changes_of(
            files,
            Command::AddUser { id: other },
            supply,
        ),
{
}

/// Carrying out a command's changes on the card makes of its files what the command makes of
/// them.
pub proof fn law_changes_lead_to_the_files(files: Files, command: Command, supply: Supply)
    ensures
        replay(files, changes_of(files, command, supply)) == files_after(files, command, supply),
{
    let changes = changes_of(files, command, supply);
    match (command, supply) {
        (Command::LogUser { id }, Supply::Stamp { response }) => {
            let log = contents(files, FileNameEnum::Log);
            let line = access_line(id, response);
            let front = changes.drop_last();
            assert(changes.last() == appended(FileNameEnum::Log, line));
            lemma_replay_log(files);
            assert(front =~= cut_changes(log) + dropped_lines(
                log_cut(log),
                (LOG_MAX_LINES - 1) as nat,
            ));
            let middle = replay(files, front);
            assert(middle.insert(FileNameEnum::Log, log_before(log) + encode_utf8(line))
                =~= files_after(files, command, supply)) by {
                assert(middle.remove(FileNameEnum::Log) == files.remove(FileNameEnum::Log));
                let after = files_after(files, command, supply);
                let other = middle.insert(FileNameEnum::Log, log_before(log) + encode_utf8(line));
                assert forall|f: FileNameEnum| f != FileNameEnum::Log implies #[trigger] other.contains_key(
                    f,
                ) == after.contains_key(f) && (after.contains_key(f) ==> other[f] == after[f]) by {
                    assert(middle.remove(FileNameEnum::Log).contains_key(f) == files.remove(
                        FileNameEnum::Log,
                    ).contains_key(f));
                    assert(files.contains_key(f) ==> middle.remove(FileNameEnum::Log)[f]
                        == files.remove(FileNameEnum::Log)[f]);
                }
            }
        },
        _ => {
            reveal_with_fuel(replay, 2);
            assert(replay(files, changes) =~= files_after(files, command, supply));
        },
    }
}

proof fn lemma_replay_log(files: Files)
    ensures
        ({
            let log = contents(files, FileNameEnum::Log);
            let room = (LOG_MAX_LINES - 1) as nat;
            let after = replay(
                files,
                cut_changes(log) + dropped_lines(log_cut(log), room),
            );
            &&& contents(after, FileNameEnum::Log) == log_before(log)
            &&& after.remove(FileNameEnum::Log) == files.remove(FileNameEnum::Log)
        }),
{
    let log = contents(files, FileNameEnum::Log);
    let room = (LOG_MAX_LINES - 1) as nat;
    let first = cut_changes(log);
    let second = dropped_lines(log_cut(log), room);
    law_replay_in_parts(files, first, second);
    reveal_with_fuel(replay, 2);
    let middle = replay(files, first);
    assert(contents(middle, FileNameEnum::Log) == log_cut(log));
    assert(middle.remove(FileNameEnum::Log) =~= files.remove(FileNameEnum::Log));
    let after = replay(middle, second);
    assert(after.remove(FileNameEnum::Log) =~= middle.remove(FileNameEnum::Log));
}

/// Whether the card holds the database of the given users.
pub open spec fn stores(files: Files, users: Seq<(u64, Seq<char>)>) -> bool {
    &&& valid_utf8(contents(files, FileNameEnum::Users))
    &&& users_text(files) == database(users)
    &&& plain_names(users)
}

/// A user who is added is known at once, where there is room in the list, and stays known
/// until the user is removed.
pub proof fn law_added_user_is_known(
    users: Seq<(u64, Seq<char>)>,
    card: u32,
    id: u64,
    next: Command,
    supply: Supply,
)
    ensures
        users.len() < 32 ==> in_list(
            users_after(users, Command::AddUser { id: card }, Supply::HashedId { id }),
            id,
        ),
        in_list(users, id) && next != (Command::RemoveUser { id }) && next !is RemoveAllUsers
            ==> in_list(users_after(users, next, supply), id),
{
    lemma_in_list_push(users, (id, "NULL"@), id);
    match (next, supply) {
        (Command::AddUser { .. }, Supply::HashedId { id: new }) => {
            lemma_in_list_push(users, (new, "NULL"@), id);
        },
        (Command::RemoveUser { id: gone }, _) => {
            lemma_filtered(users, gone, id);
        },
        (Command::UpdateUser { id: given, name }, _) => {
            lemma_in_list_renamed(users, given, name@, id);
        },
        _ => {},
    }
}

/// A user who is removed is not known any more, and after all users were removed, nobody is.
pub proof fn law_removed_user_is_unknown(
    users: Seq<(u64, Seq<char>)>,
    id: u64,
    other: u64,
    supply: Supply,
)
    ensures
        in_list(users_after(users, Command::RemoveUser { id }, supply), other) == (other != id
            && in_list(users, other)),
        !in_list(users_after(users, Command::RemoveAllUsers, supply), other),
{
    lemma_filtered(users, id, other);
}

/// A user who is removed in the panel is not known any more, and is not on the card any more;
/// all others still are.
pub proof fn law_panel_removal_reaches_the_card(
    files: Files,
    users: Seq<(u64, Seq<char>)>,
    id: u64,
    other: u64,
)
    requires
        in_list(users, id),
    ensures
        ({
            let command = removal(users, id);
            let after = files_after(files, command->Some_0, Supply::Nothing);
            let list = users_after(users_removed(users, id), command->Some_0, Supply::Nothing);
            &&& command is Some
            &&& !holds_user(users_text(after), id)
            &&& !in_list(list, id)
            &&& other != id ==> holds_user(users_text(after), other) == holds_user(
                users_text(files),
                other,
            )
            &&& other != id ==> in_list(list, other) == in_list(users, other)
        }),
{
    lemma_position(users, id);
    law_user_removed_from_card_is_absent(files, id, id);
    law_user_removed_from_card_is_absent(files, id, other);
    let left = users_removed(users, id);
    lemma_filtered(left, id, id);
    lemma_filtered(left, id, other);
    let p = position(users, id) as int;
    let last = users.len() - 1;
    assert forall|i: int| 0 <= i < left.len() implies left[i] == (if i == p {
        users[last]
    } else {
        users[i]
    }) by {}
    if in_list(users, other) && other != id {
        let i = choose|i: int| 0 <= i < users.len() && (#[trigger] users[i]).0 == other;
        if i == last {
            assert(left[p].0 == other);
        } else {
            assert(left[i].0 == other);
        }
    }
    if in_list(left, other) {
        let i = choose|i: int| 0 <= i < left.len() && (#[trigger] left[i]).0 == other;
        if i == p {
            assert(users[last].0 == other);
        } else {
            assert(users[i].0 == other);
        }
    }
}

/// A user who is given a new name in the panel, which is one line, is listed under it from the
/// card, and all others are listed as before.
pub proof fn law_panel_rename_reaches_the_card(
    files: Files,
    all: Seq<(u64, Seq<char>)>,
    users: Seq<(u64, Seq<char>)>,
    id: u64,
    name: Seq<char>,
    command: Option<Command>,
)
    requires
        stores(files, all),
        plain_name(name),
        is_update(command, users, id, name),
        command is Some,
    ensures
        ({
            let after = files_after(files, command->Some_0, Supply::Nothing);
            &&& stores(after, renamed(all, id, name))
            &&& listed_users(users_text(after)) == renamed(all, id, name)
        }),
{
    match command {
        Some(Command::UpdateUser { id: given, name: new }) => {
            law_renamed_user_is_listed_after_restart(files, all, given, new);
        },
        _ => {},
    }
}

/// A keycard that was added is listed behind the users who were there, and its user is known
/// after a restart too, where there were fewer than 32 users.
pub proof fn law_added_user_is_known_after_restart(
    files: Files,
    users: Seq<(u64, Seq<char>)>,
    card: u32,
    id: u64,
)
    requires
        stores(files, users),
    ensures
        ({
            let after = files_after(files, Command::AddUser { id: card }, Supply::HashedId { id });
            let all = users.push((id, "NULL"@));
            &&& stores(after, all)
            &&& listed_users(users_text(after)) == all
            &&& users.len() < 32 ==> in_list(first_users(listed_users(users_text(after))), id)
        }),
{
    let name = "NULL"@;
    reveal_strlit("NULL");
    let all = users.push((id, name));
    law_appended_text_is_read_behind(contents(files, FileNameEnum::Users), user_entry(id, name));
    law_database_add(users, id, name);
    assert(plain_names(all)) by {
        assert forall|i: int| 0 <= i < all.len() implies plain_name(#[trigger] all[i].1) by {
            if i < users.len() {
                assert(all[i] == users[i]);
            }
        }
    }
    law_listing_a_database(all);
    assert(all[users.len() as int].0 == id);
}

/// A user who was removed is not listed after a restart, and all others still are.
pub proof fn law_removed_user_is_unknown_after_restart(
    files: Files,
    users: Seq<(u64, Seq<char>)>,
    id: u64,
    other: u64,
)
    requires
        stores(files, users),
    ensures
        ({
            let after = files_after(files, Command::RemoveUser { id }, Supply::Nothing);
            let left = users.filter(|u: (u64, Seq<char>)| u.0 != id);
            &&& stores(after, left)
            &&& listed_users(users_text(after)) == left
            &&& in_list(left, other) == (other != id && in_list(users, other))
        }),
{
    let left = users.filter(|u: (u64, Seq<char>)| u.0 != id);
    law_database_remove(users, id);
    law_written_text_is_read_back(without_user(users_text(files), id));
    lemma_filtered(users, id, other);
    lemma_filtered_plain(users, id);
    law_listing_a_database(left);
}

proof fn lemma_filtered(users: Seq<(u64, Seq<char>)>, id: u64, other: u64)
    ensures
        in_list(users.filter(|u: (u64, Seq<char>)| u.0 != id), other) == (other != id && in_list(
            users,
            other,
        )),
    decreases users.len(),
{
    reveal(Seq::filter);
    let p = |u: (u64, Seq<char>)| u.0 != id;
    if users.len() > 0 {
        let front = users.drop_last();
        let last = users.last();
        lemma_filtered(front, id, other);
        lemma_in_list_push(front, last, other);
        assert(front.push(last) =~= users);
        if p(last) {
            lemma_in_list_push(front.filter(p), last, other);
        }
    }
}

proof fn lemma_filtered_plain(users: Seq<(u64, Seq<char>)>, id: u64)
    requires
        plain_names(users),
    ensures
        plain_names(users.filter(|u: (u64, Seq<char>)| u.0 != id)),
    decreases users.len(),
{
    reveal(Seq::filter);
    let p = |u: (u64, Seq<char>)| u.0 != id;
    let left = users.filter(p);
    if users.len() > 0 {
        let front = users.drop_last();
        assert forall|i: int| 0 <= i < front.len() implies plain_name(#[trigger] front[i].1) by {
            assert(plain_name(users[i].1));
        }
        lemma_filtered_plain(front, id);
        assert(plain_name(users[users.len() - 1].1));
        if p(users.last()) {
            assert forall|i: int| 0 <= i < left.len() implies plain_name(#[trigger] left[i].1) by {
                if i < left.len() - 1 {
                    assert(left[i] == front.filter(p)[i]);
                }
            }
        }
    }
}

proof fn lemma_in_list_push(users: Seq<(u64, Seq<char>)>, user: (u64, Seq<char>), id: u64)
    ensures
        in_list(users.push(user), id) == (in_list(users, id) || user.0 == id),
{
    let all = users.push(user);
    if in_list(users, id) {
        let i = choose|i: int| 0 <= i < users.len() && (#[trigger] users[i]).0 == id;
        assert(all[i].0 == id);
    }
    if user.0 == id {
        assert(all[users.len() as int].0 == id);
    }
}

proof fn lemma_in_list_renamed(users: Seq<(u64, Seq<char>)>, id: u64, name: Seq<char>, other: u64)
    ensures
        in_list(renamed(users, id, name), other) == in_list(users, other),
{
    let all = renamed(users, id, name);
    if in_list(users, other) {
        let i = choose|i: int| 0 <= i < users.len() && (#[trigger] users[i]).0 == other;
        assert(all[i].0 == other);
    }
    if in_list(all, other) {
        let i = choose|i: int| 0 <= i < all.len() && (#[trigger] all[i]).0 == other;
        assert(users[i].0 == other);
    }
}

/// A user who was given a new name, which is one line, is listed under it after a restart, and
/// all others are listed as before.
pub proof fn law_renamed_user_is_listed_after_restart(
    files: Files,
    users: Seq<(u64, Seq<char>)>,
    id: u64,
    name: String,
)
    requires
        stores(files, users),
        plain_name(name@),
    ensures
        ({
            let after = files_after(files, Command::UpdateUser { id, name }, Supply::Nothing);
            &&& stores(after, renamed(users, id, name@))
            &&& listed_users(users_text(after)) == renamed(users, id, name@)
        }),
{
    let all = renamed(users, id, name@);
    law_database_holds(users, id);
    if holds_user(users_text(files), id) {
        law_database_rename(users, id, name@);
        law_written_text_is_read_back(with_name(users_text(files), id, name@));
        assert forall|i: int| 0 <= i < all.len() implies plain_name(#[trigger] all[i].1) by {
            assert(plain_name(users[i].1));
        }
    } else {
        assert forall|i: int| 0 <= i < all.len() implies all[i] == users[i] by {
            assert(users[i].0 != id);
        }
        assert(all =~= users);
    }
    law_listing_a_database(all);
}

/// The list in memory follows the card: where both hold the same users before a command, of
/// which there are fewer than 32, they do so after it.
pub proof fn law_list_follows_the_card(
    files: Files,
    all: Seq<(u64, Seq<char>)>,
    users: Seq<(u64, Seq<char>)>,
    command: Command,
    supply: Supply,
    id: u64,
)
    requires
        stores(files, all),
        users.len() < 32,
        in_list(users, id) == in_list(all, id),
        supplies(command, supply),
        command matches Command::UpdateUser { name, .. } ==> plain_name(name@),
    ensures
        in_list(users_after(users, command, supply), id) == in_list(
            listed_users(users_text(files_after(files, command, supply))),
            id,
        ),
{
    law_listing_a_database(all);
    match (command, supply) {
        (Command::AddUser { id: card }, Supply::HashedId { id: new }) => {
            law_added_user_is_known_after_restart(files, all, card, new);
            lemma_in_list_push(users, (new, "NULL"@), id);
            lemma_in_list_push(all, (new, "NULL"@), id);
        },
        (Command::RemoveUser { id: gone }, _) => {
            law_removed_user_is_unknown_after_restart(files, all, gone, id);
            lemma_filtered(users, gone, id);
        },
        (Command::UpdateUser { id: given, name }, _) => {
            law_renamed_user_is_listed_after_restart(files, all, given, name);
            lemma_in_list_renamed(users, given, name@, id);
            lemma_in_list_renamed(all, given, name@, id);
        },
        (Command::RemoveAllUsers, _) => {
            let none = Seq::<(u64, Seq<char>)>::empty();
            law_listing_a_database(none);
            law_written_text_is_read_back(database(none));
            assert(database(none) =~= Seq::<char>::empty());
            assert(encode_utf8(database(none)) =~= Seq::<u8>::empty());
        },
        _ => {
            assert(contents(files_after(files, command, supply), FileNameEnum::Users) == contents(
                files,
                FileNameEnum::Users,
            ));
        },
    }
}

/// A command leaves the names on the card short enough to be listed, where a name that it gives
/// is short and one line. The database is UTF-8 and made of whole lines, as the storage writes
/// it.
pub proof fn law_names_stay_short(files: Files, command: Command, supply: Supply)
    requires
        valid_utf8(contents(files, FileNameEnum::Users)),
        whole_lines(users_text(files)),
        names_fit(users_text(files)),
        supplies(command, supply),
        command matches Command::UpdateUser { name, .. } ==> one_line(name@)
            && name_fits(name@),
    ensures
        ({
            let after = files_after(files, command, supply);
            &&& valid_utf8(contents(after, FileNameEnum::Users))
            &&& whole_lines(users_text(after))
            &&& names_fit(users_text(after))
        }),
{
    let text = users_text(files);
    match (command, supply) {
        (Command::AddUser { .. }, Supply::HashedId { id }) => {
            let name = "NULL"@;
            reveal_strlit("NULL");
            assert(name_fits(name)) by {
                vstd::utf8::is_ascii_chars_encode_utf8(name);
            }
            law_appended_text_is_read_behind(
                contents(files, FileNameEnum::Users),
                user_entry(id, name),
            );
            law_adding_keeps_names_short(text, id, name);
        },
        (Command::RemoveUser { id }, _) => {
            law_written_text_is_read_back(without_user(text, id));
            law_edits_keep_names_short(text, id, seq![]);
        },
        (Command::UpdateUser { id, name }, _) => {
            law_written_text_is_read_back(with_name(text, id, name@));
            law_edits_keep_names_short(text, id, name@);
        },
        (Command::RemoveAllUsers, _) => {
            law_written_text_is_read_back(seq![]);
            assert(encode_utf8(Seq::<char>::empty()) =~= Seq::<u8>::empty());
        },
        _ => {
            assert(contents(files_after(files, command, supply), FileNameEnum::Users) == contents(
                files,
                FileNameEnum::Users,
            ));
        },
    }
}

proof fn lemma_decimal_size(n: nat, digits: nat)
    requires
        digits > 0,
        n < pow(10, digits),
    ensures
        decimal(n).len() <= digits,
    decreases digits,
{
    reveal(pow);
    if n >= 10 {
        if digits == 1 {
            assert(pow(10, 1) == 10) by {
                reveal_with_fuel(pow, 2);
            }
        } else {
            lemma_decimal_size(n / 10, (digits - 1) as nat);
        }
    }
}

/// When a user opens the door, that is the last line of the log that the panel shows, and the
/// log has at most 128 lines. The log is UTF-8, and the time stamp is one line of at most 15
/// characters, as the clock gives it.
pub proof fn law_access_is_shown(files: Files, logs: Seq<char>, id: u64, response: Option<String>)
    requires
        valid_utf8(contents(files, FileNameEnum::Log)),
        one_line(stamp_of(response)),
        stamp_of(response).len() <= 15,
    ensures
        ({
            let command = Command::LogUser { id };
            let after = files_after(files, command, Supply::Stamp { response });
            let line = access_line(id, response);
            let shown = logs_after(logs, after, command);
            &&& valid_utf8(contents(after, FileNameEnum::Log))
            &&& shown.len() >= line.len()
            &&& shown.skip(shown.len() - line.len()) == line
            &&& lines(file_text(contents(after, FileNameEnum::Log))).len() <= 128
        }),
{
    let stamp = stamp_of(response);
    let line = access_line(id, response);
    let message = access_message(id);
    let front = stamp.push(' ') + message;
    reveal_strlit("Accessed: ");
    lemma_decimal(id as nat);
    assert(pow(10, 20) == 100_000_000_000_000_000_000) by {
        reveal_with_fuel(pow, 21);
    }
    lemma_decimal_size(id as nat, 20);
    assert(line =~= front.push('\n'));
    assert forall|j: int| 0 <= j < front.len() implies front[j] != '\n' by {
        let k = j - stamp.len() - 1;
        if j < stamp.len() {
            assert(front[j] == stamp[j]);
        } else if k >= 10 {
            assert(front[j] == decimal(id as nat)[k - 10]);
            assert(is_digit(decimal(id as nat)[k - 10]));
        } else if k >= 0 {
            assert(front[j] == "Accessed: "@[k]);
        }
    }
    law_logged_line_is_shown(files, line);
    law_log_keeps_128_lines(contents(files, FileNameEnum::Log), front);
}

/// A keycard that is presented in "add mode" opens the door from then on, whatever function
/// hashes the ids, where there were fewer than 32 users: the door sends a command that adds it,
/// it is asked for under the id that was stored, it is known at once and after a restart, and
/// the door opens.
pub proof fn law_added_card_opens_the_door(
    files: Files,
    all: Seq<(u64, Seq<char>)>,
    users: Seq<(u64, Seq<char>)>,
    hash: spec_fn(u32) -> u64,
    code: u64,
    tapped: u64,
    on: AddMode,
    now: u64,
    mode: AddMode,
)
    requires
        stores(files, all),
        all.len() < 32,
        users.len() < 32,
        on.active(tapped),
        !mode.active(now),
    ensures
        ({
            let sent = door_step(DoorState::Idle, on, DoorEvent::Card { code, now: tapped }).1[0];
            let command = sent->command;
            let card = command->AddUser_id;
            let id = hash(card);
            let after = files_after(files, command, Supply::HashedId { id });
            let known = in_list(users_after(users, command, Supply::HashedId { id }), id);
            let later = in_list(first_users(listed_users(users_text(after))), id);
            let presented = door_step(DoorState::Idle, mode, DoorEvent::Card { code, now }).0;
            let hashing = door_step(presented, mode, DoorEvent::Sensor { high: true }).0;
            let (asking, question) = door_step(hashing, mode, DoorEvent::Hashed { id });
            &&& sent is Send
            &&& command is AddUser
            &&& hashing.needs() == DoorNeed::Hash { id: card }
            &&& question == seq![DoorAction::Send { command: Command::IsUser { id } }]
            &&& known
            &&& later
            &&& opens(door_step(asking, mode, DoorEvent::Answer { known }).1)
            &&& opens(door_step(asking, mode, DoorEvent::Answer { known: later }).1)
        }),
{
    let card = user_part(code);
    let id = hash(card);
    law_added_user_is_known(users, card, id, Command::AddUserMode, Supply::Nothing);
    law_added_user_is_known_after_restart(files, all, card, id);
    let asking = DoorState::Asking { id };
    law_door_opens_for_known_users_only(asking, mode, DoorEvent::Answer { known: true });
}

/// A keycard whose user is not known does not open the door.
pub proof fn law_unknown_card_does_not_open_the_door(
    users: Seq<(u64, Seq<char>)>,
    id: u64,
    mode: AddMode,
)
    requires
        !in_list(users, id),
    ensures
        ({
            let known = in_list(users, id);
            let actions = door_step(
                DoorState::Asking { id },
                mode,
                DoorEvent::Answer { known },
            ).1;
            &&& !opens(actions)
            &&& actions == denied()
        }),
{
    law_door_opens_for_known_users_only(
        DoorState::Asking { id },
        mode,
        DoorEvent::Answer { known: false },
    );
}

/// What is hashed for a command is the id or the password that the command carries, so keycards
/// with different ids are hashed apart, and nothing is hashed for any other command.
pub proof fn law_hash_is_asked_for_what_the_command_carries(command: Command, need: Need)
    requires
        is_need(command, need),
    ensures
        match need {
            Need::HashedId { id } => command == (Command::AddUser { id }),
            Need::HashedPassword { password } => command matches Command::SetPassword {
                password: entered,
            } && entered@ == password@,
            Need::Now => command is AddUserMode,
            Need::Stamp => command is LogUser,
            Need::Nothing => command !is AddUser && command !is SetPassword && command !is LogUser
                && command !is AddUserMode,
        },
{
}

/// The line that is logged when a user opens the door shows the time stamp and names the user:
/// behind `Accessed: `, up to the line feed at its end, stands the number of the user. So the
/// lines of different users differ.
pub proof fn law_logged_line_names_the_user(files: Files, id: u64, other: u64, response: Option<String>)
    ensures
        ({
            let after = files_after(files, Command::LogUser { id }, Supply::Stamp { response });
            let others = files_after(
                files,
                Command::LogUser { id: other },
                Supply::Stamp { response },
            );
            let before = log_before(contents(files, FileNameEnum::Log));
            let log = contents(after, FileNameEnum::Log);
            let line = decode_utf8(log.skip(before.len() as int));
            let stamp = match response {
                Some(date) => date@,
                None => Seq::<char>::empty(),
            };
            let n = stamp.len() as int;
            let number = line.subrange(n + 11, line.len() - 1);
            &&& log.take(before.len() as int) == before
            &&& valid_utf8(log.skip(before.len() as int))
            &&& line.len() > n + 12
            &&& line.take(n) == stamp
            &&& line.subrange(n, n + 11) == " Accessed: "@
            &&& line.last() == '\n'
            &&& parsed_u64(number) == Some(id)
            &&& forall|i: int| 0 <= i < number.len() ==> '0' <= #[trigger] number[i] && number[i] <= '9'
            &&& (after == others) == (id == other)
        }),
{
    lemma_logged_line(files, id, response);
    lemma_logged_line(files, other, response);
}

proof fn lemma_logged_line(files: Files, id: u64, response: Option<String>)
    ensures
        ({
            let after = files_after(files, Command::LogUser { id }, Supply::Stamp { response });
            let before = log_before(contents(files, FileNameEnum::Log));
            let log = contents(after, FileNameEnum::Log);
            let line = decode_utf8(log.skip(before.len() as int));
            let n = stamp_of(response).len() as int;
            let number = line.subrange(n + 11, line.len() - 1);
            &&& log.take(before.len() as int) == before
            &&& valid_utf8(log.skip(before.len() as int))
            &&& line.len() > n + 12
            &&& line.take(n) == stamp_of(response)
            &&& line.subrange(n, n + 11) == " Accessed: "@
            &&& line.last() == '\n'
            &&& parsed_u64(number) == Some(id)
            &&& forall|i: int| 0 <= i < number.len() ==> '0' <= #[trigger] number[i] && number[i] <= '9'
        }),
{
    let line = access_line(id, response);
    let before = log_before(contents(files, FileNameEnum::Log));
    let log = before + encode_utf8(line);
    let stamp = stamp_of(response);
    let n = stamp.len() as int;
    let number = decimal(id as nat);
    assert(log.take(before.len() as int) =~= before);
    assert(log.skip(before.len() as int) =~= encode_utf8(line));
    vstd::utf8::encode_utf8_valid_utf8(line);
    vstd::utf8::encode_utf8_decode_utf8(line);
    lemma_decimal(id as nat);
    lemma_parse_decimal(id);
    reveal_strlit("Accessed: ");
    reveal_strlit(" Accessed: ");
    assert(line.take(n) =~= stamp);
    assert(line.subrange(n, n + 11) =~= " Accessed: "@);
    assert(line.subrange(n + 11, line.len() - 1) =~= number);
    assert forall|i: int| 0 <= i < number.len() implies '0' <= #[trigger] number[i]
        && number[i] <= '9' by {
        assert(is_digit(number[i]));
    }
}

/// A user who is added goes to the end of the list under the name `NULL`, where there are fewer
/// than 32; a full list stays as it is.
pub proof fn law_added_user_goes_to_the_end(users: Seq<(u64, Seq<char>)>, card: u32, id: u64)
    ensures
        ({
            let after = users_after(users, Command::AddUser { id: card }, Supply::HashedId { id });
            &&& users.len() >= 32 ==> after == users
            &&& users.len() < 32 ==> after.len() == users.len() + 1 && after.drop_last() == users
                && after.last().0 == id && after.last().1 == seq!['N', 'U', 'L', 'L']
        }),
{
    reveal_strlit("NULL");
    assert("NULL"@ =~= seq!['N', 'U', 'L', 'L']);
    assert(users.push((id, "NULL"@)).drop_last() =~= users);
}

/// Removing a user takes all rows with the id off the list and keeps the others in order.
pub proof fn law_removal_keeps_the_order(
    users: Seq<(u64, Seq<char>)>,
    row: (u64, Seq<char>),
    id: u64,
    supply: Supply,
)
    ensures
        users_after(users.push(row), Command::RemoveUser { id }, supply) == if row.0 == id {
            users_after(users, Command::RemoveUser { id }, supply)
        } else {
            users_after(users, Command::RemoveUser { id }, supply).push(row)
        },
        users_after(Seq::<(u64, Seq<char>)>::empty(), Command::RemoveUser { id }, supply) == Seq::<
            (u64, Seq<char>),
        >::empty(),
{
    reveal(Seq::filter);
    assert(users.push(row).drop_last() =~= users);
}

/// A new name stands in each row of the list with the id, and all else in the list stays.
pub proof fn law_new_name_reaches_the_list(
    users: Seq<(u64, Seq<char>)>,
    id: u64,
    name: String,
    supply: Supply,
    i: int,
)
    requires
        0 <= i < users.len(),
    ensures
        ({
            let after = users_after(users, Command::UpdateUser { id, name }, supply);
            &&& after.len() == users.len()
            &&& after[i] == if users[i].0 == id {
                (id, name@)
            } else {
                users[i]
            }
        }),
{
}

/// A user who is added, removed or renamed is one change to the card, and so are a new password
/// and the removal of the log or of all users; a name that nobody on the card gets is none.
pub proof fn law_commands_make_one_change(files: Files, command: Command, supply: Supply)
    requires
        supplies(command, supply),
        command !is LogUser,
    ensures
        changes_of(files, command, supply).len() <= 1,
        command is AddUser || command is RemoveUser || command is SetPassword ==> (changes_of(
            files,
            command,
            supply,
        )[0] matches CardChange::Write { overwrite, .. } && overwrite == (command !is AddUser)),
        command is ClearLog || command is RemoveAllUsers ==> changes_of(files, command, supply)[0]
            is Delete,
        command matches Command::UpdateUser { id, .. } ==> (changes_of(files, command, supply).len()
            == 1) == holds_user(users_text(files), id),
        command is RemoveAllUsers ==> !files_after(files, command, supply).contains_key(
            FileNameEnum::Users,
        ),
{
}

/// Commands that do not name users leave the list as it is, those that do not concern the log
/// leave what is shown of it, and none but its own touches "add mode".
pub proof fn law_commands_keep_to_their_own(
    users: Seq<(u64, Seq<char>)>,
    logs: Seq<char>,
    files: Files,
    mode: AddMode,
    command: Command,
    supply: Supply,
)
    ensures
        command is ClearLog || command is AddUserMode || command is IsUser || command is SetPassword
            || command is LogUser ==> users_after(users, command, supply) == users,
        command !is ClearLog && command !is LogUser ==> logs_after(logs, files, command) == logs,
        command !is AddUserMode ==> mode_after(mode, command, supply) == mode,
        command is AddUserMode || command is IsUser ==> files_after(files, command, supply) == files
            && changes_of(files, command, supply).len() == 0,
{
}

/// "Add mode" is active for 20 seconds from the moment at which it is enabled.
pub proof fn law_add_mode_lasts_20_seconds(mode: AddMode, now: u64, later: u64)
    requires
        now <= later,
    ensures
        mode_after(mode, Command::AddUserMode, Supply::Now { now }).active(later) == (later - now
            < 20_000_000),
{
}

/// After the log was cleared there is none on the card and none is shown.
pub proof fn law_cleared_log_is_empty(files: Files, logs: Seq<char>, supply: Supply)
    ensures
        ({
            let after = files_after(files, Command::ClearLog, supply);
            &&& !after.contains_key(FileNameEnum::Log)
            &&& logs_after(logs, after, Command::ClearLog) == Seq::<char>::empty()
        }),
{
    let none = Seq::<char>::empty();
    law_written_text_is_read_back(none);
    assert(encode_utf8(none) =~= Seq::<u8>::empty());
}

/// What is shown of the log after an access is the end of the log on the card.
pub proof fn law_shown_log_follows_the_card(
    files: Files,
    logs: Seq<char>,
    id: u64,
    response: Option<String>,
    front: Seq<char>,
    end: Seq<char>,
)
    requires
        contents(
            files_after(files, Command::LogUser { id }, Supply::Stamp { response }),
            FileNameEnum::Log,
        ) == encode_utf8(front + end),
        end.len() == 1024 || (end.len() < 1024 && front.len() == 0),
    ensures
        logs_after(
            logs,
            files_after(files, Command::LogUser { id }, Supply::Stamp { response }),
            Command::LogUser { id },
        ) == end,
{
    law_last_characters_stand_at_the_end(front, end, 1024);
    if front.len() == 0 {
        assert(front + end =~= end);
    }
}

/// The password file holds the digest of the new password, in two hexadecimal digits for each
/// byte.
pub proof fn law_new_digest_is_on_the_card(files: Files, password: String, hash: [u8; 32], i: int)
    requires
        0 <= i < 32,
    ensures
        ({
            let text = password_text(
                files_after(
                    files,
                    Command::SetPassword { password },
                    Supply::HashedPassword { hash },
                ),
            );
            let value = |c: char|
                if '0' <= c <= '9' {
                    c as int - 48
                } else {
                    c as int - 87
                };
            &&& text == hex(hash@)
            &&& text.len() == 64
            &&& 16 * value(text[2 * i]) + value(text[2 * i + 1]) == hash@[i]
        }),
{
    law_written_text_is_read_back(hex(hash@));
    law_hex_shows_the_bytes(hash@, i);
}

} // verus!
