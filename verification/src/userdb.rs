//! The text of the user database: one line `id:name` for each user, where the id is the
//! decimal form of the hashed keycard id.
use crate::net::{name_fits, UserInfo, MAX_NAME};
use crate::roster::{roster, roster_new, roster_push, rows};
use crate::sd::lemma_encode_append;
use crate::text::{
    copy_range, decimal, find, find_from, from_chars, is_digit, lemma_decimal,
    lemma_decimal_injective, lemma_find, lemma_find_is, lemma_lines_append,
    lemma_lines_have_no_break, lemma_lines_of_line, lemma_lines_of_unlines, lemma_parse_decimal,
    lemma_unlines_whole, lines, one_line, parse_u64, parsed_u64, split_lines, split_once, strip_cr,
    unlines, views, whole_lines, write_decimal,
};
use vstd::prelude::*;

verus! {

/// The line of a user, without its ending.
pub open spec fn user_line(id: u64, name: Seq<char>) -> Seq<char> {
    decimal(id as nat) + seq![':'] + name
}

/// The line of a user with its ending.
pub open spec fn user_entry(id: u64, name: Seq<char>) -> Seq<char> {
    user_line(id, name).push('\n')
}

/// What a line holds before its first colon.
pub open spec fn line_id(line: Seq<char>) -> Option<Seq<char>> {
    match split_once(line, ':') {
        Some((id, _)) => Some(id),
        None => None,
    }
}

/// Whether a line is that of the user with the given id.
pub open spec fn is_line_of(line: Seq<char>, id: u64) -> bool {
    line_id(line) == Some(decimal(id as nat))
}

/// Whether a database holds a user.
pub open spec fn holds_user(text: Seq<char>, id: u64) -> bool {
    exists|i: int| 0 <= i < lines(text).len() && is_line_of(#[trigger] lines(text)[i], id)
}

/// A line that stays when a user is removed: one with an id, and with another one.
pub open spec fn line_unless(line: Seq<char>, id: u64) -> Option<Seq<char>> {
    if line_id(line) is Some && !is_line_of(line, id) {
        Some(line)
    } else {
        None
    }
}

/// A database after a user was removed.
pub open spec fn without_user(text: Seq<char>, id: u64) -> Seq<char> {
    unlines(lines(text).filter_map(|l: Seq<char>| line_unless(l, id)))
}

/// A line after a user was given a new name; one without an id goes.
pub open spec fn line_renamed(line: Seq<char>, id: u64, name: Seq<char>) -> Option<Seq<char>> {
    if line_id(line) is None {
        None
    } else if is_line_of(line, id) {
        Some(user_line(id, name))
    } else {
        Some(line)
    }
}

/// A database after a user was given a new name.
pub open spec fn with_name(text: Seq<char>, id: u64, name: Seq<char>) -> Seq<char> {
    unlines(lines(text).filter_map(|l: Seq<char>| line_renamed(l, id, name)))
}

/// The user that a line describes: one whose id is a number.
pub open spec fn line_user(line: Seq<char>) -> Option<(u64, Seq<char>)> {
    match split_once(line, ':') {
        Some((id, name)) => match parsed_u64(id) {
            Some(n) => Some((n, name)),
            None => None,
        },
        None => None,
    }
}

/// The users that a database describes, in order.
pub open spec fn listed_users(text: Seq<char>) -> Seq<(u64, Seq<char>)> {
    lines(text).filter_map(|l: Seq<char>| line_user(l))
}

/// Whether the names of all listed users are short enough.
pub open spec fn names_fit(text: Seq<char>) -> bool {
    forall|i: int|
        0 <= i < lines(text).len() ==> (line_user(#[trigger] lines(text)[i]) matches Some(u)
            ==> name_fits(u.1))
}

/// The first `MAX_USERS` of a list.
pub open spec fn first_users(all: Seq<(u64, Seq<char>)>) -> Seq<(u64, Seq<char>)> {
    if all.len() <= 32 {
        all
    } else {
        all.take(32)
    }
}

/// Whether two texts are equal.
fn same(a: &[char], b: &[char]) -> (r: bool)
    ensures
        r == (a@ == b@),
{
    if a.len() != b.len() {
        return false;
    }
    for i in 0..a.len()
        invariant
            a@.len() == b@.len(),
            forall|j: int| 0 <= j < i ==> a@[j] == b@[j],
    {
        if a[i] != b[i] {
            return false;
        }
    }
    assert(a@ =~= b@);
    true
}

/// Splits a line at its first colon.
fn split_line(line: &[char]) -> (r: Option<(Vec<char>, Vec<char>)>)
    ensures
        match r {
            Some((id, name)) => split_once(line@, ':') == Some((id@, name@)),
            None => split_once(line@, ':') is None,
        },
{
    assert(line@.skip(0) =~= line@);
    let i = find_from(line, 0, ':');
    if i == line.len() {
        None
    } else {
        let id = copy_range(line, 0, i);
        let name = copy_range(line, i + 1, line.len());
        assert(id@ =~= line@.take(i as int));
        assert(name@ =~= line@.skip(i + 1));
        Some((id, name))
    }
}

/// Puts a line and its ending at the end of a text.
fn push_line(out: &mut Vec<char>, line: &[char])
    ensures
        final(out)@ == old(out)@ + line@.push('\n'),
{
    let ghost before = out@;
    for i in 0..line.len()
        invariant
            out@ == before + line@.take(i as int),
    {
        out.push(line[i]);
    }
    out.push('\n');
    assert(out@ =~= before + line@.push('\n'));
}

/// Makes the line of a user.
pub fn make_line(id: u64, name: &[char]) -> (line: Vec<char>)
    ensures
        line@ == user_line(id, name@),
{
    let mut line = write_decimal(id);
    line.push(':');
    let ghost before = line@;
    for i in 0..name.len()
        invariant
            line@ == before + name@.take(i as int),
    {
        line.push(name[i]);
    }
    assert(line@ =~= user_line(id, name@));
    line
}

/// Looks a user up.
pub fn find_user(text: &[char], id: u64) -> (r: bool)
    ensures
        r == holds_user(text@, id),
{
    let id_str = write_decimal(id);
    let ls = split_lines(text);
    for i in 0..ls.len()
        invariant
            views(ls@) == lines(text@),
            id_str@ == decimal(id as nat),
            forall|j: int| 0 <= j < i ==> !is_line_of(#[trigger] lines(text@)[j], id),
    {
        assert(lines(text@)[i as int] == ls@[i as int]@);
        if let Some((line_id, _)) = split_line(ls[i].as_slice()) {
            if same(line_id.as_slice(), id_str.as_slice()) {
                return true;
            }
        }
    }
    assert(views(ls@).len() == ls@.len());
    false
}

/// Removes a user.
pub fn drop_user(text: &[char], id: u64) -> (r: Vec<char>)
    ensures
        r@ == without_user(text@, id),
{
    let id_str = write_decimal(id);
    let ls = split_lines(text);
    let ghost all = lines(text@);
    let ghost f = |l: Seq<char>| line_unless(l, id);
    let mut out: Vec<char> = Vec::new();
    for i in 0..ls.len()
        invariant
            views(ls@) == all,
            ls@.len() == all.len(),
            f == (|l: Seq<char>| line_unless(l, id)),
            id_str@ == decimal(id as nat),
            out@ == unlines(all.take(i as int).filter_map(f)),
    {
        let ghost before = all.take(i as int).filter_map(f);
        proof {
            all.lemma_filter_map_take_succ(f, i as int);
        }
        let line = &ls[i];
        assert(line@ == all[i as int]);
        if let Some((line_id, _)) = split_line(line.as_slice()) {
            if !same(line_id.as_slice(), id_str.as_slice()) {
                push_line(&mut out, line.as_slice());
                assert(f(line@) == Some(line@));
                assert((before + seq![line@]).drop_last() =~= before);
            }
        }
    }
    assert(all.take(ls@.len() as int) =~= all);
    out
}

/// Gives a user a new name. Says whether there is such a user.
pub fn rename_user(text: &[char], id: u64, name: &[char]) -> (r: (Vec<char>, bool))
    ensures
        r.0@ == with_name(text@, id, name@),
        r.1 == holds_user(text@, id),
{
    let id_str = write_decimal(id);
    let ls = split_lines(text);
    let ghost all = lines(text@);
    let ghost f = |l: Seq<char>| line_renamed(l, id, name@);
    let mut out: Vec<char> = Vec::new();
    let mut found = false;
    for i in 0..ls.len()
        invariant
            views(ls@) == all,
            ls@.len() == all.len(),
            f == (|l: Seq<char>| line_renamed(l, id, name@)),
            id_str@ == decimal(id as nat),
            out@ == unlines(all.take(i as int).filter_map(f)),
            found == (exists|j: int| 0 <= j < i && is_line_of(#[trigger] all[j], id)),
    {
        let ghost before = all.take(i as int).filter_map(f);
        proof {
            all.lemma_filter_map_take_succ(f, i as int);
        }
        let line = &ls[i];
        assert(line@ == all[i as int]);
        if let Some((line_id, _)) = split_line(line.as_slice()) {
            if same(line_id.as_slice(), id_str.as_slice()) {
                let new_line = make_line(id, name);
                push_line(&mut out, new_line.as_slice());
                found = true;
                assert(f(line@) == Some(new_line@));
                assert((before + seq![new_line@]).drop_last() =~= before);
                assert(is_line_of(all[i as int], id));
            } else {
                push_line(&mut out, line.as_slice());
                assert(f(line@) == Some(line@));
                assert((before + seq![line@]).drop_last() =~= before);
            }
        }
    }
    assert(all.take(ls@.len() as int) =~= all);
    (out, found)
}

/// Whether a name is short enough for a user.
fn fits(name: &String) -> (r: bool)
    ensures
        r == name_fits(name@),
{
    name.as_str().as_bytes().len() <= MAX_NAME
}

/// Whether the names of all listed users are short enough.
pub fn check_names(text: &[char]) -> (r: bool)
    ensures
        r == names_fit(text@),
{
    let ls = split_lines(text);
    for i in 0..ls.len()
        invariant
            views(ls@) == lines(text@),
            forall|j: int|
                0 <= j < i ==> (line_user(#[trigger] lines(text@)[j]) matches Some(u)
                    ==> name_fits(u.1)),
    {
        assert(lines(text@)[i as int] == ls@[i as int]@);
        if let Some((id_str, name)) = split_line(ls[i].as_slice()) {
            if parse_u64(id_str.as_slice()).is_some() {
                let name = from_chars(name.as_slice());
                if !fits(&name) {
                    return false;
                }
            }
        }
    }
    assert(views(ls@).len() == ls@.len());
    true
}

/// Lists the users of a database, the first 32 of them.
pub fn read_users(text: &[char]) -> (users: heapless::Vec<UserInfo, 32>)
    requires
        names_fit(text@),
    ensures
        rows(users) == first_users(listed_users(text@)),
        forall|i: int| 0 <= i < rows(users).len() ==> name_fits(#[trigger] rows(users)[i].1),
{
    let ls = split_lines(text);
    let ghost all = lines(text@);
    let ghost f = |l: Seq<char>| line_user(l);
    let mut users = roster_new();
    assert(rows(users) =~= Seq::<(u64, Seq<char>)>::empty());
    for i in 0..ls.len()
        invariant
            names_fit(text@),
            all == lines(text@),
            views(ls@) == all,
            ls@.len() == all.len(),
            f == (|l: Seq<char>| line_user(l)),
            rows(users) == first_users(all.take(i as int).filter_map(f)),
            rows(users).len() == roster(users).len(),
            forall|j: int| 0 <= j < rows(users).len() ==> name_fits(#[trigger] rows(users)[j].1),
    {
        let ghost before = all.take(i as int).filter_map(f);
        proof {
            all.lemma_filter_map_take_succ(f, i as int);
        }
        let line = &ls[i];
        assert(line@ == all[i as int]);
        if let Some((id_str, name)) = split_line(line.as_slice()) {
            if let Some(id) = parse_u64(id_str.as_slice()) {
                let user = UserInfo { id, name: from_chars(name.as_slice()) };
                let ghost old_rows = rows(users);
                assert(line_user(all[i as int]) == Some(user@));
                assert(name_fits(user@.1));
                let pushed = roster_push(&mut users, user);
                proof {
                    if pushed is Ok {
                        assert(rows(users) =~= old_rows.push(user@));
                        assert(first_users(before + seq![user@]) =~= first_users(before).push(user@));
                    } else {
                        assert(rows(users) =~= old_rows);
                        assert(first_users(before + seq![user@]) =~= first_users(before));
                    }
                }
            }
        }
    }
    assert(all.take(ls@.len() as int) =~= all);
    users
}

/// A user's line splits into the id and the name.
pub proof fn lemma_user_line(id: u64, name: Seq<char>)
    ensures
        split_once(user_line(id, name), ':') == Some((decimal(id as nat), name)),
        line_id(user_line(id, name)) == Some(decimal(id as nat)),
        line_user(user_line(id, name)) == Some((id, name)),
        strip_cr(user_line(id, name)) == user_line(id, strip_cr(name)),
        one_line(name) ==> one_line(user_line(id, name)),
{
    let d = decimal(id as nat);
    let line = user_line(id, name);
    lemma_decimal(id as nat);
    lemma_parse_decimal(id);
    assert forall|j: int| 0 <= j < d.len() implies line[j] != ':' && line[j] != '\n' by {
        assert(is_digit(d[j]));
        assert(line[j] == d[j]);
    }
    lemma_find_is(line, ':', d.len() as int);
    assert(line.take(d.len() as int) =~= d);
    assert(line.skip(d.len() as int + 1) =~= name);
    if name.len() > 0 {
        assert(line.last() == name.last());
        assert(line.drop_last() =~= user_line(id, name.drop_last()));
    } else {
        assert(line.last() == ':');
    }
    if one_line(name) {
        assert forall|j: int| 0 <= j < line.len() implies line[j] != '\n' by {
            if j > d.len() {
                assert(line[j] == name[j - d.len() - 1]);
            }
        }
    }
}

/// A carriage return at the end of a line does not belong to its id.
proof fn lemma_strip_cr_keeps_id(line: Seq<char>)
    requires
        line_id(line) is Some,
    ensures
        line_id(strip_cr(line)) == line_id(line),
{
    lemma_find(line, ':');
    let i = find(line, ':') as int;
    let t = strip_cr(line);
    assert(i < t.len());
    lemma_find_is(t, ':', i);
    assert(t.take(i) =~= line.take(i));
}

/// A user who was added behind whole lines is in the database, which still is made of whole
/// lines.
pub proof fn law_added_user_is_present(text: Seq<char>, id: u64, name: Seq<char>)
    requires
        whole_lines(text),
    ensures
        holds_user(text + user_entry(id, name), id),
        whole_lines(text + user_entry(id, name)),
{
    let e = user_entry(id, name);
    let d = decimal(id as nat);
    lemma_lines_append(text, e);
    lemma_user_line(id, name);
    lemma_find(e, '\n');
    lemma_decimal(id as nat);
    let k = find(e, '\n') as int;
    assert(k > d.len()) by {
        assert forall|j: int| 0 <= j <= d.len() implies e[j] != '\n' by {
            if j < d.len() {
                assert(is_digit(d[j]));
                assert(e[j] == d[j]);
            } else {
                assert(e[j] == ':');
            }
        }
        assert(e[e.len() - 1] == '\n');
        if k == e.len() {
            assert(e[e.len() - 1] != '\n');
        }
    }
    let first = e.take(k);
    let rest = first.skip(d.len() as int + 1);
    assert(first =~= user_line(id, rest));
    lemma_user_line(id, rest);
    lemma_user_line(id, strip_cr(rest));
    assert(lines(e)[0] == strip_cr(first));
    assert(lines(text + e)[lines(text).len() as int] == lines(e)[0]);
    assert(is_line_of(lines(text + e)[lines(text).len() as int], id));
}

/// Adding a user whose name is one line does not concern any other user.
pub proof fn law_adding_keeps_others(text: Seq<char>, id: u64, name: Seq<char>, other: u64)
    requires
        whole_lines(text),
        one_line(name),
        other != id,
    ensures
        holds_user(text + user_entry(id, name), other) == holds_user(text, other),
{
    let e = user_entry(id, name);
    let all = lines(text + e);
    lemma_lines_append(text, e);
    lemma_user_line(id, name);
    lemma_lines_of_line(user_line(id, name));
    lemma_user_line(id, strip_cr(name));
    assert(all =~= lines(text).push(user_line(id, strip_cr(name))));
    if holds_user(text + e, other) {
        let i = choose|i: int| 0 <= i < all.len() && is_line_of(#[trigger] all[i], other);
        if i == lines(text).len() {
            lemma_decimal_injective(id as nat, other as nat);
        }
        assert(all[i] == lines(text)[i]);
    }
    if holds_user(text, other) {
        let i = choose|i: int|
            0 <= i < lines(text).len() && is_line_of(#[trigger] lines(text)[i], other);
        assert(is_line_of(all[i], other));
    }
}

/// What a `filter_map` keeps comes from some item, and each item it accepts is kept.
proof fn lemma_filter_map<A, B>(s: Seq<A>, f: spec_fn(A) -> Option<B>)
    ensures
        forall|j: int|
            0 <= j < s.filter_map(f).len() ==> exists|i: int|
                0 <= i < s.len() && f(#[trigger] s[i]) == Some(#[trigger] s.filter_map(f)[j]),
        forall|i: int|
            0 <= i < s.len() && f(#[trigger] s[i]) is Some ==> exists|j: int|
                0 <= j < s.filter_map(f).len() && f(s[i]) == Some(#[trigger] s.filter_map(f)[j]),
    decreases s.len(),
{
    if s.len() > 0 {
        let rest = s.drop_last();
        let out = s.filter_map(f);
        let r = rest.filter_map(f);
        lemma_filter_map(rest, f);
        assert forall|j: int| 0 <= j < out.len() implies exists|i: int|
            0 <= i < s.len() && f(#[trigger] s[i]) == Some(#[trigger] out[j]) by {
            if j < r.len() {
                assert(out[j] == r[j]);
                let i = choose|i: int| 0 <= i < rest.len() && f(#[trigger] rest[i]) == Some(r[j]);
                assert(s[i] == rest[i]);
            } else {
                assert(f(s[s.len() - 1]) == Some(out[j]));
            }
        }
        assert forall|i: int| 0 <= i < s.len() && f(#[trigger] s[i]) is Some implies exists|j: int|
            0 <= j < out.len() && f(s[i]) == Some(#[trigger] out[j]) by {
            if i < rest.len() {
                assert(rest[i] == s[i]);
                let j = choose|j: int| 0 <= j < r.len() && f(rest[i]) == Some(#[trigger] r[j]);
                assert(out[j] == r[j]);
            } else {
                assert(f(s[i]) == Some(out[out.len() - 1]));
            }
        }
    }
}

/// The lines of a database that was put together by `filter_map`.
proof fn lemma_rebuilt(text: Seq<char>, f: spec_fn(Seq<char>) -> Option<Seq<char>>)
    requires
        forall|i: int|
            0 <= i < lines(text).len() ==> (f(#[trigger] lines(text)[i]) matches Some(l)
                ==> one_line(l)),
    ensures
        lines(unlines(lines(text).filter_map(f))) == lines(text).filter_map(f).map_values(
            |l: Seq<char>| strip_cr(l),
        ),
{
    let ls = lines(text).filter_map(f);
    lemma_filter_map(lines(text), f);
    assert forall|j: int| 0 <= j < ls.len() implies one_line(#[trigger] ls[j]) by {
        let i = choose|i: int|
            0 <= i < lines(text).len() && f(#[trigger] lines(text)[i]) == Some(ls[j]);
    }
    lemma_lines_of_unlines(ls);
}

/// After a user was removed, the database holds exactly the other users that it held.
pub proof fn law_removed_user_is_gone(text: Seq<char>, id: u64, other: u64)
    ensures
        holds_user(without_user(text, id), other) == (other != id && holds_user(text, other)),
        whole_lines(without_user(text, id)),
{
    let f = |l: Seq<char>| line_unless(l, id);
    let ls = lines(text).filter_map(f);
    let new = lines(without_user(text, id));
    lemma_lines_have_no_break(text);
    lemma_rebuilt(text, f);
    lemma_filter_map(lines(text), f);
    lemma_unlines_whole(ls);
    if holds_user(without_user(text, id), other) {
        let j = choose|j: int| 0 <= j < new.len() && is_line_of(#[trigger] new[j], other);
        assert(new[j] == strip_cr(ls[j]));
        let i = choose|i: int|
            0 <= i < lines(text).len() && f(#[trigger] lines(text)[i]) == Some(ls[j]);
        lemma_strip_cr_keeps_id(ls[j]);
        assert(is_line_of(lines(text)[i], other));
    }
    if other != id && holds_user(text, other) {
        let i = choose|i: int|
            0 <= i < lines(text).len() && is_line_of(#[trigger] lines(text)[i], other);
        if decimal(id as nat) == decimal(other as nat) {
            lemma_decimal_injective(id as nat, other as nat);
        }
        assert(f(lines(text)[i]) is Some);
        let j = choose|j: int|
            0 <= j < ls.len() && f(lines(text)[i]) == Some(#[trigger] ls[j]);
        lemma_strip_cr_keeps_id(ls[j]);
        assert(new[j] == strip_cr(ls[j]));
        assert(is_line_of(new[j], other));
    }
}

/// Giving a user a new name, which is one line, changes nobody's presence.
pub proof fn law_renaming_keeps_users(text: Seq<char>, id: u64, name: Seq<char>, other: u64)
    requires
        one_line(name),
    ensures
        holds_user(with_name(text, id, name), other) == holds_user(text, other),
        whole_lines(with_name(text, id, name)),
{
    let f = |l: Seq<char>| line_renamed(l, id, name);
    let ls = lines(text).filter_map(f);
    let new = lines(with_name(text, id, name));
    lemma_lines_have_no_break(text);
    lemma_user_line(id, name);
    lemma_rebuilt(text, f);
    lemma_filter_map(lines(text), f);
    lemma_unlines_whole(ls);
    if holds_user(with_name(text, id, name), other) {
        let j = choose|j: int| 0 <= j < new.len() && is_line_of(#[trigger] new[j], other);
        assert(new[j] == strip_cr(ls[j]));
        let i = choose|i: int|
            0 <= i < lines(text).len() && f(#[trigger] lines(text)[i]) == Some(ls[j]);
        lemma_strip_cr_keeps_id(ls[j]);
        assert(is_line_of(lines(text)[i], other));
    }
    if holds_user(text, other) {
        let i = choose|i: int|
            0 <= i < lines(text).len() && is_line_of(#[trigger] lines(text)[i], other);
        assert(f(lines(text)[i]) is Some);
        let j = choose|j: int|
            0 <= j < ls.len() && f(lines(text)[i]) == Some(#[trigger] ls[j]);
        lemma_strip_cr_keeps_id(ls[j]);
        assert(new[j] == strip_cr(ls[j]));
        assert(is_line_of(new[j], other));
    }
}

/// A name that a line gives back as it is: it has no line feed and does not end in a carriage
/// return.
pub open spec fn plain_name(name: Seq<char>) -> bool {
    one_line(name) && strip_cr(name) == name
}

pub open spec fn plain_names(users: Seq<(u64, Seq<char>)>) -> bool {
    forall|i: int| 0 <= i < users.len() ==> plain_name(#[trigger] users[i].1)
}

/// The database of a list of users.
pub open spec fn database(users: Seq<(u64, Seq<char>)>) -> Seq<char> {
    unlines(users.map_values(|u: (u64, Seq<char>)| user_line(u.0, u.1)))
}

proof fn lemma_database_lines(users: Seq<(u64, Seq<char>)>)
    requires
        plain_names(users),
    ensures
        lines(database(users)) == users.map_values(|u: (u64, Seq<char>)| user_line(u.0, u.1)),
        whole_lines(database(users)),
{
    let ls = users.map_values(|u: (u64, Seq<char>)| user_line(u.0, u.1));
    assert forall|i: int| 0 <= i < ls.len() implies one_line(#[trigger] ls[i]) && strip_cr(ls[i])
        == ls[i] by {
        assert(plain_name(users[i].1));
        lemma_user_line(users[i].0, users[i].1);
    }
    lemma_lines_of_unlines(ls);
    lemma_unlines_whole(ls);
    assert(ls.map_values(|l: Seq<char>| strip_cr(l)) =~= ls);
}

proof fn lemma_map_filter_map<A, B, C>(
    s: Seq<A>,
    m: spec_fn(A) -> B,
    f: spec_fn(B) -> Option<C>,
    g: spec_fn(A) -> Option<C>,
)
    requires
        forall|i: int| 0 <= i < s.len() ==> f(m(#[trigger] s[i])) == g(s[i]),
    ensures
        s.map_values(m).filter_map(f) == s.filter_map(g),
    decreases s.len(),
{
    if s.len() > 0 {
        assert(s.map_values(m).drop_last() =~= s.drop_last().map_values(m));
        lemma_map_filter_map(s.drop_last(), m, f, g);
        assert(f(m(s[s.len() - 1])) == g(s[s.len() - 1]));
    }
}

proof fn lemma_filter_map_all<A, B>(s: Seq<A>, m: spec_fn(A) -> B)
    ensures
        s.filter_map(|a: A| Some(m(a))) == s.map_values(m),
    decreases s.len(),
{
    if s.len() > 0 {
        lemma_filter_map_all(s.drop_last(), m);
        assert(s.map_values(m) =~= s.drop_last().map_values(m).push(m(s.last())));
        assert(s.filter_map(|a: A| Some(m(a))) =~= s.map_values(m));
    } else {
        assert(s.map_values(m) =~= s.filter_map(|a: A| Some(m(a))));
    }
}

/// Listing a database gives the users that it was made of, in order.
pub proof fn law_listing_a_database(users: Seq<(u64, Seq<char>)>)
    requires
        plain_names(users),
    ensures
        listed_users(database(users)) == users,
{
    let m = |u: (u64, Seq<char>)| user_line(u.0, u.1);
    let f = |l: Seq<char>| line_user(l);
    let id = |u: (u64, Seq<char>)| u;
    let g = |u: (u64, Seq<char>)| Some(id(u));
    lemma_database_lines(users);
    assert forall|i: int| 0 <= i < users.len() implies f(m(#[trigger] users[i])) == g(users[i]) by {
        lemma_user_line(users[i].0, users[i].1);
    }
    lemma_map_filter_map(users, m, f, g);
    lemma_filter_map_all(users, id);
    assert(users.map_values(id) =~= users);
}

/// A database holds exactly the users that it was made of.
pub proof fn law_database_holds(users: Seq<(u64, Seq<char>)>, id: u64)
    requires
        plain_names(users),
    ensures
        holds_user(database(users), id) == (exists|i: int|
            0 <= i < users.len() && #[trigger] users[i].0 == id),
{
    let ls = lines(database(users));
    lemma_database_lines(users);
    if holds_user(database(users), id) {
        let i = choose|i: int| 0 <= i < ls.len() && is_line_of(#[trigger] ls[i], id);
        lemma_user_line(users[i].0, users[i].1);
        lemma_decimal_injective(users[i].0 as nat, id as nat);
        assert(users[i].0 == id);
    }
    if exists|i: int| 0 <= i < users.len() && #[trigger] users[i].0 == id {
        let i = choose|i: int| 0 <= i < users.len() && #[trigger] users[i].0 == id;
        lemma_user_line(users[i].0, users[i].1);
        assert(is_line_of(ls[i], id));
    }
}

/// Adding a user to a database makes the database of the users and the new one.
pub proof fn law_database_add(users: Seq<(u64, Seq<char>)>, id: u64, name: Seq<char>)
    ensures
        database(users) + user_entry(id, name) == database(users.push((id, name))),
{
    let m = |u: (u64, Seq<char>)| user_line(u.0, u.1);
    let all = users.push((id, name)).map_values(m);
    assert(all.drop_last() =~= users.map_values(m));
    assert(all.last() == user_line(id, name));
}

/// Removing a user from a database makes the database of the other users.
pub proof fn law_database_remove(users: Seq<(u64, Seq<char>)>, id: u64)
    requires
        plain_names(users),
    ensures
        without_user(database(users), id) == database(
            users.filter(|u: (u64, Seq<char>)| u.0 != id),
        ),
{
    let m = |u: (u64, Seq<char>)| user_line(u.0, u.1);
    let f = |l: Seq<char>| line_unless(l, id);
    let p = |u: (u64, Seq<char>)| u.0 != id;
    let g = |u: (u64, Seq<char>)|
        if u.0 != id {
            Some(user_line(u.0, u.1))
        } else {
            None
        };
    lemma_database_lines(users);
    assert forall|i: int| 0 <= i < users.len() implies f(m(#[trigger] users[i])) == g(users[i]) by {
        lemma_user_line(users[i].0, users[i].1);
        if decimal(users[i].0 as nat) == decimal(id as nat) {
            lemma_decimal_injective(users[i].0 as nat, id as nat);
        }
    }
    lemma_map_filter_map(users, m, f, g);
    lemma_filter_then_map(users, p, m, g);
}

proof fn lemma_filter_then_map<A, B>(
    s: Seq<A>,
    p: spec_fn(A) -> bool,
    m: spec_fn(A) -> B,
    g: spec_fn(A) -> Option<B>,
)
    requires
        forall|a: A| #[trigger] g(a) == if p(a) {
            Some(m(a))
        } else {
            None::<B>
        },
    ensures
        s.filter_map(g) == s.filter(p).map_values(m),
    decreases s.len(),
{
    reveal(Seq::filter);
    if s.len() > 0 {
        lemma_filter_then_map(s.drop_last(), p, m, g);
        assert(g(s.last()) == if p(s.last()) {
            Some(m(s.last()))
        } else {
            None::<B>
        });
        if p(s.last()) {
            assert(s.filter(p).map_values(m) =~= s.drop_last().filter(p).map_values(m).push(
                m(s.last()),
            ));
        }
    }
    assert(s.filter_map(g) =~= s.filter(p).map_values(m));
}

/// The users with one of them under a new name.
pub open spec fn renamed(users: Seq<(u64, Seq<char>)>, id: u64, name: Seq<char>) -> Seq<
    (u64, Seq<char>),
> {
    users.map_values(
        |u: (u64, Seq<char>)|
            if u.0 == id {
                (id, name)
            } else {
                u
            },
    )
}

/// Giving a user of a database a new name makes the database with that name.
pub proof fn law_database_rename(users: Seq<(u64, Seq<char>)>, id: u64, name: Seq<char>)
    requires
        plain_names(users),
    ensures
        with_name(database(users), id, name) == database(renamed(users, id, name)),
{
    let m = |u: (u64, Seq<char>)| user_line(u.0, u.1);
    let f = |l: Seq<char>| line_renamed(l, id, name);
    let r = |u: (u64, Seq<char>)|
        if u.0 == id {
            (id, name)
        } else {
            u
        };
    let h = |u: (u64, Seq<char>)| m(r(u));
    let g = |u: (u64, Seq<char>)| Some(h(u));
    lemma_database_lines(users);
    assert forall|i: int| 0 <= i < users.len() implies f(m(#[trigger] users[i])) == g(users[i]) by {
        lemma_user_line(users[i].0, users[i].1);
        if decimal(users[i].0 as nat) == decimal(id as nat) {
            lemma_decimal_injective(users[i].0 as nat, id as nat);
        }
    }
    lemma_map_filter_map(users, m, f, g);
    lemma_filter_map_all(users, h);
    assert(users.map_values(h) =~= renamed(users, id, name).map_values(m));
}

/// At most 32 users are listed, and all of them where there are no more.
pub proof fn law_at_most_32_users_are_listed(all: Seq<(u64, Seq<char>)>)
    ensures
        first_users(all).len() <= 32,
        first_users(all).is_prefix_of(all),
        all.len() <= 32 ==> first_users(all) == all,
{
}

proof fn lemma_strip_cr_fits(name: Seq<char>)
    requires
        name_fits(name),
    ensures
        name_fits(strip_cr(name)),
{
    if name.len() > 0 && name.last() == '\r' {
        assert(name.drop_last() + seq!['\r'] =~= name);
        lemma_encode_append(name.drop_last(), seq!['\r']);
    }
}

/// A carriage return at the end of a line belongs to the name at most.
proof fn lemma_strip_cr_keeps_fit(line: Seq<char>)
    requires
        line_user(line) matches Some(u) ==> name_fits(u.1),
    ensures
        line_user(strip_cr(line)) matches Some(u) ==> name_fits(u.1),
{
    if line.len() > 0 && line.last() == '\r' {
        lemma_find(line, ':');
        let t = line.drop_last();
        lemma_find(t, ':');
        let i = find(line, ':') as int;
        if i < t.len() {
            lemma_find_is(t, ':', i);
            assert(t.take(i) =~= line.take(i));
            let name = line.skip(i + 1);
            assert(name.last() == '\r');
            assert(t.skip(i + 1) =~= name.drop_last());
            if line_user(line) is Some {
                lemma_strip_cr_fits(name);
            }
        } else {
            let k = find(t, ':') as int;
            if k < t.len() {
                assert(t[k] == line[k]);
            }
        }
    }
}

/// Adding a user with a short name, which is one line, behind whole lines keeps all names
/// short.
pub proof fn law_adding_keeps_names_short(text: Seq<char>, id: u64, name: Seq<char>)
    requires
        whole_lines(text),
        names_fit(text),
        one_line(name),
        name_fits(name),
    ensures
        names_fit(text + user_entry(id, name)),
{
    let e = user_entry(id, name);
    let all = lines(text + e);
    lemma_lines_append(text, e);
    lemma_user_line(id, name);
    lemma_lines_of_line(user_line(id, name));
    lemma_strip_cr_keeps_fit(user_line(id, name));
    assert(all =~= lines(text).push(strip_cr(user_line(id, name))));
    assert forall|i: int| 0 <= i < all.len() implies (line_user(#[trigger] all[i]) matches Some(u)
        ==> name_fits(u.1)) by {
        if i < lines(text).len() {
            assert(all[i] == lines(text)[i]);
        }
    }
}

proof fn lemma_rebuilt_names(text: Seq<char>, f: spec_fn(Seq<char>) -> Option<Seq<char>>)
    requires
        forall|i: int|
            0 <= i < lines(text).len() ==> (f(#[trigger] lines(text)[i]) matches Some(l)
                ==> one_line(l) && (line_user(l) matches Some(u) ==> name_fits(u.1))),
    ensures
        names_fit(unlines(lines(text).filter_map(f))),
{
    let ls = lines(text).filter_map(f);
    let new = lines(unlines(ls));
    lemma_rebuilt(text, f);
    lemma_filter_map(lines(text), f);
    assert forall|j: int| 0 <= j < new.len() implies (line_user(#[trigger] new[j]) matches Some(u)
        ==> name_fits(u.1)) by {
        assert(new[j] == strip_cr(ls[j]));
        let i = choose|i: int|
            0 <= i < lines(text).len() && f(#[trigger] lines(text)[i]) == Some(ls[j]);
        lemma_strip_cr_keeps_fit(ls[j]);
    }
}

/// Removing a user keeps all names short, and so does giving a user a short name, which is one
/// line.
pub proof fn law_edits_keep_names_short(text: Seq<char>, id: u64, name: Seq<char>)
    requires
        names_fit(text),
    ensures
        names_fit(without_user(text, id)),
        one_line(name) && name_fits(name) ==> names_fit(with_name(text, id, name)),
{
    let f = |l: Seq<char>| line_unless(l, id);
    let g = |l: Seq<char>| line_renamed(l, id, name);
    lemma_lines_have_no_break(text);
    lemma_rebuilt_names(text, f);
    if one_line(name) && name_fits(name) {
        lemma_user_line(id, name);
        lemma_rebuilt_names(text, g);
    }
}

/// What a database of whole lines holds grows by what one more line holds: a user where it has a
/// colon with a number before it. Removing or renaming a user goes line by line too: a line
/// without a colon is lost, and one whose text before the colon is the id is dropped or written
/// anew; all others stay.
pub proof fn law_database_is_read_line_by_line(
    text: Seq<char>,
    line: Seq<char>,
    id: u64,
    name: Seq<char>,
)
    requires
        whole_lines(text),
        forall|j: int| 0 <= j < line.len() ==> line[j] != '\n',
        line.len() > 0 ==> line.last() != '\r',
    ensures
        ({
            let all = text + line.push('\n');
            match split_once(line, ':') {
                Some((before, behind)) => {
                    let is_of = before == decimal(id as nat);
                    &&& holds_user(all, id) == (holds_user(text, id) || is_of)
                    &&& without_user(all, id) == without_user(text, id) + if is_of {
                        Seq::<char>::empty()
                    } else {
                        line.push('\n')
                    }
                    &&& with_name(all, id, name) == with_name(text, id, name) + if is_of {
                        decimal(id as nat) + seq![':'] + name + seq!['\n']
                    } else {
                        line.push('\n')
                    }
                    &&& listed_users(all) == listed_users(text) + match parsed_u64(before) {
                        Some(n) => seq![(n, behind)],
                        None => Seq::<(u64, Seq<char>)>::empty(),
                    }
                    &&& names_fit(all) == (names_fit(text) && (parsed_u64(before) is Some
                        ==> name_fits(behind)))
                },
                None => {
                    &&& holds_user(all, id) == holds_user(text, id)
                    &&& without_user(all, id) == without_user(text, id)
                    &&& with_name(all, id, name) == with_name(text, id, name)
                    &&& listed_users(all) == listed_users(text)
                    &&& names_fit(all) == names_fit(text)
                },
            }
        }),
        !holds_user(Seq::<char>::empty(), id),
        without_user(Seq::<char>::empty(), id) == Seq::<char>::empty(),
        with_name(Seq::<char>::empty(), id, name) == Seq::<char>::empty(),
        listed_users(Seq::<char>::empty()) == Seq::<(u64, Seq<char>)>::empty(),
        names_fit(Seq::<char>::empty()),
{
    let all = text + line.push('\n');
    let ls = lines(text);
    lemma_lines_append(text, line.push('\n'));
    lemma_lines_of_line(line);
    assert(lines(all) =~= ls.push(line));
    let f = |l: Seq<char>| line_unless(l, id);
    let g = |l: Seq<char>| line_renamed(l, id, name);
    let h = |l: Seq<char>| line_user(l);
    lemma_filter_map_push(ls, line, f);
    lemma_filter_map_push(ls, line, g);
    lemma_filter_map_push(ls, line, h);
    lemma_unlines_push(ls.filter_map(f), line);
    lemma_unlines_push(ls.filter_map(g), line);
    lemma_unlines_push(ls.filter_map(g), user_line(id, name));
    assert(user_line(id, name).push('\n') =~= decimal(id as nat) + seq![':'] + name + seq!['\n']);
    if holds_user(text, id) {
        let i = choose|i: int| 0 <= i < ls.len() && is_line_of(#[trigger] ls[i], id);
        assert(is_line_of(lines(all)[i], id));
    }
    if is_line_of(line, id) {
        assert(is_line_of(lines(all)[ls.len() as int], id));
    }
    if holds_user(all, id) && !is_line_of(line, id) {
        let i = choose|i: int| 0 <= i < lines(all).len() && is_line_of(#[trigger] lines(all)[i], id);
        assert(is_line_of(ls[i], id));
    }
    if names_fit(all) {
        assert forall|i: int| 0 <= i < ls.len() implies (line_user(#[trigger] ls[i]) matches Some(u)
            ==> name_fits(u.1)) by {
            assert(lines(all)[i] == ls[i]);
        }
        assert(lines(all)[ls.len() as int] == line);
    } else {
        let i = choose|i: int|
            0 <= i < lines(all).len() && !(line_user(#[trigger] lines(all)[i]) matches Some(u)
                ==> name_fits(u.1));
        if i < ls.len() {
            assert(lines(all)[i] == ls[i]);
        }
    }
    assert(lines(Seq::<char>::empty()) =~= Seq::<Seq<char>>::empty());
}

proof fn lemma_filter_map_push<A, B>(s: Seq<A>, a: A, f: spec_fn(A) -> Option<B>)
    ensures
        s.push(a).filter_map(f) == match f(a) {
            Some(b) => s.filter_map(f).push(b),
            None => s.filter_map(f),
        },
{
    assert(s.push(a).drop_last() =~= s);
    assert(s.push(a).last() == a);
    match f(a) {
        Some(b) => {
            assert(s.filter_map(f) + seq![b] =~= s.filter_map(f).push(b));
        },
        None => {
            assert(s.push(a).filter_map(f) =~= s.filter_map(f));
        },
    }
}

proof fn lemma_unlines_push(ls: Seq<Seq<char>>, line: Seq<char>)
    ensures
        unlines(ls.push(line)) == unlines(ls) + line.push('\n'),
{
    assert(ls.push(line).drop_last() =~= ls);
}

/// The line of a user is the id in decimal, a colon, the name as it is and a line feed.
pub proof fn law_entry_shows_id_and_name(id: u64, name: Seq<char>)
    ensures
        ({
            let entry = user_entry(id, name);
            let n = find(entry, ':') as int;
            &&& n < entry.len() && entry.last() == '\n'
            &&& parsed_u64(entry.take(n)) == Some(id)
            &&& entry.take(n) == decimal(id as nat)
            &&& entry.subrange(n + 1, entry.len() - 1) == name
        }),
{
    let entry = user_entry(id, name);
    let d = decimal(id as nat);
    lemma_decimal(id as nat);
    lemma_parse_decimal(id);
    assert forall|j: int| 0 <= j < d.len() implies entry[j] != ':' by {
        assert(is_digit(d[j]));
        assert(entry[j] == d[j]);
    }
    lemma_find_is(entry, ':', d.len() as int);
    assert(entry.take(d.len() as int) =~= d);
    assert(entry.subrange(d.len() as int + 1, entry.len() - 1) =~= name);
}

/// A user who is given a new name is listed under it in the same place, and all others are
/// listed as before.
pub proof fn law_new_name_stands_in_its_place(
    users: Seq<(u64, Seq<char>)>,
    id: u64,
    name: Seq<char>,
    i: int,
)
    requires
        0 <= i < users.len(),
    ensures
        renamed(users, id, name).len() == users.len(),
        renamed(users, id, name)[i].0 == users[i].0,
        renamed(users, id, name)[i].1 == if users[i].0 == id {
            name
        } else {
            users[i].1
        },
{
}

/// Of more than 32 users the first 32 are listed.
pub proof fn law_first_32_users_are_listed(first: Seq<(u64, Seq<char>)>, rest: Seq<(u64, Seq<char>)>)
    requires
        first.len() == 32,
    ensures
        first_users(first + rest) == first,
{
    assert((first + rest).take(32) =~= first);
    if rest.len() == 0 {
        assert(first + rest =~= first);
    }
}

/// Whatever the endings of its lines, a database is what its lines are.
pub proof fn law_line_endings_do_not_matter(a: Seq<char>, b: Seq<char>, id: u64, name: Seq<char>)
    requires
        lines(a) == lines(b),
    ensures
        holds_user(a, id) == holds_user(b, id),
        without_user(a, id) == without_user(b, id),
        with_name(a, id, name) == with_name(b, id, name),
        listed_users(a) == listed_users(b),
        names_fit(a) == names_fit(b),
{
}

} // verus!
