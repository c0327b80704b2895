//! The session token in a `Cookie` header.
use crate::text::{copy_range, find, find_from, lemma_find, lemma_find_is};
use vstd::prelude::*;

verus! {

/// The characters with the Unicode property `White_Space`.
pub open spec fn white_space(c: char) -> bool {
    ||| '\u{9}' <= c <= '\u{d}'
    ||| c == '\u{20}'
    ||| c == '\u{85}'
    ||| c == '\u{a0}'
    ||| c == '\u{1680}'
    ||| '\u{2000}' <= c <= '\u{200a}'
    ||| c == '\u{2028}'
    ||| c == '\u{2029}'
    ||| c == '\u{202f}'
    ||| c == '\u{205f}'
    ||| c == '\u{3000}'
}

/// `char::is_whitespace` tells whether a character has the Unicode property `White_Space`.
pub assume_specification[ char::is_whitespace ](c: char) -> (b: bool)
    ensures
        b == white_space(c),
;

/// `s` without the white space in front.
pub open spec fn trim_start(s: Seq<char>) -> Seq<char>
    decreases s.len(),
{
    if s.len() > 0 && white_space(s[0]) {
        trim_start(s.skip(1))
    } else {
        s
    }
}

/// `s` without the white space at the end.
pub open spec fn trim_end(s: Seq<char>) -> Seq<char>
    decreases s.len(),
{
    if s.len() > 0 && white_space(s.last()) {
        trim_end(s.drop_last())
    } else {
        s
    }
}

/// `s` without white space around it.
pub open spec fn trim(s: Seq<char>) -> Seq<char> {
    trim_end(trim_start(s))
}

/// What stands before a cookie's value.
pub open spec fn session_key() -> Seq<char> {
    seq!['s', 'e', 's', 's', 'i', 'o', 'n', '=']
}

/// The value of a cookie named `session`.
pub open spec fn session_value(cookie: Seq<char>) -> Option<Seq<char>> {
    let c = trim(cookie);
    if c.len() >= 8 && c.take(8) == session_key() {
        Some(c.skip(8))
    } else {
        None
    }
}

/// The token that a `Cookie` header carries: the value of the first of its cookies, which
/// semicolons separate, that is named `session`.
pub open spec fn session_token(header: Seq<char>) -> Option<Seq<char>>
    decreases header.len(),
    via session_token_decreases
{
    let i = find(header, ';') as int;
    if i == header.len() {
        session_value(header)
    } else if session_value(header.take(i)) is Some {
        session_value(header.take(i))
    } else {
        session_token(header.skip(i + 1))
    }
}

#[via_fn]
proof fn session_token_decreases(header: Seq<char>) {
    lemma_find(header, ';');
}

/// Removes the white space around a text.
fn trimmed(v: &[char], from: usize, to: usize) -> (r: Vec<char>)
    requires
        from <= to <= v@.len(),
    ensures
        r@ == trim(v@.subrange(from as int, to as int)),
{
    let mut a = from;
    let ghost whole = v@.subrange(from as int, to as int);
    while a < to && v[a].is_whitespace()
        invariant
            from <= a <= to <= v@.len(),
            whole == v@.subrange(from as int, to as int),
            trim_start(v@.subrange(a as int, to as int)) == trim_start(whole),
        decreases to - a,
    {
        assert(v@.subrange(a as int, to as int).skip(1) =~= v@.subrange(a + 1, to as int));
        a += 1;
    }
    let ghost rest = v@.subrange(a as int, to as int);
    assert(trim_start(rest) == rest);
    let mut b = to;
    while b > a && v[b - 1].is_whitespace()
        invariant
            from <= a <= b <= to <= v@.len(),
            rest == v@.subrange(a as int, to as int),
            trim_end(v@.subrange(a as int, b as int)) == trim_end(rest),
        decreases b,
    {
        assert(v@.subrange(a as int, b as int).drop_last() =~= v@.subrange(a as int, b - 1));
        b -= 1;
    }
    let r = copy_range(v, a, b);
    assert(trim_end(r@) == r@);
    r
}

/// The value of a cookie named `session`.
fn value_of(v: &[char], from: usize, to: usize) -> (r: Option<Vec<char>>)
    requires
        from <= to <= v@.len(),
    ensures
        match r {
            Some(t) => session_value(v@.subrange(from as int, to as int)) == Some(t@),
            None => session_value(v@.subrange(from as int, to as int)) is None,
        },
{
    let c = trimmed(v, from, to);
    if c.len() >= 8 && c[0] == 's' && c[1] == 'e' && c[2] == 's' && c[3] == 's' && c[4] == 'i'
        && c[5] == 'o' && c[6] == 'n' && c[7] == '=' {
        assert(c@.take(8) =~= session_key());
        let t = copy_range(c.as_slice(), 8, c.len());
        assert(t@ =~= c@.skip(8));
        Some(t)
    } else {
        proof {
            if c@.len() >= 8 && c@.take(8) == session_key() {
                assert(forall|i: int| 0 <= i < 8 ==> #[trigger] c@[i] == c@.take(8)[i]);
                assert(c@[0] == 's' && c@[1] == 'e' && c@[2] == 's' && c@[3] == 's');
                assert(c@[4] == 'i' && c@[5] == 'o' && c@[6] == 'n' && c@[7] == '=');
            }
        }
        None
    }
}

/// Finds the session token in a `Cookie` header.
pub fn find_session(header: &[char]) -> (r: Option<Vec<char>>)
    ensures
        match r {
            Some(t) => session_token(header@) == Some(t@),
            None => session_token(header@) is None,
        },
{
    let mut from: usize = 0;
    assert(header@.skip(0) =~= header@);
    loop
        invariant
            from <= header@.len(),
            session_token(header@.skip(from as int)) == session_token(header@),
        decreases header@.len() - from,
    {
        let ghost rest = header@.skip(from as int);
        let end = find_from(header, from, ';');
        let found = value_of(header, from, end);
        assert(header@.subrange(from as int, end as int) =~= rest.take(end - from));
        if end == header.len() {
            assert(rest.take(end - from) =~= rest);
            return found;
        }
        if found.is_some() {
            return found;
        }
        assert(header@.skip(end + 1) =~= rest.skip(end - from + 1));
        from = end + 1;
    }
}

/// A token that a cookie gives back as it is: it holds no semicolon and does not end in white
/// space.
pub open spec fn plain_token(token: Seq<char>) -> bool {
    &&& forall|i: int| 0 <= i < token.len() ==> token[i] != ';'
    &&& token.len() > 0 ==> !white_space(token.last())
}

/// A cookie that is nothing but the session gives its token.
pub proof fn law_session_cookie(token: Seq<char>)
    requires
        plain_token(token),
    ensures
        session_token(session_key() + token) == Some(token),
{
    let c = session_key() + token;
    assert(c[0] == 's');
    assert(trim_start(c) == c);
    assert(c.last() == if token.len() > 0 {
        token.last()
    } else {
        '='
    });
    assert(trim_end(c) == c);
    assert(c.take(8) =~= session_key());
    assert(c.skip(8) =~= token);
    assert forall|i: int| 0 <= i < c.len() implies c[i] != ';' by {
        if i < 8 {
            assert(c[i] == session_key()[i]);
        } else {
            assert(c[i] == token[i - 8]);
        }
    }
    lemma_find_is(c, ';', c.len() as int);
}

/// A space before the first cookie makes no difference.
pub proof fn law_space_makes_no_difference(header: Seq<char>)
    ensures
        session_token(seq![' '] + header) == session_token(header),
{
    let h = seq![' '] + header;
    lemma_find(header, ';');
    let i = find(header, ';') as int;
    assert forall|j: int| 0 <= j < i + 1 implies h[j] != ';' by {
        if j > 0 {
            assert(h[j] == header[j - 1]);
        }
    }
    assert(i < header.len() ==> h[i + 1] == header[i]);
    lemma_find_is(h, ';', i + 1);
    assert(h.take(i + 1) =~= seq![' '] + header.take(i));
    lemma_space_before(header.take(i));
    lemma_space_before(header);
    if i < header.len() {
        assert(h.skip(i + 2) =~= header.skip(i + 1));
    } else {
        assert(header.take(i) =~= header);
    }
}

proof fn lemma_space_before(cookie: Seq<char>)
    ensures
        session_value(seq![' '] + cookie) == session_value(cookie),
{
    let c = seq![' '] + cookie;
    assert(c[0] == ' ');
    assert(c.skip(1) =~= cookie);
}

/// Cookies behind the session do not change its token.
pub proof fn law_session_before_other_cookies(token: Seq<char>, others: Seq<char>)
    requires
        plain_token(token),
    ensures
        session_token(session_key() + token + seq![';'] + others) == Some(token),
{
    let c = session_key() + token;
    let h = c + seq![';'] + others;
    law_session_cookie(token);
    assert forall|i: int| 0 <= i < c.len() implies c[i] != ';' by {
        if i < 8 {
            assert(c[i] == session_key()[i]);
        } else {
            assert(c[i] == token[i - 8]);
        }
    }
    assert forall|i: int| 0 <= i < c.len() implies h[i] != ';' by {
        assert(h[i] == c[i]);
    }
    lemma_find_is(c, ';', c.len() as int);
    lemma_find_is(h, ';', c.len() as int);
    assert(h.take(c.len() as int) =~= c);
}

/// Cookies that carry no session do not hide one that follows them.
pub proof fn law_other_cookies_do_not_matter(others: Seq<char>, rest: Seq<char>)
    requires
        session_token(others) is None,
    ensures
        session_token(others + seq![';'] + rest) == session_token(rest),
    decreases others.len(),
{
    let h = others + seq![';'] + rest;
    lemma_find(others, ';');
    let i = find(others, ';') as int;
    assert(i < others.len() ==> h[i] == others[i]);
    assert forall|j: int| 0 <= j < i implies h[j] != ';' by {
        assert(h[j] == others[j]);
    }
    lemma_find_is(h, ';', i);
    assert(h.take(i) =~= others.take(i));
    if i == others.len() {
        assert(others.take(i) =~= others);
        assert(h.skip(i + 1) =~= rest);
    } else {
        assert(h.skip(i + 1) =~= others.skip(i + 1) + seq![';'] + rest);
        law_other_cookies_do_not_matter(others.skip(i + 1), rest);
    }
}

/// Cookies are searched in order: the first one that carries a session decides.
pub proof fn law_cookies_are_searched_in_order(first: Seq<char>, rest: Seq<char>)
    requires
        forall|i: int| 0 <= i < first.len() ==> first[i] != ';',
    ensures
        session_token(first + seq![';'] + rest) == if session_token(first) is Some {
            session_token(first)
        } else {
            session_token(rest)
        },
{
    let h = first + seq![';'] + rest;
    let n = first.len() as int;
    lemma_find_is(first, ';', n);
    assert forall|i: int| 0 <= i < n implies h[i] != ';' by {
        assert(h[i] == first[i]);
    }
    lemma_find_is(h, ';', n);
    assert(h.take(n) =~= first);
    assert(h.skip(n + 1) =~= rest);
}

/// A single cookie without white space around it carries a session exactly where it starts with
/// `session=`, and the token is what follows that.
pub proof fn law_session_cookie_is_known_by_its_name(c: Seq<char>)
    requires
        c.len() > 0,
        forall|i: int| 0 <= i < c.len() ==> c[i] != ';',
        !white_space(c[0]),
        !white_space(c.last()),
    ensures
        session_token(c) == if c.len() >= 8 && c[0] == 's' && c[1] == 'e' && c[2] == 's' && c[3]
            == 's' && c[4] == 'i' && c[5] == 'o' && c[6] == 'n' && c[7] == '=' {
            Some(c.skip(8))
        } else {
            None
        },
{
    lemma_find_is(c, ';', c.len() as int);
    assert(trim_start(c) == c);
    assert(trim_end(c) == c);
    if c.len() >= 8 {
        let key = c.take(8);
        assert(forall|i: int| 0 <= i < 8 ==> #[trigger] key[i] == c[i]);
        if key == session_key() {
            assert(key[0] == 's' && key[1] == 'e' && key[2] == 's' && key[3] == 's');
            assert(key[4] == 'i' && key[5] == 'o' && key[6] == 'n' && key[7] == '=');
        }
        if session_token(c) is None {
            assert(!(key =~= session_key()));
        }
    }
}

/// White space before or behind a single cookie makes no difference.
pub proof fn law_white_space_makes_no_difference(c: Seq<char>, w: char)
    requires
        forall|i: int| 0 <= i < c.len() ==> c[i] != ';',
        white_space(w),
    ensures
        session_token(seq![w] + c) == session_token(c),
        session_token(c.push(w)) == session_token(c),
{
    let before = seq![w] + c;
    let behind = c.push(w);
    lemma_find_is(c, ';', c.len() as int);
    assert forall|i: int| 0 <= i < before.len() implies before[i] != ';' by {
        if i > 0 {
            assert(before[i] == c[i - 1]);
        }
    }
    assert forall|i: int| 0 <= i < behind.len() implies behind[i] != ';' by {
        if i < c.len() {
            assert(behind[i] == c[i]);
        }
    }
    lemma_find_is(before, ';', before.len() as int);
    lemma_find_is(behind, ';', behind.len() as int);
    assert(before.skip(1) =~= c);
    lemma_trim_behind(c, w);
}

proof fn lemma_trim_behind(s: Seq<char>, w: char)
    requires
        white_space(w),
    ensures
        trim(s.push(w)) == trim(s),
    decreases s.len(),
{
    let t = s.push(w);
    if s.len() == 0 {
        assert(t.skip(1) =~= s);
    } else if white_space(s[0]) {
        lemma_trim_behind(s.skip(1), w);
        assert(t[0] == s[0]);
        assert(t.skip(1) =~= s.skip(1).push(w));
    } else {
        assert(t[0] == s[0]);
        assert(t.drop_last() =~= s);
    }
}

} // verus!
