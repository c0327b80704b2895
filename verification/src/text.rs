//! Text as the card files and the HTTP headers hold it: lines, decimal numbers and
//! UTF-8.
use vstd::arithmetic::div_mod::lemma_div_denominator;
use vstd::arithmetic::power::{lemma_pow0, lemma_pow1, lemma_pow_positive, pow};
use vstd::prelude::*;
use vstd::utf8::{decode_utf8, valid_utf8};

verus! {

/// The index of the first `c` in `s`, or the length of `s` where there is none.
pub open spec fn find(s: Seq<char>, c: char) -> nat
    decreases s.len(),
{
    if s.len() == 0 {
        0
    } else if s[0] == c {
        0
    } else {
        1 + find(s.skip(1), c)
    }
}

/// What stands before the first `c` and what stands after it.
pub open spec fn split_once(s: Seq<char>, c: char) -> Option<(Seq<char>, Seq<char>)> {
    let i = find(s, c) as int;
    if i == s.len() {
        None
    } else {
        Some((s.take(i), s.skip(i + 1)))
    }
}

/// `s` without one carriage return at its end.
pub open spec fn strip_cr(s: Seq<char>) -> Seq<char> {
    if s.len() > 0 && s.last() == '\r' {
        s.drop_last()
    } else {
        s
    }
}

/// The lines of `s`. A line ends at a line feed or at a carriage return and a line feed,
/// which are not part of it; the last line may have no ending.
pub open spec fn lines(s: Seq<char>) -> Seq<Seq<char>>
    decreases s.len(),
    via lines_decreases
{
    let i = find(s, '\n') as int;
    if s.len() == 0 {
        seq![]
    } else if i == s.len() {
        seq![s]
    } else {
        seq![strip_cr(s.take(i))] + lines(s.skip(i + 1))
    }
}

#[via_fn]
proof fn lines_decreases(s: Seq<char>) {
    lemma_find(s, '\n');
}

/// Each line of `ls` with a line feed behind it.
pub open spec fn unlines(ls: Seq<Seq<char>>) -> Seq<char>
    decreases ls.len(),
{
    if ls.len() == 0 {
        seq![]
    } else {
        unlines(ls.drop_last()) + ls.last().push('\n')
    }
}

/// Whether a text is made of whole lines: it is empty or ends in a line feed.
pub open spec fn whole_lines(s: Seq<char>) -> bool {
    s.len() == 0 || s.last() == '\n'
}

pub proof fn lemma_find(s: Seq<char>, c: char)
    ensures
        find(s, c) <= s.len(),
        find(s, c) < s.len() ==> s[find(s, c) as int] == c,
        forall|j: int| 0 <= j < find(s, c) ==> s[j] != c,
    decreases s.len(),
{
    if s.len() > 0 && s[0] != c {
        lemma_find(s.skip(1), c);
        assert forall|j: int| 0 <= j < find(s, c) implies s[j] != c by {
            if j > 0 {
                assert(s.skip(1)[j - 1] == s[j]);
            }
        }
    }
}

/// The first place that holds `c` is where `find` stops.
pub proof fn lemma_find_is(s: Seq<char>, c: char, i: int)
    requires
        0 <= i <= s.len(),
        i < s.len() ==> s[i] == c,
        forall|j: int| 0 <= j < i ==> s[j] != c,
    ensures
        find(s, c) == i,
{
    lemma_find(s, c);
}

/// Whether a text has no line feed in it.
pub open spec fn one_line(s: Seq<char>) -> bool {
    forall|j: int| 0 <= j < s.len() ==> s[j] != '\n'
}

/// A text without a line feed is one line.
pub proof fn lemma_lines_of_line(s: Seq<char>)
    requires
        one_line(s),
    ensures
        lines(s.push('\n')) == seq![strip_cr(s)],
{
    lemma_find_is(s.push('\n'), '\n', s.len() as int);
    assert(s.push('\n').take(s.len() as int) =~= s);
    assert(s.push('\n').skip(s.len() as int + 1) =~= Seq::<char>::empty());
    assert(lines(Seq::<char>::empty()) =~= Seq::<Seq<char>>::empty());
    assert(lines(s.push('\n')) =~= seq![strip_cr(s)]);
}

/// The lines of a text behind whole lines are theirs and then its own.
pub proof fn lemma_lines_append(a: Seq<char>, b: Seq<char>)
    requires
        whole_lines(a),
    ensures
        lines(a + b) == lines(a) + lines(b),
    decreases a.len(),
{
    if a.len() == 0 {
        assert(a + b =~= b);
        assert(lines(a) + lines(b) =~= lines(b));
    } else {
        lemma_find(a, '\n');
        let i = find(a, '\n') as int;
        assert(i < a.len()) by {
            if i == a.len() {
                assert(a[a.len() - 1] != '\n');
            }
        }
        lemma_find_is(a + b, '\n', i);
        assert((a + b).take(i) =~= a.take(i));
        assert((a + b).skip(i + 1) =~= a.skip(i + 1) + b);
        assert(whole_lines(a.skip(i + 1))) by {
            if a.skip(i + 1).len() > 0 {
                assert(a.skip(i + 1).last() == a.last());
            }
        }
        lemma_lines_append(a.skip(i + 1), b);
        assert(lines(a + b) =~= lines(a) + lines(b));
    }
}

/// No line has a line feed in it.
pub proof fn lemma_lines_have_no_break(s: Seq<char>)
    ensures
        forall|i: int| 0 <= i < lines(s).len() ==> one_line(#[trigger] lines(s)[i]),
    decreases s.len(),
{
    if s.len() > 0 {
        lemma_find(s, '\n');
        let k = find(s, '\n') as int;
        if k < s.len() {
            lemma_lines_have_no_break(s.skip(k + 1));
            assert forall|i: int| 0 <= i < lines(s).len() implies one_line(#[trigger] lines(s)[i]) by {
                if i > 0 {
                    assert(lines(s)[i] == lines(s.skip(k + 1))[i - 1]);
                } else {
                    assert(lines(s)[0] == strip_cr(s.take(k)));
                }
            }
        }
    }
}

pub proof fn lemma_unlines_whole(ls: Seq<Seq<char>>)
    ensures
        whole_lines(unlines(ls)),
{
}

/// The lines of what was put together from lines are those lines, less a carriage return at
/// the end of one.
pub proof fn lemma_lines_of_unlines(ls: Seq<Seq<char>>)
    requires
        forall|i: int| 0 <= i < ls.len() ==> one_line(#[trigger] ls[i]),
    ensures
        lines(unlines(ls)) == ls.map_values(|l: Seq<char>| strip_cr(l)),
    decreases ls.len(),
{
    let g = |l: Seq<char>| strip_cr(l);
    if ls.len() > 0 {
        assert forall|i: int| 0 <= i < ls.drop_last().len() implies one_line(
            #[trigger] ls.drop_last()[i],
        ) by {
            assert(one_line(ls[i]));
        }
        lemma_lines_of_unlines(ls.drop_last());
        lemma_unlines_whole(ls.drop_last());
        assert(one_line(ls[ls.len() - 1]));
        lemma_lines_of_line(ls.last());
        lemma_lines_append(unlines(ls.drop_last()), ls.last().push('\n'));
        assert(ls.map_values(g) =~= ls.drop_last().map_values(g) + seq![strip_cr(ls.last())]);
    } else {
        assert(lines(unlines(ls)) =~= Seq::<Seq<char>>::empty());
        assert(ls.map_values(g) =~= Seq::<Seq<char>>::empty());
    }
}

/// The digit of a number below ten.
pub open spec fn digit(n: nat) -> char {
    (('0' as nat) + n) as char
}

/// The decimal form of `n`, without leading zeros.
pub open spec fn decimal(n: nat) -> Seq<char>
    decreases n,
{
    if n < 10 {
        seq![digit(n)]
    } else {
        decimal(n / 10).push(digit(n % 10))
    }
}

pub open spec fn is_digit(c: char) -> bool {
    '0' <= c <= '9'
}

/// The number that a row of digits stands for.
pub open spec fn digits_value(s: Seq<char>) -> nat
    decreases s.len(),
{
    if s.len() == 0 {
        0
    } else {
        (digits_value(s.drop_last()) * 10 + (s.last() as int - '0' as int)) as nat
    }
}

pub open spec fn all_digits(s: Seq<char>) -> bool {
    forall|i: int| 0 <= i < s.len() ==> is_digit(#[trigger] s[i])
}

/// A number's text without the plus sign that may precede it.
pub open spec fn unsigned(s: Seq<char>) -> Seq<char> {
    if s.len() > 0 && s[0] == '+' {
        s.skip(1)
    } else {
        s
    }
}

/// The number that a text denotes: digits, which a plus sign may precede, with a value
/// that 64 bits can hold.
pub open spec fn parsed_u64(s: Seq<char>) -> Option<u64> {
    let d = unsigned(s);
    if d.len() > 0 && all_digits(d) && digits_value(d) <= u64::MAX {
        Some(digits_value(d) as u64)
    } else {
        None
    }
}

pub proof fn lemma_decimal(n: nat)
    ensures
        decimal(n).len() > 0,
        all_digits(decimal(n)),
        digits_value(decimal(n)) == n,
    decreases n,
{
    if n < 10 {
        assert(decimal(n).drop_last() =~= Seq::<char>::empty());
        assert(digits_value(decimal(n).drop_last()) == 0);
    } else {
        lemma_decimal(n / 10);
        assert(decimal(n).drop_last() =~= decimal(n / 10));
    }
}

/// Reading a number back from its decimal form gives the number.
pub proof fn lemma_parse_decimal(n: u64)
    ensures
        parsed_u64(decimal(n as nat)) == Some(n),
{
    lemma_decimal(n as nat);
    assert(is_digit(decimal(n as nat)[0]));
}

/// Two numbers with one decimal form are equal.
pub proof fn lemma_decimal_injective(a: nat, b: nat)
    requires
        decimal(a) == decimal(b),
    ensures
        a == b,
{
    lemma_decimal(a);
    lemma_decimal(b);
}

/// Calls `String::push`, which puts one character at the end of the text.
#[verifier::external_body]
pub(crate) fn push_char(s: &mut String, c: char)
    ensures
        final(s)@ == old(s)@.push(c),
{
    s.push(c);
}

/// Calls `core::str::from_utf8`, which accepts exactly the well-formed UTF-8 and gives the
/// text that it encodes.
#[verifier::external_body]
pub(crate) fn utf8_text(bytes: &[u8]) -> (text: Option<&str>)
    ensures
        match text {
            Some(t) => valid_utf8(bytes@) && t@ == decode_utf8(bytes@),
            None => !valid_utf8(bytes@),
        },
{
    core::str::from_utf8(bytes).ok()
}

/// The characters of a text.
pub fn to_chars(s: &str) -> (v: Vec<char>)
    ensures
        v@ == s@,
{
    let mut v: Vec<char> = Vec::new();
    for c in it: s.chars()
        invariant
            it.seq() == s@,
            v@ == s@.take(it.index() as int),
    {
        v.push(c);
    }
    v
}

/// The text made of the given characters.
pub fn from_chars(v: &[char]) -> (s: String)
    ensures
        s@ == v@,
{
    let mut s = String::new();
    for i in 0..v.len()
        invariant
            s@ == v@.take(i as int),
    {
        push_char(&mut s, v[i]);
    }
    s
}

/// The index of the first `c` at or after `from`.
pub(crate) fn find_from(v: &[char], from: usize, c: char) -> (i: usize)
    requires
        from <= v@.len(),
    ensures
        i == from + find(v@.skip(from as int), c),
        from <= i <= v@.len(),
{
    let mut i = from;
    while i < v.len() && v[i] != c
        invariant
            from <= i <= v@.len(),
            forall|j: int| from <= j < i ==> v@[j] != c,
        decreases v@.len() - i,
    {
        i += 1;
    }
    proof {
        lemma_find_is(v@.skip(from as int), c, i - from);
    }
    i
}

/// A copy of the characters from index `a` up to index `b`.
pub(crate) fn copy_range(v: &[char], a: usize, b: usize) -> (r: Vec<char>)
    requires
        a <= b <= v@.len(),
    ensures
        r@ == v@.subrange(a as int, b as int),
{
    let mut r: Vec<char> = Vec::new();
    for i in a..b
        invariant
            b <= v@.len(),
            a <= b,
            r@ == v@.subrange(a as int, i as int),
    {
        r.push(v[i]);
    }
    r
}

/// The views of a list of texts.
pub open spec fn views(v: Seq<Vec<char>>) -> Seq<Seq<char>> {
    Seq::new(v.len(), |i: int| v[i]@)
}

/// Splits a text into its lines.
pub fn split_lines(v: &[char]) -> (ls: Vec<Vec<char>>)
    ensures
        views(ls@) == lines(v@),
{
    let mut ls: Vec<Vec<char>> = Vec::new();
    let mut from: usize = 0;
    assert(v@.skip(0) =~= v@);
    assert(views(ls@) + lines(v@) =~= lines(v@));
    while from < v.len()
        invariant
            from <= v@.len(),
            views(ls@) + lines(v@.skip(from as int)) == lines(v@),
        decreases v@.len() - from,
    {
        let ghost start = from;
        let ghost rest = v@.skip(start as int);
        let ghost before = ls@;
        let end = find_from(v, from, '\n');
        if end == v.len() {
            let line = copy_range(v, from, end);
            assert(line@ =~= rest);
            ls.push(line);
            from = end;
            assert(v@.skip(from as int) =~= Seq::<char>::empty());
            assert(lines(v@.skip(from as int)) =~= Seq::<Seq<char>>::empty());
            assert(views(ls@) =~= views(before) + lines(rest));
            assert(views(ls@) + lines(v@.skip(from as int)) =~= views(ls@));
        } else {
            let mut stop = end;
            if end > from && v[end - 1] == '\r' {
                stop = end - 1;
            }
            let line = copy_range(v, from, stop);
            assert(line@ =~= strip_cr(rest.take(end - start)));
            ls.push(line);
            from = end + 1;
            assert(v@.skip(from as int) =~= rest.skip(end - start + 1));
            assert(views(ls@) =~= views(before).push(line@));
            assert(views(ls@) + lines(v@.skip(from as int)) =~= views(before) + lines(rest));
        }
    }
    assert(v@.skip(from as int) =~= Seq::<char>::empty());
    assert(views(ls@) + lines(v@.skip(from as int)) =~= views(ls@));
    ls
}

/// Writes a number in decimal.
pub fn write_decimal(n: u64) -> (s: Vec<char>)
    ensures
        s@ == decimal(n as nat),
    decreases n,
{
    let d = (48 + (n % 10) as u8) as char;
    if n < 10 {
        let mut s: Vec<char> = Vec::new();
        s.push(d);
        s
    } else {
        let mut s = write_decimal(n / 10);
        s.push(d);
        s
    }
}

/// Reads a number as `u64::from_str` does.
pub fn parse_u64(v: &[char]) -> (r: Option<u64>)
    ensures
        r == parsed_u64(v@),
{
    let mut i: usize = 0;
    if v.len() > 0 && v[0] == '+' {
        i = 1;
    }
    let start = i;
    let ghost d = unsigned(v@);
    assert(d =~= v@.skip(start as int));
    if i == v.len() {
        return None;
    }
    let mut n: u64 = 0;
    while i < v.len()
        invariant
            start <= i <= v@.len(),
            d == v@.skip(start as int),
            d == unsigned(v@),
            start < v@.len(),
            n == digits_value(d.take(i - start)),
            forall|j: int| 0 <= j < i - start ==> is_digit(#[trigger] d[j]),
        decreases v@.len() - i,
    {
        let c = v[i];
        assert(d[i - start] == c);
        if c < '0' || c > '9' {
            assert(!is_digit(d[i - start]));
            return None;
        }
        let k: u64 = (c as u32 - 48) as u64;
        assert(d.take(i + 1 - start).drop_last() =~= d.take(i - start));
        if n > u64::MAX / 10 || (n == u64::MAX / 10 && k > u64::MAX % 10) {
            proof {
                if all_digits(d) {
                    lemma_digits_value_grows(d, i + 1 - start);
                }
            }
            return None;
        }
        n = n * 10 + k;
        i += 1;
    }
    assert(d.take(i - start) =~= d);
    Some(n)
}

/// Digits that follow never make a number smaller.
proof fn lemma_digits_value_grows(s: Seq<char>, i: int)
    requires
        0 <= i <= s.len(),
        all_digits(s),
    ensures
        digits_value(s.take(i)) <= digits_value(s),
    decreases s.len(),
{
    if i < s.len() {
        assert forall|j: int| 0 <= j < s.drop_last().len() implies is_digit(
            #[trigger] s.drop_last()[j],
        ) by {
            assert(is_digit(s[j]));
        }
        lemma_digits_value_grows(s.drop_last(), i);
        assert(s.drop_last().take(i) =~= s.take(i));
        assert(is_digit(s[s.len() - 1]));
    } else {
        assert(s.take(i) =~= s);
    }
}

/// Each character of a number's decimal form is the digit of its place, and the first one is
/// a zero only where it is the whole number.
pub proof fn law_decimal_shows_the_digits(n: nat, i: nat)
    requires
        i < decimal(n).len(),
    ensures
        decimal(n)[decimal(n).len() - 1 - i] as nat == 48 + (n / (pow(10, i) as nat)) % 10,
        n < pow(10, decimal(n).len()),
        decimal(n).len() > 1 ==> n >= pow(10, (decimal(n).len() - 1) as nat),
    decreases n,
{
    lemma_decimal_length(n);
    if i == 0 {
        lemma_pow0(10);
        assert(n / 1 == n);
    } else {
        let j = (i - 1) as nat;
        law_decimal_shows_the_digits(n / 10, j);
        lemma_pow_positive(10, j);
        assert(pow(10, i) == 10 * pow(10, j)) by {
            reveal(pow);
        }
        lemma_div_denominator(n as int, 10, pow(10, j));
    }
}

proof fn lemma_decimal_length(n: nat)
    ensures
        n < pow(10, decimal(n).len()),
        decimal(n).len() > 1 ==> n >= pow(10, (decimal(n).len() - 1) as nat),
    decreases n,
{
    let len = decimal(n).len();
    if n < 10 {
        lemma_pow1(10);
    } else {
        lemma_decimal_length(n / 10);
        assert(pow(10, len) == 10 * pow(10, (len - 1) as nat)) by {
            reveal(pow);
        }
        if len > 2 {
            assert(pow(10, (len - 1) as nat) == 10 * pow(10, (len - 2) as nat)) by {
                reveal(pow);
            }
        } else {
            lemma_pow1(10);
        }
    }
}

/// A number is read digit by digit: a text of one digit is that digit, one more digit behind a
/// number makes ten times the number and the digit, and no number where that takes more than
/// 64 bits or where the character is no digit.
pub proof fn law_numbers_are_read_by_digits(s: Seq<char>, c: char)
    ensures
        parsed_u64(seq![c]) == if '0' <= c <= '9' {
            Some((c as int - 48) as u64)
        } else {
            None::<u64>
        },
        parsed_u64(s) matches Some(v) ==> parsed_u64(s.push(c)) == if '0' <= c <= '9' && 10 * v + (
        c as int - 48) <= u64::MAX {
            Some((10 * v + (c as int - 48)) as u64)
        } else {
            None::<u64>
        },
{
    let one = seq![c];
    assert(one.skip(1) =~= Seq::<char>::empty());
    assert(one.drop_last() =~= Seq::<char>::empty());
    reveal_with_fuel(digits_value, 2);
    if all_digits(one) {
        assert(is_digit(one[0]));
    }
    if parsed_u64(s) is Some {
        let d = unsigned(s);
        let all = unsigned(s.push(c));
        assert(all =~= d.push(c)) by {
            assert(s.push(c)[0] == s[0]);
            if s[0] == '+' {
                assert(s.push(c).skip(1) =~= s.skip(1).push(c));
            }
        }
        assert(all.drop_last() =~= d);
        if '0' <= c <= '9' {
            assert forall|i: int| 0 <= i < all.len() implies is_digit(#[trigger] all[i]) by {
                if i < d.len() {
                    assert(is_digit(d[i]));
                }
            }
            assert(all_digits(all));
        } else {
            assert(!is_digit(all[all.len() - 1]));
            assert(!all_digits(all));
        }
    }
}

/// What is no number stays none, whatever follows it, but for a plus sign alone; a plus sign
/// before a number makes no difference, and an empty text is no number.
pub proof fn law_other_texts_are_no_numbers(s: Seq<char>, c: char)
    ensures
        parsed_u64(Seq::<char>::empty()) is None,
        s.len() > 0 && s != seq!['+'] && parsed_u64(s) is None ==> parsed_u64(s.push(c)) is None,
        s.len() == 0 || s[0] != '+' ==> parsed_u64(seq!['+'] + s) == parsed_u64(s),
{
    assert((seq!['+'] + s).skip(1) =~= s);
    if s.len() > 0 && s != seq!['+'] && parsed_u64(s) is None {
        let d = unsigned(s);
        let all = unsigned(s.push(c));
        assert(d.len() > 0) by {
            if d.len() == 0 {
                assert(s =~= seq!['+']);
            }
        }
        assert(all =~= d.push(c)) by {
            assert(s.push(c)[0] == s[0]);
            if s[0] == '+' {
                assert(s.push(c).skip(1) =~= s.skip(1).push(c));
            }
        }
        assert(all.drop_last() =~= d);
        if all_digits(all) {
            assert forall|i: int| 0 <= i < d.len() implies is_digit(#[trigger] d[i]) by {
                assert(is_digit(all[i]));
            }
            assert(is_digit(all[all.len() - 1]));
        }
    }
}

/// A text is split where the character stands for the first time, and at no place where it does
/// not occur.
pub proof fn law_text_is_split_at_the_first(s: Seq<char>, c: char)
    ensures
        match split_once(s, c) {
            Some((before, after)) => s == before + seq![c] + after && !before.contains(c),
            None => !s.contains(c),
        },
{
    lemma_find(s, c);
    let i = find(s, c) as int;
    if i < s.len() {
        assert(s =~= s.take(i) + seq![c] + s.skip(i + 1));
    }
}

/// A line feed ends a line, and so does a carriage return before it; a last line without an
/// ending counts too, and an empty text has no lines.
pub proof fn law_lines_end_at_line_feeds(line: Seq<char>, rest: Seq<char>)
    requires
        forall|j: int| 0 <= j < line.len() ==> line[j] != '\n',
    ensures
        lines(line.push('\n') + rest) == seq![
            if line.len() > 0 && line.last() == '\r' {
                line.drop_last()
            } else {
                line
            },
        ] + lines(rest),
        line.len() > 0 ==> lines(line) == seq![line],
        lines(Seq::<char>::empty()) == Seq::<Seq<char>>::empty(),
{
    lemma_lines_append(line.push('\n'), rest);
    lemma_lines_of_line(line);
    lemma_find_is(line, '\n', line.len() as int);
    assert(lines(Seq::<char>::empty()) =~= Seq::<Seq<char>>::empty());
}

/// Putting lines together sets each of them before one line feed, in order.
pub proof fn law_lines_are_put_together(ls: Seq<Seq<char>>, line: Seq<char>)
    ensures
        unlines(ls.push(line)) == unlines(ls) + line + seq!['\n'],
        unlines(Seq::<Seq<char>>::empty()) == Seq::<char>::empty(),
{
    assert(ls.push(line).drop_last() =~= ls);
    assert(unlines(ls.push(line)) =~= unlines(ls) + line + seq!['\n']);
}

} // verus!
