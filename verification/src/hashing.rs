//! What goes into the hashes of passwords and keycards, and what becomes of the digests.
use crate::text::from_chars;
use vstd::arithmetic::power::{lemma_pow_increases, lemma_pow_positive, pow};
use vstd::prelude::*;
use vstd::utf8::{decode_utf8, encode_utf8, valid_utf8};

verus! {

/// How many bytes of salt there are.
pub const SALT_LEN: usize = 16;

/// How many bytes a digest has.
pub const HASH_LEN: usize = 32;

/// The salt: the first 16 bytes of a text that is at least that long.
pub fn salt(text: &str) -> (s: [u8; 16])
    requires
        encode_utf8(text@).len() >= SALT_LEN,
    ensures
        s@ == encode_utf8(text@).take(16),
        forall|i: int| 0 <= i < 16 ==> #[trigger] s@[i] == encode_utf8(text@)[i],
{
    let bytes = text.as_bytes();
    let mut s: [u8; 16] = [0u8; 16];
    for i in 0..16usize
        invariant
            bytes@ == encode_utf8(text@),
            bytes@.len() >= 16,
            forall|j: int| 0 <= j < i ==> s@[j] == bytes@[j],
    {
        s[i] = bytes[i];
    }
    assert(s@ =~= encode_utf8(text@).take(16));
    s
}

/// The bytes that are hashed for a password: the salt, then the password in UTF-8.
pub open spec fn password_bytes(salt: Seq<u8>, password: Seq<char>) -> Seq<u8> {
    salt + encode_utf8(password)
}

fn push_all(v: &mut Vec<u8>, bytes: &[u8])
    ensures
        final(v)@ == old(v)@ + bytes@,
{
    let ghost before = v@;
    for i in 0..bytes.len()
        invariant
            v@ == before + bytes@.take(i as int),
    {
        v.push(bytes[i]);
    }
    assert(v@ =~= before + bytes@);
}

/// The message whose digest is the hash of a password.
pub fn password_message(salt: &[u8; 16], password: &str) -> (m: Vec<u8>)
    ensures
        m@ == password_bytes(salt@, password@),
{
    let mut m: Vec<u8> = Vec::new();
    push_all(&mut m, salt.as_slice());
    push_all(&mut m, password.as_bytes());
    assert(m@ =~= password_bytes(salt@, password@));
    m
}

/// The number that bytes stand for, the most significant one first.
pub open spec fn be_value(bytes: Seq<u8>) -> nat
    decreases bytes.len(),
{
    if bytes.len() == 0 {
        0
    } else {
        be_value(bytes.drop_last()) * 256 + bytes.last() as nat
    }
}

/// The last `n` bytes of a number, the most significant one first.
pub open spec fn be_bytes(value: nat, n: nat) -> Seq<u8>
    decreases n,
{
    if n == 0 {
        seq![]
    } else {
        be_bytes(value / 256, (n - 1) as nat).push((value % 256) as u8)
    }
}

/// The bytes that are hashed for the id on a keycard: the salt, then the four bytes of the id,
/// the most significant one first.
pub open spec fn id_bytes(salt: Seq<u8>, value: u32) -> Seq<u8> {
    salt + be_bytes(value as nat, 4)
}

/// The message whose digest is the hash of an id.
pub fn id_message(salt: &[u8; 16], value: u32) -> (m: Vec<u8>)
    ensures
        m@ == id_bytes(salt@, value),
{
    let mut m: Vec<u8> = Vec::new();
    push_all(&mut m, salt.as_slice());
    push_be(&mut m, value, 4);
    assert(m@ =~= id_bytes(salt@, value));
    m
}

fn push_be(v: &mut Vec<u8>, value: u32, n: u8)
    ensures
        final(v)@ == old(v)@ + be_bytes(value as nat, n as nat),
    decreases n,
{
    if n == 0 {
        assert(v@ + be_bytes(value as nat, 0) =~= v@);
    } else {
        push_be(v, value / 256, n - 1);
        v.push((value % 256) as u8);
    }
}

/// The id that a digest stands for: the number in its first eight bytes. The lines of the user
/// database and the commands hold an id as a number of 64 bits, so the rest of the digest has
/// no place in it.
pub open spec fn id_of_digest(digest: Seq<u8>) -> nat {
    be_value(digest.take(8))
}

/// The hashed id, from the digest of an id's message.
pub fn hashed_id(digest: &[u8; 32]) -> (id: u64)
    ensures
        id == id_of_digest(digest@),
{
    let mut id: u64 = 0;
    for i in 0..8usize
        invariant
            id == be_value(digest@.take(i as int)),
    {
        proof {
            let next = digest@.take(i + 1);
            assert(next.drop_last() =~= digest@.take(i as int));
            assert(next.last() == digest@[i as int]);
            lemma_be_bound(next, 8);
        }
        id = id * 256 + digest[i] as u64;
    }
    id
}

/// Up to eight bytes stand for a number that fits in 64 bits.
proof fn lemma_be_bound(bytes: Seq<u8>, n: nat)
    requires
        bytes.len() <= n <= 8,
    ensures
        be_value(bytes) < pow(256, n),
        be_value(bytes) <= u64::MAX,
    decreases n,
{
    lemma_pow256();
    if n > 0 {
        if bytes.len() > 0 {
            lemma_be_bound(bytes.drop_last(), (n - 1) as nat);
        }
        lemma_pow_positive(256, n);
        assert(pow(256, n) == 256 * pow(256, (n - 1) as nat)) by {
            reveal(pow);
        }
        lemma_pow_increases(256, n, 8);
    }
}

proof fn lemma_pow256()
    ensures
        pow(256, 0) == 1,
        pow(256, 4) == 0x1_0000_0000,
        pow(256, 8) == 0x1_0000_0000_0000_0000,
{
    reveal_with_fuel(pow, 9);
}

/// The lower-case digit of a number below sixteen.
pub open spec fn hex_digit(n: nat) -> char {
    if n < 10 {
        (('0' as nat) + n) as char
    } else {
        (('a' as nat) + n - 10) as char
    }
}

/// Two hexadecimal digits for each byte.
pub open spec fn hex(bytes: Seq<u8>) -> Seq<char>
    decreases bytes.len(),
{
    if bytes.len() == 0 {
        seq![]
    } else {
        hex(bytes.drop_last()).push(hex_digit((bytes.last() / 16) as nat)).push(
            hex_digit((bytes.last() % 16) as nat),
        )
    }
}

fn hex_char(n: u8) -> (c: char)
    requires
        n < 16,
    ensures
        c == hex_digit(n as nat),
{
    if n < 10 {
        (48 + n) as char
    } else {
        (87 + n) as char
    }
}

/// Writes bytes in hexadecimal.
pub fn hex_text(bytes: &[u8; 32]) -> (s: String)
    ensures
        s@ == hex(bytes@),
{
    let mut v: Vec<char> = Vec::new();
    for i in 0..32usize
        invariant
            v@ == hex(bytes@.take(i as int)),
    {
        let b = bytes[i];
        assert(bytes@.take(i + 1).drop_last() =~= bytes@.take(i as int));
        v.push(hex_char(b / 16));
        v.push(hex_char(b % 16));
    }
    assert(bytes@.take(32) =~= bytes@);
    from_chars(v.as_slice())
}

/// Where the digits of each byte stand.
pub proof fn lemma_hex(bytes: Seq<u8>)
    ensures
        hex(bytes).len() == 2 * bytes.len(),
        forall|i: int|
            0 <= i < bytes.len() ==> hex(bytes)[2 * i] == hex_digit((#[trigger] bytes[i] / 16) as nat)
                && hex(bytes)[2 * i + 1] == hex_digit((bytes[i] % 16) as nat),
        forall|k: int| 0 <= k < hex(bytes).len() ==> is_hex(#[trigger] hex(bytes)[k]),
    decreases bytes.len(),
{
    if bytes.len() > 0 {
        let head = bytes.drop_last();
        lemma_hex(head);
        assert forall|i: int| 0 <= i < bytes.len() implies hex(bytes)[2 * i] == hex_digit(
            (#[trigger] bytes[i] / 16) as nat,
        ) && hex(bytes)[2 * i + 1] == hex_digit((bytes[i] % 16) as nat) by {
            if i < head.len() {
                assert(head[i] == bytes[i]);
            }
        }
        assert forall|k: int| 0 <= k < hex(bytes).len() implies is_hex(#[trigger] hex(bytes)[k]) by {
            if k < hex(head).len() {
                assert(hex(bytes)[k] == hex(head)[k]);
            }
        }
    }
}

pub open spec fn is_hex(c: char) -> bool {
    '0' <= c <= '9' || 'a' <= c <= 'f'
}

/// Different bytes have different texts.
pub proof fn law_hex_is_injective(a: Seq<u8>, b: Seq<u8>)
    requires
        hex(a) == hex(b),
    ensures
        a == b,
{
    lemma_hex(a);
    lemma_hex(b);
    assert forall|i: int| 0 <= i < a.len() implies a[i] == b[i] by {
        assert(hex(a)[2 * i] == hex_digit((a[i] / 16) as nat));
        assert(hex(b)[2 * i] == hex_digit((b[i] / 16) as nat));
        assert(hex(a)[2 * i + 1] == hex_digit((a[i] % 16) as nat));
        assert(hex(b)[2 * i + 1] == hex_digit((b[i] % 16) as nat));
        assert(a[i] == 16 * (a[i] / 16) + a[i] % 16);
        assert(b[i] == 16 * (b[i] / 16) + b[i] % 16);
    }
    assert(a =~= b);
}

fn hex_value(c: char) -> (r: Option<u8>)
    ensures
        match r {
            Some(n) => n < 16 && c == hex_digit(n as nat),
            None => !is_hex(c),
        },
{
    if '0' <= c && c <= '9' {
        Some((c as u32 - 48) as u8)
    } else if 'a' <= c && c <= 'f' {
        Some((c as u32 - 87) as u8)
    } else {
        None
    }
}

/// Reads a digest that was written in hexadecimal.
pub fn parse_hash(text: &[char]) -> (r: Option<[u8; 32]>)
    ensures
        match r {
            Some(h) => hex(h@) == text@,
            None => forall|h: Seq<u8>| h.len() == HASH_LEN ==> #[trigger] hex(h) != text@,
        },
{
    if text.len() != 64 {
        proof {
            assert forall|h: Seq<u8>| h.len() == HASH_LEN implies #[trigger] hex(h) != text@ by {
                lemma_hex(h);
            }
        }
        return None;
    }
    let mut h: [u8; 32] = [0u8; 32];
    for i in 0..32usize
        invariant
            text@.len() == 64,
            hex(h@.take(i as int)) == text@.take(2 * i),
    {
        let ghost h0 = h@;
        let hi = hex_value(text[2 * i]);
        let lo = hex_value(text[2 * i + 1]);
        match (hi, lo) {
            (Some(hi), Some(lo)) => {
                h[i] = hi * 16 + lo;
                proof {
                    let next = h@.take(i + 1);
                    assert(next.drop_last() =~= h0.take(i as int));
                    assert(text@.take(2 * i + 2) =~= text@.take(2 * i).push(text@[2 * i]).push(
                        text@[2 * i + 1],
                    ));
                    assert(h@[i as int] / 16 == hi && h@[i as int] % 16 == lo);
                }
            },
            _ => {
                proof {
                    assert forall|g: Seq<u8>| g.len() == HASH_LEN implies #[trigger] hex(g) != text@ by {
                        lemma_hex(g);
                        assert(is_hex(hex(g)[2 * i]));
                        assert(is_hex(hex(g)[2 * i + 1]));
                    }
                }
                return None;
            },
        }
    }
    assert(h@.take(32) =~= h@);
    assert(text@.take(64) =~= text@);
    Some(h)
}

/// A written number reads as itself.
pub proof fn lemma_be_value(value: nat, n: nat)
    requires
        value < pow(256, n),
    ensures
        be_bytes(value, n).len() == n,
        be_value(be_bytes(value, n)) == value,
    decreases n,
{
    reveal(pow);
    if n > 0 {
        lemma_be_value(value / 256, (n - 1) as nat);
        assert(be_bytes(value, n).drop_last() =~= be_bytes(value / 256, (n - 1) as nat));
    }
}

/// Different ids have different messages, and so do different passwords.
pub proof fn law_messages_differ(salt: Seq<u8>, a: u32, b: u32, p: Seq<char>, q: Seq<char>)
    ensures
        id_bytes(salt, a) == id_bytes(salt, b) ==> a == b,
        password_bytes(salt, p) == password_bytes(salt, q) ==> p == q,
{
    lemma_pow256();
    lemma_be_value(a as nat, 4);
    lemma_be_value(b as nat, 4);
    let n = salt.len() as int;
    assert(id_bytes(salt, a).skip(n) =~= be_bytes(a as nat, 4));
    assert(id_bytes(salt, b).skip(n) =~= be_bytes(b as nat, 4));
    assert(password_bytes(salt, p).skip(n) =~= encode_utf8(p));
    assert(password_bytes(salt, q).skip(n) =~= encode_utf8(q));
    vstd::utf8::encode_utf8_decode_utf8(p);
    vstd::utf8::encode_utf8_decode_utf8(q);
}

/// What is hashed for a password is the salt and behind it the password, and for the id on a
/// keycard the salt and behind it the four bytes of the id, the most significant one first.
pub proof fn law_messages_hold_salt_and_secret(salt: Seq<u8>, password: Seq<char>, id: u32)
    ensures
        ({
            let m = password_bytes(salt, password);
            let n = salt.len() as int;
            &&& m.len() >= n && m.take(n) == salt
            &&& valid_utf8(m.skip(n)) && decode_utf8(m.skip(n)) == password
        }),
        ({
            let m = id_bytes(salt, id);
            let n = salt.len() as int;
            &&& m.len() == n + 4 && m.take(n) == salt
            &&& m[n] * 0x100_0000 + m[n + 1] * 0x1_0000 + m[n + 2] * 0x100 + m[n + 3] == id
        }),
{
    let n = salt.len() as int;
    let p = password_bytes(salt, password);
    assert(p.take(n) =~= salt);
    assert(p.skip(n) =~= encode_utf8(password));
    vstd::utf8::encode_utf8_valid_utf8(password);
    vstd::utf8::encode_utf8_decode_utf8(password);
    let m = id_bytes(salt, id);
    lemma_pow256();
    lemma_be_value(id as nat, 4);
    assert(m.take(n) =~= salt);
    let b = be_bytes(id as nat, 4);
    assert(m[n] == b[0] && m[n + 1] == b[1] && m[n + 2] == b[2] && m[n + 3] == b[3]);
    lemma_four_bytes(b);
}

proof fn lemma_four_bytes(b: Seq<u8>)
    requires
        b.len() == 4,
    ensures
        be_value(b) == b[0] * 0x100_0000 + b[1] * 0x1_0000 + b[2] * 0x100 + b[3],
{
    reveal_with_fuel(be_value, 5);
}

/// The hashed id is made of the first eight bytes of the digest, the most significant one
/// first.
pub proof fn law_hashed_id_is_the_head_of_the_digest(digest: Seq<u8>)
    requires
        digest.len() >= 8,
    ensures
        id_of_digest(digest) == digest[0] * 0x100_0000_0000_0000 + digest[1] * 0x1_0000_0000_0000
            + digest[2] * 0x100_0000_0000 + digest[3] * 0x1_0000_0000 + digest[4] * 0x100_0000
            + digest[5] * 0x1_0000 + digest[6] * 0x100 + digest[7],
{
    let b = digest.take(8);
    let a = b.take(4);
    assert(b.drop_last().drop_last().drop_last().drop_last() =~= a);
    lemma_four_bytes(a);
    reveal_with_fuel(be_value, 5);
}

/// The two digits of a byte stand where the byte stands, and their value is that of the byte.
pub proof fn law_hex_shows_the_bytes(bytes: Seq<u8>, i: int)
    requires
        0 <= i < bytes.len(),
    ensures
        hex(bytes).len() == 2 * bytes.len(),
        ({
            let high = hex(bytes)[2 * i];
            let low = hex(bytes)[2 * i + 1];
            let value = |c: char|
                if '0' <= c <= '9' {
                    c as int - 48
                } else {
                    c as int - 87
                };
            &&& '0' <= high <= '9' || 'a' <= high <= 'f'
            &&& '0' <= low <= '9' || 'a' <= low <= 'f'
            &&& 16 * value(high) + value(low) == bytes[i]
        }),
{
    lemma_hex(bytes);
    let b = bytes[i];
    assert(b == 16 * (b / 16) + b % 16);
}

} // verus!
