//! The files on the SD card: the log, the user database and the password.
//!
//! [`SdStorage`] holds the files as they are on the card. Its methods change that copy and
//! note each change, so that it can be carried out on the card itself.
use crate::net::{name_fits, UserInfo};
use crate::roster::rows;
use crate::text::{
    copy_range, find, from_chars, lemma_find, lemma_lines_append, lemma_lines_of_line, lines,
    one_line, split_lines, strip_cr, to_chars, utf8_text, whole_lines,
};
use crate::userdb::{
    check_names, drop_user, find_user, first_users, holds_user, listed_users, make_line, names_fit,
    law_added_user_is_present, law_removed_user_is_gone, law_renaming_keeps_users, read_users,
    rename_user, user_entry, with_name, without_user,
};
use vstd::prelude::*;
use vstd::utf8::{
    decode_utf8, encode_scalar, encode_utf8, is_continuation_byte, length_of_first_scalar,
    pop_first_scalar, valid_utf8,
};

verus! {

/// How many characters of the log are shown, and how many bytes are kept when it is cut.
pub const LOG_PACKET_CHAR_COUNT: usize = 1024;

/// How many lines the log has at most.
pub const LOG_MAX_LINES: usize = 128;

/// The size over which the log is cut.
pub const LOG_MAX_SIZE: u32 = 4096;

/// How many bytes of a file that is not UTF-8 are read at once.
pub const READ_CHUNK: usize = 256;

/// How many bytes of the end of such a file are read at once.
pub const READ_END_CHUNK: usize = 512;

#[derive(Copy, Clone, Debug, PartialEq, Eq, Structural)]
pub enum FileNameEnum {
    Log,
    Users,
    Password,
    Temp,
}

impl FileNameEnum {
    /// The file's name on the card.
    pub open spec fn name(self) -> Seq<char> {
        match self {
            FileNameEnum::Log => "LOG.TXT"@,
            FileNameEnum::Users => "USER.TXT"@,
            FileNameEnum::Password => "PSWD.TXT"@,
            FileNameEnum::Temp => "TMP.TXT"@,
        }
    }

    pub fn as_str(&self) -> (s: &'static str)
        ensures
            s@ == self.name(),
    {
        match self {
            FileNameEnum::Log => "LOG.TXT",
            FileNameEnum::Users => "USER.TXT",
            FileNameEnum::Password => "PSWD.TXT",
            FileNameEnum::Temp => "TMP.TXT",
        }
    }
}

/// The files that exist on a card, with their bytes.
pub type Files = Map<FileNameEnum, Seq<u8>>;

/// The bytes of a file; none where the file does not exist.
pub open spec fn contents(files: Files, file: FileNameEnum) -> Seq<u8> {
    if files.contains_key(file) {
        files[file]
    } else {
        seq![]
    }
}

/// One change to the card.
#[derive(Debug)]
pub enum CardOp {
    /// Writes `data` to the file, which is created where it does not exist: in place of what
    /// it holds, or behind that.
    Write { file: FileNameEnum, data: Vec<u8>, overwrite: bool },
    /// Deletes the file where it exists.
    Delete { file: FileNameEnum },
}

/// What a change to the card is.
pub enum CardChange {
    Write { file: FileNameEnum, data: Seq<u8>, overwrite: bool },
    Delete { file: FileNameEnum },
}

impl View for CardOp {
    type V = CardChange;

    open spec fn view(&self) -> CardChange {
        match *self {
            CardOp::Write { file, data, overwrite } => CardChange::Write {
                file,
                data: data@,
                overwrite,
            },
            CardOp::Delete { file } => CardChange::Delete { file },
        }
    }
}

/// The files after a write.
pub open spec fn written(files: Files, file: FileNameEnum, data: Seq<u8>, overwrite: bool) -> Files {
    if overwrite {
        files.insert(file, data)
    } else {
        files.insert(file, contents(files, file) + data)
    }
}

impl CardChange {
    /// The files after this change.
    pub open spec fn apply(self, files: Files) -> Files {
        match self {
            CardChange::Write { file, data, overwrite } => written(files, file, data, overwrite),
            CardChange::Delete { file } => files.remove(file),
        }
    }
}

/// What the changes of a list are.
pub open spec fn changes(ops: Seq<CardOp>) -> Seq<CardChange> {
    ops.map_values(|op: CardOp| op@)
}

/// Puts text in place of what a file holds.
pub open spec fn replaced(file: FileNameEnum, text: Seq<char>) -> CardChange {
    CardChange::Write { file, data: encode_utf8(text), overwrite: true }
}

/// Puts text behind what a file holds.
pub open spec fn appended(file: FileNameEnum, text: Seq<char>) -> CardChange {
    CardChange::Write { file, data: encode_utf8(text), overwrite: false }
}

/// The files after a row of changes, the first one first.
pub open spec fn replay(files: Files, ops: Seq<CardChange>) -> Files
    decreases ops.len(),
{
    if ops.len() == 0 {
        files
    } else {
        ops.last().apply(replay(files, ops.drop_last()))
    }
}

/// The text that bytes encode; none where they are not UTF-8.
pub open spec fn text_of(bytes: Seq<u8>) -> Seq<char> {
    if valid_utf8(bytes) {
        decode_utf8(bytes)
    } else {
        seq![]
    }
}

/// The text of a file that is read `n` bytes at a time, each part decoded by itself.
pub open spec fn chunked_text(bytes: Seq<u8>, n: nat) -> Seq<char>
    decreases bytes.len(),
{
    if bytes.len() == 0 || n == 0 {
        seq![]
    } else if bytes.len() <= n {
        text_of(bytes)
    } else {
        text_of(bytes.take(n as int)) + chunked_text(bytes.skip(n as int), n)
    }
}

/// The lines of a file that is read `n` bytes at a time, each part split by itself.
pub open spec fn chunked_lines(bytes: Seq<u8>, n: nat) -> Seq<Seq<char>>
    decreases bytes.len(),
{
    if bytes.len() == 0 || n == 0 {
        seq![]
    } else if bytes.len() <= n {
        lines(text_of(bytes))
    } else {
        lines(text_of(bytes.take(n as int))) + chunked_lines(bytes.skip(n as int), n)
    }
}

/// The text of a file: what it encodes. Of a file that is not UTF-8, the parts that are.
pub open spec fn file_text(bytes: Seq<u8>) -> Seq<char> {
    if valid_utf8(bytes) {
        decode_utf8(bytes)
    } else {
        chunked_text(bytes, READ_CHUNK as nat)
    }
}

/// The last `n` bytes, or all of them where there are fewer.
pub open spec fn tail(bytes: Seq<u8>, n: nat) -> Seq<u8> {
    if bytes.len() <= n {
        bytes
    } else {
        bytes.skip(bytes.len() - n)
    }
}

/// The last `n` characters, or all of them where there are fewer.
pub open spec fn last_chars(text: Seq<char>, n: nat) -> Seq<char> {
    if text.len() <= n {
        text
    } else {
        text.skip(text.len() - n)
    }
}

/// The last `n` characters of a file's text. Of a file that is not UTF-8, those parts of its
/// last `n` bytes that are.
pub open spec fn end_text(bytes: Seq<u8>, n: nat) -> Seq<char> {
    if valid_utf8(bytes) {
        last_chars(decode_utf8(bytes), n)
    } else {
        chunked_text(tail(bytes, n), READ_END_CHUNK as nat)
    }
}

/// What is kept of a file that is cut to its last `to` bytes: they are read in parts, and a part
/// that is not UTF-8 by itself is lost.
pub open spec fn kept_text(bytes: Seq<u8>, to: nat) -> Seq<char> {
    chunked_text(tail(bytes, to), READ_END_CHUNK as nat)
}

/// The bytes that are kept of a file that is cut to its last `to` bytes.
pub open spec fn kept(bytes: Seq<u8>, to: nat) -> Seq<u8> {
    encode_utf8(kept_text(bytes, to))
}

/// How many line feeds there are.
pub open spec fn line_feeds(bytes: Seq<u8>) -> nat
    decreases bytes.len(),
{
    if bytes.len() == 0 {
        0
    } else {
        line_feeds(bytes.skip(1)) + if bytes[0] == 10 {
            1nat
        } else {
            0
        }
    }
}

/// What stands behind the first line feed.
pub open spec fn behind_first_line(bytes: Seq<u8>) -> Seq<u8>
    decreases bytes.len(),
{
    if bytes.len() == 0 {
        bytes
    } else if bytes[0] == 10 {
        bytes.skip(1)
    } else {
        behind_first_line(bytes.skip(1))
    }
}

/// A log without the oldest of its lines, as long as there are more than `n` of them.
pub open spec fn newest_lines(bytes: Seq<u8>, n: nat) -> Seq<u8>
    decreases bytes.len(),
    via newest_lines_decreases
{
    if line_feeds(bytes) <= n {
        bytes
    } else {
        newest_lines(behind_first_line(bytes), n)
    }
}

#[via_fn]
proof fn newest_lines_decreases(bytes: Seq<u8>, n: nat) {
    if line_feeds(bytes) > n {
        lemma_behind_first_line(bytes);
    }
}

/// Behind the first line there is less, with one line feed less.
proof fn lemma_behind_first_line(bytes: Seq<u8>)
    requires
        line_feeds(bytes) > 0,
    ensures
        behind_first_line(bytes).len() < bytes.len(),
        line_feeds(behind_first_line(bytes)) == line_feeds(bytes) - 1,
    decreases bytes.len(),
{
    if bytes[0] != 10 {
        lemma_behind_first_line(bytes.skip(1));
    }
}

/// Decodes one part of a file.
fn decode_part(bytes: &[u8]) -> (v: Vec<char>)
    ensures
        v@ == text_of(bytes@),
{
    match utf8_text(bytes) {
        Some(t) => to_chars(t),
        None => Vec::new(),
    }
}

/// A copy of the bytes from index `a` up to index `b`.
fn copy_bytes(bytes: &Vec<u8>, a: usize, b: usize) -> (r: Vec<u8>)
    requires
        a <= b <= bytes@.len(),
    ensures
        r@ == bytes@.subrange(a as int, b as int),
{
    let mut r: Vec<u8> = Vec::new();
    for i in a..b
        invariant
            a <= b <= bytes@.len(),
            r@ == bytes@.subrange(a as int, i as int),
    {
        r.push(bytes[i]);
    }
    r
}

/// Reads a file from index `from` on, `n` bytes at a time.
fn read_chunks(bytes: &Vec<u8>, from: usize, n: usize) -> (v: Vec<char>)
    requires
        from <= bytes@.len(),
        n > 0,
    ensures
        v@ == chunked_text(bytes@.skip(from as int), n as nat),
{
    let mut v: Vec<char> = Vec::new();
    let mut i = from;
    assert(bytes@.skip(i as int) =~= bytes@.skip(from as int));
    while i < bytes.len()
        invariant
            i <= bytes@.len(),
            from <= bytes@.len(),
            n > 0,
            v@ + chunked_text(bytes@.skip(i as int), n as nat) =~= chunked_text(
                bytes@.skip(from as int),
                n as nat,
            ),
        decreases bytes@.len() - i,
    {
        let ghost rest = bytes@.skip(i as int);
        let ghost before = v@;
        let end = if bytes.len() - i <= n {
            bytes.len()
        } else {
            i + n
        };
        let part = copy_bytes(bytes, i, end);
        let mut t = decode_part(part.as_slice());
        let ghost t0 = t@;
        v.append(&mut t);
        proof {
            if rest.len() <= n {
                assert(part@ =~= rest);
                assert(bytes@.skip(end as int) =~= Seq::<u8>::empty());
            } else {
                assert(part@ =~= rest.take(n as int));
                assert(bytes@.skip(end as int) =~= rest.skip(n as int));
            }
            assert(v@ =~= before + t0);
            assert(chunked_text(rest, n as nat) =~= t0 + chunked_text(
                bytes@.skip(end as int),
                n as nat,
            ));
        }
        i = end;
    }
    assert(bytes@.skip(i as int) =~= Seq::<u8>::empty());
    v
}

/// The `target`-th of a file's lines, read `n` bytes at a time.
fn read_line(bytes: &Vec<u8>, n: usize, target: usize) -> (r: Option<Vec<char>>)
    requires
        n > 0,
    ensures
        match r {
            Some(line) => target < chunked_lines(bytes@, n as nat).len() && line@ == chunked_lines(
                bytes@,
                n as nat,
            )[target as int],
            None => target >= chunked_lines(bytes@, n as nat).len(),
        },
{
    let mut current: usize = 0;
    let mut i: usize = 0;
    let ghost all = chunked_lines(bytes@, n as nat);
    assert(bytes@.skip(0) =~= bytes@);
    while i < bytes.len()
        invariant
            i <= bytes@.len(),
            n > 0,
            all == chunked_lines(bytes@, n as nat),
            current <= target,
            current <= all.len(),
            all.skip(current as int) =~= chunked_lines(bytes@.skip(i as int), n as nat),
        decreases bytes@.len() - i,
    {
        let ghost rest = bytes@.skip(i as int);
        let end = if bytes.len() - i <= n {
            bytes.len()
        } else {
            i + n
        };
        let part = copy_bytes(bytes, i, end);
        let t = decode_part(part.as_slice());
        let mut ls = split_lines(t.as_slice());
        let ghost here = lines(t@);
        let ghost start = current;
        proof {
            if rest.len() <= n {
                assert(part@ =~= rest);
                assert(bytes@.skip(end as int) =~= Seq::<u8>::empty());
            } else {
                assert(part@ =~= rest.take(n as int));
                assert(bytes@.skip(end as int) =~= rest.skip(n as int));
            }
            assert(chunked_lines(rest, n as nat) =~= here + chunked_lines(
                bytes@.skip(end as int),
                n as nat,
            ));
            assert(crate::text::views(ls@).len() == ls@.len());
            assert(all.skip(start as int).len() == all.len() - start);
        }
        let mut k: usize = 0;
        while k < ls.len()
            invariant
                k <= ls@.len(),
                crate::text::views(ls@) == here,
                ls@.len() == here.len(),
                current == start + k,
                current <= target,
                start + here.len() <= all.len(),
                all.skip(start as int) =~= here + chunked_lines(bytes@.skip(end as int), n as nat),
                all == chunked_lines(bytes@, n as nat),
            decreases ls@.len() - k,
        {
            if current == target {
                let line = ls.swap_remove(k);
                assert(here[k as int] == line@);
                assert(all.skip(start as int)[k as int] == all[target as int]);
                return Some(line);
            }
            current += 1;
            k += 1;
        }
        assert(all.skip(current as int) =~= all.skip(start as int).skip(here.len() as int));
        i = end;
    }
    assert(bytes@.skip(i as int) =~= Seq::<u8>::empty());
    assert(all.skip(current as int).len() == 0);
    None
}

/// The encoding of a text, from its first character and the rest.
proof fn lemma_encode_first(text: Seq<char>)
    requires
        text.len() > 0,
    ensures
        encode_utf8(text) == encode_scalar(text[0] as u32) + encode_utf8(text.skip(1)),
{
    assert(text.skip(1) =~= text.drop_first());
}

/// How many line feeds there are from index `from` on.
fn count_line_feeds(bytes: &Vec<u8>, from: usize) -> (n: usize)
    requires
        from <= bytes@.len(),
    ensures
        n == line_feeds(bytes@.skip(from as int)),
        n <= bytes@.len() - from,
{
    let len = bytes.len();
    let mut i = len;
    let mut n: usize = 0;
    assert(bytes@.skip(i as int) =~= Seq::<u8>::empty());
    while i > from
        invariant
            from <= i <= len,
            len == bytes@.len(),
            n == line_feeds(bytes@.skip(i as int)),
            n <= bytes@.len() - i,
        decreases i,
    {
        i = i - 1;
        assert(bytes@.skip(i as int).skip(1) =~= bytes@.skip(i + 1));
        if bytes[i] == 10 {
            n = n + 1;
        }
    }
    n
}

/// The index from which on there are no more than `n` lines.
fn newest_from(bytes: &Vec<u8>, n: usize) -> (i: usize)
    ensures
        i <= bytes@.len(),
        bytes@.skip(i as int) == newest_lines(bytes@, n as nat),
{
    let mut count = count_line_feeds(bytes, 0);
    let len = bytes.len();
    let mut i: usize = 0;
    assert(bytes@.skip(0) =~= bytes@);
    while count > n
        invariant
            i <= len,
            len == bytes@.len(),
            count == line_feeds(bytes@.skip(i as int)),
            newest_lines(bytes@.skip(i as int), n as nat) == newest_lines(bytes@, n as nat),
        decreases count,
    {
        let ghost start = bytes@.skip(i as int);
        proof {
            lemma_behind_first_line(start);
        }
        while bytes[i] != 10
            invariant
                i <= len,
                len == bytes@.len(),
                line_feeds(bytes@.skip(i as int)) > 0,
                behind_first_line(bytes@.skip(i as int)) == behind_first_line(start),
            decreases bytes@.len() - i,
        {
            assert(bytes@.skip(i as int).skip(1) =~= bytes@.skip(i + 1));
            i = i + 1;
        }
        assert(bytes@.skip(i as int).skip(1) =~= bytes@.skip(i + 1));
        i = i + 1;
        count = count - 1;
    }
    i
}

/// Reads a file's text.
fn read_text(bytes: &Vec<u8>) -> (v: Vec<char>)
    ensures
        v@ == file_text(bytes@),
{
    match utf8_text(bytes.as_slice()) {
        Some(t) => to_chars(t),
        None => {
            assert(bytes@.skip(0) =~= bytes@);
            read_chunks(bytes, 0, READ_CHUNK)
        },
    }
}

/// Where the last `n` bytes of a file start.
fn tail_from(bytes: &Vec<u8>, n: usize) -> (i: usize)
    ensures
        i <= bytes@.len(),
        bytes@.skip(i as int) == tail(bytes@, n as nat),
{
    if bytes.len() <= n {
        assert(bytes@.skip(0) =~= bytes@);
        0
    } else {
        bytes.len() - n
    }
}

/// The files of the card, and the changes that were made to them.
pub struct SdStorage {
    log: Option<Vec<u8>>,
    users: Option<Vec<u8>>,
    password: Option<Vec<u8>>,
    temp: Option<Vec<u8>>,
    ops: Vec<CardOp>,
    base: Ghost<Files>,
}

impl View for SdStorage {
    type V = Files;

    closed spec fn view(&self) -> Files {
        Map::new(
            |f: FileNameEnum| self.slot(f) is Some,
            |f: FileNameEnum| self.slot(f)->Some_0@,
        )
    }
}

impl SdStorage {
    spec fn slot(&self, file: FileNameEnum) -> Option<Vec<u8>> {
        match file {
            FileNameEnum::Log => self.log,
            FileNameEnum::Users => self.users,
            FileNameEnum::Password => self.password,
            FileNameEnum::Temp => self.temp,
        }
    }

    /// The changes that were made since they were last taken.
    pub closed spec fn pending(&self) -> Seq<CardChange> {
        changes(self.ops@)
    }

    /// The files as they were when the changes were last taken.
    pub closed spec fn on_card(&self) -> Files {
        self.base@
    }

    /// The noted changes lead from the files on the card to the files held here.
    pub open spec fn wf(&self) -> bool {
        replay(self.on_card(), self.pending()) == self@
    }

    /// Holds the files as they were read from the card.
    pub fn new(
        log: Option<Vec<u8>>,
        users: Option<Vec<u8>>,
        password: Option<Vec<u8>>,
        temp: Option<Vec<u8>>,
    ) -> (sd: SdStorage)
        ensures
            sd.wf(),
            sd.pending() == Seq::<CardChange>::empty(),
            sd@.contains_key(FileNameEnum::Log) == (log is Some),
            sd@.contains_key(FileNameEnum::Users) == (users is Some),
            sd@.contains_key(FileNameEnum::Password) == (password is Some),
            sd@.contains_key(FileNameEnum::Temp) == (temp is Some),
            log matches Some(v) ==> sd@[FileNameEnum::Log] == v@,
            users matches Some(v) ==> sd@[FileNameEnum::Users] == v@,
            password matches Some(v) ==> sd@[FileNameEnum::Password] == v@,
            temp matches Some(v) ==> sd@[FileNameEnum::Temp] == v@,
    {
        let ghost base = Map::new(
            |f: FileNameEnum|
                match f {
                    FileNameEnum::Log => log is Some,
                    FileNameEnum::Users => users is Some,
                    FileNameEnum::Password => password is Some,
                    FileNameEnum::Temp => temp is Some,
                },
            |f: FileNameEnum|
                match f {
                    FileNameEnum::Log => log->Some_0@,
                    FileNameEnum::Users => users->Some_0@,
                    FileNameEnum::Password => password->Some_0@,
                    FileNameEnum::Temp => temp->Some_0@,
                },
        );
        let sd = SdStorage { log, users, password, temp, ops: Vec::new(), base: Ghost(base) };
        assert(sd@ =~= base);
        assert(sd.pending() =~= Seq::<CardChange>::empty());
        sd
    }

    /// Hands out the changes that are to be made on the card.
    pub fn take_ops(&mut self) -> (ops: Vec<CardOp>)
        requires
            old(self).wf(),
        ensures
            final(self).wf(),
            final(self)@ == old(self)@,
            final(self).on_card() == final(self)@,
            final(self).pending() == Seq::<CardChange>::empty(),
            changes(ops@) == old(self).pending(),
            replay(old(self).on_card(), changes(ops@)) == final(self)@,
    {
        let ghost files = self@;
        let mut ops: Vec<CardOp> = Vec::new();
        ops.append(&mut self.ops);
        self.base = Ghost(files);
        assert(self@ =~= files);
        assert(ops@ =~= old(self).ops@);
        assert(self.pending() =~= Seq::<CardChange>::empty());
        ops
    }

    fn get(&self, file: FileNameEnum) -> (r: &Option<Vec<u8>>)
        ensures
            *r == self.slot(file),
    {
        match file {
            FileNameEnum::Log => &self.log,
            FileNameEnum::Users => &self.users,
            FileNameEnum::Password => &self.password,
            FileNameEnum::Temp => &self.temp,
        }
    }

    fn set(&mut self, file: FileNameEnum, data: Option<Vec<u8>>)
        ensures
            final(self).slot(file) == data,
            forall|f: FileNameEnum| f != file ==> final(self).slot(f) == old(self).slot(f),
            final(self).ops == old(self).ops,
            final(self).base == old(self).base,
    {
        match file {
            FileNameEnum::Log => {
                self.log = data;
            },
            FileNameEnum::Users => {
                self.users = data;
            },
            FileNameEnum::Password => {
                self.password = data;
            },
            FileNameEnum::Temp => {
                self.temp = data;
            },
        }
    }

    /// A copy of a file's bytes.
    fn bytes(&self, file: FileNameEnum) -> (v: Vec<u8>)
        ensures
            v@ == contents(self@, file),
    {
        match self.get(file) {
            Some(v) => copy_bytes(v, 0, v.len()),
            None => Vec::new(),
        }
    }

    /// Writes to a file: in place of what it holds, or behind that.
    pub fn write(&mut self, file: FileNameEnum, data: &str, overwrite: bool)
        requires
            old(self).wf(),
        ensures
            final(self).wf(),
            final(self).on_card() == old(self).on_card(),
            final(self)@ == written(old(self)@, file, encode_utf8(data@), overwrite),
            final(self).pending() == old(self).pending().push(
                CardChange::Write { file, data: encode_utf8(data@), overwrite },
            ),
    {
        let bytes = data.as_bytes();
        let mut copy: Vec<u8> = Vec::new();
        for i in 0..bytes.len()
            invariant
                copy@ == bytes@.take(i as int),
        {
            copy.push(bytes[i]);
        }
        assert(copy@ =~= encode_utf8(data@));
        self.write_bytes(file, copy, overwrite);
    }

    fn write_bytes(&mut self, file: FileNameEnum, data: Vec<u8>, overwrite: bool)
        requires
            old(self).wf(),
        ensures
            final(self).wf(),
            final(self).on_card() == old(self).on_card(),
            final(self)@ == written(old(self)@, file, data@, overwrite),
            final(self).pending() == old(self).pending().push(
                CardChange::Write { file, data: data@, overwrite },
            ),
    {
        let ghost before = *self;
        let mut v = if overwrite {
            Vec::new()
        } else {
            self.bytes(file)
        };
        let ghost v0 = v@;
        for i in 0..data.len()
            invariant
                v@ == v0 + data@.take(i as int),
        {
            v.push(data[i]);
        }
        assert(v@ =~= v0 + data@);
        self.set(file, Some(v));
        self.note(CardOp::Write { file, data, overwrite }, Ghost(before));
        assert(self@ =~= written(before@, file, data@, overwrite));
    }

    /// Notes a change that was just made.
    fn note(&mut self, op: CardOp, Ghost(before): Ghost<SdStorage>)
        requires
            before.wf(),
            old(self).ops == before.ops,
            old(self).base == before.base,
        ensures
            final(self)@ == old(self)@,
            final(self).on_card() == before.on_card(),
            final(self).pending() == before.pending().push(op@),
            replay(final(self).on_card(), final(self).pending()) == op@.apply(before@),
    {
        self.ops.push(op);
        assert(self.pending() =~= before.pending().push(op@));
        assert(self.pending().drop_last() =~= before.pending());
        assert(self@ =~= old(self)@);
    }

    /// Reads a file. With a line number, only that line is read, and nothing where there is
    /// no such line. Lines are counted in parts of 256 bytes: a line that goes over the end of
    /// a part ends there, and the next one starts with the next part.
    pub fn read(&self, file: FileNameEnum, line_number: Option<usize>) -> (s: String)
        ensures
            match line_number {
                None => s@ == file_text(contents(self@, file)),
                Some(n) => {
                    let ls = chunked_lines(contents(self@, file), READ_CHUNK as nat);
                    s@ == if n < ls.len() {
                        ls[n as int]
                    } else {
                        seq![]
                    }
                },
            },
    {
        let bytes = self.bytes(file);
        match line_number {
            None => from_chars(read_text(&bytes).as_slice()),
            Some(n) => match read_line(&bytes, READ_CHUNK, n) {
                Some(line) => from_chars(line.as_slice()),
                None => String::new(),
            },
        }
    }

    /// Deletes a file.
    pub fn remove(&mut self, file: FileNameEnum)
        requires
            old(self).wf(),
        ensures
            final(self).wf(),
            final(self).on_card() == old(self).on_card(),
            final(self)@ == old(self)@.remove(file),
            final(self).pending() == old(self).pending().push(CardChange::Delete { file }),
    {
        let ghost before = *self;
        self.set(file, None);
        self.note(CardOp::Delete { file }, Ghost(before));
        assert(self@ =~= before@.remove(file));
    }

    /// Reads the last `num_chars` characters of a file.
    pub fn read_from_end(&self, file: FileNameEnum, num_chars: usize) -> (s: String)
        ensures
            s@ == end_text(contents(self@, file), num_chars as nat),
    {
        let bytes = self.bytes(file);
        let v = match utf8_text(bytes.as_slice()) {
            Some(t) => {
                let text = to_chars(t);
                let start = if text.len() <= num_chars {
                    0
                } else {
                    text.len() - num_chars
                };
                let end = copy_range(text.as_slice(), start, text.len());
                assert(end@ =~= last_chars(text@, num_chars as nat));
                end
            },
            None => read_chunks(&bytes, tail_from(&bytes, num_chars), READ_END_CHUNK),
        };
        from_chars(v.as_slice())
    }

    /// What is kept of a file that is cut.
    fn keep_content(&self, file: FileNameEnum, to: usize) -> (s: String)
        ensures
            s@ == kept_text(contents(self@, file), to as nat),
    {
        let bytes = self.bytes(file);
        let v = read_chunks(&bytes, tail_from(&bytes, to), READ_END_CHUNK);
        from_chars(v.as_slice())
    }

    /// Cuts a file that is larger than `threshold` bytes to its last `truncate_to` bytes, as
    /// far as they can be read.
    pub fn truncate(&mut self, file: FileNameEnum, threshold: u32, truncate_to: u32)
        requires
            old(self).wf(),
        ensures
            final(self).wf(),
            final(self).on_card() == old(self).on_card(),
            final(self)@ == if contents(old(self)@, file).len() > threshold {
                old(self)@.insert(file, kept(contents(old(self)@, file), truncate_to as nat))
            } else {
                old(self)@
            },
            final(self).pending() == old(self).pending() + if contents(old(self)@, file).len()
                > threshold {
                seq![replaced(file, kept_text(contents(old(self)@, file), truncate_to as nat))]
            } else {
                seq![]
            },
    {
        let keep_content = self.keep_content(file, truncate_to as usize);
        let size = self.size(file);
        if size > threshold as usize {
            self.write(file, keep_content.as_str(), true);
            assert(self.pending() =~= old(self).pending() + seq![
                replaced(file, keep_content@),
            ]);
        } else {
            assert(old(self).pending() + Seq::<CardChange>::empty() =~= old(self).pending());
        }
    }

    /// Drops the oldest lines of the log, as long as there are more than `n`.
    fn drop_oldest_lines(&mut self, n: usize)
        requires
            old(self).wf(),
        ensures
            final(self).wf(),
            final(self).on_card() == old(self).on_card(),
            contents(final(self)@, FileNameEnum::Log) == newest_lines(
                contents(old(self)@, FileNameEnum::Log),
                n as nat,
            ),
            final(self)@.remove(FileNameEnum::Log) == old(self)@.remove(FileNameEnum::Log),
            final(self).pending() == old(self).pending() + dropped_lines(
                contents(old(self)@, FileNameEnum::Log),
                n as nat,
            ),
    {
        let bytes = self.bytes(FileNameEnum::Log);
        assert(bytes@.skip(0) =~= bytes@);
        if count_line_feeds(&bytes, 0) > n {
            let start = newest_from(&bytes, n);
            let rest = copy_bytes(&bytes, start, bytes.len());
            assert(rest@ =~= bytes@.skip(start as int));
            self.write_bytes(FileNameEnum::Log, rest, true);
            assert(self.pending() =~= old(self).pending() + dropped_lines(bytes@, n as nat));
            assert(self@.remove(FileNameEnum::Log) =~= old(self)@.remove(FileNameEnum::Log));
        } else {
            assert(self.pending() =~= old(self).pending() + dropped_lines(bytes@, n as nat));
        }
    }

    /// The size of a file in bytes.
    fn size(&self, file: FileNameEnum) -> (n: usize)
        ensures
            n == contents(self@, file).len(),
    {
        match self.get(file) {
            Some(v) => v.len(),
            None => 0,
        }
    }

    /// Deletes the log.
    pub fn clear_logs(&mut self)
        requires
            old(self).wf(),
        ensures
            final(self).wf(),
            final(self).on_card() == old(self).on_card(),
            final(self)@ == old(self)@.remove(FileNameEnum::Log),
            final(self).pending() == old(self).pending().push(
                CardChange::Delete { file: FileNameEnum::Log },
            ),
    {
        self.remove(FileNameEnum::Log);
    }

    /// Reads the last 1024 characters of the log.
    pub fn read_logs(&self) -> (s: String)
        ensures
            s@ == shown_log(self@),
    {
        self.read_from_end(FileNameEnum::Log, LOG_PACKET_CHAR_COUNT)
    }

    /// Puts a message at the end of the log, behind a time stamp where there is one. A log
    /// that is over its size is cut first, and one that has all its lines loses the oldest.
    pub fn log_message(&mut self, message: &str, timestamp: Option<&str>)
        requires
            old(self).wf(),
        ensures
            final(self).wf(),
            final(self).on_card() == old(self).on_card(),
            final(self)@ == old(self)@.insert(
                FileNameEnum::Log,
                log_before(contents(old(self)@, FileNameEnum::Log)) + encode_utf8(
                    log_line(message@, stamp_view(timestamp)),
                ),
            ),
            final(self).pending() == old(self).pending() + log_changes(
                contents(old(self)@, FileNameEnum::Log),
                log_line(message@, stamp_view(timestamp)),
            ),
    {
        let log_file = FileNameEnum::Log;
        let ghost log = contents(self@, log_file);
        let ghost line = log_line(message@, stamp_view(timestamp));
        let current_size = self.size(log_file);
        if current_size >= LOG_MAX_SIZE as usize {
            self.truncate(log_file, LOG_MAX_SIZE, LOG_PACKET_CHAR_COUNT as u32);
        }
        assert(contents(self@, log_file) == log_cut(log));
        assert(self.pending() =~= old(self).pending() + cut_changes(log));
        assert(self@.remove(log_file) =~= old(self)@.remove(log_file));
        self.drop_oldest_lines(LOG_MAX_LINES - 1);
        let mut formatted_message = String::new();
        if let Some(t) = timestamp {
            formatted_message.append(t);
            formatted_message.append(" ");
        }
        formatted_message.append(message);
        formatted_message.append("\n");
        proof {
            reveal_strlit(" ");
            reveal_strlit("\n");
            assert(formatted_message@ =~= line);
        }
        let ghost before = self@;
        self.write(log_file, formatted_message.as_str(), false);
        proof {
            let files = old(self)@;
            let after = files.insert(log_file, log_before(log) + encode_utf8(line));
            assert forall|f: FileNameEnum| #[trigger] self@.contains_key(f) == after.contains_key(f)
                && (after.contains_key(f) ==> self@[f] == after[f]) by {
                if f != log_file {
                    assert(before.remove(log_file).contains_key(f) == files.remove(
                        log_file,
                    ).contains_key(f));
                    assert(files.contains_key(f) ==> before.remove(log_file)[f] == files.remove(
                        log_file,
                    )[f]);
                }
            }
            assert(self@ =~= after);
            assert(self.pending() =~= old(self).pending() + log_changes(log, line));
        }
    }

    /// The time stamp for a log line, from what the clock answered: none where it had no
    /// time.
    pub fn get_timestamp(response: Option<String>) -> (stamp: String)
        ensures
            stamp@ == match response {
                Some(date) => date@,
                None => Seq::<char>::empty(),
            },
    {
        match response {
            Some(date) => date,
            None => String::new(),
        }
    }

    /// Adds a user to the database, under the name `NULL` where no name is given.
    pub fn add_user(&mut self, hashed_id: u64, name: Option<&str>)
        requires
            old(self).wf(),
        ensures
            final(self).wf(),
            final(self).on_card() == old(self).on_card(),
            final(self)@ == old(self)@.insert(
                FileNameEnum::Users,
                contents(old(self)@, FileNameEnum::Users) + encode_utf8(
                    user_entry(hashed_id, given_name(name)),
                ),
            ),
            final(self).pending() == old(self).pending().push(
                appended(FileNameEnum::Users, user_entry(hashed_id, given_name(name))),
            ),
            valid_utf8(contents(old(self)@, FileNameEnum::Users)) && whole_lines(
                users_text(old(self)@),
            ) ==> holds_user(users_text(final(self)@), hashed_id),
    {
        proof {
            if valid_utf8(contents(self@, FileNameEnum::Users)) && whole_lines(users_text(self@)) {
                law_user_added_to_card_is_present(self@, hashed_id, given_name(name));
            }
        }
        let name = match name {
            Some(name) => to_chars(name),
            None => to_chars("NULL"),
        };
        let mut entry = make_line(hashed_id, name.as_slice());
        entry.push('\n');
        let entry = from_chars(entry.as_slice());
        self.write(FileNameEnum::Users, entry.as_str(), false);
    }

    /// The text of the database.
    fn users_text(&self) -> (v: Vec<char>)
        ensures
            v@ == users_text(self@),
    {
        let content = self.read(FileNameEnum::Users, None);
        to_chars(content.as_str())
    }

    /// Whether the database holds a user.
    pub fn user_present(&self, hashed_id: u64) -> (r: bool)
        ensures
            r == holds_user(users_text(self@), hashed_id),
    {
        let content = self.users_text();
        find_user(content.as_slice(), hashed_id)
    }

    /// Removes a user from the database.
    pub fn remove_user(&mut self, hashed_id: u64)
        requires
            old(self).wf(),
        ensures
            final(self).wf(),
            final(self).on_card() == old(self).on_card(),
            final(self)@ == old(self)@.insert(
                FileNameEnum::Users,
                encode_utf8(without_user(users_text(old(self)@), hashed_id)),
            ),
            final(self).pending() == old(self).pending().push(
                replaced(FileNameEnum::Users, without_user(users_text(old(self)@), hashed_id)),
            ),
            forall|other: u64| #[trigger]
                holds_user(users_text(final(self)@), other) == (other != hashed_id && holds_user(
                    users_text(old(self)@),
                    other,
                )),
    {
        proof {
            let after = files_without_user(self@, hashed_id);
            assert forall|other: u64| #[trigger]
                holds_user(users_text(after), other) == (other != hashed_id && holds_user(
                    users_text(self@),
                    other,
                )) by {
                law_user_removed_from_card_is_absent(self@, hashed_id, other);
            }
        }
        let content = self.users_text();
        let new_content = from_chars(drop_user(content.as_slice(), hashed_id).as_slice());
        self.write(FileNameEnum::Users, new_content.as_str(), true);
    }

    /// Gives a user of the database a new name. Where there is no such user, nothing is
    /// written.
    pub fn change_name(&mut self, hashed_id: u64, new_name: &str)
        requires
            old(self).wf(),
        ensures
            final(self).wf(),
            final(self).on_card() == old(self).on_card(),
            holds_user(users_text(old(self)@), hashed_id) ==> final(self)@ == old(self)@.insert(
                FileNameEnum::Users,
                encode_utf8(with_name(users_text(old(self)@), hashed_id, new_name@)),
            ) && final(self).pending() == old(self).pending().push(
                replaced(
                    FileNameEnum::Users,
                    with_name(users_text(old(self)@), hashed_id, new_name@),
                ),
            ),
            !holds_user(users_text(old(self)@), hashed_id) ==> *final(self) == *old(self),
            one_line(new_name@) ==> forall|other: u64| #[trigger]
                holds_user(users_text(final(self)@), other) == holds_user(
                    users_text(old(self)@),
                    other,
                ),
    {
        proof {
            if one_line(new_name@) {
                let after = files_with_name(self@, hashed_id, new_name@);
                assert forall|other: u64| #[trigger]
                    holds_user(users_text(after), other) == holds_user(users_text(self@), other) by {
                    law_renaming_on_card_keeps_users(self@, hashed_id, new_name@, other);
                }
            }
        }
        let content = self.users_text();
        let name = to_chars(new_name);
        let (new_content, found) = rename_user(content.as_slice(), hashed_id, name.as_slice());
        if found {
            let new_content = from_chars(new_content.as_slice());
            self.write(FileNameEnum::Users, new_content.as_str(), true);
        }
    }

    /// Whether the names of the users in the database are short enough to be listed.
    pub fn users_listable(&self) -> (r: bool)
        ensures
            r == names_fit(users_text(self@)),
    {
        let content = self.users_text();
        check_names(content.as_slice())
    }

    /// Lists the users of the database, the first 32 of them.
    pub fn list_users(&self) -> (users: heapless::Vec<UserInfo, 32>)
        requires
            names_fit(users_text(self@)),
        ensures
            rows(users) == first_users(listed_users(users_text(self@))),
            forall|i: int| 0 <= i < rows(users).len() ==> name_fits(#[trigger] rows(users)[i].1),
    {
        let content = self.users_text();
        read_users(content.as_slice())
    }

    /// Removes all users from the database.
    pub fn remove_all_users(&mut self)
        requires
            old(self).wf(),
        ensures
            final(self).wf(),
            final(self).on_card() == old(self).on_card(),
            final(self)@ == old(self)@.remove(FileNameEnum::Users),
            final(self).pending() == old(self).pending().push(
                CardChange::Delete { file: FileNameEnum::Users },
            ),
    {
        self.remove(FileNameEnum::Users);
    }

    /// Stores the text of a new password's hash in place of the old one.
    pub fn set_password(&mut self, hash: &str)
        requires
            old(self).wf(),
        ensures
            final(self).wf(),
            final(self).on_card() == old(self).on_card(),
            final(self)@ == old(self)@.insert(FileNameEnum::Password, encode_utf8(hash@)),
            final(self).pending() == old(self).pending().push(
                replaced(FileNameEnum::Password, hash@),
            ),
            password_text(final(self)@) == hash@,
    {
        proof {
            law_stored_password_is_read_back(self@, hash@);
        }
        self.write(FileNameEnum::Password, hash, true);
    }

    /// Reads the text of the password's hash.
    pub fn get_password(&self) -> (s: String)
        ensures
            s@ == password_text(self@),
    {
        self.read(FileNameEnum::Password, None)
    }
}

/// The part of the log that is shown: its last 1024 characters.
pub open spec fn shown_log(files: Files) -> Seq<char> {
    end_text(contents(files, FileNameEnum::Log), LOG_PACKET_CHAR_COUNT as nat)
}

/// A log after it was cut where it is over its size.
pub open spec fn log_cut(log: Seq<u8>) -> Seq<u8> {
    if log.len() > LOG_MAX_SIZE {
        kept(log, LOG_PACKET_CHAR_COUNT as nat)
    } else {
        log
    }
}

/// What a log holds before a message goes behind it: it is cut where it is over its size, and
/// there is room for one more line.
pub open spec fn log_before(log: Seq<u8>) -> Seq<u8> {
    newest_lines(log_cut(log), (LOG_MAX_LINES - 1) as nat)
}

/// The change that cuts a log.
pub open spec fn cut_changes(log: Seq<u8>) -> Seq<CardChange> {
    if log.len() > LOG_MAX_SIZE {
        seq![replaced(FileNameEnum::Log, kept_text(log, LOG_PACKET_CHAR_COUNT as nat))]
    } else {
        seq![]
    }
}

/// The change that drops the oldest lines of a log.
pub open spec fn dropped_lines(log: Seq<u8>, n: nat) -> Seq<CardChange> {
    if line_feeds(log) > n {
        seq![
            CardChange::Write {
                file: FileNameEnum::Log,
                data: newest_lines(log, n),
                overwrite: true,
            },
        ]
    } else {
        seq![]
    }
}

/// The changes that put a line into a log.
pub open spec fn log_changes(log: Seq<u8>, line: Seq<char>) -> Seq<CardChange> {
    cut_changes(log) + dropped_lines(log_cut(log), (LOG_MAX_LINES - 1) as nat) + seq![
        appended(FileNameEnum::Log, line),
    ]
}

/// A line of the log.
pub open spec fn log_line(message: Seq<char>, stamp: Option<Seq<char>>) -> Seq<char> {
    match stamp {
        Some(t) => t.push(' ') + message.push('\n'),
        None => message.push('\n'),
    }
}

pub open spec fn stamp_view(stamp: Option<&str>) -> Option<Seq<char>> {
    match stamp {
        Some(t) => Some(t@),
        None => None,
    }
}

/// The name under which a user is added.
pub open spec fn given_name(name: Option<&str>) -> Seq<char> {
    match name {
        Some(n) => n@,
        None => "NULL"@,
    }
}

/// The text of the user database.
pub open spec fn users_text(files: Files) -> Seq<char> {
    file_text(contents(files, FileNameEnum::Users))
}

/// The text of the password file.
pub open spec fn password_text(files: Files) -> Seq<char> {
    file_text(contents(files, FileNameEnum::Password))
}

/// The encoding of two texts in a row.
pub proof fn lemma_encode_append(a: Seq<char>, b: Seq<char>)
    ensures
        encode_utf8(a + b) == encode_utf8(a) + encode_utf8(b),
    decreases a.len(),
{
    if a.len() == 0 {
        assert(a + b =~= b);
        assert(encode_utf8(a) + encode_utf8(b) =~= encode_utf8(b));
    } else {
        assert((a + b).drop_first() =~= a.drop_first() + b);
        lemma_encode_append(a.drop_first(), b);
        assert(encode_utf8(a + b) =~= encode_utf8(a) + encode_utf8(b));
    }
}

/// What is read of a file takes no more bytes than the file.
proof fn lemma_chunked_text_size(bytes: Seq<u8>, n: nat)
    ensures
        encode_utf8(chunked_text(bytes, n)).len() <= bytes.len(),
    decreases bytes.len(),
{
    if bytes.len() == 0 || n == 0 {
    } else if bytes.len() <= n {
        lemma_text_size(bytes);
    } else {
        lemma_text_size(bytes.take(n as int));
        lemma_chunked_text_size(bytes.skip(n as int), n);
        lemma_encode_append(
            text_of(bytes.take(n as int)),
            chunked_text(bytes.skip(n as int), n),
        );
    }
}

proof fn lemma_text_size(bytes: Seq<u8>)
    ensures
        encode_utf8(text_of(bytes)).len() <= bytes.len(),
{
    if valid_utf8(bytes) {
        vstd::utf8::decode_utf8_encode_utf8(bytes);
    }
}

/// All that a file of UTF-8 holds is read.
pub proof fn law_valid_file_is_read_whole(bytes: Seq<u8>)
    requires
        valid_utf8(bytes),
    ensures
        encode_utf8(file_text(bytes)) == bytes,
{
    vstd::utf8::decode_utf8_encode_utf8(bytes);
}

/// A text that was written to a file is what is read of it.
pub proof fn law_written_text_is_read_back(text: Seq<char>)
    ensures
        file_text(encode_utf8(text)) == text,
        valid_utf8(encode_utf8(text)),
{
    vstd::utf8::encode_utf8_valid_utf8(text);
    vstd::utf8::encode_utf8_decode_utf8(text);
}

/// Text behind a file of UTF-8 is read behind its text.
pub proof fn law_appended_text_is_read_behind(bytes: Seq<u8>, text: Seq<char>)
    requires
        valid_utf8(bytes),
    ensures
        file_text(bytes + encode_utf8(text)) == file_text(bytes) + text,
        valid_utf8(bytes + encode_utf8(text)),
{
    law_valid_file_is_read_whole(bytes);
    lemma_encode_append(file_text(bytes), text);
    law_written_text_is_read_back(file_text(bytes) + text);
}

/// The files after `SdStorage::add_user`.
pub open spec fn files_with_user(files: Files, id: u64, name: Seq<char>) -> Files {
    files.insert(
        FileNameEnum::Users,
        contents(files, FileNameEnum::Users) + encode_utf8(user_entry(id, name)),
    )
}

/// The files after `SdStorage::remove_user`.
pub open spec fn files_without_user(files: Files, id: u64) -> Files {
    files.insert(FileNameEnum::Users, encode_utf8(without_user(users_text(files), id)))
}

/// The files after `SdStorage::change_name` of a user whom the database holds.
pub open spec fn files_with_name(files: Files, id: u64, name: Seq<char>) -> Files {
    files.insert(FileNameEnum::Users, encode_utf8(with_name(users_text(files), id, name)))
}

/// Adding a user puts the user's line behind the database, and the user is in it from then
/// on.
pub proof fn law_user_added_to_card_is_present(files: Files, id: u64, name: Seq<char>)
    requires
        valid_utf8(contents(files, FileNameEnum::Users)),
        whole_lines(users_text(files)),
    ensures
        users_text(files_with_user(files, id, name)) == users_text(files) + user_entry(id, name),
        holds_user(users_text(files_with_user(files, id, name)), id),
        whole_lines(users_text(files_with_user(files, id, name))),
{
    law_appended_text_is_read_behind(contents(files, FileNameEnum::Users), user_entry(id, name));
    law_added_user_is_present(users_text(files), id, name);
}

/// Removing a user leaves exactly the other users in the database.
pub proof fn law_user_removed_from_card_is_absent(files: Files, id: u64, other: u64)
    ensures
        holds_user(users_text(files_without_user(files, id)), other) == (other != id && holds_user(
            users_text(files),
            other,
        )),
        whole_lines(users_text(files_without_user(files, id))),
{
    law_written_text_is_read_back(without_user(users_text(files), id));
    law_removed_user_is_gone(users_text(files), id, other);
}

/// Giving a user a new name, which is one line, leaves the same users in the database.
pub proof fn law_renaming_on_card_keeps_users(files: Files, id: u64, name: Seq<char>, other: u64)
    requires
        one_line(name),
    ensures
        holds_user(users_text(files_with_name(files, id, name)), other) == holds_user(
            users_text(files),
            other,
        ),
        whole_lines(users_text(files_with_name(files, id, name))),
{
    law_written_text_is_read_back(with_name(users_text(files), id, name));
    law_renaming_keeps_users(users_text(files), id, name, other);
}

/// The password that was stored is the one that is read.
pub proof fn law_stored_password_is_read_back(files: Files, hash: Seq<char>)
    ensures
        password_text(files.insert(FileNameEnum::Password, encode_utf8(hash))) == hash,
{
    law_written_text_is_read_back(hash);
}

/// Behind UTF-8 at the start of UTF-8 there is UTF-8.
proof fn lemma_valid_rest(a: Seq<u8>, b: Seq<u8>)
    requires
        valid_utf8(a + b),
        valid_utf8(a),
    ensures
        valid_utf8(b),
    decreases a.len(),
{
    if a.len() == 0 {
        assert(a + b =~= b);
    } else {
        assert(pop_first_scalar(a + b) =~= pop_first_scalar(a) + b);
        lemma_valid_rest(pop_first_scalar(a), b);
    }
}

/// Before UTF-8 at the end of UTF-8 there is UTF-8, and the text is that of both.
proof fn lemma_valid_front(a: Seq<u8>, b: Seq<u8>)
    requires
        valid_utf8(a + b),
        b.len() > 0,
        !is_continuation_byte(b[0]),
    ensures
        valid_utf8(a),
        valid_utf8(b),
        decode_utf8(a + b) == decode_utf8(a) + decode_utf8(b),
{
    lemma_valid_front_only(a, b);
    lemma_valid_rest(a, b);
    vstd::utf8::decode_utf8_encode_utf8(a);
    vstd::utf8::decode_utf8_encode_utf8(b);
    lemma_encode_append(decode_utf8(a), decode_utf8(b));
    vstd::utf8::encode_utf8_decode_utf8(decode_utf8(a) + decode_utf8(b));
}

proof fn lemma_valid_front_only(a: Seq<u8>, b: Seq<u8>)
    requires
        valid_utf8(a + b),
        b.len() > 0,
        !is_continuation_byte(b[0]),
    ensures
        valid_utf8(a),
    decreases a.len(),
{
    if a.len() > 0 {
        let all = a + b;
        let n = length_of_first_scalar(all);
        assert(n <= a.len()) by {
            if a.len() < n {
                assert(all[a.len() as int] == b[0]);
            }
        }
        assert(pop_first_scalar(all) =~= a.skip(n) + b);
        assert(pop_first_scalar(a) =~= a.skip(n));
        lemma_valid_front_only(a.skip(n), b);
    }
}

/// What is kept of a log of UTF-8 that is cut is the end of its text.
proof fn lemma_kept_end(log: Seq<u8>) -> (i: int)
    requires
        valid_utf8(log),
        log.len() >= LOG_PACKET_CHAR_COUNT,
    ensures
        0 <= i <= decode_utf8(log).len(),
        kept_text(log, LOG_PACKET_CHAR_COUNT as nat) == decode_utf8(log).skip(i),
{
    let text = decode_utf8(log);
    let front = log.take(log.len() - 1024);
    let end = tail(log, 1024);
    let a = end.take(512);
    let c = end.skip(512);
    assert(end =~= log.skip(log.len() - 1024));
    assert(log =~= front + (a + c));
    assert(log =~= (front + a) + c);
    assert(chunked_text(c, 512) == text_of(c));
    assert(kept_text(log, 1024) == text_of(a) + text_of(c));
    if valid_utf8(c) {
        lemma_valid_front(front + a, c);
        if valid_utf8(a) {
            lemma_valid_front(front, a);
            assert(text.skip(decode_utf8(front).len() as int) =~= text_of(a) + text_of(c));
            decode_utf8(front).len() as int
        } else {
            assert(text.skip(decode_utf8(front + a).len() as int) =~= text_of(a) + text_of(c));
            decode_utf8(front + a).len() as int
        }
    } else {
        if valid_utf8(a) {
            assert((a + c)[0] == a[0]);
            lemma_valid_front(front, a + c);
            lemma_valid_rest(a, c);
        }
        assert(text.skip(text.len() as int) =~= text_of(a) + text_of(c));
        text.len() as int
    }
}

proof fn lemma_newest_lines(bytes: Seq<u8>, n: nat)
    ensures
        newest_lines(bytes, n).len() <= bytes.len(),
        line_feeds(newest_lines(bytes, n)) <= n,
    decreases bytes.len(),
{
    if line_feeds(bytes) > n {
        lemma_behind_first_line(bytes);
        lemma_newest_lines(behind_first_line(bytes), n);
    }
}

/// However often messages are logged, the log stays below its limit and one more line; a log
/// over the limit is cut to its end.
pub proof fn law_log_stays_bounded(log: Seq<u8>, line: Seq<char>)
    ensures
        (log_before(log) + encode_utf8(line)).len() <= LOG_MAX_SIZE + encode_utf8(line).len(),
        log.len() > LOG_MAX_SIZE ==> (log_before(log) + encode_utf8(line)).len()
            <= LOG_PACKET_CHAR_COUNT + encode_utf8(line).len(),
{
    lemma_chunked_text_size(
        tail(log, LOG_PACKET_CHAR_COUNT as nat),
        READ_END_CHUNK as nat,
    );
    lemma_newest_lines(log_cut(log), (LOG_MAX_LINES - 1) as nat);
}

/// How many line feeds a text has.
pub open spec fn breaks(text: Seq<char>) -> nat
    decreases text.len(),
{
    if text.len() == 0 {
        0
    } else {
        breaks(text.skip(1)) + if text[0] == '\n' {
            1nat
        } else {
            0
        }
    }
}

proof fn lemma_line_feeds_append(a: Seq<u8>, b: Seq<u8>)
    ensures
        line_feeds(a + b) == line_feeds(a) + line_feeds(b),
        line_feeds(a) == 0 ==> behind_first_line(a + b) == behind_first_line(b),
    decreases a.len(),
{
    if a.len() == 0 {
        assert(a + b =~= b);
    } else {
        assert((a + b).skip(1) =~= a.skip(1) + b);
        lemma_line_feeds_append(a.skip(1), b);
    }
}

/// The encoding of one character is a line feed, or has none in it.
proof fn lemma_scalar_line_feed(c: char)
    ensures
        c == '\n' ==> encode_scalar(c as u32) == seq![10u8],
        c != '\n' ==> line_feeds(encode_scalar(c as u32)) == 0,
{
    let v = c as u32;
    assert(v <= 0x7f ==> (v & 0x7f) as u8 == v) by (bit_vector);
    let a = ((v >> 6) & 0x1F) as u8;
    let b = (v & 0x3F) as u8;
    let d = ((v >> 6) & 0x3F) as u8;
    let e = ((v >> 12) & 0x3F) as u8;
    let f = ((v >> 12) & 0x0F) as u8;
    let g = ((v >> 18) & 0x7) as u8;
    assert(0xC0 | a != 10) by (bit_vector);
    assert(0x80 | b != 10) by (bit_vector);
    assert(0x80 | d != 10) by (bit_vector);
    assert(0x80 | e != 10) by (bit_vector);
    assert(0xE0 | f != 10) by (bit_vector);
    assert(0xF0 | g != 10) by (bit_vector);
    if c == '\n' {
        assert(encode_scalar(v) =~= seq![10u8]);
    } else {
        lemma_no_line_feed(encode_scalar(v));
    }
}

proof fn lemma_no_line_feed(bytes: Seq<u8>)
    requires
        forall|i: int| 0 <= i < bytes.len() ==> bytes[i] != 10,
    ensures
        line_feeds(bytes) == 0,
    decreases bytes.len(),
{
    if bytes.len() > 0 {
        lemma_no_line_feed(bytes.skip(1));
    }
}

/// The line feeds of a text are those of its encoding, and its first line ends where that of
/// the encoding does.
proof fn lemma_breaks(text: Seq<char>)
    ensures
        line_feeds(encode_utf8(text)) == breaks(text),
        breaks(text) > 0 ==> find(text, '\n') < text.len() && behind_first_line(encode_utf8(text))
            == encode_utf8(text.skip(find(text, '\n') as int + 1)),
    decreases text.len(),
{
    if text.len() > 0 {
        let first = encode_scalar(text[0] as u32);
        let rest = text.skip(1);
        lemma_encode_first(text);
        lemma_scalar_line_feed(text[0]);
        lemma_breaks(rest);
        lemma_line_feeds_append(first, encode_utf8(rest));
        if text[0] == '\n' {
            assert(line_feeds(seq![10u8]) == 1) by {
                reveal_with_fuel(line_feeds, 2);
            }
            assert((first + encode_utf8(rest)).skip(1) =~= encode_utf8(rest));
        } else if breaks(text) > 0 {
            let i = find(rest, '\n') as int;
            assert(rest.skip(i + 1) =~= text.skip(i + 2));
        }
    }
}

/// The newest lines of an encoded text are the end of the text.
proof fn lemma_newest_text(text: Seq<char>, n: nat) -> (i: int)
    ensures
        0 <= i <= text.len(),
        newest_lines(encode_utf8(text), n) == encode_utf8(text.skip(i)),
        breaks(text.skip(i)) <= n,
    decreases text.len(),
{
    lemma_breaks(text);
    if breaks(text) <= n {
        assert(text.skip(0) =~= text);
        0
    } else {
        let k = find(text, '\n') as int + 1;
        let rest = text.skip(k);
        lemma_behind_first_line(encode_utf8(text));
        let i = lemma_newest_text(rest, n);
        assert(rest.skip(i) =~= text.skip(k + i));
        k + i
    }
}

/// What a log of UTF-8 holds before a message is the end of its text, with room for one more
/// line.
proof fn lemma_log_before(log: Seq<u8>) -> (i: int)
    requires
        valid_utf8(log),
    ensures
        0 <= i <= file_text(log).len(),
        log_before(log) == encode_utf8(file_text(log).skip(i)),
        breaks(file_text(log).skip(i)) < LOG_MAX_LINES,
{
    let text = file_text(log);
    law_valid_file_is_read_whole(log);
    let room = (LOG_MAX_LINES - 1) as nat;
    if log.len() > LOG_MAX_SIZE {
        let end = kept_text(log, LOG_PACKET_CHAR_COUNT as nat);
        let k = lemma_kept_end(log);
        let i = lemma_newest_text(end, room);
        assert(end.skip(i) =~= text.skip(k + i));
        k + i
    } else {
        lemma_newest_text(text, room)
    }
}

proof fn lemma_breaks_append(a: Seq<char>, b: Seq<char>)
    ensures
        breaks(a + b) == breaks(a) + breaks(b),
    decreases a.len(),
{
    if a.len() == 0 {
        assert(a + b =~= b);
    } else {
        assert((a + b).skip(1) =~= a.skip(1) + b);
        lemma_breaks_append(a.skip(1), b);
    }
}

proof fn lemma_no_breaks(text: Seq<char>)
    requires
        one_line(text),
    ensures
        breaks(text) == 0,
    decreases text.len(),
{
    if text.len() > 0 {
        assert forall|j: int| 0 <= j < text.skip(1).len() implies text.skip(1)[j] != '\n' by {
            assert(text.skip(1)[j] == text[j + 1]);
        }
        lemma_no_breaks(text.skip(1));
    }
}

/// A text of whole lines has as many lines as line feeds.
proof fn lemma_line_count(text: Seq<char>)
    requires
        whole_lines(text),
    ensures
        lines(text).len() == breaks(text),
    decreases text.len(),
{
    if text.len() > 0 {
        lemma_find(text, '\n');
        let i = find(text, '\n') as int;
        assert(i < text.len()) by {
            if i == text.len() {
                assert(text[text.len() - 1] != '\n');
            }
        }
        let first = text.take(i);
        let rest = text.skip(i + 1);
        assert(first.push('\n') + rest =~= text);
        lemma_no_breaks(first);
        lemma_breaks_append(first, seq!['\n']);
        assert(first + seq!['\n'] =~= first.push('\n'));
        assert(breaks(seq!['\n']) == 1) by {
            reveal_with_fuel(breaks, 2);
        }
        lemma_breaks_append(first.push('\n'), rest);
        assert(rest.len() > 0 ==> rest.last() == text.last());
        lemma_line_count(rest);
    }
}

/// Behind a message, which is one line, any log has at most 128 line feeds.
pub proof fn law_log_keeps_128_line_feeds(log: Seq<u8>, line: Seq<char>)
    requires
        one_line(line),
    ensures
        line_feeds(log_before(log) + encode_utf8(line.push('\n'))) <= LOG_MAX_LINES,
{
    let entry = line.push('\n');
    lemma_newest_lines(log_cut(log), (LOG_MAX_LINES - 1) as nat);
    lemma_breaks(entry);
    lemma_no_breaks(line);
    lemma_breaks_append(line, seq!['\n']);
    assert(line + seq!['\n'] =~= entry);
    assert(breaks(seq!['\n']) == 1) by {
        reveal_with_fuel(breaks, 2);
    }
    lemma_line_feeds_append(log_before(log), encode_utf8(entry));
}

/// Behind a message, which is one line, the log has at most 128 lines, and where it was made of
/// whole lines, the last one is that of the message.
pub proof fn law_log_keeps_128_lines(log: Seq<u8>, line: Seq<char>)
    requires
        valid_utf8(log),
        one_line(line),
    ensures
        ({
            let after = file_text(log_before(log) + encode_utf8(line.push('\n')));
            &&& lines(after).len() <= LOG_MAX_LINES
            &&& whole_lines(after)
            &&& whole_lines(file_text(log)) ==> lines(after).last() == strip_cr(line)
        }),
{
    let text = file_text(log);
    let i = lemma_log_before(log);
    let end = text.skip(i);
    let entry = line.push('\n');
    law_written_text_is_read_back(end);
    law_appended_text_is_read_behind(log_before(log), entry);
    lemma_no_breaks(line);
    lemma_breaks_append(line, seq!['\n']);
    assert(line + seq!['\n'] =~= entry);
    assert(breaks(seq!['\n']) == 1) by {
        reveal_with_fuel(breaks, 2);
    }
    lemma_breaks_append(end, entry);
    lemma_line_count(end + entry);
    if whole_lines(text) {
        assert(end.len() > 0 ==> end.last() == text.last());
        lemma_lines_append(end, entry);
        lemma_lines_of_line(line);
        assert(lines(end + entry).last() == lines(entry).last());
    }
}

/// A log that has room for one more line and is not over its size keeps all that it holds when
/// a message is logged.
pub proof fn law_log_with_room_is_kept(log: Seq<u8>)
    requires
        log.len() <= LOG_MAX_SIZE,
        line_feeds(log) < LOG_MAX_LINES,
    ensures
        log_before(log) == log,
{
}

/// The log that is shown is the last 1024 characters of a log of UTF-8: all of it where it has
/// no more.
pub proof fn law_shown_log_is_the_end(files: Files, text: Seq<char>)
    requires
        contents(files, FileNameEnum::Log) == encode_utf8(text),
    ensures
        shown_log(files) == last_chars(text, LOG_PACKET_CHAR_COUNT as nat),
        text.len() <= 1024 ==> shown_log(files) == text,
{
    law_written_text_is_read_back(text);
}

proof fn lemma_encode_size(text: Seq<char>)
    ensures
        encode_utf8(text).len() <= 4 * text.len(),
    decreases text.len(),
{
    if text.len() > 0 {
        lemma_encode_first(text);
        lemma_encode_size(text.skip(1));
    }
}

/// What is shown of the log takes at most 4096 bytes.
pub proof fn law_shown_log_fits(files: Files)
    ensures
        encode_utf8(shown_log(files)).len() <= 4 * LOG_PACKET_CHAR_COUNT,
{
    let log = contents(files, FileNameEnum::Log);
    let n = LOG_PACKET_CHAR_COUNT as nat;
    if valid_utf8(log) {
        lemma_encode_size(shown_log(files));
    } else {
        lemma_chunked_text_size(tail(log, n), READ_END_CHUNK as nat);
    }
}

/// A line that goes behind a log of UTF-8 is the end of what is shown of the log.
pub proof fn law_logged_line_is_shown(files: Files, line: Seq<char>)
    requires
        valid_utf8(contents(files, FileNameEnum::Log)),
        line.len() <= LOG_PACKET_CHAR_COUNT,
    ensures
        ({
            let log = log_before(contents(files, FileNameEnum::Log)) + encode_utf8(line);
            let shown = shown_log(files.insert(FileNameEnum::Log, log));
            &&& valid_utf8(log)
            &&& shown.len() >= line.len()
            &&& shown.skip(shown.len() - line.len()) == line
        }),
{
    let old_log = contents(files, FileNameEnum::Log);
    let i = lemma_log_before(old_log);
    let end = file_text(old_log).skip(i);
    law_written_text_is_read_back(end);
    law_appended_text_is_read_behind(log_before(old_log), line);
    let all = end + line;
    let shown = last_chars(all, LOG_PACKET_CHAR_COUNT as nat);
    assert(shown.skip(shown.len() - line.len()) =~= line);
}

/// Carrying out the changes on the card in two parts is the same as carrying them out in one.
pub proof fn law_replay_in_parts(files: Files, first: Seq<CardChange>, second: Seq<CardChange>)
    ensures
        replay(files, first + second) == replay(replay(files, first), second),
    decreases second.len(),
{
    if second.len() == 0 {
        assert(first + second =~= first);
    } else {
        law_replay_in_parts(files, first, second.drop_last());
        assert((first + second).drop_last() =~= first + second.drop_last());
        assert((first + second).last() == second.last());
    }
}

/// A change does to its file what it says and leaves all others as they are, and a row of
/// changes is carried out one by one.
pub proof fn law_change_does_what_it_says(
    files: Files,
    file: FileNameEnum,
    data: Seq<u8>,
    other: FileNameEnum,
    ops: Seq<CardChange>,
    op: CardChange,
)
    requires
        other != file,
    ensures
        ({
            let put = (CardChange::Write { file, data, overwrite: true }).apply(files);
            let behind = (CardChange::Write { file, data, overwrite: false }).apply(files);
            let gone = (CardChange::Delete { file }).apply(files);
            &&& put.contains_key(file) && put[file] == data
            &&& behind.contains_key(file) && behind[file] == (if files.contains_key(file) {
                files[file] + data
            } else {
                data
            })
            &&& !gone.contains_key(file)
            &&& put.contains_key(other) == files.contains_key(other)
            &&& behind.contains_key(other) == files.contains_key(other)
            &&& gone.contains_key(other) == files.contains_key(other)
            &&& files.contains_key(other) ==> put[other] == files[other] && behind[other]
                == files[other] && gone[other] == files[other]
        }),
        replay(files, Seq::<CardChange>::empty()) == files,
        replay(files, ops.push(op)) == op.apply(replay(files, ops)),
{
    assert(Seq::<u8>::empty() + data =~= data);
    assert(ops.push(op).drop_last() =~= ops);
}

/// A noted change is the one that was made, with its file, its bytes and the way it is written.
pub proof fn law_noted_change_is_the_one_made(ops: Seq<CardOp>, i: int)
    requires
        0 <= i < ops.len(),
    ensures
        changes(ops).len() == ops.len(),
        match ops[i] {
            CardOp::Write { file, data, overwrite } => changes(ops)[i] == (CardChange::Write {
                file,
                data: data@,
                overwrite,
            }),
            CardOp::Delete { file } => changes(ops)[i] == (CardChange::Delete { file }),
        },
{
}

/// A file that is read in parts is read part by part, and a part is its text where it is UTF-8
/// by itself and nothing otherwise.
pub proof fn law_parts_are_read_by_themselves(a: Seq<u8>, b: Seq<u8>, n: nat)
    requires
        n > 0,
    ensures
        a.len() == n && b.len() > 0 ==> chunked_text(a + b, n) == chunked_text(a, n) + chunked_text(
            b,
            n,
        ) && chunked_lines(a + b, n) == chunked_lines(a, n) + chunked_lines(b, n),
        a.len() <= n && valid_utf8(a) ==> encode_utf8(chunked_text(a, n)) == a && chunked_lines(a, n)
            == lines(decode_utf8(a)),
        a.len() <= n && !valid_utf8(a) ==> chunked_text(a, n) == Seq::<char>::empty()
            && chunked_lines(a, n) == Seq::<Seq<char>>::empty(),
{
    let all = a + b;
    if a.len() == n && b.len() > 0 {
        assert(all.take(n as int) =~= a);
        assert(all.skip(n as int) =~= b);
    }
    if valid_utf8(a) {
        vstd::utf8::decode_utf8_encode_utf8(a);
        if a.len() == 0 {
            assert(encode_utf8(Seq::<char>::empty()) =~= a);
            assert(decode_utf8(a) =~= Seq::<char>::empty());
            assert(lines(decode_utf8(a)) =~= Seq::<Seq<char>>::empty());
        }
    } else {
        assert(lines(Seq::<char>::empty()) =~= Seq::<Seq<char>>::empty());
    }
}

/// A file that is not UTF-8 is read 256 bytes at a time, and its end 512 bytes at a time from so
/// many bytes before its end on. So is what is kept of any file that is cut.
pub proof fn law_end_of_a_file_is_read_in_parts(front: Seq<u8>, end: Seq<u8>)
    ensures
        ({
            let all = front + end;
            let n = end.len();
            &&& !valid_utf8(all) ==> file_text(all) == chunked_text(all, 256)
            &&& !valid_utf8(all) ==> end_text(all, n) == chunked_text(end, 512)
            &&& !valid_utf8(end) ==> end_text(end, n + front.len()) == chunked_text(end, 512)
            &&& kept_text(all, n) == chunked_text(end, 512)
            &&& kept_text(end, n + front.len()) == chunked_text(end, 512)
            &&& kept(all, n) == encode_utf8(chunked_text(end, 512))
        }),
{
    let all = front + end;
    assert(tail(all, end.len()) =~= end);
    assert(tail(end, end.len() + front.len()) =~= end);
}

/// Of a text, the last characters are what stands at its end, and all of it where there are no
/// more.
pub proof fn law_last_characters_stand_at_the_end(front: Seq<char>, end: Seq<char>, n: nat)
    ensures
        last_chars(front + end, end.len()) == end,
        end.len() <= n ==> last_chars(end, n) == end,
        end_text(encode_utf8(front + end), end.len()) == end,
        end.len() <= n ==> end_text(encode_utf8(end), n) == end,
{
    let all = front + end;
    law_written_text_is_read_back(all);
    law_written_text_is_read_back(end);
    assert(all.skip(front.len() as int) =~= end);
    if front.len() == 0 {
        assert(all =~= end);
    }
}

/// Of a log of UTF-8 that has more than 1024 characters the last 1024 are shown.
pub proof fn law_last_1024_characters_are_shown(files: Files, front: Seq<char>, end: Seq<char>)
    requires
        contents(files, FileNameEnum::Log) == encode_utf8(front + end),
        end.len() == 1024,
    ensures
        shown_log(files) == end,
{
    law_last_characters_stand_at_the_end(front, end, 1024);
}

/// A log of up to 4096 bytes is not cut. Of a longer one the last 1024 bytes are kept: the two
/// halves of them, each where it is UTF-8 by itself.
pub proof fn law_log_is_cut_to_its_last_1024_bytes(log: Seq<u8>, front: Seq<u8>, a: Seq<u8>, b: Seq<u8>)
    requires
        a.len() == 512,
        b.len() == 512,
        front.len() > 3072,
    ensures
        log.len() <= 4096 ==> log_cut(log) == log,
        log_cut(front + (a + b)) == (if valid_utf8(a) {
            a
        } else {
            Seq::<u8>::empty()
        }) + (if valid_utf8(b) {
            b
        } else {
            Seq::<u8>::empty()
        }),
{
    let end = a + b;
    law_end_of_a_file_is_read_in_parts(front, end);
    law_parts_are_read_by_themselves(a, b, 512);
    law_parts_are_read_by_themselves(b, a, 512);
    lemma_encode_append(chunked_text(a, 512), chunked_text(b, 512));
    assert(encode_utf8(Seq::<char>::empty()) =~= Seq::<u8>::empty());
    assert(kept(front + end, 1024) == encode_utf8(chunked_text(end, 512)));
}

/// The oldest line of a log goes as long as there are more line feeds than there may be, of which
/// there are 127 before a message; the rest of the log stays.
pub proof fn law_oldest_lines_go_first(line: Seq<u8>, rest: Seq<u8>, n: nat)
    requires
        forall|i: int| 0 <= i < line.len() ==> line[i] != 10,
    ensures
        ({
            let log = line.push(10) + rest;
            &&& line_feeds(log) == line_feeds(rest) + 1
            &&& line_feeds(line) == 0
            &&& newest_lines(log, n) == if line_feeds(rest) < n {
                log
            } else {
                newest_lines(rest, n)
            }
            &&& newest_lines(line, n) == line
            &&& log_before(log) == newest_lines(log_cut(log), 127)
        }),
{
    let first = line.push(10);
    let log = first + rest;
    lemma_no_line_feed(line);
    lemma_line_feeds_append(line, seq![10u8] + rest);
    assert(log =~= line + (seq![10u8] + rest));
    let tail_part = seq![10u8] + rest;
    assert(tail_part.skip(1) =~= rest);
    assert(tail_part[0] == 10);
}

/// A line of the log is the message and a line feed, behind the time stamp and a space where
/// there is one.
pub proof fn law_log_line_shows_stamp_and_message(message: Seq<char>, t: Seq<char>)
    ensures
        ({
            let line = log_line(message, Some(t));
            let n = t.len() as int;
            &&& line.len() == n + message.len() + 2
            &&& line.take(n) == t
            &&& line[n] == ' '
            &&& line.subrange(n + 1, line.len() - 1) == message
            &&& line.last() == '\n'
        }),
        ({
            let line = log_line(message, None);
            &&& line.len() == message.len() + 1
            &&& line.drop_last() == message
            &&& line.last() == '\n'
        }),
{
    let line = log_line(message, Some(t));
    let n = t.len() as int;
    assert(line.take(n) =~= t);
    assert(line.subrange(n + 1, line.len() - 1) =~= message);
    assert(log_line(message, None).drop_last() =~= message);
}

/// The changes that log a line end with the line behind the log.
pub proof fn law_line_is_written_behind_the_log(log: Seq<u8>, line: Seq<char>)
    ensures
        log_changes(log, line).len() > 0,
        log_changes(log, line).last() == (CardChange::Write {
            file: FileNameEnum::Log,
            data: encode_utf8(line),
            overwrite: false,
        }),
        log.len() <= 4096 && line_feeds(log) < 128 ==> log_changes(log, line).len() == 1,
{
}

/// A time stamp and a name are taken as they are given.
pub proof fn law_stamps_and_names_are_taken_as_they_are(text: &str)
    ensures
        stamp_view(Some(text)) == Some(text@),
        stamp_view(None) is None,
        given_name(Some(text)) == text@,
        given_name(None) == "NULL"@,
{
}

} // verus!
