//! Contents of the write-ahead log: one entry per line of UTF-8 text.
use crate::replay::ReplayError;
use vstd::prelude::*;

verus! {

/// `String::from_utf8` of std: the text that the bytes encode, or nothing if they are not UTF-8.
#[verifier::external_body]
fn text_of(bytes: Vec<u8>) -> (text: Option<String>)
    ensures
        match text {
            Some(string) => {
                &&& vstd::utf8::valid_utf8(bytes@)
                &&& string@ == vstd::utf8::decode_utf8(bytes@)
            },
            None => !vstd::utf8::valid_utf8(bytes@),
        },
{
    match String::from_utf8(bytes) {
        Ok(string) => Some(string),
        Err(_) => None,
    }
}

/// White space as Unicode defines it.
pub open spec fn is_white(c: char) -> bool {
    ||| '\u{9}' <= c <= '\u{d}'
    ||| c == '\u{20}'
    ||| c == '\u{85}'
    ||| c == '\u{a0}'
    ||| c == '\u{1680}'
    ||| '\u{2000}' <= c <= '\u{200a}'
    ||| c == '\u{2028}'
    ||| c == '\u{2029}'
    ||| c == '\u{202f}'
    ||| c == '\u{205f}'
    ||| c == '\u{3000}'
}

/// The text without white space at its start.
pub open spec fn trim_start(text: Seq<char>) -> Seq<char>
    decreases text.len(),
{
    if text.len() > 0 && is_white(text[0]) {
        trim_start(text.drop_first())
    } else {
        text
    }
}

/// The text without white space at its end.
pub open spec fn trim_end(text: Seq<char>) -> Seq<char>
    decreases text.len(),
{
    if text.len() > 0 && is_white(text.last()) {
        trim_end(text.drop_last())
    } else {
        text
    }
}

/// The text without white space at either end.
pub open spec fn trim(text: Seq<char>) -> Seq<char> {
    trim_end(trim_start(text))
}

/// What a line of the log holds: nothing if it is blank, else an entry, which is `None` if the
/// line is no text.
pub open spec fn found(line: Seq<u8>) -> Seq<Option<Seq<char>>> {
    if !vstd::utf8::valid_utf8(line) {
        seq![None]
    } else if trim(vstd::utf8::decode_utf8(line)).len() == 0 {
        Seq::empty()
    } else {
        seq![Some(trim(vstd::utf8::decode_utf8(line)))]
    }
}

/// The entries of the complete lines of a log, and what follows the last line break.
pub open spec fn scan(bytes: Seq<u8>) -> (Seq<Option<Seq<char>>>, Seq<u8>)
    decreases bytes.len(),
{
    if bytes.len() == 0 {
        (Seq::empty(), Seq::empty())
    } else {
        let (entries, line) = scan(bytes.drop_last());
        let longer = line.push(bytes.last());
        if bytes.last() == 10 {
            (entries + found(longer), Seq::empty())
        } else {
            (entries, longer)
        }
    }
}

/// The entries of a log: its lines, trimmed, without the blank ones.
pub open spec fn entries(bytes: Seq<u8>) -> Seq<Option<Seq<char>>> {
    scan(bytes).0 + found(scan(bytes).1)
}

/// An entry as a line of the log.
pub open spec fn frame(entry: Seq<char>) -> Seq<char> {
    entry.push('\n')
}

/// The bytes of a log to which the entries were appended one after the other.
pub open spec fn written(entries: Seq<Seq<char>>) -> Seq<u8>
    decreases entries.len(),
{
    if entries.len() == 0 {
        Seq::empty()
    } else {
        written(entries.drop_last()) + vstd::utf8::encode_utf8(frame(entries.last()))
    }
}

/// An entry that fits on a line of its own: not empty, without line breaks, and without white
/// space at either end.
pub open spec fn clean(entry: Seq<char>) -> bool {
    &&& entry.len() > 0
    &&& !entry.contains('\n')
    &&& !is_white(entry[0])
    &&& !is_white(entry.last())
}

/// The entries that were read, `None` for a line that is no text.
pub open spec fn read(entries: Seq<Option<String>>) -> Seq<Option<Seq<char>>> {
    entries.map_values(
        |entry: Option<String>|
            match entry {
                Some(text) => Some(text@),
                None => None,
            },
    )
}

/// Whether a character is white space.
fn white(c: char) -> (is: bool)
    ensures
        is == is_white(c),
{
    ('\u{9}' <= c && c <= '\u{d}') || c == '\u{20}' || c == '\u{85}' || c == '\u{a0}' || c
        == '\u{1680}' || ('\u{2000}' <= c && c <= '\u{200a}') || c == '\u{2028}' || c == '\u{2029}'
        || c == '\u{202f}' || c == '\u{205f}' || c == '\u{3000}'
}

/// The entry on a line of the log, if the line is not blank.
pub fn entry_of(line: &str) -> (entry: Option<String>)
    ensures
        match entry {
            Some(text) => text@.len() > 0 && text@ == trim(line@),
            None => trim(line@).len() == 0,
        },
{
    let len: usize = line.unicode_len();
    let mut from: usize = 0;
    assert(line@.skip(0) =~= line@);
    while from < len && white(line.get_char(from))
        invariant
            len == line@.len(),
            from <= len,
            trim_start(line@) == trim_start(line@.skip(from as int)),
        ensures
            len == line@.len(),
            from <= len,
            trim_start(line@) == line@.skip(from as int),
        decreases len - from,
    {
        assert(line@.skip(from as int).drop_first() =~= line@.skip(from + 1));
        from = from + 1;
    }
    let mut to: usize = len;
    assert(line@.subrange(from as int, to as int) =~= line@.skip(from as int));
    while to > from && white(line.get_char(to - 1))
        invariant
            from <= to <= len == line@.len(),
            trim(line@) == trim_end(line@.subrange(from as int, to as int)),
        ensures
            from <= to <= len == line@.len(),
            trim(line@) == line@.subrange(from as int, to as int),
        decreases to,
    {
        assert(line@.subrange(from as int, to as int).drop_last() =~= line@.subrange(
            from as int,
            to - 1,
        ));
        to = to - 1;
    }
    if from == to {
        None
    } else {
        Some(line.substring_char(from, to).to_owned())
    }
}

/// The line that appends an entry to the log.
pub fn line_of(entry: &str) -> (line: String)
    ensures
        line@ == frame(entry@),
{
    let mut line = entry.to_owned();
    line.append("\n");
    proof {
        reveal_strlit("\n");
        assert(line@ =~= frame(entry@));
    }
    line
}

/// Adds what a line holds.
fn add_line(entries: &mut Vec<Option<String>>, line: Vec<u8>)
    ensures
        read(final(entries)@) == read(old(entries)@) + found(line@),
{
    let ghost before = entries@;
    match text_of(line) {
        Some(text) => {
            if let Some(entry) = entry_of(text.as_str()) {
                entries.push(Some(entry));
            }
        },
        None => {
            entries.push(None);
        },
    }
    assert(read(entries@) =~= read(before) + found(line@));
}

/// Reads the entries of a log from its bytes.
pub fn entries_of(bytes: &Vec<u8>) -> (found_entries: Vec<Option<String>>)
    ensures
        read(found_entries@) == entries(bytes@),
{
    let mut found_entries: Vec<Option<String>> = Vec::new();
    let mut line: Vec<u8> = Vec::new();
    let mut i: usize = 0;
    assert(read(found_entries@) =~= Seq::empty());
    assert(bytes@.take(0) =~= Seq::empty());
    while i < bytes.len()
        invariant
            i <= bytes@.len(),
            read(found_entries@) == scan(bytes@.take(i as int)).0,
            line@ == scan(bytes@.take(i as int)).1,
        decreases bytes@.len() - i,
    {
        assert(bytes@.take(i + 1).drop_last() =~= bytes@.take(i as int));
        let byte = bytes[i];
        line.push(byte);
        if byte == 10 {
            add_line(&mut found_entries, line);
            line = Vec::new();
        }
        i = i + 1;
    }
    assert(bytes@.take(i as int) =~= bytes@);
    add_line(&mut found_entries, line);
    found_entries
}

/// The path of a log and the number of entries appended to it in this session.
pub struct WalWriter {
    path: String,
    count: u64,
}

impl WalWriter {
    /// Number of entries appended.
    pub closed spec fn appended_count(&self) -> u64 {
        self.count
    }

    /// The path of the log.
    pub closed spec fn file(&self) -> Seq<char> {
        self.path@
    }

    /// A writer to a log that is open for appending.
    pub fn open(path: String) -> (writer: WalWriter)
        ensures
            writer.appended_count() == 0,
            writer.file() == path@,
    {
        WalWriter { path, count: 0 }
    }

    /// Counts an entry whose line was written.
    pub fn appended(&mut self)
        requires
            old(self).appended_count() < u64::MAX,
        ensures
            final(self).appended_count() == old(self).appended_count() + 1,
            final(self).file() == old(self).file(),
    {
        self.count = self.count + 1;
    }

    /// The path of the log.
    pub fn path(&self) -> (path: &str)
        ensures
            path@ == self.file(),
    {
        self.path.as_str()
    }

    /// Number of entries appended in this session.
    pub fn count(&self) -> (count: u64)
        ensures
            count == self.appended_count(),
    {
        self.count
    }
}

/// The entries of a log that are still to be read.
pub struct WalReader {
    entries: Vec<Option<String>>,
    next: usize,
}

impl WalReader {
    /// The entries still to be read, `None` for a line that is no text.
    pub closed spec fn remaining(&self) -> Seq<Option<Seq<char>>> {
        read(self.entries@).skip(self.next as int)
    }

    /// The reader has not read past the end.
    pub closed spec fn wf(&self) -> bool {
        self.next <= self.entries@.len()
    }

    /// Starts reading a log from its bytes.
    pub fn open(bytes: &Vec<u8>) -> (reader: WalReader)
        ensures
            reader.wf(),
            reader.remaining() == entries(bytes@),
    {
        let reader = WalReader { entries: entries_of(bytes), next: 0 };
        assert(read(reader.entries@).skip(0) =~= read(reader.entries@));
        reader
    }

    /// Reads the next entry, if there is one. A line that is no text gives an error, after which
    /// reading goes on with the line after it.
    pub fn next(&mut self) -> (entry: Option<Result<String, ReplayError>>)
        requires
            old(self).wf(),
        ensures
            final(self).wf(),
            match entry {
                Some(result) => {
                    &&& old(self).remaining().len() > 0
                    &&& final(self).remaining() == old(self).remaining().drop_first()
                    &&& match old(self).remaining()[0] {
                        Some(text) => result matches Ok(string) && string@ == text,
                        None => result matches Err(ReplayError::Io(cause)) && cause@
                            == "stream did not contain valid UTF-8"@,
                    }
                },
                None => {
                    &&& old(self).remaining().len() == 0
                    &&& final(self).remaining() == old(self).remaining()
                },
            },
    {
        if self.next >= self.entries.len() {
            return None;
        }
        let result = match &self.entries[self.next] {
            Some(text) => Ok(text.clone()),
            None => Err(ReplayError::Io("stream did not contain valid UTF-8".to_owned())),
        };
        let ghost before = self.remaining();
        self.next = self.next + 1;
        assert(self.remaining() =~= before.drop_first());
        Some(result)
    }
}

// ---------------------------------------------------------------------------
// Reading back
// ---------------------------------------------------------------------------

/// The encodings of two texts are that of the texts together.
proof fn lemma_encode_add(a: Seq<char>, b: Seq<char>)
    ensures
        vstd::utf8::encode_utf8(a + b) == vstd::utf8::encode_utf8(a) + vstd::utf8::encode_utf8(b),
    decreases a.len(),
{
    if a.len() == 0 {
        assert(a + b =~= b);
        assert(vstd::utf8::encode_utf8(a) + vstd::utf8::encode_utf8(b)
            =~= vstd::utf8::encode_utf8(b));
    } else {
        lemma_encode_add(a.drop_first(), b);
        assert((a + b).drop_first() =~= a.drop_first() + b);
        assert(vstd::utf8::encode_utf8(a + b)
            =~= vstd::utf8::encode_utf8(a) + vstd::utf8::encode_utf8(b));
    }
}

/// A line break is one byte, and no other character has that byte in its encoding.
proof fn lemma_encode_char(c: char)
    ensures
        c == '\n' ==> vstd::utf8::encode_scalar(c as u32) == seq![10u8],
        c != '\n' ==> !vstd::utf8::encode_scalar(c as u32).contains(10u8),
{
    let scalar = c as u32;
    vstd::utf8::char_is_scalar(c);
    lemma_scalar_bytes(scalar);
    if c != '\n' {
        assert(scalar != 10);
    }
}

/// The bytes of an encoding: the scalar itself if it has one, and none below 128 if it has more.
proof fn lemma_scalar_bytes(scalar: u32)
    by (bit_vector)
    ensures
        scalar <= 0x7f ==> vstd::utf8::leading_byte_width_1(scalar) == scalar,
        vstd::utf8::leading_byte_width_2(scalar) >= 128,
        vstd::utf8::leading_byte_width_3(scalar) >= 128,
        vstd::utf8::leading_byte_width_4(scalar) >= 128,
        vstd::utf8::last_continuation_byte(scalar) >= 128,
        vstd::utf8::second_last_continuation_byte(scalar) >= 128,
        vstd::utf8::third_last_continuation_byte(scalar) >= 128,
{
}

/// The encoding of a text without line breaks has no byte of one.
proof fn lemma_encode_line(text: Seq<char>)
    requires
        !text.contains('\n'),
    ensures
        !vstd::utf8::encode_utf8(text).contains(10u8),
    decreases text.len(),
{
    if text.len() > 0 {
        let rest = text.drop_first();
        assert(text.contains(text[0]));
        assert(!rest.contains('\n')) by {
            if rest.contains('\n') {
                let i = choose|i: int| 0 <= i < rest.len() && rest[i] == '\n';
                assert(text[i + 1] == '\n');
            }
        }
        lemma_encode_char(text[0]);
        lemma_encode_line(rest);
        let head = vstd::utf8::encode_scalar(text[0] as u32);
        let bytes = vstd::utf8::encode_utf8(text);
        if bytes.contains(10u8) {
            let i = choose|i: int| 0 <= i < bytes.len() && bytes[i] == 10u8;
            if i < head.len() {
                assert(head[i] == 10u8);
            } else {
                assert(vstd::utf8::encode_utf8(rest)[i - head.len()] == 10u8);
            }
        }
    }
}

/// The encoding of a framed entry is that of the entry and a line break.
proof fn lemma_encode_frame(entry: Seq<char>)
    ensures
        vstd::utf8::encode_utf8(frame(entry)) == vstd::utf8::encode_utf8(entry).push(10u8),
{
    assert(frame(entry) =~= entry + seq!['\n']);
    lemma_encode_add(entry, seq!['\n']);
    lemma_encode_char('\n');
    assert(seq!['\n'].drop_first() =~= Seq::empty());
    assert(vstd::utf8::encode_utf8(seq!['\n'].drop_first()) =~= Seq::<u8>::empty());
    assert(vstd::utf8::encode_utf8(seq!['\n']) =~= seq![10u8]);
    let bytes = vstd::utf8::encode_utf8(entry);
    assert(bytes + seq![10u8] =~= bytes.push(10u8));
}

/// Bytes without a line break go to the line that is not complete yet.
proof fn lemma_scan_more(bytes: Seq<u8>, more: Seq<u8>)
    requires
        !more.contains(10u8),
    ensures
        scan(bytes + more) == (scan(bytes).0, scan(bytes).1 + more),
    decreases more.len(),
{
    if more.len() == 0 {
        assert(bytes + more =~= bytes);
        assert(scan(bytes).1 + more =~= scan(bytes).1);
    } else {
        let less = more.drop_last();
        assert(!less.contains(10u8)) by {
            if less.contains(10u8) {
                let i = choose|i: int| 0 <= i < less.len() && less[i] == 10u8;
                assert(more[i] == 10u8);
            }
        }
        assert(more.contains(more.last()));
        lemma_scan_more(bytes, less);
        assert((bytes + more).drop_last() =~= bytes + less);
        assert((scan(bytes).1 + less).push(more.last()) =~= scan(bytes).1 + more);
    }
}

/// A framed entry is trimmed to the entry.
proof fn lemma_trim_frame(entry: Seq<char>)
    requires
        clean(entry),
    ensures
        trim(frame(entry)) == entry,
{
    let line = frame(entry);
    assert(line[0] == entry[0]);
    assert(trim_start(line) == line);
    assert(line.drop_last() =~= entry);
    assert(is_white(line.last()));
    assert(trim_end(line) == trim_end(entry));
}

/// Nothing is read from what follows the last line break if nothing follows it.
proof fn lemma_nothing_found()
    ensures
        found(Seq::<u8>::empty()) == Seq::<Option<Seq<char>>>::empty(),
{
    let none = Seq::<u8>::empty();
    vstd::utf8::encode_utf8_valid_utf8(Seq::<char>::empty());
    vstd::utf8::encode_utf8_decode_utf8(Seq::<char>::empty());
    assert(vstd::utf8::encode_utf8(Seq::<char>::empty()) =~= none);
    assert(trim(Seq::<char>::empty()).len() == 0);
}

/// Appending an entry to a log of complete lines adds exactly that entry.
pub proof fn law_append(bytes: Seq<u8>, entry: Seq<char>)
    requires
        clean(entry),
        scan(bytes).1.len() == 0,
    ensures
        entries(bytes + vstd::utf8::encode_utf8(frame(entry))) == entries(bytes).push(Some(entry)),
        scan(bytes + vstd::utf8::encode_utf8(frame(entry))).1.len() == 0,
{
    let body = vstd::utf8::encode_utf8(entry);
    let line = vstd::utf8::encode_utf8(frame(entry));
    let longer = bytes + line;
    lemma_encode_line(entry);
    lemma_encode_frame(entry);
    lemma_scan_more(bytes, body);
    lemma_trim_frame(entry);
    vstd::utf8::encode_utf8_valid_utf8(frame(entry));
    vstd::utf8::encode_utf8_decode_utf8(frame(entry));
    lemma_nothing_found();
    assert(longer.drop_last() =~= bytes + body);
    assert(scan(bytes).1 =~= Seq::empty());
    assert((scan(bytes).1 + body).push(10u8) =~= line);
    assert(scan(longer).0 == scan(bytes).0 + found(line));
    assert(entries(longer) =~= entries(bytes).push(Some(entry)));
}

/// What was appended to a log is what is read back from it.
pub proof fn law_reads_back(appended: Seq<Seq<char>>)
    requires
        forall|i: int| 0 <= i < appended.len() ==> clean(#[trigger] appended[i]),
    ensures
        entries(written(appended)) == appended.map_values(|entry: Seq<char>| Some(entry)),
        scan(written(appended)).1.len() == 0,
    decreases appended.len(),
{
    if appended.len() == 0 {
        lemma_nothing_found();
        assert(entries(written(appended)) =~= appended.map_values(|entry: Seq<char>| Some(entry)));
    } else {
        let before = appended.drop_last();
        assert forall|i: int| 0 <= i < before.len() implies clean(#[trigger] before[i]) by {
            assert(before[i] == appended[i]);
        }
        law_reads_back(before);
        assert(clean(appended[appended.len() - 1]));
        law_append(written(before), appended.last());
        assert(before.map_values(|entry: Seq<char>| Some(entry)).push(Some(appended.last()))
            =~= appended.map_values(|entry: Seq<char>| Some(entry)));
    }
}

/// Trimming a text leaves the part of it between the white space at its ends: all that is cut off
/// is white, and what is left, if anything, neither starts nor ends with white space.
pub proof fn law_trimming(text: Seq<char>) -> (cut: (int, int))
    ensures
        0 <= cut.0 <= cut.1 <= text.len(),
        trim(text) == text.subrange(cut.0, cut.1),
        forall|i: int| 0 <= i < cut.0 ==> is_white(#[trigger] text[i]),
        forall|i: int| cut.1 <= i < text.len() ==> is_white(#[trigger] text[i]),
        trim(text).len() > 0 ==> !is_white(trim(text)[0]) && !is_white(trim(text).last()),
{
    let from = lemma_trim_start(text);
    let rest = trim_start(text);
    let to = lemma_trim_end(rest);
    assert(trim(text) =~= text.subrange(from, from + to));
    assert forall|i: int| from + to <= i < text.len() implies is_white(#[trigger] text[i]) by {
        assert(rest[i - from] == text[i]);
    }
    (from, from + to)
}

/// What trimming cuts off at the start.
proof fn lemma_trim_start(text: Seq<char>) -> (from: int)
    ensures
        0 <= from <= text.len(),
        trim_start(text) == text.skip(from),
        forall|i: int| 0 <= i < from ==> is_white(#[trigger] text[i]),
        from < text.len() ==> !is_white(text[from]),
    decreases text.len(),
{
    if text.len() > 0 && is_white(text[0]) {
        let rest = text.drop_first();
        let from = lemma_trim_start(rest);
        assert(rest.skip(from) =~= text.skip(from + 1));
        assert forall|i: int| 0 <= i < from + 1 implies is_white(#[trigger] text[i]) by {
            if i > 0 {
                assert(rest[i - 1] == text[i]);
            }
        }
        from + 1
    } else {
        assert(text.skip(0) =~= text);
        0
    }
}

/// What trimming cuts off at the end.
proof fn lemma_trim_end(text: Seq<char>) -> (to: int)
    ensures
        0 <= to <= text.len(),
        trim_end(text) == text.take(to),
        forall|i: int| to <= i < text.len() ==> is_white(#[trigger] text[i]),
        to > 0 ==> !is_white(text[to - 1]),
    decreases text.len(),
{
    if text.len() > 0 && is_white(text.last()) {
        let rest = text.drop_last();
        let to = lemma_trim_end(rest);
        assert(rest.take(to) =~= text.take(to));
        assert forall|i: int| to <= i < text.len() implies is_white(#[trigger] text[i]) by {
            if i < rest.len() {
                assert(rest[i] == text[i]);
            }
        }
        to
    } else {
        assert(text.take(text.len() as int) =~= text);
        text.len() as int
    }
}

/// The lines of a log are read one by one: what precedes a line break has no influence on what is
/// read after it.
pub proof fn law_lines_are_read_apart(bytes: Seq<u8>, rest: Seq<u8>)
    ensures
        entries(bytes.push(10u8) + rest) == entries(bytes.push(10u8)) + entries(rest),
{
    lemma_scan_after(bytes.push(10u8), rest);
    lemma_nothing_found();
    let first = bytes.push(10u8);
    assert(first.drop_last() =~= bytes);
    assert(entries(first) =~= scan(first).0);
    assert(entries(first + rest) =~= entries(first) + entries(rest));
}

/// Scanning goes on after a line break as from the start.
proof fn lemma_scan_after(first: Seq<u8>, rest: Seq<u8>)
    requires
        first.len() > 0,
        first.last() == 10,
    ensures
        scan(first + rest) == (scan(first).0 + scan(rest).0, scan(rest).1),
    decreases rest.len(),
{
    if rest.len() == 0 {
        assert(first + rest =~= first);
        assert(scan(first).0 + scan(rest).0 =~= scan(first).0);
    } else {
        lemma_scan_after(first, rest.drop_last());
        assert((first + rest).drop_last() =~= first + rest.drop_last());
        assert((first + rest).last() == rest.last());
        let line = scan(rest.drop_last()).1.push(rest.last());
        assert((scan(first).0 + scan(rest.drop_last()).0) + found(line) =~= scan(first).0 + (scan(
            rest.drop_last(),
        ).0 + found(line)));
    }
}

/// A single line, with or without its line break, gives one entry that is no text if its bytes are
/// not UTF-8, none if it is blank, and its trimmed text otherwise.
pub proof fn law_lines_give_entries(line: Seq<u8>, text: Seq<char>)
    requires
        !line.contains(10u8),
    ensures
        !vstd::utf8::valid_utf8(line) ==> entries(line) == seq![None::<Seq<char>>],
        line == vstd::utf8::encode_utf8(text) ==> {
            let entry = trim(text);
            &&& entry.len() == 0 ==> entries(line).len() == 0 && entries(line.push(10u8)).len() == 0
            &&& entry.len() > 0 ==> entries(line) == seq![Some(entry)] && entries(line.push(10u8))
                == seq![Some(entry)]
        },
{
    let none = Seq::<u8>::empty();
    let ended = line.push(10u8);
    lemma_nothing_found();
    lemma_scan_more(none, line);
    assert(none + line =~= line);
    assert(scan(line) == (Seq::<Option<Seq<char>>>::empty(), line)) by {
        assert(scan(none).1 + line =~= line);
    }
    assert(entries(line) =~= found(line));
    assert(ended.drop_last() =~= line);
    assert(entries(ended) =~= found(ended));
    if line == vstd::utf8::encode_utf8(text) {
        vstd::utf8::encode_utf8_valid_utf8(text);
        vstd::utf8::encode_utf8_decode_utf8(text);
        lemma_encode_frame(text);
        vstd::utf8::encode_utf8_valid_utf8(frame(text));
        vstd::utf8::encode_utf8_decode_utf8(frame(text));
        lemma_trim_push(text);
    }
}

/// A line break at the end is trimmed away.
proof fn lemma_trim_push(text: Seq<char>)
    ensures
        trim(text.push('\n')) == trim(text),
    decreases text.len(),
{
    let longer = text.push('\n');
    assert(is_white('\n'));
    if text.len() == 0 {
        assert(longer.drop_first() =~= text);
        assert(trim_start(longer) == trim_start(text));
    } else if is_white(text[0]) {
        assert(longer[0] == text[0]);
        assert(longer.drop_first() =~= text.drop_first().push('\n'));
        lemma_trim_push(text.drop_first());
    } else {
        assert(longer[0] == text[0]);
        assert(longer.drop_last() =~= text);
    }
}

/// The line of an entry is the entry and one line break.
pub proof fn law_lines_end_with_one_break(entry: Seq<char>)
    ensures
        frame(entry).len() == entry.len() + 1,
        frame(entry).last() == '\n',
        forall|i: int| 0 <= i < entry.len() ==> #[trigger] frame(entry)[i] == entry[i],
{
}

/// The white space characters are the 25 with Unicode's property of that name: three ranges of
/// control characters and spaces, and single ones beside them.
pub proof fn law_white_space(c: char)
    ensures
        is_white(c) <==> {
            let n = c as int;
            ||| 9 <= n < 14
            ||| 8192 <= n < 8203
            ||| 8232 <= n < 8234
            ||| n == 32 || n == 133 || n == 160 || n == 5760 || n == 8239 || n == 8287 || n == 12288
        },
{
}

} // verus!
