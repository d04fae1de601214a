//! Lines of a text file that is read in byte ranges.
use std::sync::atomic::AtomicBool;
use std::sync::Arc;

use vstd::prelude::*;
use vstd::utf8::{
    decode_first_scalar, decode_utf8, decode_utf8_encode_utf8, decode_utf8_split, encode_utf8,
    is_char_boundary_iff_not_is_continuation_byte, pop_first_scalar, valid_utf8, valid_utf8_concat,
    valid_utf8_split,
};

use crate::dataset::{
    evaluates, never_fails, own, part_map, within, Dataset, Evaluation, Own, Part,
};
use crate::error::Error;
use crate::metrics::Counters;
use crate::partition::{byte_splits, cut_at, lemma_cuts};
use crate::seqs::{concat, lemma_concat_push};
use crate::text::{string_of, to_chars};

verus! {

pub const NEWLINE: u8 = 10;

/// `String::from_utf8` of the standard library: gives the text that bytes encode if they are valid
/// UTF-8, and fails otherwise.
#[verifier::external_body]
pub(crate) fn utf8_text(bytes: Vec<u8>) -> (r: Option<String>)
    ensures
        r is Some <==> valid_utf8(bytes@),
        r is Some ==> r->0@ == decode_utf8(bytes@),
{
    String::from_utf8(bytes).ok()
}

/// Where the line that goes through `pos` ends: after the next newline, or at the end.
pub open spec fn line_end(bytes: Seq<u8>, pos: int) -> int
    decreases bytes.len() - pos,
{
    if pos >= bytes.len() {
        bytes.len() as int
    } else if bytes[pos] == NEWLINE {
        pos + 1
    } else {
        line_end(bytes, pos + 1)
    }
}

/// The lines that start at `pos` or later and before `end`, where a line starts at `pos`.
pub open spec fn lines_from(bytes: Seq<u8>, pos: int, end: int) -> Seq<Seq<u8>>
    decreases bytes.len() - pos,
    when pos >= 0
    via lines_from_shrink
{
    if pos >= end || pos >= bytes.len() {
        Seq::empty()
    } else {
        seq![bytes.subrange(pos, line_end(bytes, pos))] + lines_from(
            bytes,
            line_end(bytes, pos),
            end,
        )
    }
}

#[via_fn]
proof fn lines_from_shrink(bytes: Seq<u8>, pos: int, end: int) {
    if pos < bytes.len() {
        lemma_line_end(bytes, pos);
    }
}

/// Where the first line starts that starts at `start` or later.
pub open spec fn first_line(bytes: Seq<u8>, start: int) -> int {
    if start <= 0 {
        0
    } else if bytes[start - 1] == NEWLINE {
        start
    } else {
        line_end(bytes, start)
    }
}

/// The lines of a byte range: those that start in it.
pub open spec fn range_lines(bytes: Seq<u8>, start: int, end: int) -> Seq<Seq<u8>> {
    if start >= end {
        Seq::empty()
    } else {
        lines_from(bytes, first_line(bytes, start), end)
    }
}

/// A line without the newline at its end, nor a carriage return before that.
pub open spec fn without_newline(line: Seq<char>) -> Seq<char> {
    if line.len() > 0 && line.last() == '\n' {
        let l = line.drop_last();
        if l.len() > 0 && l.last() == '\r' {
            l.drop_last()
        } else {
            l
        }
    } else {
        line
    }
}

/// A line keeps every character but what ends it: with its ending behind it, it is the line that was
/// read. The ending is a newline, with a carriage return before it if there is one; a line that does
/// not end in a newline has none.
pub proof fn lemma_line_text(line: Seq<char>)
    ensures
        ({
            let s = without_newline(line);
            let newline = line.len() > 0 && line.last() == '\n';
            let carriage = line.len() > 1 && line[line.len() - 2] == '\r';
            &&& !newline ==> line == s
            &&& newline && !carriage ==> line == s + seq!['\n']
            &&& newline && carriage ==> line == s + seq!['\r', '\n']
        }),
{
    let s = without_newline(line);
    assert(s + seq!['\n'] =~= line || s + seq!['\r', '\n'] =~= line || s =~= line);
    if line.len() > 0 && line.last() == '\n' {
        if line.len() > 1 && line[line.len() - 2] == '\r' {
            assert(line =~= s + seq!['\r', '\n']);
        } else {
            assert(line =~= s + seq!['\n']);
        }
    }
}

pub proof fn lemma_line_end(bytes: Seq<u8>, pos: int)
    requires
        0 <= pos < bytes.len(),
    ensures
        pos < line_end(bytes, pos) <= bytes.len(),
        forall|i: int| pos <= i < line_end(bytes, pos) - 1 ==> bytes[i] != NEWLINE,
        line_end(bytes, pos) < bytes.len() ==> bytes[line_end(bytes, pos) - 1] == NEWLINE,
    decreases bytes.len() - pos,
{
    if bytes[pos] != NEWLINE {
        if pos + 1 < bytes.len() {
            lemma_line_end(bytes, pos + 1);
        } else {
            assert(line_end(bytes, pos + 1) == bytes.len());
        }
    }
}

/// The end of a line is the same seen from anywhere in the line.
proof fn lemma_line_end_within(bytes: Seq<u8>, pos: int, e: int)
    requires
        0 <= pos <= e < line_end(bytes, pos),
        pos < bytes.len(),
    ensures
        line_end(bytes, e) == line_end(bytes, pos),
    decreases e - pos,
{
    lemma_line_end(bytes, pos);
    if pos < e {
        assert(bytes[pos] != NEWLINE);
        lemma_line_end_within(bytes, pos + 1, e);
    }
}

/// A range that ends within a line leaves off where the next range starts.
proof fn lemma_first_line_after(bytes: Seq<u8>, pos: int, e: int)
    requires
        0 <= pos < e <= bytes.len(),
        line_end(bytes, pos) >= e,
    ensures
        first_line(bytes, e) == line_end(bytes, pos),
{
    lemma_line_end(bytes, pos);
    let q = line_end(bytes, pos);
    if q > e {
        assert(bytes[e - 1] != NEWLINE);
        lemma_line_end_within(bytes, pos, e);
    } else if bytes[e - 1] != NEWLINE {
        assert(e == bytes.len());
    }
}

/// The lines of a range up to `e` and those from `e` on are the lines of the whole range.
proof fn lemma_lines_join(bytes: Seq<u8>, pos: int, e: int, f: int)
    requires
        0 <= pos <= bytes.len(),
        e <= f <= bytes.len(),
        pos >= e ==> first_line(bytes, e) == pos,
        0 < e,
    ensures
        lines_from(bytes, pos, f) == lines_from(bytes, pos, e) + lines_from(
            bytes,
            first_line(bytes, e),
            f,
        ),
    decreases bytes.len() - pos,
{
    if pos < e {
        lemma_line_end(bytes, pos);
        let q = line_end(bytes, pos);
        if q >= e {
            lemma_first_line_after(bytes, pos, e);
        }
        lemma_lines_join(bytes, q, e, f);
        let line = seq![bytes.subrange(pos, q)];
        assert(line + (lines_from(bytes, q, e) + lines_from(bytes, first_line(bytes, e), f)) =~= (
        line + lines_from(bytes, q, e)) + lines_from(bytes, first_line(bytes, e), f));
    } else {
        assert(lines_from(bytes, pos, e) + lines_from(bytes, pos, f) =~= lines_from(bytes, pos, f));
    }
}

/// The ranges up to `k` of a file that is cut into ranges hold the lines that start in them.
proof fn lemma_ranges_prefix(bytes: Seq<u8>, n: nat, k: int)
    requires
        0 <= k <= n,
        n > 0,
    ensures
        concat(
            Seq::new(
                k as nat,
                |i: int|
                    range_lines(
                        bytes,
                        cut_at(i, bytes.len(), n),
                        cut_at(i + 1, bytes.len(), n),
                    ),
            ),
        ) == lines_from(bytes, 0, cut_at(k, bytes.len(), n)),
    decreases k,
{
    let len = bytes.len();
    let ranges = Seq::new(
        k as nat,
        |i: int| range_lines(bytes, cut_at(i, len, n), cut_at(i + 1, len, n)),
    );
    lemma_cuts(0, len, n);
    if k > 0 {
        lemma_cuts(k - 1, len, n);
        lemma_ranges_prefix(bytes, n, k - 1);
        let s = cut_at(k - 1, len, n);
        let e = cut_at(k, len, n);
        let before = Seq::new(
            (k - 1) as nat,
            |i: int| range_lines(bytes, cut_at(i, len, n), cut_at(i + 1, len, n)),
        );
        assert(ranges =~= before.push(range_lines(bytes, s, e)));
        lemma_concat_push(before, range_lines(bytes, s, e));
        if s >= e {
            assert(lines_from(bytes, 0, s) + range_lines(bytes, s, e) =~= lines_from(bytes, 0, s));
        } else if s == 0 {
            assert(lines_from(bytes, 0, 0) + range_lines(bytes, 0, e) =~= range_lines(bytes, 0, e));
        } else {
            lemma_lines_join(bytes, 0, s, e);
        }
    } else {
        assert(ranges =~= Seq::<Seq<Seq<u8>>>::empty());
    }
}

/// However a file is cut into ranges, the lines of the ranges, one range after the other, are the
/// lines of the file.
pub proof fn lemma_ranges_cover(bytes: Seq<u8>, n: nat)
    requires
        n > 0,
    ensures
        concat(
            Seq::new(
                n,
                |i: int|
                    range_lines(
                        bytes,
                        cut_at(i, bytes.len(), n),
                        cut_at(i + 1, bytes.len(), n),
                    ),
            ),
        ) == lines_from(bytes, 0, bytes.len() as int),
{
    lemma_ranges_prefix(bytes, n, n as int);
    lemma_cuts(0, bytes.len(), n);
}

/// The lines of a file, one after the other, are the file.
pub proof fn lemma_lines_are_the_file(bytes: Seq<u8>, pos: int)
    requires
        0 <= pos <= bytes.len(),
    ensures
        concat(lines_from(bytes, pos, bytes.len() as int)) == bytes.skip(pos),
    decreases bytes.len() - pos,
{
    if pos < bytes.len() {
        lemma_line_end(bytes, pos);
        let q = line_end(bytes, pos);
        lemma_lines_are_the_file(bytes, q);
        let line = bytes.subrange(pos, q);
        let rest = lines_from(bytes, q, bytes.len() as int);
        crate::seqs::lemma_concat_add(seq![line], rest);
        let none = Seq::<Seq<u8>>::empty();
        assert(seq![line] =~= none.push(line));
        lemma_concat_push(none, line);
        assert(concat(seq![line]) =~= line);
        assert(line + bytes.skip(q) =~= bytes.skip(pos));
    } else {
        assert(bytes.skip(pos) =~= Seq::<u8>::empty());
    }
}

/// A line starts at `pos`: at the start of the file, or behind a newline.
pub open spec fn line_starts(bytes: Seq<u8>, pos: int) -> bool {
    0 <= pos < bytes.len() && (pos == 0 || bytes[pos - 1] == 10)
}

/// `raw` is the line that starts at `pos`: it goes up to the next newline, and holds that, or up to
/// the end of the file.
pub open spec fn line_at(bytes: Seq<u8>, pos: int, raw: Seq<u8>) -> bool {
    &&& line_starts(bytes, pos)
    &&& 0 < raw.len() <= bytes.len() - pos
    &&& raw == bytes.subrange(pos, pos + raw.len())
    &&& forall|i: int| 0 <= i < raw.len() - 1 ==> #[trigger] raw[i] != 10
    &&& raw.last() == 10 || pos + raw.len() == bytes.len()
}

/// The lines in `raw` start where `starts` says, which are all line starts from `from` up to `to`, in
/// order.
pub open spec fn lines_within(
    bytes: Seq<u8>,
    from: int,
    to: int,
    starts: Seq<int>,
    raw: Seq<Seq<u8>>,
) -> bool {
    &&& starts.len() == raw.len()
    &&& forall|i: int| 0 <= i < raw.len() ==> line_at(bytes, #[trigger] starts[i], raw[i])
    &&& forall|i: int| 0 <= i < raw.len() ==> from <= #[trigger] starts[i] < to
    &&& forall|i: int, j: int| 0 <= i < j < raw.len() ==> #[trigger] starts[i] < #[trigger] starts[j]
    &&& forall|pos: int| from <= pos < to && line_starts(bytes, pos) ==> #[trigger] starts.contains(
        pos,
    )
}

proof fn lemma_lines_from_within(bytes: Seq<u8>, pos: int, end: int) -> (starts: Seq<int>)
    requires
        line_starts(bytes, pos) || pos == bytes.len(),
    ensures
        lines_within(bytes, pos, end, starts, lines_from(bytes, pos, end)),
    decreases bytes.len() - pos,
{
    let raw = lines_from(bytes, pos, end);
    if pos >= end || pos >= bytes.len() {
        let starts = Seq::<int>::empty();
        assert forall|p: int| pos <= p < end && line_starts(bytes, p) implies #[trigger] starts.contains(
            p,
        ) by {}
        starts
    } else {
        lemma_line_end(bytes, pos);
        let q = line_end(bytes, pos);
        let more = lemma_lines_from_within(bytes, q, end);
        let rest = lines_from(bytes, q, end);
        let line = bytes.subrange(pos, q);
        let starts = seq![pos] + more;
        assert(raw =~= seq![line] + rest);
        assert(line_at(bytes, pos, line));
        assert forall|i: int| 0 <= i < raw.len() implies line_at(
            bytes,
            #[trigger] starts[i],
            raw[i],
        ) && pos <= starts[i] < end by {
            if i > 0 {
                assert(starts[i] == more[i - 1]);
                assert(raw[i] == rest[i - 1]);
            }
        }
        assert forall|i: int, j: int| 0 <= i < j < raw.len() implies #[trigger] starts[i]
            < #[trigger] starts[j] by {
            assert(starts[j] == more[j - 1]);
            if i > 0 {
                assert(starts[i] == more[i - 1]);
            }
        }
        assert forall|p: int| pos <= p < end && line_starts(bytes, p) implies #[trigger] starts.contains(
            p,
        ) by {
            if p == pos {
                assert(starts[0] == p);
            } else if p < q {
                assert(bytes[p - 1] != NEWLINE);
            } else {
                assert(more.contains(p));
                let i = choose|i: int| 0 <= i < more.len() && more[i] == p;
                assert(starts[i + 1] == p);
            }
        }
        starts
    }
}

/// A byte range holds exactly the lines that start in it, each whole and in order, and no other.
pub proof fn lemma_range_lines(bytes: Seq<u8>, start: int, end: int) -> (starts: Seq<int>)
    requires
        0 <= start <= bytes.len(),
    ensures
        lines_within(bytes, start, end, starts, range_lines(bytes, start, end)),
{
    if start >= end {
        let starts = Seq::<int>::empty();
        assert forall|p: int| start <= p < end && line_starts(bytes, p) implies #[trigger] starts.contains(
            p,
        ) by {}
        starts
    } else {
        let f = first_line(bytes, start);
        if start > 0 && bytes[start - 1] != NEWLINE && start < bytes.len() {
            lemma_line_end(bytes, start);
        }
        let starts = lemma_lines_from_within(bytes, f, end);
        let raw = range_lines(bytes, start, end);
        assert forall|p: int| start <= p < end && line_starts(bytes, p) implies #[trigger] starts.contains(
            p,
        ) by {
            if p < f {
                if p > start {
                    assert(bytes[p - 1] != NEWLINE);
                }
            }
        }
        starts
    }
}

// ---- reading

/// Reads the lines of one byte range of a file: decides what to read next and what to make of it.
#[derive(Debug)]
pub struct FileLines {
    end: u64,
    done: bool,
}

impl FileLines {
    pub closed spec fn end(&self) -> u64 {
        self.end
    }

    pub closed spec fn done(&self) -> bool {
        self.done
    }

    /// Where to start reading: one byte early, to see whether a line ends before the range.
    pub fn seek_to(start: u64) -> (pos: u64)
        ensures
            pos == if start > 0 {
                start - 1
            } else {
                0
            },
    {
        if start > 0 {
            start - 1
        } else {
            0
        }
    }

    /// Starts on a range, given the byte before it if there is one. Also says whether the rest of
    /// a line that started before the range has to be skipped.
    pub fn open(start: u64, end: u64, prev: Option<u8>) -> (r: (Self, bool))
        ensures
            r.0.end() == end,
            r.0.done() == (start >= end),
            r.1 == (prev is Some && prev->0 != NEWLINE),
    {
        let skip = match prev {
            Some(b) => b != NEWLINE,
            None => false,
        };
        (FileLines { end, done: start >= end }, skip)
    }

    /// Whether to read another line, where `pos` is the position in the file, if it is known.
    pub fn wants_line(&mut self, pos: Option<u64>) -> (b: bool)
        ensures
            b == (!old(self).done() && pos is Some && pos->0 < old(self).end()),
            final(self).end() == old(self).end(),
            final(self).done() == !b,
    {
        if self.done {
            return false;
        }
        match pos {
            Some(p) => {
                if p >= self.end {
                    self.done = true;
                    return false;
                }
                true
            },
            None => {
                self.done = true;
                false
            },
        }
    }

    /// The line that was read; nothing is left where nothing was read. A line must be valid UTF-8.
    pub fn take_line(&mut self, raw: Vec<u8>) -> (r: Result<Option<String>, Error>)
        ensures
            final(self).end() == old(self).end(),
            match r {
                Ok(None) => raw@.len() == 0 && final(self).done(),
                Ok(Some(s)) => raw@.len() > 0 && is_line(raw@, s@) && final(self).done() == old(
                    self,
                ).done() && {
                    let text = decode_utf8(raw@);
                    text == s@ || text == s@ + seq!['\n'] || text == s@ + seq!['\r', '\n']
                },
                Err(e) => {
                    &&& raw@.len() > 0
                    &&& !valid_utf8(raw@)
                    &&& final(self).done() == old(self).done()
                    &&& e matches Error::Panic { message }
                    &&& message@ == "read_text_file: stream did not contain valid UTF-8"@
                },
            },
    {
        if raw.len() == 0 {
            self.done = true;
            return Ok(None);
        }
        match utf8_text(raw) {
            Some(line) => Ok(Some(strip_newline(line))),
            None => Err(
                Error::Panic {
                    message: "read_text_file: stream did not contain valid UTF-8".to_string(),
                },
            ),
        }
    }
}

fn strip_newline(line: String) -> (s: String)
    ensures
        s@ == without_newline(line@),
        line@ == s@ || line@ == s@ + seq!['\n'] || line@ == s@ + seq!['\r', '\n'],
{
    proof {
        lemma_line_text(line@);
    }
    let v = to_chars(line.as_str());
    let n = v.len();
    if n > 0 && v[n - 1] == '\n' {
        if n > 1 && v[n - 2] == '\r' {
            let s = string_of(&v, 0, n - 2);
            assert(s@ =~= without_newline(line@));
            s
        } else {
            let s = string_of(&v, 0, n - 1);
            assert(s@ =~= without_newline(line@));
            s
        }
    } else {
        line
    }
}

/// Where the line that goes through `pos` ends.
fn find_line_end(bytes: &Vec<u8>, pos: usize) -> (end: usize)
    requires
        pos <= bytes@.len(),
    ensures
        end == line_end(bytes@, pos as int),
        pos <= end <= bytes@.len(),
{
    let mut i = pos;
    while i < bytes.len()
        invariant
            pos <= i <= bytes@.len(),
            line_end(bytes@, i as int) == line_end(bytes@, pos as int),
        decreases bytes@.len() - i,
    {
        if bytes[i] == NEWLINE {
            return i + 1;
        }
        i = i + 1;
    }
    i
}

fn copy_range(bytes: &Vec<u8>, from: usize, to: usize) -> (v: Vec<u8>)
    requires
        from <= to <= bytes@.len(),
    ensures
        v@ == bytes@.subrange(from as int, to as int),
{
    let mut v: Vec<u8> = Vec::new();
    let mut i = from;
    assert(bytes@.subrange(from as int, from as int) =~= Seq::<u8>::empty());
    while i < to
        invariant
            from <= i <= to <= bytes@.len(),
            v@ == bytes@.subrange(from as int, i as int),
        decreases to - i,
    {
        v.push(bytes[i]);
        assert(bytes@.subrange(from as int, i + 1) =~= bytes@.subrange(from as int, i as int).push(
            bytes@[i as int],
        ));
        i = i + 1;
    }
    v
}

/// Opening a range fails: the byte before it is missing.
pub open spec fn range_missing(bytes: Seq<u8>, start: u64) -> bool {
    start > bytes.len()
}

/// `line` is the text of a line with these bytes.
pub open spec fn is_line(raw: Seq<u8>, line: Seq<char>) -> bool {
    valid_utf8(raw) && line == without_newline(decode_utf8(raw))
}

/// `lines` holds the text of each of the lines with these bytes.
pub open spec fn decoded(raw: Seq<Seq<u8>>, lines: Seq<String>) -> bool {
    &&& lines.len() == raw.len()
    &&& forall|i: int| 0 <= i < raw.len() ==> is_line(raw[i], (#[trigger] lines[i])@)
}

/// `lines` holds the text of the first of the lines with these bytes.
pub open spec fn decodes_some(raw: Seq<Seq<u8>>, lines: Seq<String>) -> bool {
    lines.len() <= raw.len() && decoded(raw.take(lines.len() as int), lines)
}

/// Some of the lines with these bytes is not valid UTF-8.
pub open spec fn unreadable(raw: Seq<Seq<u8>>) -> bool {
    exists|i: int| 0 <= i < raw.len() && !valid_utf8(#[trigger] raw[i])
}

/// What is left of a range: the lines from `pos` on, unless the end was seen.
pub open spec fn range_left(
    bytes: Seq<u8>,
    pos: int,
    reader: FileLines,
    raw: Seq<Seq<u8>>,
    got: nat,
) -> bool {
    &&& 0 <= pos <= bytes.len()
    &&& got <= raw.len()
    &&& if reader.done() {
        got == raw.len()
    } else {
        raw.skip(got as int) == lines_from(bytes, pos, reader.end() as int)
    }
}

/// Starts on a byte range of a file with these contents: where its first line starts, unless the
/// byte before it is missing. Bytes of a line that started before the range are passed over,
/// whatever they are.
fn open_range(bytes: &Vec<u8>, start: u64, end: u64) -> (r: Result<(usize, FileLines), Error>)
    ensures
        match r {
            Ok((pos, reader)) => !range_missing(bytes@, start) && range_left(
                bytes@,
                pos as int,
                reader,
                range_lines(bytes@, start as int, end as int),
                0,
            ),
            Err(e) => range_missing(bytes@, start) && (e matches Error::Io(t) && t@
                == "failed to fill whole buffer"@),
        },
{
    let len = bytes.len();
    if start > len as u64 {
        return Err(Error::Io("failed to fill whole buffer".to_string()));
    }
    let from = start as usize;
    let prev: Option<u8> = if start > 0 {
        Some(bytes[from - 1])
    } else {
        None
    };
    let (reader, skip) = FileLines::open(start, end, prev);
    let mut pos = from;
    if skip {
        pos = find_line_end(bytes, from);
    }
    proof {
        assert(pos == first_line(bytes@, start as int));
        let raw = range_lines(bytes@, start as int, end as int);
        assert(raw.skip(0) =~= raw);
    }
    Ok((pos, reader))
}

/// Reads the next line of a range, of which `got` were read before, and says where it ends.
fn next_line(
    bytes: &Vec<u8>,
    pos: usize,
    reader: &mut FileLines,
    Ghost(raw): Ghost<Seq<Seq<u8>>>,
    Ghost(got): Ghost<nat>,
) -> (r: Result<Option<(String, usize)>, Error>)
    requires
        range_left(bytes@, pos as int, *old(reader), raw, got),
    ensures
        match r {
            Ok(Some((s, next))) => {
                &&& got < raw.len()
                &&& is_line(raw[got as int], s@)
                &&& pos < next
                &&& range_left(bytes@, next as int, *final(reader), raw, got + 1)
            },
            Ok(None) => got == raw.len(),
            Err(e) => unreadable(raw) && bad_text(e),
        },
{
    if !reader.wants_line(Some(pos as u64)) {
        assert(raw.skip(got as int).len() == raw.len() - got);
        return Ok(None);
    }
    let next = find_line_end(bytes, pos);
    let line = copy_range(bytes, pos, next);
    let ghost rest = lines_from(bytes@, pos as int, reader.end() as int);
    proof {
        assert(raw.skip(got as int) == rest);
        if pos < bytes@.len() {
            lemma_line_end(bytes@, pos as int);
            assert(rest[0] == line@);
            assert(raw[got as int] == rest[0]);
            let after = lines_from(bytes@, next as int, reader.end() as int);
            assert(raw.skip(got as int + 1) =~= rest.skip(1));
            assert(rest.skip(1) =~= after);
        } else {
            assert(rest.len() == 0);
        }
    }
    match reader.take_line(line) {
        Ok(Some(s)) => Ok(Some((s, next))),
        Ok(None) => Ok(None),
        Err(e) => Err(e),
    }
}

/// The lines of a byte range of a file with these contents.
pub fn read_range(bytes: &Vec<u8>, start: u64, end: u64) -> (r: Result<Vec<String>, Error>)
    ensures
        match r {
            Ok(lines) => {
                let raw = range_lines(bytes@, start as int, end as int);
                &&& !range_missing(bytes@, start)
                &&& decoded(raw, lines@)
            },
            Err(Error::Io(t)) => range_missing(bytes@, start) && t@
                == "failed to fill whole buffer"@,
            Err(Error::Panic { message }) => {
                let raw = range_lines(bytes@, start as int, end as int);
                &&& !range_missing(bytes@, start)
                &&& message@ == "read_text_file: stream did not contain valid UTF-8"@
                &&& unreadable(raw)
            },
            Err(_) => false,
        },
{
    let (first, mut reader) = match open_range(bytes, start, end) {
        Ok(x) => x,
        Err(e) => return Err(e),
    };
    let ghost raw = range_lines(bytes@, start as int, end as int);
    let mut pos = first;
    let mut lines: Vec<String> = Vec::new();
    loop
        invariant
            raw == range_lines(bytes@, start as int, end as int),
            !range_missing(bytes@, start),
            range_left(bytes@, pos as int, reader, raw, lines@.len()),
            decodes_some(raw, lines@),
        decreases bytes@.len() - pos,
    {
        let ghost before = lines@;
        match next_line(bytes, pos, &mut reader, Ghost(raw), Ghost(lines@.len())) {
            Ok(Some((s, next))) => {
                lines.push(s);
                proof {
                    lemma_decodes_more(raw, before, s);
                }
                pos = next;
            },
            Ok(None) => {
                assert(raw.take(lines@.len() as int) =~= raw);
                return Ok(lines);
            },
            Err(e) => return Err(e),
        }
    }
}

proof fn lemma_decodes_more(raw: Seq<Seq<u8>>, lines: Seq<String>, s: String)
    requires
        decodes_some(raw, lines),
        lines.len() < raw.len(),
        is_line(raw[lines.len() as int], s@),
    ensures
        decodes_some(raw, lines.push(s)),
{
    let more = lines.push(s);
    let first = raw.take(lines.len() as int);
    let firsts = raw.take(more.len() as int);
    assert forall|i: int| 0 <= i < firsts.len() implies is_line(firsts[i], (#[trigger] more[i])@) by {
        if i < lines.len() {
            assert(more[i] == lines[i]);
            assert(is_line(first[i], lines[i]@));
        }
    }
}

proof fn lemma_decoded_concat(raw: Seq<Seq<Seq<u8>>>, parts: Seq<Seq<String>>)
    requires
        parts.len() == raw.len(),
        forall|i: int| 0 <= i < raw.len() ==> decoded(raw[i], #[trigger] parts[i]),
    ensures
        decoded(concat(raw), concat(parts)),
    decreases raw.len(),
{
    if raw.len() > 0 {
        let init = parts.drop_last();
        assert forall|i: int| 0 <= i < raw.len() - 1 implies decoded(
            raw.drop_last()[i],
            #[trigger] init[i],
        ) by {
            assert(init[i] == parts[i]);
        }
        lemma_decoded_concat(raw.drop_last(), init);
        assert(decoded(raw[raw.len() - 1], parts[parts.len() - 1]));
        let a = concat(init);
        let b = parts.last();
        let lines = concat(parts);
        let bytes = concat(raw);
        assert forall|i: int| 0 <= i < bytes.len() implies is_line(bytes[i], (
        #[trigger] lines[i])@) by {
            if i < a.len() {
                assert(lines[i] == a[i]);
            } else {
                assert(lines[i] == b[i - a.len()]);
            }
        }
    }
}

/// Reading a file range by range gives its lines: where every range was read, the lines of the
/// ranges, one range after the other, are the lines of the file, each once.
pub proof fn lemma_ranges_read(bytes: Seq<u8>, n: nat, parts: Seq<Seq<String>>)
    requires
        n > 0,
        parts.len() == n,
        forall|i: int|
            0 <= i < n ==> decoded(
                range_lines(bytes, cut_at(i, bytes.len(), n), cut_at(i + 1, bytes.len(), n)),
                #[trigger] parts[i],
            ),
    ensures
        decoded(lines_from(bytes, 0, bytes.len() as int), concat(parts)),
{
    let raw = Seq::new(
        n,
        |i: int|
            range_lines(bytes, cut_at(i, bytes.len(), n), cut_at(i + 1, bytes.len(), n)),
    );
    lemma_ranges_cover(bytes, n);
    lemma_decoded_concat(raw, parts);
}

/// The lines of range `p` of a file that is cut into `n` ranges.
pub open spec fn cut_lines(bytes: Seq<u8>, n: nat, p: int) -> Seq<Seq<u8>> {
    range_lines(bytes, cut_at(p, bytes.len(), n), cut_at(p + 1, bytes.len(), n))
}

// ---- files of valid text

/// What follows a newline in valid text is valid text.
proof fn lemma_valid_from(bytes: Seq<u8>, pos: int)
    requires
        valid_utf8(bytes),
        0 <= pos <= bytes.len(),
        pos == 0 || bytes[pos - 1] == NEWLINE,
    ensures
        valid_utf8(bytes.skip(pos)),
{
    if pos == 0 {
        assert(bytes.skip(0) =~= bytes);
    } else {
        is_char_boundary_iff_not_is_continuation_byte(bytes, pos - 1);
        valid_utf8_split(bytes, pos - 1);
        let tail = bytes.subrange(pos - 1, bytes.len() as int);
        assert(tail[0] == NEWLINE);
        assert(valid_utf8(tail));
        assert(pop_first_scalar(tail) =~= bytes.skip(pos));
    }
}

/// A line of valid text is valid text.
proof fn lemma_valid_line(bytes: Seq<u8>, pos: int)
    requires
        valid_utf8(bytes),
        0 <= pos < bytes.len(),
        pos == 0 || bytes[pos - 1] == NEWLINE,
    ensures
        valid_utf8(bytes.subrange(pos, line_end(bytes, pos))),
{
    lemma_line_end(bytes, pos);
    lemma_valid_from(bytes, pos);
    let rest = bytes.skip(pos);
    let q = line_end(bytes, pos);
    if q == bytes.len() {
        assert(bytes.subrange(pos, q) =~= rest);
    } else {
        let k = q - pos - 1;
        assert(rest[k] == NEWLINE);
        is_char_boundary_iff_not_is_continuation_byte(rest, k);
        valid_utf8_split(rest, k);
        let newline = seq![NEWLINE];
        assert(valid_utf8(newline)) by {
            let tail = rest.subrange(k, rest.len() as int);
            assert(tail[0] == newline[0]);
            assert(valid_utf8(tail));
            assert(pop_first_scalar(newline) =~= Seq::<u8>::empty());
            assert(valid_utf8(Seq::<u8>::empty()));
        }
        valid_utf8_concat(rest.subrange(0, k), newline);
        assert(bytes.subrange(pos, q) =~= rest.subrange(0, k) + newline);
    }
}

/// The lines of valid text are valid text.
proof fn lemma_valid_lines(bytes: Seq<u8>, pos: int, end: int)
    requires
        valid_utf8(bytes),
        0 <= pos <= bytes.len(),
        pos == 0 || pos == bytes.len() || bytes[pos - 1] == NEWLINE,
    ensures
        !unreadable(lines_from(bytes, pos, end)),
    decreases bytes.len() - pos,
{
    if pos < end && pos < bytes.len() {
        lemma_line_end(bytes, pos);
        lemma_valid_line(bytes, pos);
        let q = line_end(bytes, pos);
        lemma_valid_lines(bytes, q, end);
        let rest = lines_from(bytes, q, end);
        let all = lines_from(bytes, pos, end);
        assert forall|i: int| 0 <= i < all.len() implies valid_utf8(#[trigger] all[i]) by {
            if i > 0 {
                assert(all[i] == rest[i - 1]);
            }
        }
    }
}

/// However a file of valid text is cut into ranges, every range can be read: a cut within a
/// character does no harm.
pub proof fn lemma_valid_text_is_readable(bytes: Seq<u8>, n: nat, p: int)
    requires
        valid_utf8(bytes),
        0 <= p < n,
    ensures
        !unreadable(cut_lines(bytes, n, p)),
{
    lemma_cuts(p, bytes.len(), n);
    let start = cut_at(p, bytes.len(), n);
    let end = cut_at(p + 1, bytes.len(), n);
    if start < end {
        if start > 0 && bytes[start - 1] != NEWLINE {
            lemma_line_end(bytes, start);
        }
        lemma_valid_lines(bytes, first_line(bytes, start), end);
    }
}

// ---- the lines of a file as a dataset

/// `e` is what reading a line fails with that is not valid UTF-8.
pub open spec fn bad_text(e: Error) -> bool {
    e matches Error::Panic { message } && message@
        == "read_text_file: stream did not contain valid UTF-8"@
}

/// `d` holds the lines of a file with these contents, cut into `n` byte ranges. A partition that
/// holds a line that is not valid UTF-8 breaks.
pub open spec fn text_data(d: &Box<dyn Dataset<String>>, contents: Seq<u8>, n: nat) -> bool {
    &&& d.parts() == n
    &&& forall|out: Map<int, Seq<String>>| #[trigger]
        d.yields(out) <==> within(out, n) && forall|p: int| #[trigger]
            out.contains_key(p) ==> decoded(cut_lines(contents, n, p), out[p])
    &&& forall|out: Map<int, Seq<String>>, p: int, items: Seq<String>| #[trigger]
        d.yields_some(out, p, items) <==> d.yields(out) && 0 <= p < n && decodes_some(
            cut_lines(contents, n, p),
            items,
        )
    &&& forall|e: Error| !#[trigger] d.jams(e)
    &&& forall|p: int, e: Error| #[trigger]
        d.breaks(p, e) <==> 0 <= p < n && unreadable(cut_lines(contents, n, p)) && bad_text(e)
}

/// Starting on a partition of `d` counts for one more opened partition of a file, and nothing else
/// does.
pub open spec fn counts_opens(d: &Box<dyn Dataset<String>>, c: Counters) -> bool {
    &&& d.charges()
    &&& forall|p: int| #[trigger] d.part_charges(p) <==> c.opened_one()
}

/// In however many byte ranges a file is read, all items of the dataset are the lines of the file,
/// each once.
pub proof fn lemma_text_data_lines(
    d: &Box<dyn Dataset<String>>,
    contents: Seq<u8>,
    n: nat,
    parts: Seq<Seq<String>>,
)
    requires
        n > 0,
        text_data(d, contents, n),
        evaluates(d, parts),
    ensures
        decoded(lines_from(contents, 0, contents.len() as int), concat(parts)),
{
    let out = part_map(parts);
    assert forall|i: int| 0 <= i < n implies decoded(
        range_lines(contents, cut_at(i, contents.len(), n), cut_at(i + 1, contents.len(), n)),
        #[trigger] parts[i],
    ) by {
        assert(out.contains_key(i));
        assert(decoded(cut_lines(contents, n, i), out[i]));
    }
    lemma_ranges_read(contents, n, parts);
}

/// Nothing of a file is lost: the lines that are read, each with its ending behind it, which is a
/// newline, a carriage return and a newline, or at the end of the file nothing, are the file.
pub proof fn lemma_file_is_its_lines(
    d: &Box<dyn Dataset<String>>,
    contents: Seq<u8>,
    n: nat,
    parts: Seq<Seq<String>>,
) -> (endings: Seq<Seq<char>>)
    requires
        n > 0,
        text_data(d, contents, n),
        evaluates(d, parts),
    ensures
        ({
            let lines = parts.flatten();
            &&& endings.len() == lines.len()
            &&& forall|i: int|
                0 <= i < endings.len() ==> {
                    ||| #[trigger] endings[i] == seq!['\n']
                    ||| endings[i] == seq!['\r', '\n']
                    ||| i == endings.len() - 1 && endings[i] == Seq::<char>::empty()
                }
            &&& contents == Seq::new(
                lines.len(),
                |i: int| encode_utf8(lines[i]@ + endings[i]),
            ).flatten()
        }),
{
    lemma_text_data_lines(d, contents, n, parts);
    crate::seqs::lemma_concat_flattens(parts);
    let lines = parts.flatten();
    let raw = lines_from(contents, 0, contents.len() as int);
    lemma_lines_are_the_file(contents, 0);
    assert(contents.skip(0) =~= contents);
    let endings = Seq::new(
        lines.len(),
        |i: int| decode_utf8(raw[i]).skip(lines[i]@.len() as int),
    );
    let pieces = Seq::new(lines.len(), |i: int| encode_utf8(lines[i]@ + endings[i]));
    let starts = if contents.len() > 0 {
        lemma_lines_from_within(contents, 0, contents.len() as int)
    } else {
        lemma_lines_from_within(contents, 0, 0)
    };
    assert forall|i: int| 0 <= i < raw.len() implies raw[i] == pieces[i] && ({
        ||| endings[i] == seq!['\n']
        ||| endings[i] == seq!['\r', '\n']
        ||| i == endings.len() - 1 && endings[i] == Seq::<char>::empty()
    }) by {
        let text = decode_utf8(raw[i]);
        let s = lines[i]@;
        assert(is_line(raw[i], s));
        lemma_line_text(text);
        assert(text =~= s + endings[i]);
        decode_utf8_encode_utf8(raw[i]);
        if text == s + seq!['\n'] {
            assert(endings[i] =~= seq!['\n']);
        } else if text == s + seq!['\r', '\n'] {
            assert(endings[i] =~= seq!['\r', '\n']);
        } else {
            assert(endings[i] =~= Seq::<char>::empty());
            assert(line_at(contents, starts[i], raw[i]));
            if i < raw.len() - 1 {
                assert(line_at(contents, starts[i + 1], raw[i + 1]));
                let k = starts[i + 1] - 1 - starts[i];
                if k < raw[i].len() - 1 {
                    assert(raw[i][k] == contents[starts[i] + k]);
                }
                assert(raw[i].last() == 10);
                lemma_ends_in_newline(raw[i]);
            }
        }
    }
    assert(raw =~= pieces);
    crate::seqs::lemma_concat_flattens(raw);
    endings
}

/// Valid text that ends in the byte of a newline ends in a newline.
proof fn lemma_ends_in_newline(raw: Seq<u8>)
    requires
        valid_utf8(raw),
        raw.len() > 0,
        raw.last() == 10,
    ensures
        decode_utf8(raw).len() > 0,
        decode_utf8(raw).last() == '\n',
{
    let k = raw.len() - 1;
    is_char_boundary_iff_not_is_continuation_byte(raw, k);
    decode_utf8_split(raw, k);
    let tail = raw.subrange(k, raw.len() as int);
    assert(tail =~= seq![10u8]);
    valid_utf8_split(raw, k);
    assert((10u8 & 0x7f) as u32 == 10) by (bit_vector);
    assert(pop_first_scalar(tail) =~= Seq::<u8>::empty());
    assert(valid_utf8(tail));
    assert(decode_first_scalar(tail) == 10);
    assert(decode_utf8(Seq::<u8>::empty()) =~= Seq::<char>::empty());
    assert(decode_utf8(tail) =~= seq!['\n']);
}

/// Reading a file of valid text never fails, in however many byte ranges it is read.
pub proof fn lemma_valid_text_never_fails(
    d: &Box<dyn Dataset<String>>,
    contents: Seq<u8>,
    n: nat,
)
    requires
        text_data(d, contents, n),
        valid_utf8(contents),
    ensures
        never_fails(d),
{
    assert forall|p: int, e: Error| !#[trigger] d.breaks(p, e) by {
        if 0 <= p < n {
            lemma_valid_text_is_readable(contents, n, p);
        }
    }
}

struct TextData {
    contents: Arc<Vec<u8>>,
    splits: Arc<Vec<(u64, u64)>>,
    counters: Arc<Counters>,
}

impl TextData {
    spec fn cut(&self) -> bool {
        let n = self.splits@.len();
        &&& n > 0
        &&& forall|p: int|
            #![trigger self.splits@[p]]
            0 <= p < n ==> self.splits@[p].0 == cut_at(p, self.contents@.len(), n)
                && self.splits@[p].1 == cut_at(p + 1, self.contents@.len(), n)
    }

    /// The lines of range `p`.
    spec fn lines(&self, p: int) -> Seq<Seq<u8>> {
        cut_lines(self.contents@, self.splits@.len(), p)
    }

    /// Starts on one range, which counts as opened.
    fn start(&self, p: usize) -> (part: TextPart)
        requires
            self.cut(),
            p < self.splits@.len(),
        ensures
            self.counters.opened_one(),
            part.ready(),
            part.had() == Seq::<String>::empty(),
            part.may() == may_decode(self.lines(p as int)),
            part.breaks() == may_break(self.lines(p as int)),
    {
        self.counters.file_opened();
        let (start, end) = self.splits[p];
        proof {
            let n = self.splits@.len();
            lemma_cuts(p as int, self.contents@.len(), n);
            assert(self.splits@[p as int] == (start, end));
            assert(!range_missing(self.contents@, start));
            assert(self.lines(p as int) == range_lines(self.contents@, start as int, end as int));
        }
        let ghost raw = self.lines(p as int);
        assert(raw.take(0) =~= Seq::<Seq<u8>>::empty());
        match open_range(&self.contents, start, end) {
            Ok((pos, reader)) => TextPart {
                contents: self.contents.clone(),
                pos,
                reader,
                raw: Ghost(raw),
                had: Ghost(Seq::empty()),
            },
            Err(_) => vstd::pervasive::unreached(),
        }
    }

    /// Reads one range, which counts as opened.
    fn read(&self, p: usize) -> (r: Result<Vec<String>, Error>)
        requires
            self.cut(),
            p < self.splits@.len(),
        ensures
            self.counters.opened_one(),
            ({
                let raw = cut_lines(self.contents@, self.splits@.len(), p as int);
                match r {
                    Ok(lines) => decoded(raw, lines@),
                    Err(e) => unreadable(raw) && bad_text(e),
                }
            }),
    {
        self.counters.file_opened();
        let (start, end) = self.splits[p];
        proof {
            let n = self.splits@.len();
            lemma_cuts(p as int, self.contents@.len(), n);
            assert(self.splits@[p as int] == (start, end));
            assert(!range_missing(self.contents@, start));
            assert(cut_lines(self.contents@, n, p as int) == range_lines(
                self.contents@,
                start as int,
                end as int,
            ));
        }
        read_range(&self.contents, start, end)
    }
}

/// A byte range of a file that is read line by line.
struct TextPart {
    contents: Arc<Vec<u8>>,
    pos: usize,
    reader: FileLines,
    raw: Ghost<Seq<Seq<u8>>>,
    had: Ghost<Seq<String>>,
}

/// The first lines of a range, or all.
spec fn may_decode(raw: Seq<Seq<u8>>) -> spec_fn(Seq<String>, bool) -> bool {
    |lines: Seq<String>, all: bool| decodes_some(raw, lines) && (all ==> decoded(raw, lines))
}

/// What reading a line of a range fails with.
spec fn may_break(raw: Seq<Seq<u8>>) -> spec_fn(Error) -> bool {
    |e: Error| unreadable(raw) && bad_text(e)
}

impl Part<String> for TextPart {
    closed spec fn ready(&self) -> bool {
        range_left(
            self.contents@,
            self.pos as int,
            self.reader,
            self.raw@,
            self.had@.len(),
        ) && decodes_some(self.raw@, self.had@)
    }

    closed spec fn had(&self) -> Seq<String> {
        self.had@
    }

    closed spec fn may(&self) -> spec_fn(Seq<String>, bool) -> bool {
        may_decode(self.raw@)
    }

    closed spec fn breaks(&self) -> spec_fn(Error) -> bool {
        may_break(self.raw@)
    }

    closed spec fn left(&self) -> nat {
        if self.pos <= self.contents@.len() {
            (self.contents@.len() - self.pos) as nat
        } else {
            0
        }
    }

    fn next(&mut self, need: Option<usize>, cancel: Option<&AtomicBool>) -> (r: Result<
        Option<Vec<String>>,
        Error,
    >) {
        let ghost before = self.had@;
        let ghost raw = self.raw@;
        match next_line(
            &self.contents,
            self.pos,
            &mut self.reader,
            Ghost(raw),
            Ghost(before.len()),
        ) {
            Ok(Some((s, next))) => {
                proof {
                    lemma_decodes_more(raw, before, s);
                }
                let mut v: Vec<String> = Vec::new();
                v.push(s);
                self.had = Ghost(before.push(s));
                self.pos = next;
                assert(before + v@ =~= before.push(s));
                Ok(Some(v))
            },
            Ok(None) => {
                assert(raw.take(before.len() as int) =~= raw);
                Ok(None)
            },
            Err(e) => Err(e),
        }
    }
}

impl Evaluation<String> for TextData {
    closed spec fn wf(&self) -> bool {
        self.cut()
    }

    closed spec fn parts(&self) -> nat {
        self.splits@.len()
    }

    closed spec fn gives(&self, p: int, items: Seq<String>) -> bool {
        decoded(cut_lines(self.contents@, self.splits@.len(), p), items)
    }

    closed spec fn breaks(&self, p: int, e: Error) -> bool {
        0 <= p < self.splits@.len() && unreadable(
            cut_lines(self.contents@, self.splits@.len(), p),
        ) && bad_text(e)
    }

    closed spec fn begins(&self, p: int, items: Seq<String>) -> bool {
        decodes_some(cut_lines(self.contents@, self.splits@.len(), p), items)
    }

    closed spec fn charges(&self, p: int) -> bool {
        self.counters.opened_one()
    }

    fn part(&self, p: usize, cancel: Option<&AtomicBool>) -> (r: Result<
        Own<Box<dyn Part<String>>>,
        Error,
    >) {
        let part = self.start(p);
        let boxed: Box<dyn Part<String>> = Box::new(part);
        let q = own(boxed);
        Ok(q)
    }

    fn compute(&self, p: usize, cancel: Option<&AtomicBool>) -> (r: Result<Vec<String>, Error>) {
        self.read(p)
    }
}

impl Dataset<String> for TextData {
    closed spec fn wf(&self) -> bool {
        self.cut()
    }

    closed spec fn parts(&self) -> nat {
        self.splits@.len()
    }

    closed spec fn yields(&self, out: Map<int, Seq<String>>) -> bool {
        within(out, self.splits@.len()) && forall|p: int| #[trigger]
            out.contains_key(p) ==> decoded(
                cut_lines(self.contents@, self.splits@.len(), p),
                out[p],
            )
    }

    closed spec fn yields_some(
        &self,
        out: Map<int, Seq<String>>,
        p: int,
        items: Seq<String>,
    ) -> bool {
        <Self as Dataset<String>>::yields(self, out) && 0 <= p < self.splits@.len()
            && decodes_some(cut_lines(self.contents@, self.splits@.len(), p), items)
    }

    closed spec fn jams(&self, e: Error) -> bool {
        false
    }

    closed spec fn charges(&self) -> bool {
        true
    }

    closed spec fn part_charges(&self, p: int) -> bool {
        self.counters.opened_one()
    }

    closed spec fn breaks(&self, p: int, e: Error) -> bool {
        0 <= p < self.splits@.len() && unreadable(
            cut_lines(self.contents@, self.splits@.len(), p),
        ) && bad_text(e)
    }

    fn open(&self, cancel: Option<&AtomicBool>) -> (r: Result<
        Arc<Box<dyn Evaluation<String>>>,
        Error,
    >) {
        let e = TextData {
            contents: self.contents.clone(),
            splits: self.splits.clone(),
            counters: self.counters.clone(),
        };
        let boxed: Box<dyn Evaluation<String>> = Box::new(e);
        let shared = Arc::new(boxed);
        Ok(shared)
    }
}

/// The dataset of the lines of a file with these contents, in `n_partitions` byte ranges. A range is
/// read, and counted as opened, when its partition is computed.
pub fn text_lines(contents: Vec<u8>, n_partitions: usize, counters: Arc<Counters>) -> (r: Result<
    Arc<Box<dyn Dataset<String>>>,
    Error,
>)
    ensures
        match r {
            Ok(d) => n_partitions > 0 && d.wf() && text_data(&*d, contents@, n_partitions as nat)
                && counts_opens(&*d, *counters),
            Err(e) => n_partitions == 0 && e == Error::InvalidParallelism(0),
        },
{
    let splits = match byte_splits(contents.len() as u64, n_partitions) {
        Ok(s) => s,
        Err(e) => return Err(e),
    };
    let data = TextData { contents: Arc::new(contents), splits: Arc::new(splits), counters };
    let boxed: Box<dyn Dataset<String>> = Box::new(data);
    let shared = Arc::new(boxed);
    Ok(shared)
}

/// A partition of a file holds the lines that start between its two cuts, each whole, and no other;
/// the cuts stand where the shares of the partitions before them end, rounded down.
pub proof fn lemma_cut_lines(bytes: Seq<u8>, n: nat, p: int) -> (starts: Seq<int>)
    requires
        0 <= p < n,
    ensures
        lines_within(
            bytes,
            p * bytes.len() / n as int,
            (p + 1) * bytes.len() / n as int,
            starts,
            cut_lines(bytes, n, p),
        ),
{
    lemma_cuts(p, bytes.len(), n);
    lemma_range_lines(bytes, cut_at(p, bytes.len(), n), cut_at(p + 1, bytes.len(), n))
}

/// A partition of a file breaks exactly if it holds a line that is not valid UTF-8, with a panic that
/// says so.
pub proof fn lemma_text_breaks(
    d: &Box<dyn Dataset<String>>,
    contents: Seq<u8>,
    n: nat,
    p: int,
    e: Error,
)
    requires
        text_data(d, contents, n),
        0 <= p < n,
    ensures
        d.breaks(p, e) ==> (e matches Error::Panic { message } && message@
            == "read_text_file: stream did not contain valid UTF-8"@),
        d.breaks(p, e) ==> exists|i: int|
            0 <= i < cut_lines(contents, n, p).len() && !valid_utf8(
                #[trigger] cut_lines(contents, n, p)[i],
            ),
        !d.jams(e),
{
}

/// A range cannot be opened if the file ends before it; it can be where it starts at the end.
pub proof fn lemma_range_missing(bytes: Seq<u8>, start: u64)
    ensures
        start <= bytes.len() ==> !range_missing(bytes, start),
        start > bytes.len() ==> range_missing(bytes, start),
{
}

/// Each partition of a file that is started on counts as opened once.
pub proof fn lemma_counts_opens(d: &Box<dyn Dataset<String>>, c: Counters, p: int)
    requires
        counts_opens(d, c),
    ensures
        d.part_charges(p) <==> c.opened_one(),
        d.charges(),
{
}

/// While a range is read, what was not read yet are the lines from the position on; at the end every
/// line was read.
pub proof fn lemma_range_left(
    bytes: Seq<u8>,
    pos: int,
    reader: FileLines,
    raw: Seq<Seq<u8>>,
    got: nat,
)
    requires
        range_left(bytes, pos, reader, raw, got),
    ensures
        0 <= pos <= bytes.len(),
        got <= raw.len(),
        reader.done() ==> got == raw.len(),
        !reader.done() ==> raw == raw.take(got as int) + lines_from(
            bytes,
            pos,
            reader.end() as int,
        ),
{
    if !reader.done() {
        assert(raw =~= raw.take(got as int) + raw.skip(got as int));
    }
}

} // verus!
