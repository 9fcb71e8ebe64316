//! From the lines of a file to batches of lines with their offsets.

use vstd::prelude::*;
use vstd::slice::slice_subrange;
use vstd::string::*;
use vstd::utf8::{
    decode_utf8, encode_utf8, encode_utf8_decode_utf8, encode_utf8_valid_utf8, valid_utf8,
};

use crate::aggregator::messages::LoaderMsg;
use crate::aggregator::resume::FileResumePlan;
use crate::compression::CompressionType;
use crate::fingerprint::{decode, decoded};
use crate::text::{lemma_until, scan_until, until, utf8_str, NEWLINE};

verus! {

/// How many lines are handed on at once.
pub const LOADER_BATCH_SIZE: usize = 256;

/// A file that is being read, line by line.
pub struct LineReader {
    /// Where reading started.
    pub start: u64,
    /// Bytes read since.
    pub read: u64,
    /// Decoded bytes that an earlier run has read.
    pub skip: u64,
    /// Bytes that were reported as progress.
    pub reported: u64,
    /// Lines that wait to be handed on.
    pub batch: Vec<(String, u64)>,
    /// The size of the file on disk.
    pub stat_size: u64,
    pub compressed: bool,
}

/// Lines with their offsets, by what they hold.
pub open spec fn lines_view(batch: Seq<(String, u64)>) -> Seq<(Seq<char>, u64)> {
    Seq::new(batch.len(), |i: int| (batch[i].0@, batch[i].1))
}

/// A reader by its values.
pub struct ReaderView {
    pub start: int,
    pub read: int,
    pub skip: int,
    pub reported: int,
    pub batch: Seq<(Seq<char>, u64)>,
}

/// The size of a line in bytes.
pub open spec fn line_size(line: Seq<char>) -> int {
    encode_utf8(line).len() as int
}

/// The bytes that count as progress: those after the skipped prefix.
pub open spec fn effective(v: ReaderView) -> int {
    if v.read > v.skip {
        v.read - v.skip
    } else {
        0
    }
}

/// A line is handed on if it ends after the skipped prefix.
pub open spec fn is_new(v: ReaderView, line: Seq<char>) -> bool {
    v.read >= v.skip || v.read + line_size(line) > v.skip
}

/// The lines that wait once a line was read.
pub open spec fn waiting(v: ReaderView, line: Seq<char>) -> Seq<(Seq<char>, u64)> {
    if is_new(v, line) {
        v.batch.push((line, (v.start + v.read) as u64))
    } else {
        v.batch
    }
}

/// The waiting lines are handed on after this line.
pub open spec fn sends(v: ReaderView, line: Seq<char>) -> bool {
    is_new(v, line) && waiting(v, line).len() >= LOADER_BATCH_SIZE
}

/// A reader after one more line.
pub open spec fn fed(v: ReaderView, line: Seq<char>) -> ReaderView {
    let after = ReaderView { read: v.read + line_size(line), batch: waiting(v, line), ..v };
    if sends(v, line) {
        ReaderView { reported: effective(after), batch: Seq::empty(), ..after }
    } else {
        after
    }
}

/// What is not reported as progress yet.
pub open spec fn unreported(v: ReaderView) -> int {
    if effective(v) > v.reported {
        effective(v) - v.reported
    } else {
        0
    }
}

/// What is done with a line: a batch to hand on, and bytes of progress.
pub struct LineStep {
    pub message: Option<LoaderMsg>,
    pub progress: u64,
}

/// What is done at the end of a file.
pub struct FileEnd {
    pub message: Option<LoaderMsg>,
    pub progress: u64,
    pub final_offset: u64,
    pub completed: bool,
    /// For a compressed file: its size on disk and the bytes decoded from it.
    pub decoded: Option<(u64, u64)>,
}

/// A message hands on these lines, up to this offset.
pub open spec fn hands_on(m: Option<LoaderMsg>, lines: Seq<(Seq<char>, u64)>, offset: int) -> bool {
    m matches Some(LoaderMsg::Lines { batch, current_offset }) && lines_view(batch@) == lines
        && current_offset == offset
}

/// A reader at the place where a plan starts.
pub open spec fn reader_of(plan: FileResumePlan) -> ReaderView {
    let compressed = plan.compression != CompressionType::Plain;
    ReaderView {
        start: if compressed {
            0
        } else {
            plan.offset as int
        },
        read: 0,
        skip: if compressed {
            plan.skip_decoded_prefix_bytes as int
        } else {
            0
        },
        reported: 0,
        batch: Seq::empty(),
    }
}

impl LineReader {
    pub open spec fn view(&self) -> ReaderView {
        ReaderView {
            start: self.start as int,
            read: self.read as int,
            skip: self.skip as int,
            reported: self.reported as int,
            batch: lines_view(self.batch@),
        }
    }

    /// A reader at the place where a plan starts: in a plain file at its offset, in a compressed
    /// one at the start, from which the decoded prefix is skipped.
    pub fn new(plan: &FileResumePlan) -> (r: LineReader)
        ensures
            r@ == reader_of(*plan),
            r.compressed == (plan.compression != CompressionType::Plain),
            r.stat_size == plan.stat_size,
    {
        let compressed = plan.compression.is_compressed();
        let batch: Vec<(String, u64)> = Vec::new();
        assert(lines_view(batch@) =~= Seq::empty());
        LineReader {
            start: if compressed {
                0
            } else {
                plan.offset
            },
            read: 0,
            skip: if compressed {
                plan.skip_decoded_prefix_bytes
            } else {
                0
            },
            reported: 0,
            batch,
            stat_size: plan.stat_size,
            compressed,
        }
    }

    /// Takes the next line of the file.
    pub fn feed(&mut self, line: String) -> (r: LineStep)
        requires
            old(self).start + old(self).read + line_size(line@) <= u64::MAX,
        ensures
            final(self)@ == fed(old(self)@, line@),
            final(self).stat_size == old(self).stat_size,
            final(self).compressed == old(self).compressed,
            sends(old(self)@, line@) ==> hands_on(
                r.message,
                waiting(old(self)@, line@),
                old(self).start + old(self).read + line_size(line@),
            ) && r.progress == unreported(
                ReaderView { read: old(self)@.read + line_size(line@), ..old(self)@ },
            ),
            !sends(old(self)@, line@) ==> r.message is None && r.progress == 0,
    {
        let n: u64 = line.as_str().as_bytes().len() as u64;
        let line_start: u64 = self.start + self.read;
        let read: u64 = self.read + n;
        let fresh: bool = self.read >= self.skip || read > self.skip;
        self.read = read;
        let ghost before = self.batch@;
        if !fresh {
            return LineStep { message: None, progress: 0 };
        }
        self.batch.push((line, line_start));
        assert(lines_view(self.batch@) =~= lines_view(before).push((line@, line_start)));
        if self.batch.len() < LOADER_BATCH_SIZE {
            return LineStep { message: None, progress: 0 };
        }
        let seen: u64 = if read > self.skip {
            read - self.skip
        } else {
            0
        };
        let progress: u64 = if seen > self.reported {
            seen - self.reported
        } else {
            0
        };
        self.reported = seen;
        let mut batch: Vec<(String, u64)> = Vec::new();
        std::mem::swap(&mut batch, &mut self.batch);
        assert(lines_view(self.batch@) =~= Seq::empty());
        LineStep {
            message: Some(LoaderMsg::Lines { batch, current_offset: self.start + read }),
            progress,
        }
    }

    /// Ends the file. A plain file is completed if its size was reached, a compressed one always.
    pub fn finish(self) -> (r: FileEnd)
        requires
            self.start + self.read <= u64::MAX,
        ensures
            r.final_offset == self.start + self.read,
            r.completed == (self.compressed || self.start + self.read >= self.stat_size),
            r.decoded == if self.compressed {
                Some((self.stat_size, self.read))
            } else {
                None
            },
            self@.batch.len() > 0 ==> hands_on(r.message, self@.batch, self.start + self.read)
                && r.progress == unreported(self@),
            self@.batch.len() == 0 ==> r.message is None && r.progress == 0,
    {
        let final_offset: u64 = self.start + self.read;
        let decoded: Option<(u64, u64)> = if self.compressed {
            Some((self.stat_size, self.read))
        } else {
            None
        };
        let completed: bool = self.compressed || final_offset >= self.stat_size;
        if self.batch.len() == 0 {
            return FileEnd { message: None, progress: 0, final_offset, completed, decoded };
        }
        let seen: u64 = if self.read > self.skip {
            self.read - self.skip
        } else {
            0
        };
        let progress: u64 = if seen > self.reported {
            seen - self.reported
        } else {
            0
        };
        FileEnd {
            message: Some(LoaderMsg::Lines { batch: self.batch, current_offset: final_offset }),
            progress,
            final_offset,
            completed,
            decoded,
        }
    }
}

// ── A whole file ────────────────────────────────────────────────────────────

/// The size of lines in bytes.
pub open spec fn lines_size(lines: Seq<Seq<char>>) -> int
    decreases lines.len(),
{
    if lines.len() == 0 {
        0
    } else {
        lines_size(lines.drop_last()) + line_size(lines.last())
    }
}

/// Lines with the offsets at which they start.
pub open spec fn items(lines: Seq<Seq<char>>, from: int) -> Seq<(Seq<char>, u64)>
    decreases lines.len(),
{
    if lines.len() == 0 {
        Seq::empty()
    } else {
        let rest = lines.drop_last();
        items(rest, from).push((lines.last(), (from + lines_size(rest)) as u64))
    }
}

/// Those of the lines that end after a prefix, with the offsets at which they start.
pub open spec fn items_after(lines: Seq<Seq<char>>, skip: int) -> Seq<(Seq<char>, u64)>
    decreases lines.len(),
{
    if lines.len() == 0 {
        Seq::empty()
    } else {
        let rest = lines.drop_last();
        let before = items_after(rest, skip);
        if lines_size(rest) >= skip || lines_size(lines) > skip {
            before.push((lines.last(), lines_size(rest) as u64))
        } else {
            before
        }
    }
}

/// A reader after lines.
pub open spec fn fed_all(v: ReaderView, lines: Seq<Seq<char>>) -> ReaderView
    decreases lines.len(),
{
    if lines.len() == 0 {
        v
    } else {
        fed(fed_all(v, lines.drop_last()), lines.last())
    }
}

/// What a reader has handed on after lines, in order.
pub open spec fn handed_on(v: ReaderView, lines: Seq<Seq<char>>) -> Seq<(Seq<char>, u64)>
    decreases lines.len(),
{
    if lines.len() == 0 {
        Seq::empty()
    } else {
        let rest = lines.drop_last();
        let before = fed_all(v, rest);
        if sends(before, lines.last()) {
            handed_on(v, rest) + waiting(before, lines.last())
        } else {
            handed_on(v, rest)
        }
    }
}

/// The progress that was reported after lines.
pub open spec fn progress_after(v: ReaderView, lines: Seq<Seq<char>>) -> int
    decreases lines.len(),
{
    if lines.len() == 0 {
        0
    } else {
        let rest = lines.drop_last();
        let before = fed_all(v, rest);
        progress_after(v, rest) + if sends(before, lines.last()) {
            unreported(ReaderView { read: before.read + line_size(lines.last()), ..before })
        } else {
            0
        }
    }
}

/// Every line that is read from a plan's offset is handed on once, in order, with the offset at
/// which it starts: what was handed on and what still waits are all the lines.
pub proof fn law_plain_lines_are_handed_on(start: int, lines: Seq<Seq<char>>)
    ensures
        ({
            let v = ReaderView { start, read: 0, skip: 0, reported: 0, batch: Seq::empty() };
            &&& handed_on(v, lines) + fed_all(v, lines).batch == items(lines, start)
            &&& fed_all(v, lines).read == lines_size(lines)
        }),
    decreases lines.len(),
{
    let v = ReaderView { start, read: 0, skip: 0, reported: 0, batch: Seq::empty() };
    lemma_fed_keeps(v, lines);
    if lines.len() > 0 {
        let rest = lines.drop_last();
        law_plain_lines_are_handed_on(start, rest);
        lemma_fed_keeps(v, rest);
        let before = fed_all(v, rest);
        let item = (lines.last(), (start + lines_size(rest)) as u64);
        assert(waiting(before, lines.last()) == before.batch.push(item));
        assert(handed_on(v, lines) + fed_all(v, lines).batch =~= (handed_on(v, rest)
            + before.batch).push(item));
    }
    assert(handed_on(v, lines) + fed_all(v, lines).batch =~= items(lines, start));
}

/// Of a compressed file the lines that end after the skipped prefix are handed on, each once, in
/// order, with the decoded offset at which it starts.
pub proof fn law_decoded_lines_are_handed_on(skip: int, lines: Seq<Seq<char>>)
    ensures
        ({
            let v = ReaderView { start: 0, read: 0, skip, reported: 0, batch: Seq::empty() };
            &&& handed_on(v, lines) + fed_all(v, lines).batch == items_after(lines, skip)
            &&& fed_all(v, lines).read == lines_size(lines)
        }),
    decreases lines.len(),
{
    let v = ReaderView { start: 0, read: 0, skip, reported: 0, batch: Seq::empty() };
    lemma_fed_keeps(v, lines);
    if lines.len() > 0 {
        let rest = lines.drop_last();
        law_decoded_lines_are_handed_on(skip, rest);
        lemma_fed_keeps(v, rest);
        let before = fed_all(v, rest);
        let item = (lines.last(), lines_size(rest) as u64);
        if is_new(before, lines.last()) {
            assert(waiting(before, lines.last()) == before.batch.push(item));
            assert(handed_on(v, lines) + fed_all(v, lines).batch =~= (handed_on(v, rest)
                + before.batch).push(item));
        }
    }
    assert(handed_on(v, lines) + fed_all(v, lines).batch =~= items_after(lines, skip));
}

/// Reading lines moves a reader on by their bytes, and changes nothing of where it began.
pub proof fn lemma_fed_keeps(v: ReaderView, lines: Seq<Seq<char>>)
    ensures
        fed_all(v, lines).start == v.start,
        fed_all(v, lines).skip == v.skip,
        fed_all(v, lines).read == v.read + lines_size(lines),
        lines_size(lines) >= 0,
    decreases lines.len(),
{
    if lines.len() > 0 {
        lemma_fed_keeps(v, lines.drop_last());
    }
}

/// No line has no bytes.
pub open spec fn all_have_bytes(lines: Seq<Seq<char>>) -> bool {
    forall|i: int| 0 <= i < lines.len() ==> line_size(#[trigger] lines[i]) > 0
}

/// Reading on gives what was not read before. Where `done` was read and `rest` follows, a full read
/// gives the lines of both; a read from the offset after `done`, and a read that skips as many
/// decoded bytes, give the lines of `rest` alone, at the same offsets.
pub proof fn law_resume_reads_the_rest(done: Seq<Seq<char>>, rest: Seq<Seq<char>>)
    requires
        all_have_bytes(done),
        all_have_bytes(rest),
    ensures
        items(done + rest, 0) == items(done, 0) + items(rest, lines_size(done)),
        items_after(done + rest, lines_size(done)) == items(rest, lines_size(done)),
    decreases rest.len(),
{
    if rest.len() == 0 {
        assert(done + rest =~= done);
        assert(items(done, 0) + Seq::<(Seq<char>, u64)>::empty() =~= items(done, 0));
        lemma_all_skipped(done, lines_size(done));
    } else {
        let fewer = rest.drop_last();
        assert((done + rest).drop_last() =~= done + fewer);
        assert((done + rest).last() == rest.last());
        assert forall|i: int| 0 <= i < fewer.len() implies line_size(#[trigger] fewer[i]) > 0 by {
            assert(fewer[i] == rest[i]);
        }
        law_resume_reads_the_rest(done, fewer);
        lemma_sizes_add(done, fewer);
        lemma_fed_keeps(
            ReaderView { start: 0, read: 0, skip: 0, reported: 0, batch: Seq::empty() },
            fewer,
        );
        assert(line_size(rest[rest.len() - 1]) > 0);
        assert(items(done + rest, 0) =~= items(done, 0) + items(rest, lines_size(done)));
    }
}

proof fn lemma_sizes_add(a: Seq<Seq<char>>, b: Seq<Seq<char>>)
    ensures
        lines_size(a + b) == lines_size(a) + lines_size(b),
    decreases b.len(),
{
    if b.len() == 0 {
        assert(a + b =~= a);
    } else {
        assert((a + b).drop_last() =~= a + b.drop_last());
        assert((a + b).last() == b.last());
        lemma_sizes_add(a, b.drop_last());
    }
}

proof fn lemma_all_skipped(lines: Seq<Seq<char>>, skip: int)
    requires
        all_have_bytes(lines),
        lines_size(lines) <= skip,
    ensures
        items_after(lines, skip) == Seq::<(Seq<char>, u64)>::empty(),
    decreases lines.len(),
{
    if lines.len() > 0 {
        let rest = lines.drop_last();
        assert(line_size(lines[lines.len() - 1]) > 0);
        assert forall|i: int| 0 <= i < rest.len() implies line_size(#[trigger] rest[i]) > 0 by {
            assert(rest[i] == lines[i]);
        }
        lemma_all_skipped(rest, skip);
    }
}

/// Progress never counts a byte twice nor forgets one: what was reported and what is not yet
/// reported are the bytes after the skipped prefix.
pub proof fn law_progress_adds_up(v: ReaderView, lines: Seq<Seq<char>>)
    requires
        v.read == 0,
        v.reported == 0,
        v.skip >= 0,
    ensures
        progress_after(v, lines) + unreported(fed_all(v, lines)) == effective(fed_all(v, lines)),
        fed_all(v, lines).reported == progress_after(v, lines),
    decreases lines.len(),
{
    if lines.len() > 0 {
        let rest = lines.drop_last();
        law_progress_adds_up(v, rest);
        lemma_fed_keeps(v, rest);
        lemma_fed_keeps(v, lines);
    }
}

// ── From the bytes of a file ────────────────────────────────────────────────

/// The first line of a text, with its newline where it has one.
pub open spec fn first_line(text: Seq<u8>) -> Seq<u8> {
    let end = until(text, 0, NEWLINE);
    if end < text.len() {
        text.take(end + 1)
    } else {
        text
    }
}

/// The lines of a text, and whether all of it could be read: reading stops at a line that is not
/// valid UTF-8, and where an error cut the text off.
pub open spec fn lines_of(text: Seq<u8>, ended: bool) -> (Seq<Seq<char>>, bool)
    decreases text.len(),
{
    let line = first_line(text);
    if text.len() == 0 {
        (Seq::empty(), ended)
    } else if (until(text, 0, NEWLINE) >= text.len() && !ended) || !valid_utf8(line) {
        (Seq::empty(), false)
    } else {
        proof {
            lemma_until(text, 0, NEWLINE);
        }
        let rest = lines_of(text.skip(line.len() as int), ended);
        (seq![decode_utf8(line)] + rest.0, rest.1)
    }
}

/// What a plan reads of a file: of a plain file the bytes from its offset on, of a compressed one
/// all that it holds; and whether no error cut it short.
pub open spec fn planned_text(raw: Seq<u8>, plan: FileResumePlan) -> (Seq<u8>, bool) {
    if plan.compression != CompressionType::Plain {
        decoded(raw, plan.compression, u64::MAX)
    } else if plan.offset <= raw.len() {
        (raw.skip(plan.offset as int), true)
    } else {
        (Seq::empty(), true)
    }
}

/// The lines that a plan hands on, with the offsets at which they start: those of a plain file from
/// its offset on, those of a compressed one that end after the skipped prefix.
pub open spec fn planned_items(plan: FileResumePlan, lines: Seq<Seq<char>>) -> Seq<
    (Seq<char>, u64),
> {
    if plan.compression != CompressionType::Plain {
        items_after(lines, plan.skip_decoded_prefix_bytes as int)
    } else {
        items(lines, plan.offset as int)
    }
}

/// The lines that a message holds.
pub open spec fn message_lines(m: LoaderMsg) -> Seq<(Seq<char>, u64)> {
    match m {
        LoaderMsg::Lines { batch, .. } => lines_view(batch@),
        _ => Seq::empty(),
    }
}

/// The lines that messages hold, in order.
pub open spec fn all_lines(messages: Seq<LoaderMsg>) -> Seq<(Seq<char>, u64)>
    decreases messages.len(),
{
    if messages.len() == 0 {
        Seq::empty()
    } else {
        all_lines(messages.drop_last()) + message_lines(messages.last())
    }
}

/// A message of a full batch, with the offset after its last line.
pub open spec fn is_full_batch(m: LoaderMsg) -> bool {
    m matches LoaderMsg::Lines { batch, current_offset } && batch@.len() == LOADER_BATCH_SIZE
        && current_offset == batch@.last().1 + line_size(batch@.last().0@)
}

/// What is read of a file.
pub struct FileMessages {
    /// Full batches of lines.
    pub messages: Vec<LoaderMsg>,
    /// The bytes of progress that they stand for.
    pub progress: u64,
    /// The end of the file; `None` where it could not be read to its end.
    pub end: Option<FileEnd>,
}

/// `end` is the end of a file of which these lines were read.
pub open spec fn is_end(end: FileEnd, plan: FileResumePlan, lines: Seq<Seq<char>>) -> bool {
    let v = fed_all(reader_of(plan), lines);
    let compressed = plan.compression != CompressionType::Plain;
    &&& end.final_offset == v.start + v.read
    &&& end.completed == (compressed || v.start + v.read >= plan.stat_size)
    &&& end.decoded == if compressed {
        Some((plan.stat_size, v.read as u64))
    } else {
        None
    }
    &&& v.batch.len() > 0 ==> hands_on(end.message, v.batch, v.start + v.read) && end.progress
        == unreported(v)
    &&& v.batch.len() == 0 ==> end.message is None && end.progress == 0
}

/// Reads the bytes of a file as a plan says: the lines that are handed on in full batches, and the
/// end of the file with the lines that are left. Together these are all lines that the plan hands
/// on.
pub fn file_messages(raw: &[u8], plan: &FileResumePlan) -> (r: FileMessages)
    ensures
        ({
            let (text, ended) = planned_text(raw@, *plan);
            let (lines, whole) = lines_of(text, ended);
            let left = fed_all(reader_of(*plan), lines).batch;
            &&& all_lines(r.messages@) == handed_on(reader_of(*plan), lines)
            &&& all_lines(r.messages@) + left == planned_items(*plan, lines)
            &&& forall|i: int| 0 <= i < r.messages@.len() ==> is_full_batch(#[trigger] r.messages@[i])
            &&& r.progress == progress_after(reader_of(*plan), lines)
            &&& match r.end {
                Some(end) => whole && is_end(end, *plan, lines),
                None => !whole,
            }
        }),
{
    let (text, ended) = if plan.compression.is_compressed() {
        decode(raw, plan.compression, u64::MAX)
    } else {
        let mut rest: Vec<u8> = Vec::new();
        if plan.offset <= raw.len() as u64 {
            rest.extend_from_slice(slice_subrange(raw, plan.offset as usize, raw.len()));
            assert(rest@ =~= raw@.skip(plan.offset as int));
        }
        (rest, true)
    };
    assert(text@ =~= planned_text(raw@, *plan).0);
    let len: usize = text.len();
    let mut reader = LineReader::new(plan);
    let mut messages: Vec<LoaderMsg> = Vec::new();
    let mut progress: u64 = 0;
    let mut pos: usize = 0;
    let ghost v = reader_of(*plan);
    let ghost (lines, whole) = lines_of(text@, ended);
    let ghost mut done: Seq<Seq<char>> = Seq::empty();
    assert(text@.skip(0) =~= text@);
    assert(done + lines =~= lines);
    while pos < len
        invariant
            len == text@.len(),
            0 <= pos <= len,
            v == reader_of(*plan),
            (lines, whole) == lines_of(text@, ended),
            lines == done + lines_of(text@.skip(pos as int), ended).0,
            whole == lines_of(text@.skip(pos as int), ended).1,
            (text@, ended) == planned_text(raw@, *plan),
            lines_size(done) == pos,
            v.start + len <= u64::MAX || v.start + len <= v.start,
            reader@ == fed_all(v, done),
            reader@.batch.len() < LOADER_BATCH_SIZE,
            reader.stat_size == plan.stat_size,
            reader.compressed == (plan.compression != CompressionType::Plain),
            all_lines(messages@) == handed_on(v, done),
            forall|i: int| 0 <= i < messages@.len() ==> is_full_batch(#[trigger] messages@[i]),
            progress == progress_after(v, done),
        decreases len - pos,
    {
        let ghost t = text@.skip(pos as int);
        let rest = slice_subrange(text.as_slice(), pos, len);
        assert(rest@ =~= t);
        let end: usize = scan_until(rest, 0, NEWLINE);
        proof {
            lemma_until(t, 0, NEWLINE);
        }
        if end >= rest.len() && !ended {
            proof {
                assert(lines =~= done);
                lemma_planned(*plan, lines);
            }
            return FileMessages { messages, progress, end: None };
        }
        let size: usize = if end < rest.len() {
            end + 1
        } else {
            end
        };
        let line_bytes = slice_subrange(rest, 0, size);
        assert(line_bytes@ =~= first_line(t));
        let line = match utf8_str(line_bytes) {
            Some(line) => line,
            None => {
                proof {
                    assert(lines =~= done);
                    lemma_planned(*plan, lines);
                }
                return FileMessages { messages, progress, end: None };
            },
        };
        let ghost before = done;
        proof {
            encode_utf8_valid_utf8(line@);
            encode_utf8_decode_utf8(line@);
            done = before.push(line@);
            assert(done.drop_last() =~= before);
            assert(t.skip(size as int) =~= text@.skip(pos + size));
            assert(before + (seq![line@] + lines_of(text@.skip(pos + size), ended).0) =~= done
                + lines_of(text@.skip(pos + size), ended).0);
            lemma_fed_keeps(v, before);
            lemma_fed_keeps(v, done);
            law_progress_adds_up(v, before);
            law_progress_adds_up(v, done);
        }
        let ghost old_view = reader@;
        let ghost old_messages = messages@;
        let step = reader.feed(line.to_owned());
        match step.message {
            Some(m) => {
                messages.push(m);
                proof {
                    assert(messages@.drop_last() =~= old_messages);
                    assert(sends(old_view, line@));
                    assert(lines_view(m->batch@) == waiting(old_view, line@));
                    assert(lines_view(m->batch@).last() == (
                        line@,
                        (old_view.start + old_view.read) as u64,
                    ));
                    assert(is_full_batch(m));
                }
            },
            None => {},
        }
        progress = progress + step.progress;
        pos += size;
    }
    proof {
        assert(text@.skip(pos as int) =~= Seq::<u8>::empty());
        assert(done + Seq::<Seq<char>>::empty() =~= done);
        assert(lines =~= done);
        lemma_planned(*plan, lines);
        lemma_fed_keeps(v, lines);
    }
    if !ended {
        return FileMessages { messages, progress, end: None };
    }
    FileMessages { messages, progress, end: Some(reader.finish()) }
}

/// What a plan hands on and what is left are the lines that it hands on in all.
proof fn lemma_planned(plan: FileResumePlan, lines: Seq<Seq<char>>)
    ensures
        handed_on(reader_of(plan), lines) + fed_all(reader_of(plan), lines).batch == planned_items(
            plan,
            lines,
        ),
{
    if plan.compression != CompressionType::Plain {
        law_decoded_lines_are_handed_on(plan.skip_decoded_prefix_bytes as int, lines);
    } else {
        law_plain_lines_are_handed_on(plan.offset as int, lines);
    }
}

} // verus!
