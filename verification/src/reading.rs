//! What is read of a file: its lines, where they start, and how far a run got.

use vstd::prelude::*;
use vstd::string::*;
use vstd::utf8::{decode_utf8_encode_utf8, encode_utf8, valid_utf8};

use crate::aggregator::aggregation::code_of;
use crate::aggregator::resume::{
    fingerprints_of, first_time, FileContext, FileResumePlan, Fingerprints,
};
use crate::compression::{compression_of, CompressionType};
use crate::fingerprint::{decoded, head_hash, plain_fingerprint, xxh3_64, DecodeError};
use crate::geo::country_of;
use crate::ip::{ip_of, Ip};
use crate::loader::{
    first_line, is_end, items, items_after, lemma_fed_keeps, lines_of, lines_size, planned_text,
    reader_of, FileEnd, ReaderView,
};
use crate::mmdb::RecordView;
use crate::parser::combined::{entry_of, unix_time};
use crate::parser::EntryView;
use crate::text::{lemma_until, occurs_at, until, NEWLINE};

verus! {

/// The bytes of lines, one after the other.
pub open spec fn bytes_of(lines: Seq<Seq<char>>) -> Seq<u8>
    decreases lines.len(),
{
    if lines.len() == 0 {
        Seq::empty()
    } else {
        encode_utf8(lines[0]) + bytes_of(lines.drop_first())
    }
}

/// The lines of a text make up the text: nothing is left out between them and nothing is added. Each
/// of them but the last ends in a newline, and none has one before its end.
pub proof fn law_lines_make_up_the_text(text: Seq<u8>)
    requires
        lines_of(text, true).1,
    ensures
        bytes_of(lines_of(text, true).0) == text,
        forall|i: int|
            0 <= i < lines_of(text, true).0.len() ==> {
                let b = encode_utf8(#[trigger] lines_of(text, true).0[i]);
                &&& b.len() > 0
                &&& i < lines_of(text, true).0.len() - 1 ==> b.last() == '\n' as u8
                &&& forall|k: int| 0 <= k < b.len() - 1 ==> #[trigger] b[k] != '\n' as u8
            },
    decreases text.len(),
{
    let lines = lines_of(text, true).0;
    if text.len() > 0 {
        let line = first_line(text);
        lemma_until(text, 0, NEWLINE);
        decode_utf8_encode_utf8(line);
        let rest = text.skip(line.len() as int);
        law_lines_make_up_the_text(rest);
        assert(lines.drop_first() =~= lines_of(rest, true).0);
        assert(text =~= line + rest);
        assert forall|i: int| 0 <= i < lines.len() implies {
            let b = encode_utf8(#[trigger] lines[i]);
            &&& b.len() > 0
            &&& i < lines.len() - 1 ==> b.last() == '\n' as u8
            &&& forall|k: int| 0 <= k < b.len() - 1 ==> #[trigger] b[k] != '\n' as u8
        } by {
            if i == 0 {
                if lines.len() > 1 && until(text, 0, NEWLINE) >= text.len() {
                    assert(rest.len() == 0);
                }
            } else {
                assert(lines[i] == lines_of(rest, true).0[i - 1]);
            }
        }
    } else {
        assert(lines =~= Seq::empty());
    }
}

/// The lines of a file start one behind the other: the first where reading starts, and each of the
/// others as many bytes behind the one before it as that one has.
pub proof fn law_lines_follow_one_another(lines: Seq<Seq<char>>, from: int, i: int)
    requires
        0 <= from,
        from + lines_size(lines) <= u64::MAX,
        0 <= i < lines.len(),
    ensures
        items(lines, from).len() == lines.len(),
        items(lines, from)[i].0 == lines[i],
        i == 0 ==> items(lines, from)[i].1 == from,
        i > 0 ==> items(lines, from)[i].1 == items(lines, from)[i - 1].1 + encode_utf8(
            lines[i - 1],
        ).len(),
    decreases lines.len(),
{
    let rest = lines.drop_last();
    let v = ReaderView { start: 0, read: 0, skip: 0, reported: 0, batch: Seq::empty() };
    lemma_fed_keeps(v, rest);
    let n = lines.len() - 1;
    if i < n {
        law_lines_follow_one_another(rest, from, i);
        assert(lines[i] == rest[i]);
    } else if n > 0 {
        law_lines_follow_one_another(rest, from, n - 1);
        let more = rest.drop_last();
        lemma_fed_keeps(v, more);
        assert(rest.last() == lines[n - 1]);
        assert(items(rest, from).last().1 == from + lines_size(more));
    } else {
        assert(rest.len() == 0);
    }
    lemma_items_len(rest, from);
}

proof fn lemma_items_len(lines: Seq<Seq<char>>, from: int)
    ensures
        items(lines, from).len() == lines.len(),
    decreases lines.len(),
{
    if lines.len() > 0 {
        lemma_items_len(lines.drop_last(), from);
    }
}

/// A line of a compressed file is handed on if and only if it does not end within what was read
/// before.
pub proof fn law_read_lines_are_passed_over(lines: Seq<Seq<char>>, line: Seq<char>, skip: int)
    requires
        0 <= skip,
        lines_size(lines) >= 0,
    ensures
        ({
            let end = lines_size(lines) + encode_utf8(line).len();
            let before = items_after(lines, skip);
            let after = items_after(lines.push(line), skip);
            &&& end > skip ==> after == before.push((line, lines_size(lines) as u64))
            &&& end <= skip && encode_utf8(line).len() > 0 ==> after == before
        }),
{
    assert(lines.push(line).drop_last() =~= lines);
}

/// A file that was read to its end is stored as far as its lines reach. A plain file is complete if
/// that is as far as its size; a compressed one is complete at the end of its contents, and the size
/// of those is then known.
pub proof fn law_end_of_a_file(end: FileEnd, plan: FileResumePlan, lines: Seq<Seq<char>>)
    requires
        is_end(end, plan, lines),
    ensures
        plan.compression == CompressionType::Plain ==> {
            &&& end.final_offset == plan.offset + lines_size(lines)
            &&& end.completed <==> plan.offset + lines_size(lines) >= plan.stat_size
            &&& end.decoded is None
        },
        plan.compression != CompressionType::Plain ==> {
            &&& end.final_offset == lines_size(lines)
            &&& end.completed
            &&& end.decoded matches Some(d) && d.0 == plan.stat_size && d.1 == lines_size(lines)
        },
{
    lemma_fed_keeps(reader_of(plan), lines);
}

/// Of a plain file the bytes from the planned offset on are read, of a compressed one all that it
/// holds.
pub proof fn law_planned_bytes_are_read(raw: Seq<u8>, plan: FileResumePlan)
    requires
        plan.compression == CompressionType::Plain,
        plan.offset <= raw.len(),
    ensures
        planned_text(raw, plan).1,
        raw == raw.take(plan.offset as int) + planned_text(raw, plan).0,
{
    assert(raw =~= raw.take(plan.offset as int) + raw.skip(plan.offset as int));
}

/// The fingerprint of a file is made of its first eight kibibytes, or of all of it where it is
/// shorter. A file without contents has none.
pub proof fn law_first_bytes_make_the_fingerprint(bytes: Seq<u8>, size: u64)
    requires
        bytes.len() >= size,
    ensures
        size == 0 ==> plain_fingerprint(bytes, size) is None,
        0 < size ==> (plain_fingerprint(bytes, size) matches Some(f) && f.logical_size == size
            && f.head == xxh3_64(
            bytes.take(
                if size < 8192 {
                    size as int
                } else {
                    8192
                },
            ),
        )),
        bytes.len() == 0 ==> head_hash(bytes) is None,
        bytes.len() > 0 ==> head_hash(bytes) == Some(
            xxh3_64(
                bytes.take(
                    if bytes.len() < 8192 {
                        bytes.len() as int
                    } else {
                        8192
                    },
                ),
            ),
        ),
{
    let n = if size < 8192 {
        size as int
    } else {
        8192
    };
    assert(bytes.take(size as int).take(n) =~= bytes.take(n));
}

/// What is learnt of a plain file is the head of its bytes and its size. Of a compressed one it is
/// the head of its bytes and the head of what it holds, but for a file of the same inode as its
/// record, whose contents are not decompressed: those are as the record says.
pub proof fn law_what_fingerprints_tell(ctx: FileContext, raw: Seq<u8>, fps: Fingerprints)
    requires
        fingerprints_of(ctx, raw) == Ok::<Fingerprints, DecodeError>(fps),
        raw.len() == ctx.facts.stat_size,
        raw.len() > 0,
    ensures
        ctx.facts.compression == CompressionType::Plain ==> {
            &&& fps.compressed_head is None
            &&& fps.uncompressed_head == head_hash(raw)
            &&& fps.uncompressed_size == ctx.facts.stat_size
        },
        ctx.facts.compression != CompressionType::Plain ==> fps.compressed_head == head_hash(raw),
        ctx.facts.compression != CompressionType::Plain && (ctx.primary() matches Some(s) && s.inode
            == ctx.facts.inode) ==> fps.uncompressed_head
            == ctx.primary()->0.uncompressed_head_fingerprint && fps.uncompressed_size
            == ctx.primary()->0.uncompressed_size,
        ctx.facts.compression != CompressionType::Plain && ctx.facts.inode != 0 && (ctx.primary()
            matches Some(s) ==> s.inode != ctx.facts.inode) ==> fps.uncompressed_head == head_hash(
            decoded(raw, ctx.facts.compression, 8192).0,
        ) && fps.uncompressed_size == 0,
{
    assert(raw.take(raw.len() as int) =~= raw);
}

/// The time of a file is that of its first entry: of its first line where that is one, or else of
/// the rest of the file, as long as lines may be tried.
pub proof fn law_first_entry_tells_the_time(line: Seq<u8>, rest: Seq<u8>, tries: nat)
    requires
        forall|i: int| 0 <= i < line.len() ==> #[trigger] line[i] != '\n' as u8,
        line.len() > 0 && line.last() != '\r' as u8,
        valid_utf8(line.push('\n' as u8)),
        tries > 0,
    ensures
        entry_of(line) matches Some(e) ==> first_time(line.push('\n' as u8) + rest, true, tries)
            == unix_time(e.time, e.month_num as int),
        entry_of(line) is None ==> first_time(line.push('\n' as u8) + rest, true, tries)
            == first_time(rest, true, (tries - 1) as nat),
        first_time(rest, true, 0) is None,
        first_time(Seq::<u8>::empty(), true, tries) is None,
{
    let text = line.push('\n' as u8) + rest;
    lemma_until(text, 0, NEWLINE);
    let end = until(text, 0, NEWLINE);
    assert(text[line.len() as int] == NEWLINE);
    if end < line.len() {
        assert(text[end] == line[end]);
    }
    assert(text.take(end + 1) =~= line.push('\n' as u8));
    assert(text.take(end) =~= line);
    assert(text.skip(end + 1) =~= rest);
}

/// A name ends in something.
pub open spec fn ends_in(name: Seq<u8>, end: Seq<u8>) -> bool {
    name.len() >= end.len() && name.skip(name.len() - end.len()) == end
}

/// The compression of a file is told by the end of its name, in small letters.
pub proof fn law_names_tell_the_compression(name: Seq<u8>)
    ensures
        compression_of(name + seq!['.' as u8, 'g' as u8, 'z' as u8]) == CompressionType::Gz,
        compression_of(name + seq!['.' as u8, 'b' as u8, 'z' as u8, '2' as u8])
            == CompressionType::Bz2,
        compression_of(name + seq!['.' as u8, 'b' as u8, 'r' as u8]) == CompressionType::Br,
        compression_of(name) == CompressionType::Gz ==> ends_in(
            name,
            seq!['.' as u8, 'g' as u8, 'z' as u8],
        ),
        compression_of(name) == CompressionType::Bz2 ==> ends_in(
            name,
            seq!['.' as u8, 'b' as u8, 'z' as u8, '2' as u8],
        ),
        compression_of(name) == CompressionType::Br ==> ends_in(
            name,
            seq!['.' as u8, 'b' as u8, 'r' as u8],
        ),
{
    reveal_strlit(".gz");
    reveal_strlit(".bz2");
    reveal_strlit(".br");
    is_ascii_spec_bytes(".gz");
    is_ascii_spec_bytes(".bz2");
    is_ascii_spec_bytes(".br");
    let gz = ".gz".spec_bytes();
    let bz2 = ".bz2".spec_bytes();
    let br = ".br".spec_bytes();
    lemma_end(name, gz);
    lemma_end(name, bz2);
    lemma_end(name, br);
    assert(gz =~= seq!['.' as u8, 'g' as u8, 'z' as u8]);
    assert(bz2 =~= seq!['.' as u8, 'b' as u8, 'z' as u8, '2' as u8]);
    assert(br =~= seq!['.' as u8, 'b' as u8, 'r' as u8]);
    lemma_last(name + bz2, gz);
    lemma_last(name + br, gz);
    lemma_last(name + br, bz2);
    if name.len() >= 3 {
        assert(name.subrange(name.len() - 3, name.len() as int) =~= name.skip(name.len() - 3));
    }
    if name.len() >= 4 {
        assert(name.subrange(name.len() - 4, name.len() as int) =~= name.skip(name.len() - 4));
    }
    assert((name + bz2).last() == '2' as u8);
    assert((name + br).last() == 'r' as u8);
}

proof fn lemma_end(a: Seq<u8>, b: Seq<u8>)
    ensures
        occurs_at(a + b, b, (a + b).len() - b.len()),
{
    assert((a + b).subrange(a.len() as int, (a + b).len() as int) =~= b);
}

proof fn lemma_last(a: Seq<u8>, b: Seq<u8>)
    requires
        b.len() > 0,
        a.len() > 0,
    ensures
        occurs_at(a, b, a.len() - b.len()) ==> a.last() == b.last(),
{
    if occurs_at(a, b, a.len() - b.len()) {
        assert(a.subrange(a.len() - b.len(), a.len() as int)[b.len() - 1] == b[b.len() - 1]);
    }
}

/// An address has the country that its record names. What the record does not name is unknown: a
/// code of two hyphens and a name that says so.
pub proof fn law_unknown_countries(r: RecordView)
    ensures
        country_of(None) == (seq!['-', '-'], seq!['U', 'n', 'k', 'n', 'o', 'w', 'n']),
        r.iso_code matches Some(c) ==> country_of(Some(r)).0 == c,
        r.iso_code is None ==> country_of(Some(r)).0 == seq!['-', '-'],
        r.name matches Some(n) ==> country_of(Some(r)).1 == n,
        r.name is None ==> country_of(Some(r)).1 == seq!['U', 'n', 'k', 'n', 'o', 'w', 'n'],
{
    reveal_strlit("--");
    reveal_strlit("Unknown");
    assert("--"@ =~= seq!['-', '-']);
    assert("Unknown"@ =~= seq!['U', 'n', 'k', 'n', 'o', 'w', 'n']);
}

/// An entry counts for the country of its address: the one that the database names for it, or the
/// unknown one where the database names none or the entry has no address.
pub proof fn law_country_of_an_entry(
    db: Map<(u8, u64, u64), RecordView>,
    e: EntryView,
    ip: Ip,
    name: Seq<char>,
)
    ensures
        ip_of(e.ip) == Some(ip) && db.dom().contains(ip.key()) && db[ip.key()].iso_code == Some(
            name,
        ) ==> code_of(db, e) == name,
        ip_of(e.ip) == Some(ip) && !db.dom().contains(ip.key()) ==> code_of(db, e) == seq!['-', '-'],
        ip_of(e.ip) == Some(ip) && db.dom().contains(ip.key()) && db[ip.key()].iso_code is None
            ==> code_of(db, e) == seq!['-', '-'],
        ip_of(e.ip) is None ==> code_of(db, e) == seq!['-', '-'],
{
    reveal_strlit("--");
    assert("--"@ =~= seq!['-', '-']);
}

} // verus!
