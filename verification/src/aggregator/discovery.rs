//! Which files there are, in which order they are read, and how much of them is done.

use vstd::prelude::*;
use vstd::string::*;
use vstd::utf8::encode_utf8;

use super::resume::{FileResumePlan, OutcomeView, ResolutionOutcome};
use crate::compression::CompressionType;
use crate::database::{ParseState, ParseStateUpdate, StateView};
use crate::ranking::{lists_positions, rank, scores_ok, Score};
use crate::text::{
    before, comes_before, dec_text, in_order, lemma_before_total, lemma_bytes_determine,
    lemma_insert_order, push_dec,
};

verus! {

// ── Patterns ────────────────────────────────────────────────────────────────

/// Unicode white space.
pub open spec fn is_white(c: char) -> bool {
    let n = c as u32;
    9 <= n <= 13 || n == 32 || n == 0x85 || n == 0xa0 || n == 0x1680 || 0x2000 <= n <= 0x200a || n
        == 0x2028 || n == 0x2029 || n == 0x202f || n == 0x205f || n == 0x3000
}

fn white(c: char) -> (r: bool)
    ensures
        r == is_white(c),
{
    let n: u32 = c as u32;
    (9 <= n && n <= 13) || n == 32 || n == 0x85 || n == 0xa0 || n == 0x1680 || (0x2000 <= n && n
        <= 0x200a) || n == 0x2028 || n == 0x2029 || n == 0x202f || n == 0x205f || n == 0x3000
}

/// A text without white space at its ends.
pub open spec fn trimmed(s: Seq<char>) -> Seq<char>
    decreases s.len(),
{
    if s.len() == 0 {
        s
    } else if is_white(s[0]) {
        trimmed(s.drop_first())
    } else if is_white(s.last()) {
        trimmed(s.drop_last())
    } else {
        s
    }
}

/// A text without white space at its ends.
pub fn trim(s: &str) -> (r: &str)
    ensures
        r@ == trimmed(s@),
{
    let mut from: usize = 0;
    let mut to: usize = s.unicode_len();
    assert(s@.subrange(0, to as int) =~= s@);
    while from < to && white(s.get_char(from))
        invariant
            0 <= from <= to <= s@.len(),
            to == s@.len(),
            trimmed(s@) == trimmed(s@.subrange(from as int, to as int)),
        ensures
            0 <= from <= to <= s@.len(),
            from < to ==> !is_white(s@[from as int]),
            trimmed(s@) == trimmed(s@.subrange(from as int, to as int)),
        decreases to - from,
    {
        let ghost part = s@.subrange(from as int, to as int);
        assert(part.drop_first() =~= s@.subrange(from + 1, to as int));
        from += 1;
    }
    while from < to && white(s.get_char(to - 1))
        invariant
            0 <= from <= to <= s@.len(),
            from < to ==> !is_white(s@[from as int]),
            trimmed(s@) == trimmed(s@.subrange(from as int, to as int)),
        ensures
            0 <= from <= to <= s@.len(),
            from < to ==> !is_white(s@[from as int]) && !is_white(s@[to - 1]),
            trimmed(s@) == trimmed(s@.subrange(from as int, to as int)),
        decreases to - from,
    {
        let ghost part = s@.subrange(from as int, to as int);
        assert(part.drop_last() =~= s@.subrange(from as int, to - 1));
        to -= 1;
    }
    s.substring_char(from, to)
}

/// The parts of a text between commas.
pub open spec fn comma_parts(s: Seq<char>) -> Seq<Seq<char>>
    decreases s.len(),
{
    if s.len() == 0 {
        seq![Seq::empty()]
    } else {
        let before = comma_parts(s.drop_last());
        if s.last() == ',' {
            before.push(Seq::empty())
        } else {
            before.update(before.len() - 1, before.last().push(s.last()))
        }
    }
}

/// Those of the parts that are not empty, without white space at their ends.
pub open spec fn patterns_of(parts: Seq<Seq<char>>) -> Seq<Seq<char>>
    decreases parts.len(),
{
    if parts.len() == 0 {
        Seq::empty()
    } else {
        let before = patterns_of(parts.drop_last());
        let last = trimmed(parts.last());
        if last.len() == 0 {
            before
        } else {
            before.push(last)
        }
    }
}

/// Texts by what they hold.
pub open spec fn texts_of(v: Seq<String>) -> Seq<Seq<char>> {
    Seq::new(v.len(), |i: int| v[i]@)
}

fn push_pattern(v: &mut Vec<String>, part: &str)
    ensures
        texts_of(final(v)@) == if trimmed(part@).len() == 0 {
            texts_of(old(v)@)
        } else {
            texts_of(old(v)@).push(trimmed(part@))
        },
{
    let t = trim(part);
    if t.unicode_len() > 0 {
        v.push(t.to_owned());
        assert(texts_of(v@) =~= texts_of(old(v)@).push(trimmed(part@)));
    }
}

/// The patterns in a list that is separated by commas.
pub fn split_patterns(list: &str) -> (r: Vec<String>)
    ensures
        texts_of(r@) == patterns_of(comma_parts(list@)),
{
    let mut r: Vec<String> = Vec::new();
    let n: usize = list.unicode_len();
    let mut start: usize = 0;
    let mut i: usize = 0;
    let ghost mut done: Seq<Seq<char>> = Seq::empty();
    proof {
        assert(texts_of(r@) =~= patterns_of(done));
        assert(list@.take(0) =~= Seq::<char>::empty());
        assert(comma_parts(list@.take(0)) =~= done.push(list@.subrange(0, 0)));
    }
    while i < n
        invariant
            0 <= start <= i <= n,
            n == list@.len(),
            texts_of(r@) == patterns_of(done),
            comma_parts(list@.take(i as int)) == done.push(
                list@.subrange(start as int, i as int),
            ),
        decreases n - i,
    {
        let ghost before = comma_parts(list@.take(i as int));
        proof {
            assert(list@.take(i + 1).drop_last() =~= list@.take(i as int));
            assert(list@.take(i + 1).last() == list@[i as int]);
        }
        if list.get_char(i) == ',' {
            push_pattern(&mut r, list.substring_char(start, i));
            proof {
                let part = list@.subrange(start as int, i as int);
                assert(done.push(part).drop_last() =~= done);
                done = done.push(part);
                assert(list@.subrange(i + 1, i + 1) =~= Seq::<char>::empty());
            }
            start = i + 1;
        } else {
            proof {
                assert(list@.subrange(start as int, i + 1) =~= before.last().push(list@[i as int]));
                assert(comma_parts(list@.take(i + 1)) =~= done.push(
                    list@.subrange(start as int, i + 1),
                ));
            }
        }
        i += 1;
    }
    push_pattern(&mut r, list.substring_char(start, n));
    proof {
        let part = list@.subrange(start as int, n as int);
        assert(list@.take(n as int) =~= list@);
        assert(done.push(part).drop_last() =~= done);
    }
    r
}

// ── Paths ───────────────────────────────────────────────────────────────────

/// Adds a path to paths in order.
fn add_path(paths: &mut Vec<String>, path: String)
    requires
        in_order(texts_of(old(paths)@)),
    ensures
        in_order(texts_of(final(paths)@)),
        forall|p: Seq<char>|
            texts_of(final(paths)@).contains(p) <==> texts_of(old(paths)@).contains(p) || p
                == path@,
{
    let ghost old_texts = texts_of(paths@);
    let ghost key = encode_utf8(path@);
    let mut i: usize = 0;
    while i < paths.len() && before(paths[i].as_str(), path.as_str())
        invariant
            0 <= i <= paths@.len(),
            *paths == *old(paths),
            old_texts == texts_of(paths@),
            key == encode_utf8(path@),
            forall|j: int| 0 <= j < i ==> comes_before(encode_utf8(#[trigger] old_texts[j]), key),
        ensures
            0 <= i <= paths@.len(),
            *paths == *old(paths),
            forall|j: int| 0 <= j < i ==> comes_before(encode_utf8(#[trigger] old_texts[j]), key),
            i < paths@.len() ==> !comes_before(encode_utf8(old_texts[i as int]), key),
        decreases paths@.len() - i,
    {
        i += 1;
    }
    if i < paths.len() && !before(path.as_str(), paths[i].as_str()) {
        proof {
            lemma_before_total(encode_utf8(old_texts[i as int]), key);
            lemma_bytes_determine(old_texts[i as int], path@);
            assert(old_texts.contains(path@));
        }
        return ;
    }
    paths.insert(i, path);
    proof {
        let new_texts = texts_of(paths@);
        assert(new_texts =~= old_texts.insert(i as int, path@));
        assert forall|a: int, b: int| 0 <= a < b < new_texts.len() implies comes_before(
            encode_utf8(#[trigger] new_texts[a]),
            encode_utf8(#[trigger] new_texts[b]),
        ) by {
            lemma_insert_order(old_texts, path@, i as int, a, b);
        }
        assert forall|p: Seq<char>|
            new_texts.contains(p) <==> old_texts.contains(p) || p == path@ by {
            if old_texts.contains(p) {
                let k = choose|k: int| 0 <= k < old_texts.len() && old_texts[k] == p;
                assert(new_texts[if k < i {
                    k
                } else {
                    k + 1
                }] == p);
            }
            assert(new_texts[i as int] == path@);
            if new_texts.contains(p) {
                let k = choose|k: int| 0 <= k < new_texts.len() && new_texts[k] == p;
                if k < i {
                    assert(old_texts[k] == p);
                } else if k > i {
                    assert(old_texts[k - 1] == p);
                }
            }
        }
    }
}

/// The paths that were found, in order, each once.
pub fn unique_paths(found: Vec<String>) -> (r: Vec<String>)
    ensures
        in_order(texts_of(r@)),
        forall|p: Seq<char>| texts_of(r@).contains(p) <==> texts_of(found@).contains(p),
{
    let mut r: Vec<String> = Vec::new();
    let ghost all = texts_of(found@);
    let mut i: usize = 0;
    while i < found.len()
        invariant
            0 <= i <= found@.len(),
            all == texts_of(found@),
            in_order(texts_of(r@)),
            forall|p: Seq<char>| texts_of(r@).contains(p) <==> all.take(i as int).contains(p),
        decreases found@.len() - i,
    {
        add_path(&mut r, found[i].clone());
        proof {
            let part = all.take(i as int);
            let more = all.take(i + 1);
            assert(more =~= part.push(all[i as int]));
            assert forall|p: Seq<char>| more.contains(p) <==> part.contains(p) || p
                == all[i as int] by {
                if part.contains(p) {
                    let k = choose|k: int| 0 <= k < part.len() && part[k] == p;
                    assert(more[k] == p);
                }
                assert(more[i as int] == all[i as int]);
            }
        }
        i += 1;
    }
    assert(all.take(i as int) =~= all);
    r
}

/// Positions are in order of time; of two with one time, the earlier comes first.
pub open spec fn is_time_order(times: Seq<i64>, r: Seq<usize>) -> bool {
    &&& lists_positions(r, 0, times.len() as int)
    &&& forall|i: int, j: int|
        0 <= i < j < r.len() ==> times[#[trigger] r[i] as int] < times[#[trigger] r[j] as int] || (
        times[r[i] as int] == times[r[j] as int] && r[i] < r[j])
}

/// The order in which files are read: by the time of each.
pub fn order_by_time(times: &Vec<i64>) -> (r: Vec<usize>)
    ensures
        is_time_order(times@, r@),
{
    let mut scores: Vec<Score> = Vec::new();
    let mut i: usize = 0;
    while i < times.len()
        invariant
            0 <= i <= times@.len(),
            scores@.len() == i,
            scores_ok(scores@),
            forall|j: int|
                0 <= j < i ==> (#[trigger] scores@[j]).num == i64::MAX - times@[j]
                    && scores@[j].den == 1,
        decreases times@.len() - i,
    {
        let n: u64 = (i64::MAX as i128 - times[i] as i128) as u64;
        scores.push(Score::of_count(n));
        i += 1;
    }
    let r = rank(&scores);
    proof {
        assert forall|i: int, j: int| 0 <= i < j < r@.len() implies times@[#[trigger] r@[i] as int]
            < times@[#[trigger] r@[j] as int] || (times@[r@[i] as int] == times@[r@[j] as int]
            && r@[i] < r@[j]) by {
            let a = scores@[r@[i] as int];
            let b = scores@[r@[j] as int];
            assert(a.ge(b));
            crate::ranking::lemma_counts(a, b);
            crate::ranking::lemma_counts(b, a);
        }
    }
    r
}

// ── How much is done ────────────────────────────────────────────────────────

/// The bytes of the files that are compressed, or of those that are not.
pub open spec fn sizes_of(sizes: Seq<u64>, compressed: Seq<bool>, which: bool, n: int) -> int
    decreases n,
{
    if n <= 0 {
        0
    } else {
        sizes_of(sizes, compressed, which, n - 1) + if compressed[n - 1] == which {
            sizes[n - 1] as int
        } else {
            0
        }
    }
}

/// The bytes of plain files and of compressed files; `None` where 64 bits cannot say them.
pub fn size_totals(sizes: &Vec<u64>, compressed: &Vec<bool>) -> (r: Option<(u64, u64)>)
    requires
        sizes@.len() == compressed@.len(),
    ensures
        ({
            let n = sizes@.len() as int;
            let plain = sizes_of(sizes@, compressed@, false, n);
            let packed = sizes_of(sizes@, compressed@, true, n);
            match r {
                Some((a, b)) => a == plain && b == packed,
                None => plain > u64::MAX || packed > u64::MAX,
            }
        }),
{
    let mut plain: u64 = 0;
    let mut packed: u64 = 0;
    let mut i: usize = 0;
    while i < sizes.len()
        invariant
            0 <= i <= sizes@.len(),
            sizes@.len() == compressed@.len(),
            plain == sizes_of(sizes@, compressed@, false, i as int),
            packed == sizes_of(sizes@, compressed@, true, i as int),
        decreases sizes@.len() - i,
    {
        let (a, b) = if compressed[i] {
            (Some(plain), packed.checked_add(sizes[i]))
        } else {
            (plain.checked_add(sizes[i]), Some(packed))
        };
        match (a, b) {
            (Some(a), Some(b)) => {
                plain = a;
                packed = b;
            },
            _ => {
                proof {
                    lemma_sizes_grow(sizes@, compressed@, false, i + 1, sizes@.len() as int);
                    lemma_sizes_grow(sizes@, compressed@, true, i + 1, sizes@.len() as int);
                }
                return None;
            },
        }
        i += 1;
    }
    Some((plain, packed))
}

proof fn lemma_sizes_grow(sizes: Seq<u64>, compressed: Seq<bool>, which: bool, a: int, b: int)
    requires
        0 <= a <= b,
    ensures
        sizes_of(sizes, compressed, which, a) <= sizes_of(sizes, compressed, which, b),
    decreases b - a,
{
    if a < b {
        lemma_sizes_grow(sizes, compressed, which, a, b - 1);
    }
}

/// How much of the files earlier runs have done.
#[derive(Debug, Clone, Copy, PartialEq, Eq, Structural)]
pub struct SeededProgress {
    pub bytes_done: u64,
    pub gz_comp_done: u64,
    pub gz_decoded_done: u64,
}

/// A file with what is stored of it.
pub struct SeedFile {
    pub state: Option<ParseState>,
    pub inode: u64,
    pub size: u64,
    pub compressed: bool,
}

/// A sum that stops at the largest number.
pub open spec fn capped_sum(a: u64, b: u64) -> u64 {
    if a + b > u64::MAX {
        u64::MAX
    } else {
        (a + b) as u64
    }
}

/// The progress with one more file. A file counts if its inode is known and is the stored one; a
/// compressed file that was completed counts as decoded whole.
pub open spec fn seeded_with(p: SeededProgress, f: SeedFile) -> SeededProgress {
    match f.state {
        Some(s) => if f.inode == 0 || s.inode != f.inode {
            p
        } else if f.compressed {
            let whole = s.completed && s.compressed_offset >= f.size;
            SeededProgress {
                bytes_done: capped_sum(p.bytes_done, s.uncompressed_offset),
                gz_comp_done: if whole {
                    capped_sum(p.gz_comp_done, f.size)
                } else {
                    p.gz_comp_done
                },
                gz_decoded_done: if whole {
                    capped_sum(p.gz_decoded_done, s.uncompressed_offset)
                } else {
                    p.gz_decoded_done
                },
            }
        } else {
            SeededProgress {
                bytes_done: capped_sum(
                    p.bytes_done,
                    if s.uncompressed_offset <= f.size {
                        s.uncompressed_offset
                    } else {
                        f.size
                    },
                ),
                ..p
            }
        },
        None => p,
    }
}

/// The progress of files.
pub open spec fn seeded(files: Seq<SeedFile>) -> SeededProgress
    decreases files.len(),
{
    if files.len() == 0 {
        SeededProgress { bytes_done: 0, gz_comp_done: 0, gz_decoded_done: 0 }
    } else {
        seeded_with(seeded(files.drop_last()), files.last())
    }
}

fn add_capped(a: u64, b: u64) -> (r: u64)
    ensures
        r == capped_sum(a, b),
{
    match a.checked_add(b) {
        Some(n) => n,
        None => u64::MAX,
    }
}

/// How much of the files earlier runs have done.
pub fn compute_seeded_progress(files: &Vec<SeedFile>) -> (r: SeededProgress)
    ensures
        r == seeded(files@),
{
    let mut p = SeededProgress { bytes_done: 0, gz_comp_done: 0, gz_decoded_done: 0 };
    assert(files@.take(0) =~= Seq::<SeedFile>::empty());
    let mut i: usize = 0;
    while i < files.len()
        invariant
            0 <= i <= files@.len(),
            p == seeded(files@.take(i as int)),
        decreases files@.len() - i,
    {
        proof {
            assert(files@.take(i + 1).drop_last() =~= files@.take(i as int));
            assert(files@.take(i + 1).last() == files@[i as int]);
        }
        let f = &files[i];
        if let Some(s) = &f.state {
            if f.inode != 0 && s.inode == f.inode {
                if f.compressed {
                    p.bytes_done = add_capped(p.bytes_done, s.uncompressed_offset);
                    if s.completed && s.compressed_offset >= f.size {
                        p.gz_comp_done = add_capped(p.gz_comp_done, f.size);
                        p.gz_decoded_done = add_capped(p.gz_decoded_done, s.uncompressed_offset);
                    }
                } else {
                    let done: u64 = if s.uncompressed_offset <= f.size {
                        s.uncompressed_offset
                    } else {
                        f.size
                    };
                    p.bytes_done = add_capped(p.bytes_done, done);
                }
            }
        }
        i += 1;
    }
    assert(files@.take(i as int) =~= files@);
    p
}

// ── What was decided, in words ──────────────────────────────────────────────

/// What is done with a file, in a word, and from which level of detail on it is said.
pub open spec fn action_of(plan: Option<FileResumePlan>, skipped: bool) -> (Seq<char>, u8) {
    match plan {
        Some(plan) => if plan.compression != CompressionType::Plain {
            if plan.skip_decoded_prefix_bytes > 0 {
                ("resume_compressed_tail"@, 1u8)
            } else if plan.offset > 0 {
                ("resume_compressed_from_offset"@, 1u8)
            } else {
                ("start_compressed_from_zero"@, 2u8)
            }
        } else if plan.offset > 0 {
            ("resume_plain_from_offset"@, 1u8)
        } else {
            ("start_plain_from_zero"@, 2u8)
        },
        None => if skipped {
            ("skip_mark_completed"@, 1u8)
        } else {
            ("skip_no_work"@, 3u8)
        },
    }
}

/// What is done with a file, in a word, and from which level of detail on it is said.
pub fn plan_action(outcome: &ResolutionOutcome) -> (r: (&'static str, u8))
    ensures
        (r.0@, r.1) == action_of(outcome.plan, outcome.skipped_parse_state is Some),
{
    match &outcome.plan {
        Some(plan) => if plan.compression.is_compressed() {
            if plan.skip_decoded_prefix_bytes > 0 {
                ("resume_compressed_tail", 1)
            } else if plan.offset > 0 {
                ("resume_compressed_from_offset", 1)
            } else {
                ("start_compressed_from_zero", 2)
            }
        } else if plan.offset > 0 {
            ("resume_plain_from_offset", 1)
        } else {
            ("start_plain_from_zero", 2)
        },
        None => match &outcome.skipped_parse_state {
            Some(_) => ("skip_mark_completed", 1),
            None => ("skip_no_work", 3),
        },
    }
}

/// The name of a compression.
pub open spec fn compression_name(c: CompressionType) -> Seq<char> {
    match c {
        CompressionType::Plain => "Plain"@,
        CompressionType::Gz => "Gz"@,
        CompressionType::Bz2 => "Bz2"@,
        CompressionType::Br => "Br"@,
    }
}

/// A name and a number.
pub open spec fn field_text(name: Seq<char>, n: u64) -> Seq<char> {
    name + dec_text(n as nat)
}

/// The numbers of a plan.
pub open spec fn plan_fields(plan: FileResumePlan) -> Seq<char> {
    field_text(" inode="@, plan.current_inode) + " compression="@ + compression_name(
        plan.compression,
    ) + field_text(" start_offset="@, plan.offset) + field_text(
        " skip_decoded_prefix="@,
        plan.skip_decoded_prefix_bytes,
    ) + field_text(" stat_size="@, plan.stat_size) + field_text(
        " uncompressed_size="@,
        match plan.uncompressed_size {
            Some(n) => n,
            None => 0,
        },
    )
}

/// The numbers of a file that is marked as read.
pub open spec fn skipped_fields(state: StateView) -> Seq<char> {
    let is_gz = state.compressed_size > 0;
    field_text(" inode="@, state.inode) + " is_gz="@ + (if is_gz {
        "true"@
    } else {
        "false"@
    }) + field_text(" planned_offset="@, state.uncompressed_offset) + field_text(
        " stat_size="@,
        if is_gz {
            state.compressed_size
        } else {
            state.uncompressed_size
        },
    ) + field_text(" uncompressed_size="@, state.uncompressed_size)
}

/// What is said of a file that was decided about, in one phase of a run.
pub open spec fn plan_text(phase: Seq<char>, path: Seq<char>, o: OutcomeView) -> Seq<char> {
    "[plan:"@ + phase + "] file="@ + path + " action="@ + action_of(o.plan, o.skipped is Some).0
        + (match (o.plan, o.skipped) {
        (Some(plan), _) => plan_fields(plan),
        (None, Some(state)) => skipped_fields(state),
        (None, None) => Seq::empty(),
    }) + field_text(" retired_states="@, o.retired.len() as u64)
}

fn push_field(s: &mut String, name: &str, n: u64)
    ensures
        final(s)@ == old(s)@ + field_text(name@, n),
{
    s.append(name);
    push_dec(s, n);
    assert(s@ =~= old(s)@ + field_text(name@, n));
}

fn push_plan(s: &mut String, plan: &FileResumePlan)
    ensures
        final(s)@ == old(s)@ + plan_fields(*plan),
{
    push_field(s, " inode=", plan.current_inode);
    s.append(" compression=");
    s.append(
        match plan.compression {
            CompressionType::Plain => "Plain",
            CompressionType::Gz => "Gz",
            CompressionType::Bz2 => "Bz2",
            CompressionType::Br => "Br",
        },
    );
    push_field(s, " start_offset=", plan.offset);
    push_field(s, " skip_decoded_prefix=", plan.skip_decoded_prefix_bytes);
    push_field(s, " stat_size=", plan.stat_size);
    push_field(
        s,
        " uncompressed_size=",
        match plan.uncompressed_size {
            Some(n) => n,
            None => 0,
        },
    );
    assert(s@ =~= old(s)@ + plan_fields(*plan));
}

fn push_skipped(s: &mut String, state: &ParseStateUpdate)
    ensures
        final(s)@ == old(s)@ + skipped_fields(state@),
{
    let is_gz: bool = state.compressed_size > 0;
    push_field(s, " inode=", state.inode);
    s.append(" is_gz=");
    s.append(
        if is_gz {
            "true"
        } else {
            "false"
        },
    );
    push_field(s, " planned_offset=", state.uncompressed_offset);
    push_field(
        s,
        " stat_size=",
        if is_gz {
            state.compressed_size
        } else {
            state.uncompressed_size
        },
    );
    push_field(s, " uncompressed_size=", state.uncompressed_size);
    assert(s@ =~= old(s)@ + skipped_fields(state@));
}

/// What is said of a file that was decided about in one phase of a run, and from which level of
/// detail on.
pub fn plan_message(phase: &str, filepath: &str, outcome: &ResolutionOutcome) -> (r: (String, u8))
    ensures
        r.0@ == plan_text(phase@, filepath@, outcome@),
        r.1 == action_of(outcome.plan, outcome.skipped_parse_state is Some).1,
{
    let (action, level) = plan_action(outcome);
    let mut s: String = "[plan:".to_owned();
    s.append(phase);
    s.append("] file=");
    s.append(filepath);
    s.append(" action=");
    s.append(action);
    match &outcome.plan {
        Some(plan) => push_plan(&mut s, plan),
        None => {
            match &outcome.skipped_parse_state {
                Some(state) => push_skipped(&mut s, state),
                None => {
                    assert(s@ =~= s@ + Seq::<char>::empty());
                },
            }
        },
    }
    let retired: usize = outcome.retired_parse_states.len();
    push_field(&mut s, " retired_states=", retired as u64);
    (s, level)
}

} // verus!
