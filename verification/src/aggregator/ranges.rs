//! A plain file in parts, so that several workers can read it at once.

use vstd::prelude::*;

use crate::text::{lemma_until, scan_until, until, NEWLINE};

verus! {

/// The workers that share a file: at least one.
pub open spec fn sharers(workers: usize) -> int {
    if workers == 0 {
        1
    } else {
        workers as int
    }
}

/// The size of a part: all bytes by the workers, rounded up.
pub open spec fn part_size(bytes: int, workers: usize) -> int {
    (bytes + sharers(workers) - 1) / sharers(workers)
}

/// The parts follow one another from one offset to another, each of them of some size and none
/// larger than the part size.
pub open spec fn are_parts(r: Seq<(u64, u64)>, from: u64, to: u64, size: int) -> bool {
    &&& from >= to ==> r.len() == 0
    &&& from < to ==> r.len() > 0 && r[0].0 == from && r.last().1 == to
    &&& forall|i: int|
        0 <= i < r.len() ==> (#[trigger] r[i]).0 == from + i * size && r[i].0 < r[i].1 && r[i].1
            <= to
    &&& forall|i: int|
        0 <= i < r.len() - 1 ==> (#[trigger] r[i]).1 == from + (i + 1) * size
}

/// The parts of a file from an offset to its end.
pub fn split_ranges(offset: u64, stat_size: u64, workers: usize) -> (r: Vec<(u64, u64)>)
    ensures
        are_parts(r@, offset, stat_size, part_size(stat_size - offset, workers)),
        r@.len() <= sharers(workers),
{
    let mut r: Vec<(u64, u64)> = Vec::new();
    if offset >= stat_size {
        return r;
    }
    let count: u128 = if workers == 0 {
        1
    } else {
        workers as u128
    };
    let bytes: u128 = (stat_size - offset) as u128;
    let size: u128 = (bytes + count - 1) / count;
    proof {
        lemma_part_size(bytes as int, count as int, size as int);
    }
    let mut i: u128 = 0;
    let mut start: u128 = offset as u128;
    while i < count && start < stat_size as u128
        invariant
            0 <= i <= count,
            offset < stat_size,
            size >= 1,
            bytes == stat_size - offset,
            size <= bytes,
            count * size >= bytes,
            start == offset + i * size,
            start <= stat_size + size,
            r@.len() == i,
            forall|j: int|
                0 <= j < i ==> (#[trigger] r@[j]).0 == offset + j * size && r@[j].0 < r@[j].1
                    && r@[j].1 <= stat_size,
            forall|j: int|
                0 <= j < i && offset + (j + 1) * size < stat_size ==> (#[trigger] r@[j]).1 == offset
                    + (j + 1) * size,
            i > 0 && start >= stat_size ==> r@.last().1 == stat_size,
            i > 0 ==> offset + (i - 1) * size < stat_size,
        decreases count - i,
    {
        proof {
            assert((i + 1) * size == i * size + size) by (nonlinear_arith);
        }
        let next: u128 = start + size;
        let end: u128 = if next < stat_size as u128 {
            next
        } else {
            stat_size as u128
        };
        r.push((start as u64, end as u64));
        start = next;
        i += 1;
    }
    proof {
        assert(start >= stat_size) by {
            if i == count {
                assert(i * size == count * size);
            }
        }
        assert(r@[0].0 == offset + 0 * size);
        assert forall|j: int| 0 <= j < r@.len() - 1 implies (#[trigger] r@[j]).1 == offset + (j + 1)
            * size by {
            assert((j + 1) * size <= (i - 1) * size) by (nonlinear_arith)
                requires
                    j + 1 <= i - 1,
                    size >= 1,
            ;
        }
    }
    r
}

proof fn lemma_part_size(bytes: int, count: int, size: int)
    requires
        bytes >= 1,
        count >= 1,
        size == (bytes + count - 1) / count,
    ensures
        1 <= size <= bytes,
        count * size >= bytes,
{
    assert(1 <= size && size <= bytes && count * size >= bytes) by (nonlinear_arith)
        requires
            bytes >= 1,
            count >= 1,
            size == (bytes + count - 1) / count,
    ;
}

/// The parts share nothing and leave nothing out: every place from the first offset to the last
/// lies in one of them, and in no two.
pub proof fn law_parts_cover(r: Seq<(u64, u64)>, from: u64, to: u64, size: int, p: u64)
    requires
        are_parts(r, from, to, size),
        from <= p < to,
        size >= 1,
    ensures
        exists|i: int| 0 <= i < r.len() && (#[trigger] r[i]).0 <= p < r[i].1,
        forall|i: int, j: int|
            0 <= i < r.len() && 0 <= j < r.len() && (#[trigger] r[i]).0 <= p < r[i].1 && (
            #[trigger] r[j]).0 <= p < r[j].1 ==> i == j,
{
    lemma_part_of(r, from, to, size, p, r.len() as int);
    assert forall|i: int, j: int|
        0 <= i < r.len() && 0 <= j < r.len() && (#[trigger] r[i]).0 <= p < r[i].1 && (
        #[trigger] r[j]).0 <= p < r[j].1 implies i == j by {
        if i < j {
            lemma_part_order(r, from, to, size, i, j);
        } else if j < i {
            lemma_part_order(r, from, to, size, j, i);
        }
    }
}

proof fn lemma_part_order(r: Seq<(u64, u64)>, from: u64, to: u64, size: int, i: int, j: int)
    requires
        are_parts(r, from, to, size),
        size >= 1,
        0 <= i < j < r.len(),
    ensures
        r[i].1 <= r[j].0,
{
    assert(r[i].1 == from + (i + 1) * size);
    assert((i + 1) * size <= j * size) by (nonlinear_arith)
        requires
            i + 1 <= j,
            size >= 1,
    ;
}

proof fn lemma_part_of(r: Seq<(u64, u64)>, from: u64, to: u64, size: int, p: u64, n: int)
    requires
        are_parts(r, from, to, size),
        from <= p,
        0 < n <= r.len(),
        p < r[n - 1].1,
    ensures
        exists|i: int| 0 <= i < r.len() && (#[trigger] r[i]).0 <= p < r[i].1,
    decreases n,
{
    if r[n - 1].0 > p {
        assert(n > 1) by {
            if n == 1 {
                assert(r[0].0 == from);
            }
        }
        assert(r[n - 2].1 == from + (n - 1) * size);
        assert(r[n - 1].0 == from + (n - 1) * size);
        lemma_part_of(r, from, to, size, p, n - 1);
    }
}

// ── The lines of a part ─────────────────────────────────────────────────────

/// A line starts at `p`.
pub open spec fn is_line_start(b: Seq<u8>, p: int) -> bool {
    0 <= p < b.len() && (p == 0 || b[p - 1] == NEWLINE)
}

/// The place after the line that holds `p`.
pub open spec fn line_end(b: Seq<u8>, p: int) -> int {
    let n = until(b, p, NEWLINE);
    if n < b.len() {
        n + 1
    } else {
        b.len() as int
    }
}

/// `r` lists the lines that start in a part, in order.
pub open spec fn are_lines_of(b: Seq<u8>, start: int, end: int, r: Seq<(usize, usize)>) -> bool {
    &&& forall|i: int|
        0 <= i < r.len() ==> is_line_start(b, (#[trigger] r[i]).0 as int) && start <= r[i].0 < end
            && r[i].1 == line_end(b, r[i].0 as int)
    &&& forall|i: int, j: int|
        0 <= i < j < r.len() ==> (#[trigger] r[i]).0 < (#[trigger] r[j]).0
    &&& forall|p: int| #[trigger]
        is_line_start(b, p) && start <= p < end ==> exists|i: int|
            0 <= i < r.len() && (#[trigger] r[i]).0 == p
}

/// Between a place and the end of its line no line starts.
proof fn lemma_within_line(b: Seq<u8>, p: int, q: int)
    requires
        0 <= p < q,
        q < line_end(b, p),
        p < b.len(),
    ensures
        !is_line_start(b, q),
{
    lemma_until(b, p, NEWLINE);
}

fn end_of_line(b: &[u8], p: usize) -> (r: usize)
    requires
        p < b@.len(),
    ensures
        r == line_end(b@, p as int),
        p < r <= b@.len(),
        r < b@.len() ==> is_line_start(b@, r as int),
{
    let n: usize = scan_until(b, p, NEWLINE);
    proof {
        lemma_until(b@, p as int, NEWLINE);
    }
    if n < b.len() {
        n + 1
    } else {
        b.len()
    }
}

/// The lines of a part: those that start in it. A line that starts before it belongs to the part
/// before, and a line that starts in it is read to its end even where the part ends earlier.
pub fn range_lines(b: &[u8], start: usize, end: usize) -> (r: Vec<(usize, usize)>)
    ensures
        are_lines_of(b@, start as int, end as int, r@),
{
    let mut r: Vec<(usize, usize)> = Vec::new();
    let len: usize = b.len();
    if start >= len {
        return r;
    }
    let mut pos: usize = start;
    if start > 0 && b[start - 1] != NEWLINE {
        pos = end_of_line(b, start);
        proof {
            assert forall|p: int| start <= p < pos implies !#[trigger] is_line_start(b@, p) by {
                if p > start {
                    lemma_within_line(b@, start as int, p);
                }
            }
        }
    }
    while pos < end && pos < len
        invariant
            len == b@.len(),
            start <= pos <= len,
            pos < len ==> is_line_start(b@, pos as int),
            forall|i: int|
                0 <= i < r@.len() ==> is_line_start(b@, (#[trigger] r@[i]).0 as int) && start
                    <= r@[i].0 < end && r@[i].0 < pos && r@[i].1 == line_end(b@, r@[i].0 as int),
            forall|i: int, j: int|
                0 <= i < j < r@.len() ==> (#[trigger] r@[i]).0 < (#[trigger] r@[j]).0,
            forall|p: int| #[trigger]
                is_line_start(b@, p) && start <= p < pos ==> exists|i: int|
                    0 <= i < r@.len() && (#[trigger] r@[i]).0 == p,
        decreases len - pos,
    {
        let ghost before = r@;
        let next: usize = end_of_line(b, pos);
        r.push((pos, next));
        proof {
            assert forall|p: int| #[trigger] is_line_start(b@, p) && start <= p < next implies exists|
                i: int,
            |
                0 <= i < r@.len() && (#[trigger] r@[i]).0 == p by {
                if p < pos {
                    let i = choose|i: int| 0 <= i < before.len() && (#[trigger] before[i]).0 == p;
                    assert(r@[i].0 == p);
                } else if p > pos {
                    lemma_within_line(b@, pos as int, p);
                } else {
                    assert(r@[before.len() as int].0 == p);
                }
            }
        }
        pos = next;
    }
    r
}

/// Every line of a file is read by exactly one worker: a line that starts between the first offset
/// and the last is among the lines of one part, and of no other.
pub proof fn law_each_line_has_one_worker(
    b: Seq<u8>,
    parts: Seq<(u64, u64)>,
    from: u64,
    to: u64,
    size: int,
    lines: Seq<Seq<(usize, usize)>>,
    p: u64,
)
    requires
        are_parts(parts, from, to, size),
        size >= 1,
        lines.len() == parts.len(),
        forall|k: int|
            0 <= k < parts.len() ==> are_lines_of(
                b,
                (#[trigger] parts[k]).0 as int,
                parts[k].1 as int,
                lines[k],
            ),
        is_line_start(b, p as int),
        from <= p < to,
    ensures
        exists|k: int| 0 <= k < lines.len() && starts_in(#[trigger] lines[k], p as int),
        forall|k: int, l: int|
            0 <= k < lines.len() && 0 <= l < lines.len() && #[trigger] starts_in(lines[k], p as int)
                && #[trigger] starts_in(lines[l], p as int) ==> k == l,
{
    law_parts_cover(parts, from, to, size, p);
    let k = choose|k: int| 0 <= k < parts.len() && (#[trigger] parts[k]).0 <= p < parts[k].1;
    assert(are_lines_of(b, parts[k].0 as int, parts[k].1 as int, lines[k]));
    assert(starts_in(lines[k], p as int));
    assert forall|k: int, l: int|
        0 <= k < lines.len() && 0 <= l < lines.len() && #[trigger] starts_in(lines[k], p as int)
            && #[trigger] starts_in(lines[l], p as int) implies k == l by {
        assert(are_lines_of(b, parts[k].0 as int, parts[k].1 as int, lines[k]));
        assert(are_lines_of(b, parts[l].0 as int, parts[l].1 as int, lines[l]));
        assert(parts[k].0 <= p < parts[k].1);
        assert(parts[l].0 <= p < parts[l].1);
    }
}

/// A line among lines starts at `p`.
pub open spec fn starts_in(lines: Seq<(usize, usize)>, p: int) -> bool {
    exists|i: int| 0 <= i < lines.len() && (#[trigger] lines[i]).0 == p
}

proof fn lemma_lines_unique(
    b: Seq<u8>,
    start: int,
    end: int,
    r: Seq<(usize, usize)>,
    q: Seq<(usize, usize)>,
)
    requires
        are_lines_of(b, start, end, r),
        are_lines_of(b, start, end, q),
    ensures
        r == q,
    decreases r.len(),
{
    if r.len() == 0 {
        if q.len() > 0 {
            assert(is_line_start(b, q[0].0 as int));
        }
        assert(r =~= q);
    } else {
        assert(is_line_start(b, r.last().0 as int));
        let i = choose|i: int| 0 <= i < q.len() && (#[trigger] q[i]).0 == r.last().0;
        assert(q[i].0 == r.last().0);
        assert(is_line_start(b, q.last().0 as int));
        let j = choose|j: int| 0 <= j < r.len() && (#[trigger] r[j]).0 == q.last().0;
        assert(r[j].0 == q.last().0);
        let cut = r.last().0 as int;
        assert(q.last().0 == cut) by {
            if i < q.len() - 1 {
                assert(q[i].0 < q[q.len() - 1].0);
            }
            if j < r.len() - 1 {
                assert(r[j].0 < r[r.len() - 1].0);
            }
        }
        lemma_lines_before(b, start, end, r);
        lemma_lines_before(b, start, end, q);
        lemma_lines_unique(b, start, cut, r.drop_last(), q.drop_last());
        assert(r =~= r.drop_last().push(r.last()));
        assert(q =~= q.drop_last().push(q.last()));
        assert(r.last() == q.last());
    }
}

/// Without the last line, the lines are those up to it.
proof fn lemma_lines_before(b: Seq<u8>, start: int, end: int, r: Seq<(usize, usize)>)
    requires
        are_lines_of(b, start, end, r),
        r.len() > 0,
    ensures
        are_lines_of(b, start, r.last().0 as int, r.drop_last()),
{
    let rest = r.drop_last();
    let cut = r.last().0 as int;
    assert forall|i: int| 0 <= i < rest.len() implies is_line_start(b, (#[trigger] rest[i]).0 as int)
        && start <= rest[i].0 < cut && rest[i].1 == line_end(b, rest[i].0 as int) by {
        assert(r[i].0 < r[r.len() - 1].0);
    }
    assert forall|p: int| #[trigger] is_line_start(b, p) && start <= p < cut implies exists|i: int|
        0 <= i < rest.len() && (#[trigger] rest[i]).0 == p by {
        assert(r[r.len() - 1].0 < end);
        let i = choose|i: int| 0 <= i < r.len() && (#[trigger] r[i]).0 == p;
        assert(rest[i].0 == p);
    }
}

/// The lines of a part and of the one behind it are those of both.
proof fn lemma_lines_join(
    b: Seq<u8>,
    start: int,
    cut: int,
    end: int,
    x: Seq<(usize, usize)>,
    y: Seq<(usize, usize)>,
)
    requires
        start <= cut <= end,
        are_lines_of(b, start, cut, x),
        are_lines_of(b, cut, end, y),
    ensures
        are_lines_of(b, start, end, x + y),
{
    let r = x + y;
    assert forall|i: int| 0 <= i < r.len() implies is_line_start(b, (#[trigger] r[i]).0 as int)
        && start <= r[i].0 < end && r[i].1 == line_end(b, r[i].0 as int) by {
        if i < x.len() {
            assert(r[i] == x[i]);
        } else {
            assert(r[i] == y[i - x.len()]);
        }
    }
    assert forall|i: int, j: int| 0 <= i < j < r.len() implies (#[trigger] r[i]).0 < (
    #[trigger] r[j]).0 by {
        if j < x.len() {
            assert(x[i].0 < x[j].0);
        } else if i >= x.len() {
            assert(y[i - x.len()].0 < y[j - x.len()].0);
        } else {
            assert(x[i].0 < cut);
            assert(y[j - x.len()].0 >= cut);
        }
    }
    assert forall|p: int| #[trigger] is_line_start(b, p) && start <= p < end implies exists|i: int|
        0 <= i < r.len() && (#[trigger] r[i]).0 == p by {
        if p < cut {
            let i = choose|i: int| 0 <= i < x.len() && (#[trigger] x[i]).0 == p;
            assert(r[i].0 == p);
        } else {
            let i = choose|i: int| 0 <= i < y.len() && (#[trigger] y[i]).0 == p;
            assert(r[x.len() + i].0 == p);
        }
    }
}

/// Lists of lines, one behind the other.
pub open spec fn joined(lines: Seq<Seq<(usize, usize)>>) -> Seq<(usize, usize)>
    decreases lines.len(),
{
    if lines.len() == 0 {
        Seq::empty()
    } else {
        joined(lines.drop_last()) + lines.last()
    }
}

/// How many lines there are in all lists.
pub open spec fn line_count(lines: Seq<Seq<(usize, usize)>>) -> nat
    decreases lines.len(),
{
    if lines.len() == 0 {
        0
    } else {
        line_count(lines.drop_last()) + lines.last().len()
    }
}

/// It does not matter where a file is cut: the lines of the parts between rising cuts, one part
/// behind the other, are the lines from the first cut to the last, each of them once. So the
/// numbers of lines add up.
pub proof fn law_cuts_do_not_matter(
    b: Seq<u8>,
    cuts: Seq<int>,
    lines: Seq<Seq<(usize, usize)>>,
    whole: Seq<(usize, usize)>,
)
    requires
        cuts.len() == lines.len() + 1,
        forall|k: int| 0 <= k < lines.len() ==> cuts[k] < #[trigger] cuts[k + 1],
        forall|k: int|
            0 <= k < lines.len() ==> are_lines_of(b, cuts[k], cuts[k + 1], #[trigger] lines[k]),
        are_lines_of(b, cuts[0], cuts.last(), whole),
    ensures
        joined(lines) == whole,
        line_count(lines) == whole.len(),
{
    lemma_joined(b, cuts, lines);
    lemma_lines_unique(b, cuts[0], cuts.last(), joined(lines), whole);
}

proof fn lemma_joined(b: Seq<u8>, cuts: Seq<int>, lines: Seq<Seq<(usize, usize)>>)
    requires
        cuts.len() == lines.len() + 1,
        forall|k: int| 0 <= k < lines.len() ==> cuts[k] < #[trigger] cuts[k + 1],
        forall|k: int|
            0 <= k < lines.len() ==> are_lines_of(b, cuts[k], cuts[k + 1], #[trigger] lines[k]),
    ensures
        cuts[0] <= cuts.last(),
        are_lines_of(b, cuts[0], cuts.last(), joined(lines)),
        line_count(lines) == joined(lines).len(),
    decreases lines.len(),
{
    if lines.len() > 0 {
        let front = lines.drop_last();
        let to = cuts.drop_last();
        assert forall|k: int| 0 <= k < front.len() implies to[k] < #[trigger] to[k + 1] by {
            assert(cuts[k] < cuts[k + 1]);
        }
        assert forall|k: int| 0 <= k < front.len() implies are_lines_of(
            b,
            to[k],
            to[k + 1],
            #[trigger] front[k],
        ) by {
            assert(front[k] == lines[k]);
        }
        lemma_joined(b, to, front);
        let n = lines.len() - 1;
        assert(lines[n] == lines.last());
        assert(cuts[n] < cuts[n + 1]);
        lemma_lines_join(b, cuts[0], cuts[n], cuts[n + 1], joined(front), lines.last());
    }
}

} // verus!
