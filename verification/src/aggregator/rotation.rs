//! What is decided about log files that were rotated, renamed, copied, cut or compressed.

use vstd::prelude::*;

use super::resume::{
    point_of, primary_of, relation_of, retired_of, step_of, FileContext, FileRelation,
    Fingerprints, Known, ResumePoint, StepView,
};
use crate::compression::CompressionType;
use crate::database::ParseState;

verus! {

/// A file as it is found, and the record that counts for it.
pub struct Found<'a> {
    pub record: Option<&'a ParseState>,
    /// A record with the same head.
    pub twin: Option<&'a ParseState>,
    pub path: Seq<char>,
    pub inode: u64,
    pub size: u64,
    pub mtime_ns: i64,
    pub compressed: bool,
    /// The path has a record of another inode.
    pub replaced: bool,
    pub fps: Fingerprints,
}

impl<'a> Found<'a> {
    /// What happened to the file.
    pub open spec fn relation(self) -> FileRelation {
        relation_of(
            self.record,
            self.twin,
            self.path,
            self.inode,
            self.size,
            self.mtime_ns,
            self.compressed,
            self.replaced,
            self.fps,
        )
    }

    /// Where the file is read on.
    pub open spec fn point(self) -> ResumePoint {
        point_of(self.relation(), self.record, self.size, self.compressed)
    }

    /// The size that the record stores for a file of this kind.
    pub open spec fn old_size(self) -> u64 {
        if self.compressed {
            self.record->0.compressed_size
        } else {
            self.record->0.uncompressed_size
        }
    }
}

/// An offset, or the size of the file where that is smaller.
pub open spec fn at_most(offset: u64, size: u64) -> u64 {
    if offset < size {
        offset
    } else {
        size
    }
}

/// A plain file that took the place of another is read from its first byte, whatever the sizes are:
/// where the record is of another inode and its head is known and is not the file's, no stored
/// offset is used. So is a plain file of the same inode whose contents were written anew to the same
/// size.
pub proof fn law_replaced_file_restarts(f: Found)
    requires
        !f.compressed,
        f.record matches Some(s) && s.uncompressed_head_fingerprint is Some
            && s.uncompressed_head_fingerprint != f.fps.uncompressed_head,
        (f.replaced && f.record->0.inode != f.inode) || (f.record->0.completed && f.size
            == f.record->0.uncompressed_size),
    ensures
        f.point() == ResumePoint::FromZero,
{
}

/// A file that has shrunk is read anew, whatever else is known of it.
pub proof fn law_cut_file_restarts(f: Found)
    requires
        f.record is Some,
        f.size < f.old_size(),
    ensures
        f.point() == ResumePoint::FromZero,
{
}

/// A plain file that has grown in its place is read on from where it was left. So is one that was
/// copied or moved to another inode, if its head is that of its record.
pub proof fn law_grown_file_reads_on(f: Found)
    requires
        !f.compressed,
        f.record matches Some(s) && 0 < s.uncompressed_size < f.size,
        !f.replaced || (f.fps.uncompressed_head is Some && f.record->0.uncompressed_head_fingerprint
            == f.fps.uncompressed_head),
    ensures
        f.point() == ResumePoint::PlainOffset(at_most(f.record->0.uncompressed_offset, f.size)),
{
}

/// A compressed file that has grown is decompressed anew and what was read of it is dropped: where
/// its inode is that of its record, or its head is and something was read.
pub proof fn law_grown_archive_reads_on(f: Found)
    requires
        f.compressed,
        f.record matches Some(s) && 0 < s.compressed_size < f.size,
        f.record->0.inode == f.inode || (f.fps.uncompressed_head is Some
            && f.record->0.uncompressed_head_fingerprint == f.fps.uncompressed_head
            && f.record->0.uncompressed_offset > 0),
    ensures
        f.point() == ResumePoint::DecodedOffset(f.record->0.uncompressed_offset),
{
}

/// A file that was not read to its end is read on where it was left, if it is still the same file:
/// a plain one of the same size, or a compressed one that has not shrunk.
pub proof fn law_interrupted_file_reads_on(f: Found)
    requires
        f.record matches Some(s) && !s.completed && s.inode == f.inode && s.uncompressed_offset > 0,
        if f.compressed {
            f.size >= f.old_size()
        } else {
            f.size == f.old_size()
        },
    ensures
        f.point() == if f.compressed {
            ResumePoint::DecodedOffset(f.record->0.uncompressed_offset)
        } else {
            ResumePoint::PlainOffset(at_most(f.record->0.uncompressed_offset, f.size))
        },
{
}

/// A file is left alone on its contents if and only if it is plain and a completed record has its
/// size, its head and its time, or no time, and either stands under another path or has its inode.
pub proof fn law_known_contents_are_skipped(f: Found)
    ensures
        f.point() == ResumePoint::Skip <==> !f.compressed && (f.record matches Some(s) && {
            &&& s.completed
            &&& s.uncompressed_size == f.size
            &&& s.uncompressed_head_fingerprint == f.fps.uncompressed_head
            &&& s.mtime_ns == 0 || s.mtime_ns == f.mtime_ns
            &&& s.filepath@ != f.path || s.inode == f.inode
        }),
{
}

/// A file without a record starts at the offset of a record that has its head, or at its start where
/// there is none.
pub proof fn law_unknown_file_follows_its_head(f: Found)
    requires
        f.record is None,
    ensures
        f.point() == match f.twin {
            Some(t) => if t.uncompressed_offset == 0 {
                ResumePoint::FromZero
            } else if f.compressed {
                ResumePoint::DecodedOffset(t.uncompressed_offset)
            } else {
                ResumePoint::PlainOffset(at_most(t.uncompressed_offset, f.size))
            },
            None => ResumePoint::FromZero,
        },
{
}

/// Nothing is passed over without a reason. What a plain file is read on from is the offset of its
/// record, where the file is not smaller than it was and has the same place or the same head; or
/// that of a record with its head. What is dropped of a compressed one is what its record or one
/// with its head has read.
pub proof fn law_every_offset_has_a_reason(f: Found)
    ensures
        f.point() matches ResumePoint::PlainOffset(n) ==> {
            ||| f.record matches Some(s) && n == at_most(s.uncompressed_offset, f.size)
                && s.uncompressed_size <= f.size && (!f.replaced || s.inode == f.inode || (
            s.uncompressed_head_fingerprint is Some && s.uncompressed_head_fingerprint
                == f.fps.uncompressed_head))
            ||| f.twin matches Some(t) && n == at_most(t.uncompressed_offset, f.size)
                && t.uncompressed_offset > 0 && (f.record matches Some(s) ==> {
                &&& s.uncompressed_size <= f.size
                &&& s.uncompressed_head_fingerprint is None || s.uncompressed_head_fingerprint
                    == f.fps.uncompressed_head
            })
        },
        f.point() matches ResumePoint::DecodedOffset(n) ==> {
            ||| f.record matches Some(s) && n == s.uncompressed_offset && s.compressed_size
                <= f.size && (s.inode == f.inode || (s.uncompressed_head_fingerprint is Some
                && s.uncompressed_head_fingerprint == f.fps.uncompressed_head && n > 0))
            ||| f.twin matches Some(t) && n == t.uncompressed_offset && n > 0
        },
{
}

/// The record that counts is one of the file's own inode where there is one, that of its path before
/// another; and where there is none, that of its path.
pub proof fn law_own_inode_counts_first<'a>(
    by_path: Option<&'a ParseState>,
    by_inode: Option<&'a ParseState>,
    inode: u64,
)
    requires
        by_inode matches Some(s) ==> s.inode == inode,
    ensures
        ({
            let r = primary_of(by_path, by_inode, inode);
            &&& r is None <==> by_path is None && by_inode is None
            &&& r is Some ==> r == by_path || r == by_inode
            &&& (by_path matches Some(s) && s.inode == inode) ==> r == by_path
            &&& by_inode is Some ==> r->0.inode == inode
        }),
{
}

/// A record is retired where it no longer tells of the file: that of the path where the file has
/// another inode or has shrunk, and that of the inode where the file has another path.
pub proof fn law_stale_records_are_retired(
    by_path: Option<ParseState>,
    by_inode: Option<ParseState>,
    inode: u64,
    size: u64,
    compressed: bool,
    path: Seq<char>,
)
    ensures
        ({
            let r = retired_of(by_path, by_inode, inode, size, compressed, path);
            let gone: int = if by_path matches Some(s) && (s.inode != inode || size < if compressed {
                s.compressed_size
            } else {
                s.uncompressed_size
            }) {
                1
            } else {
                0
            };
            let moved: int = if by_inode matches Some(s) && s.filepath@ != path {
                1
            } else {
                0
            };
            &&& r.len() == gone + moved
            &&& gone == 1 ==> r[0] == by_path->0@
            &&& moved == 1 ==> r.last() == by_inode->0@
        }),
{
}

/// A file is decided without being read if and only if its record is completed and has its inode,
/// its time and its size, and was read to that size; and then nothing is read.
pub proof fn law_untouched_file_is_not_opened(ctx: FileContext)
    ensures
        step_of(ctx, Known::Facts) is Done <==> (ctx.primary() matches Some(s) && {
            &&& s.completed
            &&& s.inode == ctx.facts.inode
            &&& s.mtime_ns == ctx.facts.mtime_ns
            &&& if ctx.facts.compression != CompressionType::Plain {
                s.compressed_size == ctx.facts.stat_size && s.compressed_offset
                    >= ctx.facts.stat_size
            } else {
                s.uncompressed_size == ctx.facts.stat_size && s.uncompressed_offset
                    >= ctx.facts.stat_size
            }
        }),
        step_of(ctx, Known::Facts) matches StepView::Done(o) ==> o.plan is None,
{
}

/// A compressed file is left alone on its own record if and only if that is completed and has its
/// inode, its compressed size and head, and its time or none.
pub proof fn law_known_archive_is_skipped(ctx: FileContext, fps: Fingerprints)
    requires
        ctx.facts.compression != CompressionType::Plain,
    ensures
        (step_of(ctx, Known::Fingerprints(fps)) matches StepView::Done(o) && o.plan is None)
            <==> (ctx.primary() matches Some(s) && {
            &&& s.completed
            &&& s.inode == ctx.facts.inode
            &&& s.compressed_size == ctx.facts.stat_size
            &&& s.compressed_head_fingerprint == fps.compressed_head
            &&& s.mtime_ns == 0 || s.mtime_ns == ctx.facts.mtime_ns
        }),
{
}

/// A copy of a file that was read is left alone, and its record says that all of it was read:
/// once a completed file with the same identity is found, nothing is planned, and what is stored is
/// of this file and complete.
pub proof fn law_copies_are_skipped(
    ctx: FileContext,
    fps: Fingerprints,
    head: Option<&ParseState>,
    size: u64,
)
    ensures
        step_of(ctx, Known::Duplicate(fps, head, Some(size))) matches StepView::Done(o) && {
            &&& o.plan is None
            &&& o.skipped matches Some(s) && {
                &&& s.filepath == ctx.filepath@
                &&& s.inode == ctx.facts.inode
                &&& s.mtime_ns == ctx.facts.mtime_ns
                &&& s.completed
                &&& s.uncompressed_offset == s.uncompressed_size
                &&& s.compressed_offset == s.compressed_size
                &&& s.uncompressed_head_fingerprint == fps.uncompressed_head
                &&& ctx.facts.compression != CompressionType::Plain ==> s.uncompressed_size == size
                    && s.compressed_size == ctx.facts.stat_size && s.compressed_head_fingerprint
                    == fps.compressed_head
                &&& ctx.facts.compression == CompressionType::Plain ==> s.uncompressed_size
                    == fps.uncompressed_size && s.compressed_size == 0
                    && s.compressed_head_fingerprint is None
            }
        },
{
}

/// A completed copy is looked for by the head and the size of the file, unless its own record can be
/// trusted: unless the path's record is of the same inode and the file has grown, or a record of the
/// inode exists and the path has none of another. A record with the same head is looked for where
/// the file has no record, or took the place of another.
pub proof fn law_what_is_looked_for(ctx: FileContext, fps: Fingerprints)
    requires
        !(step_of(ctx, Known::Fingerprints(fps)) is Done),
    ensures
        ({
            let taken = ctx.by_path matches Some(s) && s.inode != ctx.facts.inode;
            let step = step_of(ctx, Known::Fingerprints(fps));
            let compressed = ctx.facts.compression != CompressionType::Plain;
            &&& step is FindHead <==> taken || (ctx.by_path is None && ctx.by_inode is None)
            &&& step matches StepView::FindHead(q) ==> {
                &&& q.uncompressed == fps.uncompressed_head
                &&& q.compressed == if compressed {
                    fps.compressed_head
                } else {
                    None
                }
            }
            &&& step matches StepView::FindDuplicate(q) ==> match q {
                super::resume::DuplicateQuery::Compressed { head, size } => compressed && Some(head)
                    == fps.compressed_head && size == ctx.facts.stat_size,
                super::resume::DuplicateQuery::Uncompressed { head, size } => !compressed && Some(
                    head,
                ) == fps.uncompressed_head && size == fps.uncompressed_size,
            }
        }),
{
}

/// A plain file that took the place of the one that its path's record tells of is read whole, where
/// the record's head is known and is not the file's: whatever the sizes are and whatever other record
/// has the file's head, the plan starts at the first byte.
pub proof fn law_replaced_path_is_read_whole(
    ctx: FileContext,
    fps: Fingerprints,
    twin: Option<&ParseState>,
)
    requires
        ctx.facts.compression == CompressionType::Plain,
        ctx.by_path matches Some(s) && s.inode != ctx.facts.inode
            && s.uncompressed_head_fingerprint is Some && s.uncompressed_head_fingerprint
            != fps.uncompressed_head,
        ctx.by_inode is None,
    ensures
        step_of(ctx, Known::Duplicate(fps, twin, None)) matches StepView::Done(o) && o.plan matches
            Some(p) && p.offset == 0 && p.skip_decoded_prefix_bytes == 0,
        step_of(ctx, Known::Head(fps, twin)) matches StepView::Done(o) ==> o.plan matches Some(p)
            && p.offset == 0 && p.skip_decoded_prefix_bytes == 0,
{
}

/// A file that is read is read by what was learnt of it: the plan has its inode, size, time, kind and
/// heads. Entries that are older than what the path's record says, or else the record of the inode,
/// are passed over.
pub proof fn law_plan_tells_of_the_file(
    ctx: FileContext,
    fps: Fingerprints,
    twin: Option<&ParseState>,
)
    ensures
        ({
            let step = step_of(ctx, Known::Duplicate(fps, twin, None));
            &&& step is Done
            &&& step->Done_0.plan matches Some(p) ==> {
                &&& p.current_inode == ctx.facts.inode
                &&& p.stat_size == ctx.facts.stat_size
                &&& p.mtime_ns == ctx.facts.mtime_ns
                &&& p.compression == ctx.facts.compression
                &&& p.uncompressed_size == Some(fps.uncompressed_size)
                &&& p.compressed_head_fingerprint == fps.compressed_head
                &&& p.uncompressed_head_fingerprint == fps.uncompressed_head
                &&& step->Done_0.skipped is None
                &&& (ctx.by_path matches Some(s) && s.skip_before_ts is Some) ==> p.skip_before_ts
                    == ctx.by_path->0.skip_before_ts
                &&& (ctx.by_path matches Some(s) ==> s.skip_before_ts is None) ==> p.skip_before_ts
                    == match ctx.by_inode {
                    Some(s) => s.skip_before_ts,
                    None => None,
                }
            }
        }),
{
}

/// A file that was only moved is not read, and its record is kept under the new path: with the same
/// sizes, offsets, heads and entries' times, and with the inode and time that the file has. One that
/// stands where it stood stores nothing.
pub proof fn law_moved_file_keeps_its_record(ctx: FileContext)
    ensures
        step_of(ctx, Known::Facts) matches StepView::Done(o) ==> ctx.primary() matches Some(s) && {
            &&& s.filepath@ == ctx.filepath@ ==> o.skipped is None
            &&& s.filepath@ != ctx.filepath@ ==> (o.skipped matches Some(k) && {
                &&& k.filepath == ctx.filepath@
                &&& k.inode == ctx.facts.inode
                &&& k.mtime_ns == ctx.facts.mtime_ns
                &&& k.completed
                &&& k.compressed_size == s.compressed_size
                &&& k.uncompressed_size == s.uncompressed_size
                &&& k.compressed_offset == s.compressed_offset
                &&& k.uncompressed_offset == s.uncompressed_offset
                &&& k.compressed_head_fingerprint == s.compressed_head_fingerprint
                &&& k.uncompressed_head_fingerprint == s.uncompressed_head_fingerprint
                &&& k.earliest_ts == s.earliest_ts
                &&& k.latest_ts == s.latest_ts
            })
        },
{
}

/// A plain file of the size that its record says, which the record neither makes known nor reads on,
/// follows another record with its head, unless its own record has another head.
pub proof fn law_file_of_the_same_size(f: Found)
    requires
        !f.compressed,
        f.record matches Some(s) && s.uncompressed_size == f.size && (
        s.uncompressed_head_fingerprint is None || s.uncompressed_head_fingerprint
            == f.fps.uncompressed_head) && (s.completed || s.uncompressed_offset == 0 || s.inode
            != f.inode),
        f.point() != ResumePoint::Skip,
    ensures
        f.point() == match f.twin {
            Some(t) => if t.uncompressed_offset == 0 {
                ResumePoint::FromZero
            } else {
                ResumePoint::PlainOffset(at_most(t.uncompressed_offset, f.size))
            },
            None => ResumePoint::FromZero,
        },
{
}

/// What happened to a file has one name: it is the same one under its own path, a copy under another,
/// one that has grown or was not finished, one that was compressed since, one that only its head
/// tells of, or a new one.
pub proof fn law_relations_by_their_names(f: Found)
    ensures
        match f.relation() {
            FileRelation::Identical => f.record matches Some(s) && s.filepath@ == f.path && s.inode
                == f.inode && !f.compressed,
            FileRelation::AliasPath => f.record matches Some(s) && s.filepath@ != f.path
                && !f.compressed,
            FileRelation::PlainExtended => f.record is Some && !f.compressed,
            FileRelation::CompressedExtended => f.record is Some && f.compressed,
            FileRelation::RotatedPlainToGz => f.record matches Some(s) && s.compressed_size == 0
                && f.compressed && s.uncompressed_offset > 0 && s.uncompressed_head_fingerprint
                is Some && s.uncompressed_head_fingerprint == f.fps.uncompressed_head,
            FileRelation::HeadMatch(n) => f.twin matches Some(t) && n == t.uncompressed_offset && n
                > 0,
            FileRelation::Unrelated => f.point() == ResumePoint::FromZero,
        },
        f.compressed && (f.record matches Some(s) && s.compressed_size == 0 && s.uncompressed_offset
            > 0 && s.uncompressed_head_fingerprint is Some && s.uncompressed_head_fingerprint
            == f.fps.uncompressed_head) ==> f.relation() == FileRelation::RotatedPlainToGz,
{
}

/// A completed copy of a file is looked for if its own head is known, unless the records of the file
/// itself are to be trusted: unless the path's record has its inode and is of a smaller size, or
/// there is a record of its inode while the path has none of another.
pub proof fn law_when_copies_are_looked_for(
    ctx: FileContext,
    fps: Fingerprints,
    twin: Option<&ParseState>,
)
    ensures
        ({
            let compressed = ctx.facts.compression != CompressionType::Plain;
            let grown = ctx.by_path matches Some(s) && s.inode == ctx.facts.inode
                && ctx.facts.stat_size > if compressed {
                s.compressed_size
            } else {
                s.uncompressed_size
            };
            let own = ctx.by_inode is Some && (ctx.by_path matches Some(s) ==> s.inode
                == ctx.facts.inode);
            let known = if compressed {
                fps.compressed_head is Some
            } else {
                fps.uncompressed_head is Some && fps.uncompressed_size > 0
            };
            step_of(ctx, Known::Head(fps, twin)) is FindDuplicate <==> !grown && !own && known
        }),
{
}

/// A file that its contents or its archive make known is not read again, and where it has a new path
/// a record is kept under it: that of the file that was read, with the inode, the time, the raw size
/// and the heads of the file that was found.
pub proof fn law_known_file_is_recorded(
    ctx: FileContext,
    fps: Fingerprints,
    twin: Option<&ParseState>,
    known: Known,
)
    requires
        known == Known::Fingerprints(fps) || known == Known::Duplicate(fps, twin, None),
        step_of(ctx, known) is Done,
        step_of(ctx, known)->Done_0.plan is None,
    ensures
        ctx.primary() matches Some(s) && {
            let o = step_of(ctx, known)->Done_0;
            let compressed = ctx.facts.compression != CompressionType::Plain;
            &&& s.filepath@ == ctx.filepath@ ==> o.skipped is None
            &&& s.filepath@ != ctx.filepath@ ==> (o.skipped matches Some(k) && {
                &&& k.filepath == ctx.filepath@
                &&& k.inode == ctx.facts.inode
                &&& k.mtime_ns == ctx.facts.mtime_ns
                &&& k.completed
                &&& k.uncompressed_size == s.uncompressed_size
                &&& k.uncompressed_offset == s.uncompressed_offset
                &&& k.compressed_head_fingerprint == fps.compressed_head
                &&& fps.uncompressed_head is Some ==> k.uncompressed_head_fingerprint
                    == fps.uncompressed_head
                &&& fps.uncompressed_head is None ==> k.uncompressed_head_fingerprint
                    == s.uncompressed_head_fingerprint
                &&& compressed ==> k.compressed_size == ctx.facts.stat_size && k.compressed_offset
                    == ctx.facts.stat_size
                &&& !compressed ==> k.compressed_size == 0 && k.compressed_offset == 0
            })
        },
{
}

} // verus!
