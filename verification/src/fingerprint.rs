//! File identity: hashes of a file's first bytes, raw and decompressed.

use std::hash::Hasher;
use std::io::Read;

use twox_hash::XxHash3_64;
use vstd::prelude::*;
use vstd::string::*;

use crate::compression::{compression_of, CompressionType};

verus! {

/// How many bytes of a file's head make its fingerprint.
pub const FINGERPRINT_SAMPLE: usize = 8_192;

// ── Hashing and decompressing ───────────────────────────────────────────────

/// The 64-bit XXH3 hash of bytes, with the default seed and secret.
pub uninterp spec fn xxh3_64(bytes: Seq<u8>) -> u64;

/// `twox_hash::XxHash3_64`, default state, fed with the bytes once.
#[verifier::external_body]
pub(crate) fn xxh3(bytes: &[u8]) -> (r: u64)
    ensures
        r == xxh3_64(bytes@),
{
    let mut hasher = XxHash3_64::default();
    hasher.write(bytes);
    hasher.finish()
}

/// The hash of a byte sample.
pub fn hash_sample(bytes: &[u8]) -> (r: u64)
    ensures
        r == xxh3_64(bytes@),
{
    xxh3(bytes)
}

/// How many bytes are read from a decoder at once.
pub const READ_SIZE: usize = 8_192;

/// A chunk of decoded bytes, where there is one.
pub open spec fn opt_chunk(c: Option<Vec<u8>>) -> Option<Seq<u8>> {
    match c {
        Some(v) => Some(v@),
        None => None,
    }
}

/// A decoder of gzip data, `flate2::bufread::MultiGzDecoder`.
#[verifier::external_type_specification]
#[verifier::external_body]
#[verifier::reject_recursive_types(R)]
pub struct ExMultiGzDecoder<R>(flate2::bufread::MultiGzDecoder<R>);

/// What a decoder was made of, and the sizes of the slices that were read from it so far.
pub uninterp spec fn gz_reads(d: flate2::bufread::MultiGzDecoder<&[u8]>) -> (Seq<u8>, Seq<usize>);

/// What the last of some reads from the decoder of gzip data gives, by the sizes of the slices;
/// `None` for an error.
pub uninterp spec fn gz_chunk(raw: Seq<u8>, sizes: Seq<usize>) -> Option<Seq<u8>>;

/// `flate2::bufread::MultiGzDecoder::new`: a decoder from which nothing was read yet.
#[verifier::external_body]
fn gz_open(raw: &[u8]) -> (d: flate2::bufread::MultiGzDecoder<&[u8]>)
    ensures
        gz_reads(d) == (raw@, Seq::<usize>::empty()),
{
    flate2::bufread::MultiGzDecoder::new(raw)
}

/// `flate2::bufread::MultiGzDecoder::read`, once, into a slice of `n` bytes. What a read gives follows
/// from the data and from the sizes of the reads up to it: a read that meets an error gives
/// nothing of what it had decoded.
#[verifier::external_body]
fn gz_read(d: &mut flate2::bufread::MultiGzDecoder<&[u8]>, n: usize) -> (r: Option<Vec<u8>>)
    requires
        n > 0,
    ensures
        gz_reads(*final(d)) == (gz_reads(*old(d)).0, gz_reads(*old(d)).1.push(n)),
        opt_chunk(r) == gz_chunk(gz_reads(*old(d)).0, gz_reads(*old(d)).1.push(n)),
        r matches Some(c) ==> c@.len() <= n,
{
    let mut chunk = vec![0; n];
    let got = d.read(chunk.as_mut_slice()).ok()?;
    chunk.truncate(got);
    Some(chunk)
}

/// A decoder of bzip2 data, `bzip2::bufread::MultiBzDecoder`.
#[verifier::external_type_specification]
#[verifier::external_body]
#[verifier::reject_recursive_types(R)]
pub struct ExMultiBzDecoder<R>(bzip2::bufread::MultiBzDecoder<R>);

/// What a decoder was made of, and the sizes of the slices that were read from it so far.
pub uninterp spec fn bz2_reads(d: bzip2::bufread::MultiBzDecoder<&[u8]>) -> (Seq<u8>, Seq<usize>);

/// What the last of some reads from the decoder of bzip2 data gives, by the sizes of the slices;
/// `None` for an error.
pub uninterp spec fn bz2_chunk(raw: Seq<u8>, sizes: Seq<usize>) -> Option<Seq<u8>>;

/// `bzip2::bufread::MultiBzDecoder::new`: a decoder from which nothing was read yet.
#[verifier::external_body]
fn bz2_open(raw: &[u8]) -> (d: bzip2::bufread::MultiBzDecoder<&[u8]>)
    ensures
        bz2_reads(d) == (raw@, Seq::<usize>::empty()),
{
    bzip2::bufread::MultiBzDecoder::new(raw)
}

/// `bzip2::bufread::MultiBzDecoder::read`, once, into a slice of `n` bytes. What a read gives follows
/// from the data and from the sizes of the reads up to it: a read that meets an error gives
/// nothing of what it had decoded.
#[verifier::external_body]
fn bz2_read(d: &mut bzip2::bufread::MultiBzDecoder<&[u8]>, n: usize) -> (r: Option<Vec<u8>>)
    requires
        n > 0,
    ensures
        bz2_reads(*final(d)) == (bz2_reads(*old(d)).0, bz2_reads(*old(d)).1.push(n)),
        opt_chunk(r) == bz2_chunk(bz2_reads(*old(d)).0, bz2_reads(*old(d)).1.push(n)),
        r matches Some(c) ==> c@.len() <= n,
{
    let mut chunk = vec![0; n];
    let got = d.read(chunk.as_mut_slice()).ok()?;
    chunk.truncate(got);
    Some(chunk)
}

/// A decoder of brotli data, a `brotli::Decompressor`.
#[verifier::external_body]
pub struct BrDecoder<'a> {
    inner: brotli::Decompressor<&'a [u8]>,
}

/// What a decoder was made of, and the sizes of the slices that were read from it so far.
pub uninterp spec fn br_reads(d: BrDecoder) -> (Seq<u8>, Seq<usize>);

/// What the last of some reads from the decoder of brotli data gives, by the sizes of the slices;
/// `None` for an error.
pub uninterp spec fn br_chunk(raw: Seq<u8>, sizes: Seq<usize>) -> Option<Seq<u8>>;

/// `brotli::Decompressor::new`, with an input buffer of 8192 bytes: a decoder from which nothing was
/// read yet.
#[verifier::external_body]
fn br_open(raw: &[u8]) -> (d: BrDecoder)
    ensures
        br_reads(d) == (raw@, Seq::<usize>::empty()),
{
    BrDecoder { inner: brotli::Decompressor::new(raw, 8192) }
}

/// `brotli::Decompressor::read`, once, into a slice of `n` bytes. What a read gives follows
/// from the data and from the sizes of the reads up to it: a read that meets an error gives
/// nothing of what it had decoded.
#[verifier::external_body]
fn br_read(d: &mut BrDecoder, n: usize) -> (r: Option<Vec<u8>>)
    requires
        n > 0,
    ensures
        br_reads(*final(d)) == (br_reads(*old(d)).0, br_reads(*old(d)).1.push(n)),
        opt_chunk(r) == br_chunk(br_reads(*old(d)).0, br_reads(*old(d)).1.push(n)),
        r matches Some(c) ==> c@.len() <= n,
{
    let mut chunk = vec![0; n];
    let got = d.inner.read(chunk.as_mut_slice()).ok()?;
    chunk.truncate(got);
    Some(chunk)
}

/// What the last of some reads from a decoder gives, by the sizes of the slices; `None` for an
/// error.
pub open spec fn chunk_of(
    raw: Seq<u8>,
    compression: CompressionType,
    sizes: Seq<usize>,
) -> Option<Seq<u8>> {
    match compression {
        CompressionType::Plain => None,
        CompressionType::Gz => gz_chunk(raw, sizes),
        CompressionType::Bz2 => bz2_chunk(raw, sizes),
        CompressionType::Br => br_chunk(raw, sizes),
    }
}

/// The size of the next read where there is room for so many bytes.
pub open spec fn next_size(room: nat) -> usize {
    if room < READ_SIZE {
        room as usize
    } else {
        READ_SIZE
    }
}

/// What further reads give, one after the other, up to a number of bytes, and whether that many
/// bytes or the end of the data came before an error did. The end of the data is a read that gives
/// nothing.
pub open spec fn text_of(
    raw: Seq<u8>,
    compression: CompressionType,
    sizes: Seq<usize>,
    room: nat,
) -> (Seq<u8>, bool)
    decreases room,
{
    if room == 0 {
        (Seq::empty(), true)
    } else {
        let now = sizes.push(next_size(room));
        match chunk_of(raw, compression, now) {
            None => (Seq::empty(), false),
            Some(chunk) => if 0 < chunk.len() <= room {
                let rest = text_of(raw, compression, now, (room - chunk.len()) as nat);
                (chunk + rest.0, rest.1)
            } else {
                (Seq::empty(), true)
            },
        }
    }
}

/// What a file's bytes hold once decompressed, up to a number of decoded bytes, and whether no
/// error cut it short. A plain file holds its bytes.
pub open spec fn decoded(raw: Seq<u8>, compression: CompressionType, limit: u64) -> (
    Seq<u8>,
    bool,
) {
    match compression {
        CompressionType::Plain => (
            raw.take(if raw.len() <= limit {
                raw.len() as int
            } else {
                limit as int
            }),
            true,
        ),
        _ => text_of(raw, compression, Seq::empty(), limit as nat),
    }
}

/// A decoder of a file's bytes.
enum Decoder<'a> {
    Gz(flate2::bufread::MultiGzDecoder<&'a [u8]>),
    Bz2(bzip2::bufread::MultiBzDecoder<&'a [u8]>),
    Br(BrDecoder<'a>),
}

impl<'a> Decoder<'a> {
    spec fn compression(self) -> CompressionType {
        match self {
            Decoder::Gz(_) => CompressionType::Gz,
            Decoder::Bz2(_) => CompressionType::Bz2,
            Decoder::Br(_) => CompressionType::Br,
        }
    }

    /// What the decoder was made of, and the sizes of the reads so far.
    spec fn reads(self) -> (Seq<u8>, Seq<usize>) {
        match self {
            Decoder::Gz(d) => gz_reads(d),
            Decoder::Bz2(d) => bz2_reads(d),
            Decoder::Br(d) => br_reads(d),
        }
    }

    fn read_chunk(&mut self, n: usize) -> (r: Option<Vec<u8>>)
        requires
            n > 0,
        ensures
            final(self).compression() == old(self).compression(),
            final(self).reads() == (old(self).reads().0, old(self).reads().1.push(n)),
            opt_chunk(r) == chunk_of(
                old(self).reads().0,
                old(self).compression(),
                old(self).reads().1.push(n),
            ),
            r matches Some(c) ==> c@.len() <= n,
    {
        match self {
            Decoder::Gz(d) => gz_read(d, n),
            Decoder::Bz2(d) => bz2_read(d, n),
            Decoder::Br(d) => br_read(d, n),
        }
    }

    fn read_all(&mut self, limit: u64) -> (r: (Vec<u8>, bool))
        ensures
            (r.0@, r.1) == text_of(
                old(self).reads().0,
                old(self).compression(),
                old(self).reads().1,
                limit as nat,
            ),
            r.0@.len() <= limit,
    {
        let ghost raw = self.reads().0;
        let ghost c = self.compression();
        let ghost whole = text_of(raw, c, self.reads().1, limit as nat);
        let mut out: Vec<u8> = Vec::new();
        let mut room: u64 = limit;
        assert(out@ + whole.0 =~= whole.0);
        while room > 0
            invariant
                self.reads().0 == raw,
                self.compression() == c,
                out@.len() + room == limit,
                whole == text_of(
                    old(self).reads().0,
                    old(self).compression(),
                    old(self).reads().1,
                    limit as nat,
                ),
                whole == (
                    out@ + text_of(raw, c, self.reads().1, room as nat).0,
                    text_of(raw, c, self.reads().1, room as nat).1,
                ),
            decreases room,
        {
            let n: usize = if room < READ_SIZE as u64 {
                room as usize
            } else {
                READ_SIZE
            };
            let ghost before = out@;
            match self.read_chunk(n) {
                None => {
                    assert(out@ + Seq::<u8>::empty() =~= out@);
                    return (out, false);
                },
                Some(chunk) => {
                    if chunk.len() == 0 {
                        assert(out@ + Seq::<u8>::empty() =~= out@);
                        return (out, true);
                    }
                    out.extend_from_slice(chunk.as_slice());
                    room = room - chunk.len() as u64;
                    proof {
                        let rest = text_of(raw, c, self.reads().1, room as nat);
                        assert(out@ =~= before + chunk@);
                        assert(before + (chunk@ + rest.0) =~= out@ + rest.0);
                    }
                },
            }
        }
        assert(out@ + Seq::<u8>::empty() =~= out@);
        (out, true)
    }
}

/// Decompresses a file's bytes, up to a number of decoded bytes. Where an error cuts the text short,
/// it is what the reads before the one that met the error gave.
pub fn decode(raw: &[u8], compression: CompressionType, limit: u64) -> (r: (Vec<u8>, bool))
    ensures
        (r.0@, r.1) == decoded(raw@, compression, limit),
        r.0@.len() <= limit,
{
    let mut decoder = match compression {
        CompressionType::Plain => {
            let n: usize = if raw.len() as u64 <= limit {
                raw.len()
            } else {
                limit as usize
            };
            let mut out: Vec<u8> = Vec::new();
            out.extend_from_slice(vstd::slice::slice_subrange(raw, 0, n));
            assert(out@ =~= raw@.take(n as int));
            return (out, true);
        },
        CompressionType::Gz => Decoder::Gz(gz_open(raw)),
        CompressionType::Bz2 => Decoder::Bz2(bz2_open(raw)),
        CompressionType::Br => Decoder::Br(br_open(raw)),
    };
    decoder.read_all(limit)
}

// ── Fingerprints ────────────────────────────────────────────────────────────

/// What identifies a file's contents: the hash of its decompressed head and its decompressed size.
#[derive(Debug, Clone, Copy, PartialEq, Eq, Structural)]
pub struct FileFingerprint {
    pub head: u64,
    pub logical_size: u64,
}

/// A compressed file whose data could not be decompressed.
#[derive(Debug, Clone, Copy, PartialEq, Eq, Structural)]
pub struct DecodeError;

/// At most `n` bytes from the front.
pub open spec fn head_of(bytes: Seq<u8>, n: int) -> Seq<u8> {
    bytes.take(if bytes.len() <= n {
        bytes.len() as int
    } else {
        n
    })
}

/// The hash of the head of bytes; `None` if there are none.
pub open spec fn head_hash(bytes: Seq<u8>) -> Option<u64> {
    if bytes.len() == 0 {
        None
    } else {
        Some(xxh3_64(head_of(bytes, FINGERPRINT_SAMPLE as int)))
    }
}

/// The hash of the first bytes of a sample; `None` for an empty one.
pub fn hash_head(bytes: &[u8]) -> (r: Option<u64>)
    ensures
        r == head_hash(bytes@),
{
    let n: usize = if bytes.len() <= FINGERPRINT_SAMPLE {
        bytes.len()
    } else {
        FINGERPRINT_SAMPLE
    };
    if n == 0 {
        return None;
    }
    let head = vstd::slice::slice_subrange(bytes, 0, n);
    assert(head@ =~= head_of(bytes@, FINGERPRINT_SAMPLE as int));
    Some(hash_sample(head))
}

/// The fingerprint of a plain file of `size` bytes that starts with `sample`.
pub open spec fn plain_fingerprint(sample: Seq<u8>, size: u64) -> Option<FileFingerprint> {
    match head_hash(head_of(sample, size as int)) {
        Some(head) => Some(FileFingerprint { head, logical_size: size }),
        None => None,
    }
}

/// The fingerprint of what a compressed file decompresses to.
pub open spec fn decoded_fingerprint(contents: Seq<u8>) -> Option<FileFingerprint> {
    match head_hash(contents) {
        Some(head) => Some(FileFingerprint { head, logical_size: contents.len() as u64 }),
        None => None,
    }
}

/// The fingerprint of decompressed contents; `None` for empty ones.
pub fn fingerprint_of_contents(contents: &[u8]) -> (r: Option<FileFingerprint>)
    ensures
        r == decoded_fingerprint(contents@),
{
    match hash_head(contents) {
        Some(head) => Some(FileFingerprint { head, logical_size: contents.len() as u64 }),
        None => None,
    }
}

/// The fingerprint of a file by its path, its size and its bytes. Of a plain file the first
/// `FINGERPRINT_SAMPLE` bytes are enough; of a compressed one all are needed. `None` for an empty
/// file, or one that decompresses to nothing.
pub fn compute_fingerprints(filepath: &str, size: u64, raw: &[u8]) -> (r: Result<
    Option<FileFingerprint>,
    DecodeError,
>)
    ensures
        ({
            let compression = compression_of(filepath.spec_bytes());
            let (contents, ok) = decoded(raw@, compression, u64::MAX);
            r == if compression == CompressionType::Plain {
                Ok::<Option<FileFingerprint>, DecodeError>(plain_fingerprint(raw@, size))
            } else if ok {
                Ok(decoded_fingerprint(contents))
            } else {
                Err(DecodeError)
            }
        }),
{
    let compression = CompressionType::from_path(filepath);
    if compression == CompressionType::Plain {
        let n: usize = if size < raw.len() as u64 {
            size as usize
        } else {
            raw.len()
        };
        let sample = vstd::slice::slice_subrange(raw, 0, n);
        assert(sample@ =~= head_of(raw@, size as int));
        return Ok(
            match hash_head(sample) {
                Some(head) => Some(FileFingerprint { head, logical_size: size }),
                None => None,
            },
        );
    }
    let (contents, ok) = decode(raw, compression, u64::MAX);
    if !ok {
        return Err(DecodeError);
    }
    Ok(fingerprint_of_contents(contents.as_slice()))
}

/// The hash of the first raw bytes of a file of `size` bytes; `None` for an empty file.
pub fn compute_compressed_head_fingerprint(size: u64, raw: &[u8]) -> (r: Option<u64>)
    ensures
        r == head_hash(head_of(raw@, size as int)),
{
    let n: usize = if size < raw.len() as u64 {
        size as usize
    } else {
        raw.len()
    };
    let sample = vstd::slice::slice_subrange(raw, 0, n);
    assert(sample@ =~= head_of(raw@, size as int));
    hash_head(sample)
}

/// The hash of the first decompressed bytes of a compressed file; `None` where it decompresses to
/// nothing.
pub fn compute_decompressed_head_fingerprint(raw: &[u8], compression: CompressionType) -> (r:
    Result<Option<u64>, DecodeError>)
    requires
        compression != CompressionType::Plain,
    ensures
        ({
            let (contents, ok) = decoded(raw@, compression, FINGERPRINT_SAMPLE as u64);
            r == if ok {
                Ok::<Option<u64>, DecodeError>(head_hash(contents))
            } else {
                Err(DecodeError)
            }
        }),
{
    let (head, ok) = decode(raw, compression, FINGERPRINT_SAMPLE as u64);
    if ok {
        Ok(hash_head(head.as_slice()))
    } else {
        Err(DecodeError)
    }
}

/// Two plain files with the same first bytes and the same size have the same fingerprint, whatever
/// follows those bytes.
pub proof fn law_fingerprint_reads_head(a: Seq<u8>, b: Seq<u8>, size: u64)
    requires
        head_of(a, FINGERPRINT_SAMPLE as int) == head_of(b, FINGERPRINT_SAMPLE as int),
        a.len() >= FINGERPRINT_SAMPLE || a.len() >= size,
        b.len() >= FINGERPRINT_SAMPLE || b.len() >= size,
    ensures
        plain_fingerprint(a, size) == plain_fingerprint(b, size),
{
    let n = FINGERPRINT_SAMPLE as int;
    let x = head_of(head_of(a, size as int), n);
    let y = head_of(head_of(b, size as int), n);
    assert(x =~= head_of(head_of(a, n), size as int));
    assert(y =~= head_of(head_of(b, n), size as int));
    assert((head_of(a, size as int).len() == 0) == (x.len() == 0));
    assert((head_of(b, size as int).len() == 0) == (y.len() == 0));
}

} // verus!
