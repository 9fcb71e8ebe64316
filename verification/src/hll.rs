//! A HyperLogLog sketch: registers that remember the longest run of leading zeros seen.

use vstd::prelude::*;
use vstd::std_specs::bits::*;
use vstd::string::*;

use crate::fingerprint::{hash_sample, xxh3_64};

verus! {

/// Registers of a sketch with `2^precision` of them.
#[derive(Debug, Clone)]
pub struct HyperLogLog {
    pub(crate) precision: u8,
    pub(crate) registers: Vec<u8>,
}

/// The register that a hash belongs to: its topmost `p` bits.
pub open spec fn hash_index(hash: u64, p: u8) -> u64 {
    hash >> ((64 - p) as u64)
}

/// The rank of a hash: one more than the zeros that lead what is left behind the topmost `p`
/// bits, at most one more than the bits that are left.
pub open spec fn hash_rank(hash: u64, p: u8) -> int {
    let zeros = u64_leading_zeros(hash << (p as u64)) as int;
    if zeros + 1 <= 65 - p {
        zeros + 1
    } else {
        65 - p
    }
}

/// The larger of two register values.
pub open spec fn max_rank(a: u8, b: u8) -> u8 {
    if a >= b {
        a
    } else {
        b
    }
}

/// The registers after a hash was added.
pub open spec fn with_hash(registers: Seq<u8>, hash: u64, p: u8) -> Seq<u8> {
    let i = hash_index(hash, p) as int;
    registers.update(i, max_rank(registers[i], hash_rank(hash, p) as u8))
}

/// The registers of two sketches merged: the larger of each pair.
pub open spec fn merged(a: Seq<u8>, b: Seq<u8>) -> Seq<u8> {
    Seq::new(a.len(), |i: int| max_rank(a[i], b[i]))
}

/// The number of registers for a precision.
pub open spec fn register_count(p: u8) -> nat {
    vstd::arithmetic::power2::pow2(p as nat)
}

proof fn lemma_index_bound(hash: u64, p: u8)
    requires
        1 <= p < 64,
    ensures
        hash_index(hash, p) < register_count(p),
{
    let q = (64 - p) as u64;
    let r = p as u64;
    assert(hash >> q < (1u64 << r)) by (bit_vector)
        requires
            1 <= r < 64,
            q == 64 - r,
    ;
    vstd::arithmetic::power2::lemma_pow2_strictly_increases(r as nat, 64);
    vstd::arithmetic::power2::lemma2_to64();
    vstd::bits::lemma_u64_shl_is_mul(1, r);
}

impl HyperLogLog {
    /// There is a register for each value of `precision` bits.
    pub closed spec fn wf(&self) -> bool {
        self.precision < 64 && self.registers@.len() == register_count(self.precision)
    }

    pub closed spec fn spec_precision(&self) -> u8 {
        self.precision
    }

    pub closed spec fn view(&self) -> Seq<u8> {
        self.registers@
    }

    /// The number of registers follows from the precision.
    pub proof fn lemma_wf(&self)
        requires
            self.wf(),
        ensures
            self.spec_precision() < 64,
            self@.len() == register_count(self.spec_precision()),
    {
    }

    /// An empty sketch.
    pub fn new(precision: u8) -> (r: HyperLogLog)
        requires
            4 <= precision <= 16,
        ensures
            r.wf(),
            r.spec_precision() == precision,
            r@ == no_registers(precision),
    {
        proof {
            vstd::arithmetic::power2::lemma_pow2_strictly_increases(precision as nat, 17);
            vstd::arithmetic::power2::lemma2_to64();
            vstd::bits::lemma_usize_shl_is_mul(1, precision as usize);
        }
        let count: usize = 1usize << (precision as usize);
        let registers: Vec<u8> = vec![0; count];
        assert(registers@ =~= no_registers(precision));
        HyperLogLog { precision, registers }
    }

    /// Adds a hash.
    pub fn add_hash(&mut self, hash: u64)
        requires
            old(self).wf(),
            old(self).spec_precision() >= 1,
        ensures
            final(self).wf(),
            final(self).spec_precision() == old(self).spec_precision(),
            final(self)@ == with_hash(old(self)@, hash, old(self).spec_precision()),
    {
        let p: u8 = self.precision;
        let count: usize = self.registers.len();
        proof {
            lemma_index_bound(hash, p);
        }
        let idx: usize = (hash >> ((64 - p) as u64)) as usize;
        let shifted: u64 = hash << (p as u64);
        let zeros: u32 = shifted.leading_zeros();
        let cap: u32 = 65 - p as u32;
        proof {
            axiom_u64_leading_zeros(shifted);
        }
        let rank: u8 = if zeros + 1 <= cap {
            (zeros + 1) as u8
        } else {
            cap as u8
        };
        let current: u8 = self.registers[idx];
        if rank > current {
            self.registers.set(idx, rank);
        }
        assert(self.registers@ =~= with_hash(old(self).registers@, hash, p));
    }

    /// Adds a text by its hash.
    pub fn add_str(&mut self, value: &str)
        requires
            old(self).wf(),
            old(self).spec_precision() >= 1,
        ensures
            final(self).wf(),
            final(self).spec_precision() == old(self).spec_precision(),
            final(self)@ == with_hash(
                old(self)@,
                xxh3_64(value.spec_bytes()),
                old(self).spec_precision(),
            ),
    {
        self.add_hash(hash_sample(value.as_bytes()));
    }

    /// Merges another sketch of the same precision into this one.
    pub fn merge(&mut self, other: &HyperLogLog)
        requires
            old(self).wf(),
            other.wf(),
            old(self).spec_precision() == other.spec_precision(),
        ensures
            final(self).wf(),
            final(self).spec_precision() == old(self).spec_precision(),
            final(self)@ == merged(old(self)@, other@),
    {
        let ghost start = self.registers@;
        let n: usize = self.registers.len();
        let mut i: usize = 0;
        while i < n
            invariant
                n == start.len(),
                self.registers@.len() == n,
                other.registers@.len() == n,
                self.precision == old(self).precision,
                0 <= i <= n,
                forall|k: int|
                    0 <= k < i ==> self.registers@[k] == max_rank(start[k], other.registers@[k]),
                forall|k: int| i <= k < n ==> self.registers@[k] == start[k],
            decreases n - i,
        {
            let src: u8 = other.registers[i];
            if src > self.registers[i] {
                self.registers.set(i, src);
            }
            i += 1;
        }
        assert(self.registers@ =~= merged(start, other.registers@));
    }

    /// The sketch as bytes: the precision, then the registers.
    pub fn to_bytes(&self) -> (r: Vec<u8>)
        requires
            self.wf(),
        ensures
            r@ == seq![self.spec_precision()] + self@,
    {
        let mut bytes: Vec<u8> = Vec::new();
        bytes.push(self.precision);
        bytes.extend_from_slice(self.registers.as_slice());
        assert(bytes@ =~= seq![self.precision] + self.registers@);
        bytes
    }

    /// Reads a sketch back from its bytes; `None` where the number of registers is not that of
    /// the precision.
    pub fn from_bytes(bytes: &[u8]) -> (r: Option<HyperLogLog>)
        requires
            bytes@.len() > 0 ==> bytes@[0] < usize::BITS,
        ensures
            r is Some <==> bytes@.len() > 0 && bytes@.len() - 1 == register_count(bytes@[0]),
            r matches Some(h) ==> {
                &&& h.wf()
                &&& h.spec_precision() == bytes@[0]
                &&& h@ == bytes@.skip(1)
            },
    {
        if bytes.len() == 0 {
            return None;
        }
        let precision: u8 = bytes[0];
        proof {
            vstd::arithmetic::power2::lemma_pow2_strictly_increases(
                precision as nat,
                usize::BITS as nat,
            );
            vstd::arithmetic::power2::lemma2_to64();
            vstd::arithmetic::power2::lemma_pow2(precision as nat);
            vstd::bits::lemma_usize_shl_is_mul(1, precision as usize);
        }
        let expected: usize = 1usize << (precision as usize);
        if bytes.len() - 1 != expected {
            return None;
        }
        let mut registers: Vec<u8> = Vec::new();
        registers.extend_from_slice(vstd::slice::slice_subrange(bytes, 1, bytes.len()));
        assert(registers@ =~= bytes@.skip(1));
        Some(HyperLogLog { precision, registers })
    }
}

/// Merging does not depend on which sketch is merged into which.
pub proof fn law_merge_commutes(a: Seq<u8>, b: Seq<u8>)
    requires
        a.len() == b.len(),
    ensures
        merged(a, b) == merged(b, a),
{
    assert(merged(a, b) =~= merged(b, a));
}

/// Merging does not depend on the order of the merges.
pub proof fn law_merge_associates(a: Seq<u8>, b: Seq<u8>, c: Seq<u8>)
    requires
        a.len() == b.len() == c.len(),
    ensures
        merged(merged(a, b), c) == merged(a, merged(b, c)),
{
    assert(merged(merged(a, b), c) =~= merged(a, merged(b, c)));
}

/// Merging a sketch with itself changes nothing.
pub proof fn law_merge_idempotent(a: Seq<u8>)
    ensures
        merged(a, a) == a,
{
    assert(merged(a, a) =~= a);
}

/// Adding a hash to one of two sketches and merging gives what merging first gives.
pub proof fn law_add_then_merge(a: Seq<u8>, b: Seq<u8>, hash: u64, p: u8)
    requires
        1 <= p < 64,
        a.len() == b.len() == register_count(p),
    ensures
        merged(with_hash(a, hash, p), b) == with_hash(merged(a, b), hash, p),
{
    lemma_index_bound(hash, p);
    assert(merged(with_hash(a, hash, p), b) =~= with_hash(merged(a, b), hash, p));
}

/// Adding a hash a second time changes nothing.
pub proof fn law_add_twice(a: Seq<u8>, hash: u64, p: u8)
    requires
        1 <= p < 64,
        a.len() == register_count(p),
    ensures
        with_hash(with_hash(a, hash, p), hash, p) == with_hash(a, hash, p),
{
    lemma_index_bound(hash, p);
    assert(with_hash(with_hash(a, hash, p), hash, p) =~= with_hash(a, hash, p));
}

/// The registers after hashes were added in turn.
pub open spec fn with_hashes(registers: Seq<u8>, hashes: Seq<u64>, p: u8) -> Seq<u8>
    decreases hashes.len(),
{
    if hashes.len() == 0 {
        registers
    } else {
        with_hash(with_hashes(registers, hashes.drop_last(), p), hashes.last(), p)
    }
}

/// The registers of an empty sketch.
pub open spec fn no_registers(p: u8) -> Seq<u8> {
    Seq::new(register_count(p), |i: int| 0u8)
}

/// A hash falls on a register.
spec fn sets(hash: u64, p: u8, i: int) -> bool {
    hash_index(hash, p) == i
}

/// A register holds the largest of its old value and the ranks of the hashes that set it.
proof fn lemma_register(registers: Seq<u8>, hashes: Seq<u64>, p: u8, i: int)
    requires
        1 <= p < 64,
        registers.len() == register_count(p),
        0 <= i < registers.len(),
    ensures
        with_hashes(registers, hashes, p).len() == registers.len(),
        with_hashes(registers, hashes, p)[i] >= registers[i],
        forall|h: u64| #[trigger]
            hashes.contains(h) && sets(h, p, i) ==> with_hashes(registers, hashes, p)[i]
                >= hash_rank(h, p) as u8,
        with_hashes(registers, hashes, p)[i] == registers[i] || exists|h: u64| #[trigger]
            hashes.contains(h) && sets(h, p, i) && with_hashes(registers, hashes, p)[i]
                == hash_rank(h, p) as u8,
    decreases hashes.len(),
{
    if hashes.len() > 0 {
        let rest = hashes.drop_last();
        let last = hashes.last();
        lemma_register(registers, rest, p, i);
        lemma_index_bound(last, p);
        let before = with_hashes(registers, rest, p);
        let now = with_hashes(registers, hashes, p);
        assert(hashes[hashes.len() - 1] == last);
        assert(hashes.contains(last));
        assert forall|h: u64| #[trigger] hashes.contains(h) && sets(h, p, i) implies now[i]
            >= hash_rank(h, p) as u8 by {
            let k = choose|k: int| 0 <= k < hashes.len() && hashes[k] == h;
            if k < rest.len() {
                assert(rest[k] == h);
                assert(rest.contains(h));
            }
        }
        if now[i] == before[i] {
            if before[i] != registers[i] {
                let h = choose|h: u64| #[trigger]
                    rest.contains(h) && sets(h, p, i) && before[i] == hash_rank(h, p) as u8;
                let k = choose|k: int| 0 <= k < rest.len() && rest[k] == h;
                assert(hashes[k] == h);
                assert(hashes.contains(h));
            }
        } else {
            assert(sets(last, p, i) && now[i] == hash_rank(last, p) as u8);
        }
    }
}

/// A sketch is the same whatever the order in which hashes were added, and however often each was.
pub proof fn law_order_and_repeats_do_not_matter(a: Seq<u64>, b: Seq<u64>, p: u8)
    requires
        1 <= p < 64,
        forall|h: u64| a.contains(h) <==> b.contains(h),
    ensures
        with_hashes(no_registers(p), a, p) == with_hashes(no_registers(p), b, p),
{
    let none = no_registers(p);
    let x = with_hashes(none, a, p);
    let y = with_hashes(none, b, p);
    vstd::arithmetic::power2::lemma_pow2_pos(p as nat);
    lemma_register(none, a, p, 0);
    lemma_register(none, b, p, 0);
    assert forall|i: int| 0 <= i < x.len() implies x[i] == y[i] by {
        lemma_register(none, a, p, i);
        lemma_register(none, b, p, i);
        if x[i] != none[i] {
            let h = choose|h: u64| #[trigger]
                a.contains(h) && sets(h, p, i) && x[i] == hash_rank(h, p) as u8;
            assert(b.contains(h));
        }
        if y[i] != none[i] {
            let h = choose|h: u64| #[trigger]
                b.contains(h) && sets(h, p, i) && y[i] == hash_rank(h, p) as u8;
            assert(a.contains(h));
        }
    }
    assert(x =~= y);
}

/// Merging two sketches gives the sketch of all their hashes, added in any order and each of them
/// once or more often.
pub proof fn law_merge_is_the_sketch_of_both(a: Seq<u64>, b: Seq<u64>, both: Seq<u64>, p: u8)
    requires
        1 <= p < 64,
        forall|h: u64| both.contains(h) <==> a.contains(h) || b.contains(h),
    ensures
        merged(with_hashes(no_registers(p), a, p), with_hashes(no_registers(p), b, p))
            == with_hashes(no_registers(p), both, p),
{
    let none = no_registers(p);
    let x = with_hashes(none, a, p);
    let y = with_hashes(none, b, p);
    let z = with_hashes(none, both, p);
    vstd::arithmetic::power2::lemma_pow2_pos(p as nat);
    lemma_register(none, a, p, 0);
    lemma_register(none, b, p, 0);
    lemma_register(none, both, p, 0);
    assert forall|i: int| 0 <= i < z.len() implies #[trigger] z[i] == max_rank(x[i], y[i]) by {
        lemma_register(none, a, p, i);
        lemma_register(none, b, p, i);
        lemma_register(none, both, p, i);
        if x[i] != none[i] {
            let h = choose|h: u64| #[trigger]
                a.contains(h) && sets(h, p, i) && x[i] == hash_rank(h, p) as u8;
            assert(both.contains(h));
        }
        if y[i] != none[i] {
            let h = choose|h: u64| #[trigger]
                b.contains(h) && sets(h, p, i) && y[i] == hash_rank(h, p) as u8;
            assert(both.contains(h));
        }
        if z[i] != none[i] {
            let h = choose|h: u64| #[trigger]
                both.contains(h) && sets(h, p, i) && z[i] == hash_rank(h, p) as u8;
            assert(a.contains(h) || b.contains(h));
        }
    }
    assert(merged(x, y) =~= z);
}

/// The bytes of a sketch read back as the same sketch.
pub proof fn law_bytes_round_trip(h: &HyperLogLog, bytes: Seq<u8>)
    requires
        h.wf(),
        bytes == seq![h.spec_precision()] + h@,
    ensures
        bytes.len() > 0,
        bytes.len() - 1 == register_count(bytes[0]),
        bytes[0] == h.spec_precision(),
        bytes.skip(1) == h@,
{
    h.lemma_wf();
    assert(bytes.skip(1) =~= h@);
}

} // verus!
