//! How a hash is split into the number of a register and a rank.

use vstd::arithmetic::power2::{
    lemma2_to64, lemma_pow2_adds, lemma_pow2_pos, lemma_pow2_strictly_increases, pow2,
};
use vstd::bits::{lemma_u64_shl_is_mul, lemma_u64_shr_is_div};
use vstd::prelude::*;
use vstd::std_specs::bits::*;

use crate::hll::{hash_index, hash_rank, merged, with_hash};

verus! {

/// A hash is made of the number of a register, in its topmost bits, and of the rest.
spec fn is_made_of(hash: u64, p: u8, index: int, rest: int) -> bool {
    &&& 1 <= p < 64
    &&& 0 <= rest < pow2((64 - p) as nat)
    &&& 0 <= index
    &&& hash == index * pow2((64 - p) as nat) + rest
}

proof fn lemma_index(hash: u64, p: u8, index: int, rest: int)
    requires
        is_made_of(hash, p, index, rest),
    ensures
        hash_index(hash, p) == index,
{
    let q = (64 - p) as u64;
    let w = pow2(q as nat) as int;
    lemma_u64_shr_is_div(hash, q);
    vstd::arithmetic::div_mod::lemma_fundamental_div_mod_converse(hash as int, w, index, rest);
}

/// What is left of a hash once the number of its register is shifted out.
proof fn lemma_rest(hash: u64, p: u8, index: int, rest: int)
    requires
        is_made_of(hash, p, index, rest),
    ensures
        (hash << (p as u64)) == rest * pow2(p as nat),
{
    let q = (64 - p) as u64;
    let r = p as u64;
    lemma_index(hash, p, index, rest);
    let i = hash >> q;
    lemma_u64_shl_is_mul(i, q);
    let low = (hash - (i << q)) as u64;
    assert(low == rest);
    assert((hash << r) == (low << r) && low <= (0xffff_ffff_ffff_ffffu64 >> r)) by (bit_vector)
        requires
            1 <= r < 64,
            q == 64 - r,
            i == hash >> q,
            low == hash - (i << q),
    ;
    lemma_pow2_pos(p as nat);
    lemma_pow2_adds(p as nat, q as nat);
    lemma2_to64();
    let a = pow2(p as nat) as int;
    let b = pow2(q as nat) as int;
    assert(rest * a <= u64::MAX) by (nonlinear_arith)
        requires
            rest < b,
            a * b == 0x1_0000_0000_0000_0000,
            a >= 1,
            rest >= 0,
    ;
    lemma_u64_shl_is_mul(low, r);
}

/// A number with so many zeros in front, of sixty-four bits.
proof fn lemma_zeros(s: u64)
    requires
        s != 0,
    ensures
        ({
            let z = u64_leading_zeros(s);
            &&& 0 <= z <= 63
            &&& pow2((63 - z) as nat) <= s < 2 * pow2((63 - z) as nat)
        }),
{
    axiom_u64_leading_zeros(s);
    let z = u64_leading_zeros(s) as u64;
    let k = (63 - z) as u64;
    let top = (64 - z) as u64;
    assert((s >> k) & 1u64 != 0u64);
    assert(z > 0 ==> s >> top == 0);
    assert(s >> k == 1) by (bit_vector)
        requires
            z <= 63,
            k == 63 - z,
            top == 64 - z,
            (s >> k) & 1u64 != 0u64,
            z > 0 ==> s >> top == 0,
    ;
    lemma_u64_shr_is_div(s, k);
    lemma_pow2_pos(k as nat);
    let w = pow2(k as nat) as int;
    vstd::arithmetic::div_mod::lemma_fundamental_div_mod(s as int, w);
    vstd::arithmetic::div_mod::lemma_mod_bound(s as int, w);
    assert(w * 1 == w);
}

/// A hash belongs to the register of its topmost bits. Its rank is one more than the number of zeros
/// in front of the rest: that is how often the rest can be doubled before it needs all of its bits. A
/// rest of zero has the largest rank.
pub proof fn law_hash_is_split(hash: u64, p: u8, index: int, rest: int)
    requires
        1 <= p < 64,
        0 <= rest < pow2((64 - p) as nat),
        0 <= index,
        hash == index * pow2((64 - p) as nat) + rest,
    ensures
        hash_index(hash, p) == index,
        1 <= hash_rank(hash, p) <= 65 - p,
        rest == 0 ==> hash_rank(hash, p) == 65 - p,
        rest > 0 ==> pow2((63 - p) as nat) <= rest * pow2((hash_rank(hash, p) - 1) as nat) < pow2(
            (64 - p) as nat,
        ),
{
    lemma_index(hash, p, index, rest);
    lemma_rest(hash, p, index, rest);
    let s = hash << (p as u64);
    let a = pow2(p as nat) as int;
    lemma_pow2_pos(p as nat);
    axiom_u64_leading_zeros(s);
    if rest == 0 {
        assert(rest * a == 0) by (nonlinear_arith)
            requires
                rest == 0,
        ;
    } else {
        assert(rest * a >= a) by (nonlinear_arith)
            requires
                rest >= 1,
                a >= 1,
        ;
        lemma_zeros(s);
        let z = u64_leading_zeros(s) as int;
        let m = pow2((63 - z) as nat) as int;
        if z > 63 - p {
            lemma_pow2_strictly_increases((63 - z) as nat, p as nat);
            lemma_pow2_adds(1, (63 - z) as nat);
            lemma2_to64();
            if 64 - z < p {
                lemma_pow2_strictly_increases((64 - z) as nat, p as nat);
            }
            assert(2 * m == pow2((64 - z) as nat));
            assert(false);
        }
        let t = pow2(z as nat) as int;
        lemma_pow2_pos(z as nat);
        lemma_pow2_adds((63 - z) as nat, z as nat);
        lemma_pow2_adds((63 - p) as nat, p as nat);
        lemma_pow2_adds((64 - p) as nat, p as nat);
        lemma2_to64();
        lemma_pow2_adds(1, 63);
        let u = pow2((63 - p) as nat) as int;
        let v = pow2((64 - p) as nat) as int;
        assert(u <= rest * t < v) by (nonlinear_arith)
            requires
                m <= rest * a < 2 * m,
                m * t == u * a,
                2 * (m * t) == v * a,
                a >= 1,
                t >= 1,
        ;
    }
}

/// A register holds the largest rank of the hashes that fall on it, and no other register changes.
pub proof fn law_register_holds_the_largest_rank(registers: Seq<u8>, hash: u64, p: u8, i: int)
    requires
        1 <= p < 64,
        0 <= i < registers.len(),
        hash_index(hash, p) < registers.len(),
    ensures
        ({
            let after = with_hash(registers, hash, p);
            &&& after.len() == registers.len()
            &&& hash_index(hash, p) != i ==> after[i] == registers[i]
            &&& hash_index(hash, p) == i ==> after[i] >= registers[i] && after[i] >= hash_rank(
                hash,
                p,
            ) && (after[i] == registers[i] || after[i] == hash_rank(hash, p))
        }),
{
    axiom_u64_leading_zeros(hash << (p as u64));
}

/// Of two sketches that are merged, each register holds the larger of its two ranks.
pub proof fn law_merged_registers(a: Seq<u8>, b: Seq<u8>, i: int)
    requires
        a.len() == b.len(),
        0 <= i < a.len(),
    ensures
        merged(a, b).len() == a.len(),
        merged(a, b)[i] >= a[i],
        merged(a, b)[i] >= b[i],
        merged(a, b)[i] == a[i] || merged(a, b)[i] == b[i],
{
}

} // verus!
