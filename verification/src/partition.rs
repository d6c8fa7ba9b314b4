//! Planning the partitions: `2^part_exp` ranges of equal width that split the key
//! range `0 ..= u64::MAX` in increasing order.

use crate::error::MergeError;
use vstd::arithmetic::div_mod::{
    lemma_fundamental_div_mod,
    lemma_fundamental_div_mod_converse,
    lemma_multiply_divide_lt,
};
use vstd::arithmetic::power2::{lemma2_to64, lemma_pow2_adds, pow2};
use vstd::bits::{lemma_u64_pow2_no_overflow, lemma_u64_shl_is_mul, lemma_u64_shr_is_div};
use vstd::prelude::*;

verus! {

/// The largest partition exponent: with it every key is a partition of its own.
pub const MAX_PART_EXP: usize = 64;

/// The number of partitions.
pub open spec fn part_count(part_exp: nat) -> nat {
    pow2(part_exp)
}

/// The number of keys in each partition.
pub open spec fn part_width(part_exp: nat) -> nat {
    pow2((MAX_PART_EXP - part_exp) as nat)
}

/// The smallest key of partition `i`.
pub open spec fn lower_bound(i: nat, part_exp: nat) -> nat {
    i * part_width(part_exp)
}

/// The largest key of partition `i`.
pub open spec fn upper_bound(i: nat, part_exp: nat) -> nat {
    ((i + 1) * part_width(part_exp) - 1) as nat
}

/// The partition that holds key `x`.
pub open spec fn part_of(x: nat, part_exp: nat) -> nat {
    x / part_width(part_exp)
}

/// Count and width multiply to the size of the key range.
pub proof fn lemma_count_width(part_exp: nat)
    requires
        part_exp <= MAX_PART_EXP,
    ensures
        part_count(part_exp) * part_width(part_exp) == 0x1_0000_0000_0000_0000,
        part_count(part_exp) >= 1,
        part_width(part_exp) >= 1,
{
    lemma_pow2_adds(part_exp, (MAX_PART_EXP - part_exp) as nat);
    lemma2_to64();
}

/// The partitions are contiguous, none is empty, and together they reach from `0`
/// to `u64::MAX`: the first starts at `0`, each starts right after the one before
/// it ends, and the last ends at `u64::MAX`.
pub proof fn lemma_partitions_contiguous(i: nat, part_exp: nat)
    requires
        part_exp <= MAX_PART_EXP,
    ensures
        lower_bound(0, part_exp) == 0,
        lower_bound(i, part_exp) <= upper_bound(i, part_exp),
        upper_bound(i, part_exp) + 1 == lower_bound(i + 1, part_exp),
        upper_bound((part_count(part_exp) - 1) as nat, part_exp) == u64::MAX,
{
    lemma_count_width(part_exp);
    let w = part_width(part_exp) as int;
    assert((i + 1) * w == i * w + w) by (nonlinear_arith);
}

/// Every key lies in exactly one partition: in `part_of` of it and in no other.
pub proof fn lemma_partitions_cover(x: u64, i: nat, part_exp: nat)
    requires
        part_exp <= MAX_PART_EXP,
    ensures
        part_of(x as nat, part_exp) < part_count(part_exp),
        lower_bound(i, part_exp) <= x <= upper_bound(i, part_exp) <==> i == part_of(
            x as nat,
            part_exp,
        ),
{
    lemma_count_width(part_exp);
    let w = part_width(part_exp) as int;
    let q = x as int / w;
    let c = part_count(part_exp) as int;
    assert(w * c == c * w) by (nonlinear_arith);
    lemma_fundamental_div_mod(x as int, w);
    lemma_multiply_divide_lt(x as int, w, c);
    assert((q + 1) * w == q * w + w) by (nonlinear_arith);
    assert(w * q == q * w) by (nonlinear_arith);
    if lower_bound(i, part_exp) <= x <= upper_bound(i, part_exp) {
        assert((i + 1) * w == i * w + w) by (nonlinear_arith);
        lemma_fundamental_div_mod_converse(x as int, w, i as int, x - i * w);
    }
}

/// A key equal to a bound of partition `i` belongs to partition `i`, not to a
/// neighbour.
pub proof fn lemma_boundary_values(i: nat, part_exp: nat)
    requires
        part_exp <= MAX_PART_EXP,
        i < part_count(part_exp),
    ensures
        lower_bound(i, part_exp) <= upper_bound(i, part_exp) <= u64::MAX,
        part_of(lower_bound(i, part_exp), part_exp) == i,
        part_of(upper_bound(i, part_exp), part_exp) == i,
{
    lemma_count_width(part_exp);
    let w = part_width(part_exp) as int;
    let c = part_count(part_exp) as int;
    assert((i + 1) * w == i * w + w) by (nonlinear_arith);
    assert((i + 1) * w <= c * w) by (nonlinear_arith)
        requires
            i + 1 <= c,
            w >= 1,
    ;
    lemma_fundamental_div_mod_converse(i * w, w, i as int, 0);
    lemma_fundamental_div_mod_converse(i * w + w - 1, w, i as int, w - 1);
}

/// The index of the partition that holds `x`.
pub(crate) fn index_for(x: u64, part_exp: usize) -> (r: u64)
    requires
        part_exp <= MAX_PART_EXP,
    ensures
        r == part_of(x as nat, part_exp as nat),
        r < part_count(part_exp as nat),
{
    proof {
        lemma_partitions_cover(x, part_of(x as nat, part_exp as nat), part_exp as nat);
        lemma2_to64();
    }
    if part_exp == 0 {
        0
    } else {
        let shift: u64 = (MAX_PART_EXP - part_exp) as u64;
        proof {
            lemma_u64_shr_is_div(x, shift);
        }
        x >> shift
    }
}

/// The index of the last partition.
pub(crate) fn last_for(part_exp: usize) -> (r: u64)
    requires
        part_exp <= MAX_PART_EXP,
    ensures
        r == part_count(part_exp as nat) - 1,
{
    let r = index_for(u64::MAX, part_exp);
    proof {
        lemma_boundary_values((part_count(part_exp as nat) - 1) as nat, part_exp as nat);
        lemma_partitions_contiguous(0, part_exp as nat);
    }
    r
}

/// The bounds of partition `i`, both inclusive.
pub(crate) fn bounds_for(i: u64, part_exp: usize) -> (r: (u64, u64))
    requires
        part_exp <= MAX_PART_EXP,
        i < part_count(part_exp as nat),
    ensures
        r.0 == lower_bound(i as nat, part_exp as nat),
        r.1 == upper_bound(i as nat, part_exp as nat),
{
    proof {
        lemma_boundary_values(i as nat, part_exp as nat);
        lemma2_to64();
    }
    if part_exp == 0 {
        assert(0 * part_width(0) == 0);
        (0, u64::MAX)
    } else {
        let shift: u64 = (MAX_PART_EXP - part_exp) as u64;
        let ghost w = part_width(part_exp as nat) as int;
        proof {
            assert((i + 1) * w == i * w + w) by (nonlinear_arith);
            lemma_u64_pow2_no_overflow(shift as nat);
            lemma_u64_shl_is_mul(i, shift);
            lemma_u64_shl_is_mul(1, shift);
        }
        let lb: u64 = i << shift;
        let span: u64 = (1u64 << shift) - 1;
        (lb, lb + span)
    }
}

/// A partitioning of the key range, fixed by its exponent.
#[derive(Debug, Clone, Copy)]
pub struct PartitionPlan {
    part_exp: usize,
}

impl PartitionPlan {
    #[verifier::type_invariant]
    spec fn valid(self) -> bool {
        self.part_exp <= MAX_PART_EXP
    }

    /// The exponent that the plan was made with.
    pub closed spec fn part_exp(self) -> nat {
        self.part_exp as nat
    }

    /// The ranges of the plan in order, each with both bounds inclusive.
    pub open spec fn ranges(self) -> Seq<(u64, u64)> {
        Seq::new(
            part_count(self.part_exp()),
            |i: int|
                (
                    lower_bound(i as nat, self.part_exp()) as u64,
                    upper_bound(i as nat, self.part_exp()) as u64,
                ),
        )
    }

    /// Plans `2^part_exp` partitions. An exponent above 64 is refused.
    pub fn new(part_exp: usize) -> (r: Result<PartitionPlan, MergeError>)
        ensures
            part_exp > MAX_PART_EXP ==> r == Err::<PartitionPlan, MergeError>(
                MergeError::InvalidArgument,
            ),
            part_exp <= MAX_PART_EXP ==> r is Ok && r.unwrap().part_exp() == part_exp,
    {
        if part_exp > MAX_PART_EXP {
            Err(MergeError::InvalidArgument)
        } else {
            Ok(PartitionPlan { part_exp })
        }
    }

    /// The index of the last partition; the first is `0`.
    pub fn last(&self) -> (r: u64)
        ensures
            r == self.ranges().len() - 1,
    {
        proof {
            use_type_invariant(self);
        }
        last_for(self.part_exp)
    }

    /// The bounds of partition `i`.
    pub fn bounds(&self, i: u64) -> (r: (u64, u64))
        requires
            i < self.ranges().len(),
        ensures
            r == self.ranges()[i as int],
            r.0 == lower_bound(i as nat, self.part_exp()),
            r.1 == upper_bound(i as nat, self.part_exp()),
    {
        proof {
            use_type_invariant(self);
        }
        bounds_for(i, self.part_exp)
    }

    /// The index of the partition that holds `x`.
    pub fn index_of(&self, x: u64) -> (r: u64)
        ensures
            r == part_of(x as nat, self.part_exp()),
            r < self.ranges().len(),
            self.ranges()[r as int].0 <= x <= self.ranges()[r as int].1,
    {
        proof {
            use_type_invariant(self);
            lemma_partitions_cover(x, part_of(x as nat, self.part_exp()), self.part_exp());
            lemma_boundary_values(part_of(x as nat, self.part_exp()), self.part_exp());
        }
        index_for(x, self.part_exp)
    }
}

} // verus!
