//! The multi-resolution interval aggregation index.
//!
//! Level 0 stores one per-share reward value for every accrual epoch.
//! Level `L` stores, for every completed block of `B^L` consecutive
//! epochs, the exact sum of the level-0 values in that block, where `B`
//! is the fan-out fixed when the index is created.  Recording the value
//! that completes a block cascades an aggregate entry into each level
//! whose block it completes, and a range query walks aligned blocks
//! from the highest usable level, so both writes and reads touch a
//! number of entries logarithmic in the range instead of linear.

use vstd::arithmetic::div_mod::lemma_basic_div;
use vstd::arithmetic::div_mod::lemma_div_basics;
use vstd::arithmetic::div_mod::lemma_div_by_multiple;
use vstd::arithmetic::div_mod::lemma_div_by_self;
use vstd::arithmetic::div_mod::lemma_div_is_ordered;
use vstd::arithmetic::div_mod::lemma_div_is_strictly_smaller;
use vstd::arithmetic::div_mod::lemma_div_pos_is_pos;
use vstd::arithmetic::div_mod::lemma_fundamental_div_mod;
use vstd::arithmetic::div_mod::lemma_fundamental_div_mod_converse_div;
use vstd::arithmetic::div_mod::lemma_mod_division_less_than_divisor;
use vstd::arithmetic::div_mod::lemma_mod_multiples_basic;
use vstd::arithmetic::div_mod::lemma_mod_self_0;
use vstd::arithmetic::div_mod::lemma_small_mod;
use vstd::arithmetic::mul::lemma_mul_inequality;
use vstd::arithmetic::mul::lemma_mul_is_associative;
use vstd::arithmetic::mul::lemma_mul_is_commutative;
use vstd::arithmetic::mul::lemma_mul_is_distributive_add_other_way;
use vstd::arithmetic::mul::lemma_mul_is_distributive_sub_other_way;
use vstd::arithmetic::mul::lemma_mul_nonnegative;
use vstd::arithmetic::power::lemma_pow0;
use vstd::arithmetic::power::lemma_pow1;
use vstd::arithmetic::power::lemma_pow_adds;
use vstd::arithmetic::power::lemma_pow_increases;
use vstd::arithmetic::power::lemma_pow_increases_converse;
use vstd::arithmetic::power::lemma_pow_positive;
use vstd::arithmetic::power::lemma_pow_strictly_increases;
use vstd::arithmetic::power::pow;
use vstd::prelude::*;

use crate::errors::Error;
use crate::sums::lemma_sum_agree;
use crate::sums::lemma_sum_nonneg;
use crate::sums::lemma_sum_single;
use crate::sums::lemma_sum_split;
use crate::sums::lemma_sum_sub_range;
use crate::sums::sum_vals;

verus! {

broadcast use lemma_pow_positive, lemma_pow0, lemma_pow1;

/// One aggregation level expands to the fan-out times the level below.
proof fn lemma_pow_unfold(b: int, l: nat)
    requires
        1 <= l,
    ensures
        pow(b, l) == b * pow(b, (l - 1) as nat),
{
    lemma_pow_adds(b, 1, (l - 1) as nat);
    assert(pow(b, 1) == b);
}

/// How many aggregation levels complete when the number of recorded
/// epochs reaches `n`: the largest `l` such that `b^l` divides `n`.
pub open spec fn max_cascade(b: int, n: int) -> nat
    decreases n,
        when b >= 2 && n >= 0
        via max_cascade_decreases
{
    if b < 2 || n < 1 || n % b != 0 {
        0
    } else {
        (1 + max_cascade(b, n / b)) as nat
    }
}

#[via_fn]
proof fn max_cascade_decreases(b: int, n: int) {
    if !(b < 2 || n < 1 || n % b != 0) {
        lemma_div_is_strictly_smaller(n, b);
        lemma_div_pos_is_pos(n, b);
    }
}

/// Recording `value` after `vals` cascades aggregates for the levels
/// `1..=max_cascade`; the widest block dominates all of them, so every
/// aggregate fits in `u64` exactly when the widest one does.
pub open spec fn record_fits(vals: Seq<u64>, b: int, value: u64) -> bool {
    let n1 = vals.len() + 1;
    sum_vals(vals.push(value), n1 - pow(b, max_cascade(b, n1 as int)), n1 as int) <= u64::MAX
}

/// `b^l` divides `x` exactly when `l` is at most the cascade depth of `x`.
proof fn lemma_max_cascade_iff(b: int, x: int, l: nat)
    requires
        2 <= b,
        1 <= x,
    ensures
        x % pow(b, l) == 0 <==> l <= max_cascade(b, x),
    decreases l,
{
    if l == 0 {
        lemma_mod_multiples_basic(x, 1);
    } else {
        lemma_pow_unfold(b, l);
        if x % b != 0 {
            // no level completes, and b^l (a multiple of b) cannot divide x
            assert(max_cascade(b, x) == 0);
            if x % pow(b, l) == 0 {
                lemma_pow_divides_down(b, x, l, 1);
                assert(x % b == 0);
            }
            assert(x % pow(b, l) != 0);
        } else {
            let q = x / b;
            lemma_fundamental_div_mod(x, b);
            lemma_multiple_ge(x, b);
            assert(max_cascade(b, x) == 1 + max_cascade(b, q));
            assert(1 <= q);
            lemma_max_cascade_iff(b, q, (l - 1) as nat);
            let p1 = pow(b, (l - 1) as nat);
            if q % p1 == 0 {
                // x == b * q == b * ((q / p1) * p1) == (q / p1) * (b * p1)
                lemma_fundamental_div_mod(q, p1);
                assert(x == b * ((q / p1) * p1));
                lemma_mul_is_associative(b, q / p1, p1);
                lemma_mul_is_commutative(b, q / p1);
                lemma_mul_is_associative(q / p1, b, p1);
                assert(x == (q / p1) * (b * p1));
                lemma_mod_multiples_basic(q / p1, b * p1);
                assert(x % pow(b, l) == 0);
            }
            if x % pow(b, l) == 0 {
                // q == x / b is divisible by p1
                let p = pow(b, l);
                lemma_fundamental_div_mod(x, p);
                let k = x / p;
                assert(x == p * k);
                // x == b * (p1 * k), so q == p1 * k and p1 | q
                lemma_mul_is_associative(b, p1, k);
                assert(x == b * (p1 * k));
                lemma_fundamental_div_mod_converse_div(x, b, p1 * k, 0);
                assert(q == p1 * k);
                lemma_mul_is_commutative(p1, k);
                lemma_mod_multiples_basic(k, p1);
                assert(q % p1 == 0);
            }
        }
    }
}

/// Divisibility by a power passes down to every smaller power.
proof fn lemma_pow_divides_down(b: int, x: int, l1: nat, l2: nat)
    requires
        2 <= b,
        0 <= x,
        l2 <= l1,
        x % pow(b, l1) == 0,
    ensures
        x % pow(b, l2) == 0,
{
    let p1 = pow(b, l1);
    let p2 = pow(b, l2);
    lemma_pow_adds(b, (l1 - l2) as nat, l2);
    assert(p1 == pow(b, (l1 - l2) as nat) * p2);
    lemma_fundamental_div_mod(x, p1);
    assert(x == p1 * (x / p1));
    lemma_mul_is_associative(pow(b, (l1 - l2) as nat), p2, x / p1);
    lemma_mul_is_commutative(p2, x / p1);
    lemma_mul_is_associative(pow(b, (l1 - l2) as nat), x / p1, p2);
    assert(x == (pow(b, (l1 - l2) as nat) * (x / p1)) * p2);
    lemma_mod_multiples_basic(pow(b, (l1 - l2) as nat) * (x / p1), p2);
}

/// An exact quotient multiplies back to the dividend.
proof fn lemma_div_exact(x: int, d: int)
    requires
        0 < d,
        0 <= x,
        x % d == 0,
    ensures
        (x / d) * d == x,
{
    lemma_fundamental_div_mod(x, d);
    lemma_mul_is_commutative(d, x / d);
}

/// Stepping one below a multiple of `d` lowers the quotient by one.
proof fn lemma_pred_div_exact(x: int, d: int)
    requires
        0 < d,
        1 <= x,
        x % d == 0,
    ensures
        (x - 1) / d == x / d - 1,
{
    lemma_div_exact(x, d);
    let q = x / d;
    lemma_mul_is_commutative(q - 1, d);
    lemma_mul_is_distributive_sub_other_way(d, q, 1);
    assert(x - 1 == (q - 1) * d + (d - 1));
    lemma_fundamental_div_mod_converse_div(x - 1, d, q - 1, d - 1);
}

/// Stepping one below a non-multiple of `d` keeps the quotient.
proof fn lemma_pred_div_same(x: int, d: int)
    requires
        0 < d,
        1 <= x,
        x % d != 0,
    ensures
        (x - 1) / d == x / d,
{
    lemma_fundamental_div_mod(x, d);
    lemma_mod_division_less_than_divisor(x, d);
    let q = x / d;
    let r = x % d;
    lemma_mul_is_commutative(d, q);
    assert(x - 1 == q * d + (r - 1));
    lemma_fundamental_div_mod_converse_div(x - 1, d, q, r - 1);
}

/// The rounded-down multiple `(x / d) * d` stays within `x`.
proof fn lemma_div_mul_le(x: int, d: int)
    requires
        0 <= x,
        0 < d,
    ensures
        0 <= (x / d) * d <= x,
{
    lemma_fundamental_div_mod(x, d);
    lemma_mod_division_less_than_divisor(x, d);
    lemma_div_pos_is_pos(x, d);
    lemma_mul_is_commutative(d, x / d);
    lemma_mul_nonnegative(x / d, d);
}

/// A positive multiple of `d` is at least `d`, and its quotient is positive.
proof fn lemma_multiple_ge(x: int, d: int)
    requires
        0 < d,
        1 <= x,
        x % d == 0,
    ensures
        d <= x,
        1 <= x / d,
{
    if x < d {
        lemma_small_mod(x as nat, d as nat);
    }
    lemma_div_by_self(d);
    lemma_div_is_ordered(d, x, d);
}

/// The page-batched aggregation index of one pool.
pub struct RewardIndex {
    fan_out: u64,
    levels: Vec<Vec<u64>>,
}

impl RewardIndex {
    /// The fan-out `B`: how many level-`L` blocks one level-`L+1`
    /// block aggregates.
    pub closed spec fn fan_out(self) -> int {
        self.fan_out as int
    }

    /// The per-epoch values recorded so far, epoch by epoch.
    pub closed spec fn values(self) -> Seq<u64> {
        self.levels@[0]@
    }

    /// Every level holds exactly one entry per completed block of its
    /// granularity.
    spec fn levels_complete(self) -> bool {
        forall|l: int|
            0 <= l < self.levels@.len() ==> (#[trigger] self.levels@[l]@.len()) as int
                == self.values().len() as int / pow(self.fan_out as int, l as nat)
    }

    /// Every aggregate entry is the exact sum of the level-0 values of
    /// its block.
    spec fn entries_exact(self) -> bool {
        forall|l: int, j: int|
            1 <= l < self.levels@.len() && 0 <= j < self.levels@[l]@.len()
                ==> (#[trigger] self.levels@[l]@[j]) as int == sum_vals(
                self.values(),
                j * pow(self.fan_out as int, l as nat),
                (j + 1) * pow(self.fan_out as int, l as nat),
            )
    }

    /// Well-formedness: the level list covers every power of the
    /// fan-out up to the epoch count, and holds exact block sums.
    pub closed spec fn wf(self) -> bool {
        &&& 2 <= self.fan_out
        &&& 1 <= self.levels@.len()
        &&& (self.values().len() as int) < pow(self.fan_out as int, self.levels@.len() as nat)
        &&& self.levels_complete()
        &&& self.entries_exact()
    }

    /// An empty index with the given fan-out.
    pub fn new(fan_out: u64) -> (idx: RewardIndex)
        requires
            2 <= fan_out,
        ensures
            idx.wf(),
            idx.fan_out() == fan_out,
            idx.values() == Seq::<u64>::empty(),
    {
        let mut levels: Vec<Vec<u64>> = Vec::new();
        levels.push(Vec::new());
        let idx = RewardIndex { fan_out, levels };
        proof {
            assert(idx.values() =~= Seq::<u64>::empty());
            assert(pow(fan_out as int, 1) == fan_out as int);
            assert(idx.levels@[0]@.len() as int == 0int / pow(fan_out as int, 0));
        }
        idx
    }

    /// Drop every recorded value, keeping the fan-out.
    pub fn reset(&mut self)
        requires
            2 <= old(self).fan_out(),
        ensures
            final(self).wf(),
            final(self).fan_out() == old(self).fan_out(),
            final(self).values() == Seq::<u64>::empty(),
    {
        let mut levels: Vec<Vec<u64>> = Vec::new();
        levels.push(Vec::new());
        self.levels = levels;
        proof {
            assert(self.values() =~= Seq::<u64>::empty());
            assert(pow(self.fan_out as int, 1) == self.fan_out as int);
            assert(self.levels@[0]@.len() as int == 0int / pow(self.fan_out as int, 0));
        }
    }

    /// The recorded per-share value of one epoch, if it was recorded.
    pub fn value_at(&self, epoch: u64) -> (r: Option<u64>)
        requires
            self.wf(),
        ensures
            r is Some <==> (epoch as int) < self.values().len(),
            r is Some ==> r->0 == self.values()[epoch as int],
    {
        let n: usize = self.levels[0].len();
        if epoch < n as u64 {
            Some(self.levels[0][epoch as usize])
        } else {
            None
        }
    }

    /// How many epochs have a recorded value.
    pub fn epoch_count(&self) -> (n: usize)
        requires
            self.wf(),
        ensures
            n == self.values().len(),
    {
        self.levels[0].len()
    }

    /// Any level whose granularity fits within the epoch count exists.
    proof fn lemma_level_exists(self, l: int)
        requires
            self.wf(),
            0 <= l,
            pow(self.fan_out as int, l as nat) <= self.values().len(),
        ensures
            l < self.levels@.len(),
    {
        if l >= self.levels@.len() {
            lemma_pow_increases(self.fan_out as nat, self.levels@.len() as nat, l as nat);
        }
    }

    /// The block an entry aggregates lies inside the recorded epochs.
    proof fn lemma_entry_block_in_range(self, cl: int, j: int)
        requires
            self.wf(),
            0 <= cl < self.levels@.len(),
            0 <= j < self.levels@[cl]@.len(),
        ensures
            0 <= j * pow(self.fan_out as int, cl as nat),
            (j + 1) * pow(self.fan_out as int, cl as nat) <= self.values().len(),
    {
        let p = pow(self.fan_out as int, cl as nat);
        let n = self.values().len() as int;
        lemma_mul_nonnegative(j, p);
        // j + 1 <= n / p, so (j + 1) * p <= (n / p) * p <= n
        lemma_mul_inequality(j + 1, n / p, p);
        lemma_div_mul_le(n, p);
    }

    /// Sum one just-completed block at level `cl + 1`: the `fan_out - 1`
    /// aggregates already stored at level `cl`, then `last`, the
    /// aggregate of the newest child block, which covers the value
    /// being recorded.  Returns `None` exactly when the total
    /// overflows `u64`.
    #[verifier::loop_isolation(false)]
    fn sum_block(
        &self,
        cl: usize,
        base: u64,
        last: u64,
        Ghost(vals_new): Ghost<Seq<u64>>,
    ) -> (r: Option<u64>)
        requires
            self.wf(),
            cl < self.levels@.len(),
            base + self.fan_out - 1 == self.levels@[cl as int]@.len(),
            vals_new.len() == self.values().len() + 1,
            forall|i: int| 0 <= i < self.values().len() ==> vals_new[i] == self.values()[i],
            (base + self.fan_out) * pow(self.fan_out as int, cl as nat) == vals_new.len(),
            last as int == sum_vals(
                vals_new,
                (base + self.fan_out - 1) * pow(self.fan_out as int, cl as nat),
                (base + self.fan_out) * pow(self.fan_out as int, cl as nat),
            ),
        ensures
            ({
                let lo = base * pow(self.fan_out as int, cl as nat);
                let hi = (base + self.fan_out) * pow(self.fan_out as int, cl as nat);
                &&& (r is Some <==> sum_vals(vals_new, lo, hi) <= u64::MAX)
                &&& (r is Some ==> r->0 as int == sum_vals(vals_new, lo, hi))
            }),
    {
        let ghost b_int = self.fan_out as int;
        let ghost p = pow(b_int, cl as nat);
        let ghost lo = base * p;
        let ghost hi = (base + self.fan_out) * p;
        let ghost n = self.values().len() as int;
        let stored: usize = self.levels[cl].len();
        proof {
            // every child block, and the whole block, stays in bounds
            lemma_mul_nonnegative(base as int, p);
            lemma_mul_inequality(base as int, base as int + self.fan_out - 1, p);
            lemma_mul_inequality(base as int + self.fan_out - 1, base as int + self.fan_out, p);
            lemma_sum_nonneg(vals_new, lo, hi);
            assert(base + self.fan_out - 1 == stored);
        }
        let mut s: u64 = 0;
        let mut k: u64 = 0;
        let mut overflow: bool = false;
        while !overflow && k < self.fan_out - 1
            invariant
                0 <= k <= self.fan_out - 1,
                !overflow ==> s as int == sum_vals(vals_new, lo, (base + k) * p),
                overflow ==> sum_vals(vals_new, lo, hi) > u64::MAX,
            decreases (if overflow { 0int } else { 1int }), self.fan_out - 1 - k,
        {
            proof {
                assert(base + k < stored);
            }
            let j: u64 = base + k;
            proof {
                self.lemma_entry_block_in_range(cl as int, j as int);
                lemma_mul_inequality(base as int, j as int, p);
                lemma_mul_inequality(j as int, j as int + 1, p);
                lemma_mul_inequality(j as int + 1, base + self.fan_out, p);
            }
            let e: u64 = self.levels[cl][j as usize];
            proof {
                // e is the exact sum of its child block over the old
                // values, which agree with vals_new below the new epoch
                if cl == 0 {
                    assert(p == pow(b_int, 0));
                    lemma_sum_single(vals_new, j as int);
                    vstd::arithmetic::mul::lemma_mul_basics(j as int);
                    vstd::arithmetic::mul::lemma_mul_basics(j as int + 1);
                    assert(vals_new[j as int] == self.values()[j as int]);
                    assert(e as int == sum_vals(vals_new, j as int * p, (j as int + 1) * p));
                } else {
                    lemma_sum_agree(self.values(), vals_new, j as int * p, (j as int + 1) * p);
                }
                assert(e as int == sum_vals(vals_new, j as int * p, (j as int + 1) * p));
                lemma_sum_split(vals_new, lo, (base + k) * p, (j as int + 1) * p);
            }
            match s.checked_add(e) {
                Some(v) => {
                    s = v;
                    k = k + 1;
                }
                None => {
                    proof {
                        // the partial sum already exceeds u64, so the
                        // whole block does too
                        lemma_sum_sub_range(vals_new, lo, lo, (j + 1) * p, hi);
                    }
                    overflow = true;
                }
            }
        }
        if overflow {
            return None;
        }
        proof {
            lemma_mul_inequality(base as int, base as int + self.fan_out - 1, p);
            lemma_mul_inequality(base as int + self.fan_out - 1, base as int + self.fan_out, p);
            lemma_sum_split(vals_new, lo, (base + self.fan_out - 1) * p, hi);
        }
        match s.checked_add(last) {
            Some(v) => Some(v),
            None => None,
        }
    }

    /// Write `value` as the per-share reward of `epoch` — which must be
    /// the next unrecorded epoch — and cascade an aggregate entry into
    /// every level whose block this epoch completes.  Either every
    /// entry is written, or nothing is and the overflowing aggregate is
    /// reported.
    #[verifier::loop_isolation(false)]
    pub fn record(&mut self, epoch: u64, value: u64) -> (r: Result<(), Error>)
        requires
            old(self).wf(),
            epoch as int == old(self).values().len(),
            epoch < u64::MAX,
        ensures
            final(self).wf(),
            final(self).fan_out() == old(self).fan_out(),
            r is Ok ==> final(self).values() == old(self).values().push(value),
            r is Err ==> *final(self) == *old(self),
            r is Err ==> r == Err::<(), Error>(Error::ArithmeticOverflow),
            r is Ok <==> record_fits(old(self).values(), old(self).fan_out(), value),
    {
        let ghost vals_old = self.values();
        let ghost vals_new = vals_old.push(value);
        let ghost b_int = self.fan_out as int;
        let np1: u64 = epoch + 1;
        let ghost np1i = np1 as int;
        let ghost mc = max_cascade(b_int, np1i);

        let mut sums: Vec<u64> = Vec::new();
        let mut last: u64 = value;
        let mut bs: u64 = self.fan_out;
        let mut stop: bool = false;
        let mut overflow: bool = false;

        proof {
            lemma_sum_single(vals_new, epoch as int);
            vstd::arithmetic::mul::lemma_mul_basics(np1i);
            lemma_mod_multiples_basic(np1i, 1);
            assert(np1i % pow(b_int, 0nat) == 0);
            assert(last as int == sum_vals(vals_new, np1i - pow(b_int, 0nat), np1i));
        }
        while !stop && !overflow
            invariant
                sums@.len() <= mc,
                np1i % pow(b_int, sums@.len() as nat) == 0,
                pow(b_int, sums@.len() as nat) <= np1i,
                forall|i: int|
                    0 <= i < sums@.len() ==> (#[trigger] sums@[i]) as int == sum_vals(
                        vals_new,
                        np1i - pow(b_int, (i + 1) as nat),
                        np1i,
                    ),
                last as int == sum_vals(vals_new, np1i - pow(b_int, sums@.len() as nat), np1i),
                !stop ==> bs as int == pow(b_int, (sums@.len() + 1) as nat),
                stop ==> np1i % pow(b_int, (sums@.len() + 1) as nat) != 0,
                overflow ==> !record_fits(vals_old, b_int, value),
            decreases (if stop || overflow {
                0int
            } else {
                1int
            }), np1i - pow(b_int, sums@.len() as nat),
        {
            let ghost cln = sums@.len() as nat;
            let ghost p_cl = pow(b_int, cln);
            proof {
                lemma_pow_unfold(b_int, cln + 1);
                assert(bs as int == b_int * p_cl);
            }
            if np1 % bs != 0 {
                stop = true;
            } else {
                proof {
                    lemma_multiple_ge(np1i, bs as int);
                    lemma_max_cascade_iff(b_int, np1i, cln + 1);
                    // the quotient by the child granularity, in two forms
                    lemma_div_exact(np1i, bs as int);
                    lemma_mul_is_associative(np1i / (bs as int), b_int, p_cl);
                    lemma_fundamental_div_mod_converse_div(
                        np1i,
                        p_cl,
                        (np1i / (bs as int)) * b_int,
                        0,
                    );
                    assert(np1i / p_cl == (np1i / (bs as int)) * b_int);
                    lemma_mul_nonnegative(np1i / (bs as int), b_int);
                    lemma_mul_inequality(1, p_cl, np1i / p_cl);
                    lemma_mul_is_commutative(np1i / p_cl, p_cl);
                    lemma_div_exact(np1i, p_cl);
                    lemma_pow_divides_down(b_int, np1i, cln + 1, cln);
                }
                let c: u64 = np1 / bs - 1;
                proof {
                    lemma_mul_is_distributive_add_other_way(self.fan_out as int, c as int, 1);
                    assert((c as int + 1) * b_int == np1i / p_cl);
                    assert(c as int * b_int + b_int == np1i / p_cl);
                }
                let base: u64 = c * self.fan_out;
                let cl: usize = sums.len();
                proof {
                    // the child level exists and its entries are the
                    // block sums just below the one being completed
                    lemma_pow_strictly_increases(self.fan_out as nat, cln, cln + 1);
                    self.lemma_level_exists(cl as int);
                    lemma_pred_div_exact(np1i, p_cl);
                    lemma_mul_is_distributive_sub_other_way(p_cl, base as int + self.fan_out, 1);
                    lemma_mul_is_distributive_sub_other_way(
                        p_cl,
                        base as int + self.fan_out,
                        self.fan_out as int,
                    );
                    lemma_mul_is_commutative(base as int + self.fan_out, p_cl);
                    assert((base + self.fan_out) * p_cl == np1i);
                    assert((base + self.fan_out - 1) * p_cl == np1i - p_cl);
                }
                match self.sum_block(cl, base, last, Ghost(vals_new)) {
                    Some(s) => {
                        proof {
                            assert(base as int * p_cl == np1i - bs) by {
                                lemma_mul_is_distributive_sub_other_way(
                                    p_cl,
                                    base as int + self.fan_out,
                                    self.fan_out as int,
                                );
                                assert(base as int * p_cl == np1i - self.fan_out * p_cl);
                                lemma_mul_is_commutative(self.fan_out as int, p_cl);
                            };
                        }
                        sums.push(s);
                        last = s;
                        if bs > np1 / self.fan_out {
                            proof {
                                // the next granularity exceeds the epoch
                                // count, so no further block completes
                                lemma_fundamental_div_mod(np1i, b_int);
                                lemma_mod_division_less_than_divisor(np1i, b_int);
                                lemma_mul_inequality(
                                    np1i / b_int + 1,
                                    bs as int,
                                    b_int,
                                );
                                lemma_mul_is_distributive_add_other_way(b_int, np1i / b_int, 1);
                                lemma_mul_is_commutative(np1i / b_int, b_int);
                                lemma_pow_unfold(b_int, cln + 2);
                                lemma_mul_is_commutative(b_int, bs as int);
                                assert(pow(b_int, cln + 2) > np1i);
                                lemma_small_mod(np1 as nat, pow(b_int, cln + 2) as nat);
                            }
                            stop = true;
                        } else {
                            proof {
                                lemma_div_mul_le(np1i, b_int);
                                lemma_mul_inequality(bs as int, np1i / b_int, b_int);
                                lemma_pow_unfold(b_int, cln + 2);
                                lemma_mul_is_commutative(b_int, bs as int);
                            }
                            bs = bs * self.fan_out;
                        }
                    }
                    None => {
                        proof {
                            // this aggregate cannot fit, so neither can
                            // the widest block, which contains it
                            assert(base as int * p_cl == np1i - bs) by {
                                lemma_mul_is_distributive_sub_other_way(
                                    p_cl,
                                    base as int + self.fan_out,
                                    self.fan_out as int,
                                );
                                lemma_mul_is_commutative(self.fan_out as int, p_cl);
                            };
                            lemma_max_cascade_iff(b_int, np1i, mc);
                            lemma_pow_increases(self.fan_out as nat, cln + 1, mc);
                            lemma_multiple_ge(np1i, pow(b_int, mc));
                            lemma_sum_sub_range(
                                vals_new,
                                np1i - pow(b_int, mc),
                                np1i - bs,
                                np1i,
                                np1i,
                            );
                            assert(vals_old.push(value) == vals_new);
                        }
                        overflow = true;
                    }
                }
            }
        }
        if overflow {
            return Err(Error::ArithmeticOverflow);
        }
        proof {
            // the cascade stopped exactly at the cascade depth of np1,
            // and the widest aggregate fits, so recording fits
            lemma_max_cascade_iff(b_int, np1i, sums@.len() as nat);
            lemma_max_cascade_iff(b_int, np1i, (sums@.len() + 1) as nat);
            assert(sums@.len() == mc);
            assert(vals_old.push(value) == vals_new);
            assert(record_fits(vals_old, b_int, value));
        }

        // commit: the level-0 value first, then one aggregate per
        // completed level
        let ghost old_levels = self.levels@;
        let ghost old_len = old_levels.len() as int;
        proof {
            lemma_pow_increases_converse(
                self.fan_out as nat,
                mc,
                old_levels.len() as nat,
            );
            assert(mc <= old_len);
        }
        self.levels[0].push(value);
        let mut i: usize = 0;
        while i < sums.len()
            invariant
                i <= sums@.len(),
                self.fan_out == old(self).fan_out,
                self.levels@.len() == (if i as int >= old_len {
                    old_len + 1
                } else {
                    old_len
                }),
                self.levels@[0]@ == vals_new,
                forall|l2: int|
                    1 <= l2 <= i ==> #[trigger] self.levels@[l2]@ == (if l2 < old_len {
                        old_levels[l2]@
                    } else {
                        Seq::<u64>::empty()
                    }).push(sums@[l2 - 1]),
                forall|l2: int|
                    i < l2 < old_len ==> #[trigger] self.levels@[l2]@ == old_levels[l2]@,
            decreases sums@.len() - i,
        {
            let l: usize = i + 1;
            if l == self.levels.len() {
                self.levels.push(Vec::new());
            }
            proof {
                assert(l < self.levels@.len());
            }
            let entry: u64 = sums[i];
            self.levels[l].push(entry);
            i = i + 1;
        }
        proof {
            self.lemma_record_commit(epoch, value, old_levels, sums@, vals_old, vals_new);
        }
        Ok(())
    }

    /// Exact sum of the recorded per-share values over the epochs
    /// `start..=end`, walking aligned blocks from the highest usable
    /// aggregation level, so the number of entries read grows with the
    /// logarithm of the range instead of its length.  `allow_top_level`
    /// is false only while a cascade is aggregating, when the top
    /// level's entry for the walked range is not guaranteed written
    /// yet; settlement queries pass true.  An empty range sums to zero;
    /// a range reaching past the recorded epochs is a consistency
    /// violation.
    #[verifier::loop_isolation(false)]
    pub fn range_sum(&self, start: u64, end: u64, allow_top_level: bool) -> (r: Result<u64, Error>)
        requires
            self.wf(),
        ensures
            r is Ok <==> (start > end || (end < self.values().len() && sum_vals(
                self.values(),
                start as int,
                end as int + 1,
            ) <= u64::MAX)),
            r is Ok ==> r->Ok_0 as int == sum_vals(self.values(), start as int, end as int + 1),
            r is Err ==> r->Err_0 == (if start <= end && end >= self.values().len() {
                Error::IndexConsistencyViolation
            } else {
                Error::ArithmeticOverflow
            }),
    {
        let ghost vals = self.values();
        let ghost b_int = self.fan_out as int;
        if start > end {
            return Ok(0);
        }
        let n: usize = self.levels[0].len();
        if end >= n as u64 {
            return Err(Error::IndexConsistencyViolation);
        }
        proof {
            lemma_sum_nonneg(vals, start as int, end as int + 1);
        }

        // the powers of the fan-out whose blocks fit inside the range
        let range: u64 = end - start;
        let mut pows: Vec<u64> = Vec::new();
        pows.push(1);
        let mut done: bool = false;
        while !done
            invariant
                1 <= pows@.len(),
                forall|k: int|
                    0 <= k < pows@.len() ==> (#[trigger] pows@[k]) as int == pow(b_int, k as nat),
                forall|k: int| 0 <= k < pows@.len() ==> (#[trigger] pows@[k]) as int - 1 <= range,
                done ==> pow(b_int, pows@.len() as nat) - 1 > range,
            decreases (if done {
                0int
            } else {
                1int
            }), range + 2 - pow(b_int, (pows@.len() - 1) as nat),
        {
            let lastp: u64 = pows[pows.len() - 1];
            proof {
                lemma_pow_unfold(b_int, pows@.len() as nat);
            }
            match lastp.checked_mul(self.fan_out) {
                Some(next) => {
                    proof {
                        vstd::arithmetic::mul::lemma_mul_basics(self.fan_out as int);
                        lemma_mul_inequality(1, lastp as int, self.fan_out as int);
                        lemma_mul_is_commutative(self.fan_out as int, lastp as int);
                        assert(next as int == pow(b_int, pows@.len() as nat));
                    }
                    if next - 1 > range {
                        done = true;
                    } else {
                        proof {
                            lemma_pow_strictly_increases(
                                self.fan_out as nat,
                                (pows@.len() - 1) as nat,
                                pows@.len() as nat,
                            );
                        }
                        pows.push(next);
                    }
                }
                None => {
                    done = true;
                }
            }
        }
        let max_pow: usize = pows.len() - 1;

        // walk the range, consuming the widest aligned block that fits
        let mut result: u64 = 0;
        let mut block: u64 = start;
        while block <= end
            invariant
                start <= block <= end + 1,
                result as int == sum_vals(vals, start as int, block as int),
            decreases end + 1 - block,
        {
            let mut step_pow: usize = 0;
            if block % self.fan_out == 0 && max_pow >= 1 {
                // the highest level aligned at this position ...
                let mut mbp: usize = 1;
                while mbp < max_pow && block % pows[mbp + 1] == 0
                    invariant
                        1 <= mbp <= max_pow,
                        block as int % pow(b_int, mbp as nat) == 0,
                    decreases max_pow - mbp,
                {
                    mbp = mbp + 1;
                }
                let ghost div_lvl = mbp as nat;
                // ... except the top one while a cascade is running
                if !allow_top_level {
                    mbp = mbp - 1;
                }
                // lower it until its block stays within the range
                let mut lp: usize = mbp;
                while lp >= 1 && pows[lp] > end - block
                    invariant
                        lp <= mbp,
                    decreases lp,
                {
                    lp = lp - 1;
                }
                proof {
                    if lp >= 1 {
                        lemma_pow_divides_down(b_int, block as int, div_lvl, lp as nat);
                    }
                }
                step_pow = lp;
            }
            if step_pow >= 1 {
                let p: u64 = pows[step_pow];
                let jdx: u64 = block / p;
                proof {
                    // the consumed block's entry exists and is exact
                    lemma_div_exact(block as int, p as int);
                    lemma_mul_is_commutative(jdx as int, p as int);
                    lemma_mul_is_distributive_add_other_way(p as int, jdx as int, 1);
                    assert(jdx as int * p == block as int);
                    assert((jdx as int + 1) * p == block + p);
                    self.lemma_level_exists(step_pow as int);
                    lemma_div_is_ordered((jdx as int + 1) * p, n as int, p as int);
                    lemma_div_by_multiple(jdx as int + 1, p as int);
                    assert(jdx < self.levels@[step_pow as int]@.len());
                }
                let e: u64 = self.levels[step_pow][jdx as usize];
                proof {
                    assert(e as int == sum_vals(vals, block as int, block as int + p));
                    lemma_sum_split(vals, start as int, block as int, block as int + p);
                }
                match result.checked_add(e) {
                    Some(v) => {
                        result = v;
                        block = block + p;
                    }
                    None => {
                        proof {
                            lemma_sum_sub_range(
                                vals,
                                start as int,
                                start as int,
                                block as int + p,
                                end as int + 1,
                            );
                        }
                        return Err(Error::ArithmeticOverflow);
                    }
                }
            } else {
                let e: u64 = self.levels[0][block as usize];
                proof {
                    lemma_sum_single(vals, block as int);
                    lemma_sum_split(vals, start as int, block as int, block as int + 1);
                }
                match result.checked_add(e) {
                    Some(v) => {
                        result = v;
                        block = block + 1;
                    }
                    None => {
                        proof {
                            lemma_sum_sub_range(
                                vals,
                                start as int,
                                start as int,
                                block as int + 1,
                                end as int + 1,
                            );
                        }
                        return Err(Error::ArithmeticOverflow);
                    }
                }
            }
        }
        Ok(result)
    }

    /// After the commit loop of `record` the index is well-formed
    /// again: every level has one entry per completed block of the new
    /// epoch count, and every entry is still an exact block sum.
    proof fn lemma_record_commit(
        self,
        epoch: u64,
        value: u64,
        old_levels: Seq<Vec<u64>>,
        sums: Seq<u64>,
        vals_old: Seq<u64>,
        vals_new: Seq<u64>,
    )
        requires
            2 <= self.fan_out,
            1 <= old_levels.len(),
            vals_old == old_levels[0]@,
            vals_new == vals_old.push(value),
            epoch as int == vals_old.len(),
            epoch < u64::MAX,
            (vals_old.len() as int) < pow(self.fan_out as int, old_levels.len() as nat),
            forall|l: int|
                0 <= l < old_levels.len() ==> (#[trigger] old_levels[l]@.len()) as int
                    == vals_old.len() as int / pow(self.fan_out as int, l as nat),
            forall|l: int, j: int|
                1 <= l < old_levels.len() && 0 <= j < old_levels[l]@.len()
                    ==> (#[trigger] old_levels[l]@[j]) as int == sum_vals(
                    vals_old,
                    j * pow(self.fan_out as int, l as nat),
                    (j + 1) * pow(self.fan_out as int, l as nat),
                ),
            sums.len() == max_cascade(self.fan_out as int, epoch as int + 1),
            forall|i: int|
                0 <= i < sums.len() ==> (#[trigger] sums[i]) as int == sum_vals(
                    vals_new,
                    epoch as int + 1 - pow(self.fan_out as int, (i + 1) as nat),
                    epoch as int + 1,
                ),
            self.levels@.len() as int == (if sums.len() as int >= old_levels.len() as int {
                old_levels.len() as int + 1
            } else {
                old_levels.len() as int
            }),
            self.levels@[0]@ == vals_new,
            forall|l2: int|
                1 <= l2 <= sums.len() ==> #[trigger] self.levels@[l2]@ == (if l2
                    < old_levels.len() {
                    old_levels[l2]@
                } else {
                    Seq::<u64>::empty()
                }).push(sums[l2 - 1]),
            forall|l2: int|
                sums.len() < l2 < old_levels.len() ==> #[trigger] self.levels@[l2]@
                    == old_levels[l2]@,
        ensures
            self.wf(),
            self.values() == vals_new,
    {
        let b = self.fan_out as int;
        let n = epoch as int;
        let np1 = n + 1;
        let mc = sums.len() as int;
        let old_len = old_levels.len() as int;

        lemma_max_cascade_iff(b, np1, mc as nat);
        lemma_multiple_ge(np1, pow(b, mc as nat));
        lemma_pow_increases_converse(self.fan_out as nat, mc as nat, old_levels.len() as nat);
        assert(mc <= old_len);

        // the new epoch count stays below the span of the level list
        if mc == old_len {
            assert(np1 == pow(b, old_len as nat));
            lemma_pow_strictly_increases(
                self.fan_out as nat,
                old_len as nat,
                (old_len + 1) as nat,
            );
            assert(self.levels@.len() as int == old_len + 1);
        } else {
            assert(self.levels@.len() as int == old_len);
            if np1 == pow(b, old_len as nat) {
                lemma_mod_self_0(pow(b, old_len as nat));
                lemma_max_cascade_iff(b, np1, old_len as nat);
            }
            assert(np1 < pow(b, old_len as nat));
        }
        assert((self.values().len() as int) < pow(b, self.levels@.len() as nat));

        // each level holds one entry per completed block
        assert forall|l: int| 0 <= l < self.levels@.len() implies (#[trigger] self.levels@[l]@.len())
            as int == np1 / pow(b, l as nat) by {
            let p = pow(b, l as nat);
            if l == 0 {
                lemma_div_basics(np1);
            } else {
                let old_cnt: int = if l < old_len {
                    old_levels[l]@.len() as int
                } else {
                    0int
                };
                if l == old_len {
                    lemma_basic_div(n, p);
                }
                assert(old_cnt == n / p);
                lemma_max_cascade_iff(b, np1, l as nat);
                if l <= mc {
                    assert(self.levels@[l]@.len() as int == old_cnt + 1);
                    lemma_pred_div_exact(np1, p);
                } else {
                    assert(self.levels@[l]@ == old_levels[l]@);
                    lemma_pred_div_same(np1, p);
                }
            }
        }

        // each entry is the exact sum of its block
        assert forall|l: int, j: int|
            1 <= l < self.levels@.len() && 0 <= j < self.levels@[l]@.len() implies (
        #[trigger] self.levels@[l]@[j]) as int == sum_vals(
            vals_new,
            j * pow(b, l as nat),
            (j + 1) * pow(b, l as nat),
        ) by {
            let p = pow(b, l as nat);
            let old_cnt: int = if l < old_len {
                old_levels[l]@.len() as int
            } else {
                0int
            };
            if l == old_len {
                lemma_basic_div(n, p);
            }
            assert(old_cnt == n / p);
            if j < old_cnt {
                // an entry carried over: its block lies below the new
                // epoch, where old and new values agree
                assert(self.levels@[l]@[j] == old_levels[l]@[j]);
                lemma_mul_nonnegative(j, p);
                lemma_mul_inequality(j + 1, old_cnt, p);
                lemma_div_mul_le(n, p);
                lemma_sum_agree(vals_old, vals_new, j * p, (j + 1) * p);
            } else {
                // the one fresh entry: the aggregate of the block that
                // ends at the new epoch
                assert(l <= mc);
                assert(j == old_cnt);
                assert(self.levels@[l]@[j] == sums[l - 1]);
                lemma_max_cascade_iff(b, np1, l as nat);
                lemma_pred_div_exact(np1, p);
                assert(j == np1 / p - 1);
                lemma_div_exact(np1, p);
                lemma_mul_is_distributive_sub_other_way(p, np1 / p, 1);
                lemma_mul_is_commutative(np1 / p, p);
                lemma_mul_is_commutative(np1 / p - 1, p);
                assert(j * p == np1 - p);
                assert((j + 1) * p == np1);
            }
        }
    }
}

} // verus!
