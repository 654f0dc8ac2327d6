use vstd::prelude::*;
use vstd::arithmetic::div_mod::*;
use vstd::arithmetic::mul::*;
use crate::digits::{pow10, pow10_i64, lemma_pow10_pos, lemma_pow10_increases,
    lemma_pow10_strictly_increases, lemma_pow10_values};

verus! {

/// `n` rounded down to a multiple of the block size at digit position `k`:
/// its lowest `k` digits filled with zeros.
pub open spec fn zeros_fill_spec(n: int, k: nat) -> int {
    n - n % pow10(k)
}

/// The descending breakpoint at digit position `k` for a range ending at
/// `mx`: the largest value strictly below the block boundary at `mx + 1`.
pub open spec fn zeros_stop_spec(mx: int, k: nat) -> int {
    zeros_fill_spec(mx + 1, k) - 1
}

pub proof fn lemma_zeros_stop_le_max(mx: int, k: nat)
    requires
        0 <= mx,
    ensures
        zeros_stop_spec(mx, k) <= mx,
{
    lemma_pow10_pos(k);
    lemma_mod_division_less_than_divisor(mx + 1, pow10(k));
}

/// Zeroing one more digit never raises the breakpoint.
pub proof fn lemma_zeros_stop_mono(mx: int, k1: nat, k2: nat)
    requires
        0 <= mx,
        k1 <= k2,
    ensures
        zeros_stop_spec(mx, k2) <= zeros_stop_spec(mx, k1),
    decreases k2 - k1,
{
    if k1 < k2 {
        lemma_zeros_stop_mono(mx, k1, (k2 - 1) as nat);
        let n = mx + 1;
        let p = pow10((k2 - 1) as nat);
        lemma_pow10_pos((k2 - 1) as nat);
        assert(pow10(k2) == 10 * p);
        lemma_breakdown(n, p, 10);
        assert(n % (p * 10) == p * ((n / p) % 10) + n % p);
        lemma_mod_division_less_than_divisor(n / p, 10);
        lemma_mul_nonnegative(p, (n / p) % 10);
    }
}

/// Computes the zeros fill of `integer` at digit position `zeros_count`.
pub fn fill_by_zeros(integer: i64, zeros_count: usize) -> (r: i64)
    requires
        0 <= integer <= pow10(18),
        1 <= zeros_count <= 18,
    ensures
        r == zeros_fill_spec(integer as int, zeros_count as nat),
        0 <= r,
{
    proof {
        lemma_pow10_values();
        lemma_pow10_pos(zeros_count as nat);
        lemma_mod_division_less_than_divisor(integer as int, pow10(zeros_count as nat));
        lemma_fundamental_div_mod(integer as int, pow10(zeros_count as nat));
        lemma_div_pos_is_pos(integer as int, pow10(zeros_count as nat));
        lemma_mul_nonnegative(pow10(zeros_count as nat), integer as int / pow10(zeros_count as nat));
    }
    let offset: i64 = pow10_i64(zeros_count);
    integer - integer % offset
}

/// Walks the descending breakpoints where a growing run of trailing zeros,
/// anchored just past `max`, still stays inside `(min, max]`.
pub struct FillByZerosIterator {
    pub min: i64,
    pub max: i64,
    pub stop: i64,
    pub zeros_count: usize,
}

impl FillByZerosIterator {
    pub open spec fn wf(self) -> bool {
        &&& 0 <= self.min <= self.max
        &&& (self.max as int) < pow10(17)
        &&& 1 <= self.zeros_count <= 18
        &&& self.stop == zeros_stop_spec(self.max as int, self.zeros_count as nat)
    }

    pub fn new(min: i64, max: i64) -> (r: Self)
        requires
            0 <= min <= max,
            (max as int) < pow10(17),
        ensures
            r.wf(),
            r.min == min,
            r.max == max,
            r.zeros_count == 1,
    {
        proof {
            lemma_pow10_values();
            lemma_pow10_strictly_increases(17, 18);
            lemma_pow10_pos(1);
            lemma_mod_division_less_than_divisor(max as int + 1, pow10(1));
        }
        let zeros_count: usize = 1;
        let stop: i64 = fill_by_zeros(max + 1, zeros_count) - 1;
        Self { min, max, stop, zeros_count }
    }

    pub fn next(&mut self) -> (r: Option<i64>)
        requires
            old(self).wf(),
        ensures
            final(self).wf(),
            final(self).min == old(self).min,
            final(self).max == old(self).max,
            zeros_stop_spec(old(self).max as int, old(self).zeros_count as nat) > old(self).min
                ==> (r == Some(old(self).stop) && final(self).zeros_count == old(self).zeros_count
                + 1),
            zeros_stop_spec(old(self).max as int, old(self).zeros_count as nat) <= old(self).min
                ==> (r == Option::<i64>::None && *final(self) == *old(self)),
    {
        proof {
            lemma_zeros_stop_le_max(self.max as int, self.zeros_count as nat);
        }
        if self.min < self.stop && self.stop <= self.max {
            let stop = self.stop;
            proof {
                let k = self.zeros_count as nat;
                let p = pow10(k);
                let n = self.max as int + 1;
                lemma_pow10_pos(k);
                // the breakpoint is still positive, so the block size is at most max + 1
                lemma_mod_division_less_than_divisor(n, p);
                lemma_fundamental_div_mod(n, p);
                lemma_div_pos_is_pos(n, p);
                assert(p * (n / p) >= 2);
                if n / p == 0 {
                    assert(p * (n / p) == 0) by (nonlinear_arith)
                        requires n / p == 0,
                    ;
                    assert(false);
                }
                lemma_mul_inequality(1, n / p, p);
                assert(1 * p <= (n / p) * p) by (nonlinear_arith)
                    requires 1 <= n / p, p > 0,
                ;
                assert(p <= n);
                if self.zeros_count > 17 {
                    lemma_pow10_strictly_increases(17, k);
                    assert(false);
                }
                lemma_pow10_values();
                lemma_pow10_strictly_increases(17, 18);
                lemma_mod_division_less_than_divisor(n, pow10((k + 1) as nat));
            }
            self.zeros_count = self.zeros_count + 1;
            self.stop = fill_by_zeros(self.max + 1, self.zeros_count) - 1;
            Some(stop)
        } else {
            None
        }
    }
}

} // verus!
