use vstd::prelude::*;
use vstd::arithmetic::div_mod::*;
use vstd::arithmetic::mul::*;
use crate::digits::{pow10, pow10_i64, lemma_pow10_pos, lemma_pow10_increases,
    lemma_pow10_strictly_increases, lemma_pow10_values};

verus! {

/// `n` with its lowest `k` digits filled with nines: the largest value whose
/// digits above position `k` agree with those of `n`.
pub open spec fn nines_fill_spec(n: int, k: nat) -> int {
    n - n % pow10(k) + pow10(k) - 1
}

pub proof fn lemma_nines_fill_bounds(n: int, k: nat)
    requires
        0 <= n,
    ensures
        n <= nines_fill_spec(n, k),
        pow10(k) - 1 <= nines_fill_spec(n, k),
{
    let p = pow10(k);
    lemma_pow10_pos(k);
    lemma_mod_division_less_than_divisor(n, p);
    lemma_fundamental_div_mod(n, p);
    lemma_div_pos_is_pos(n, p);
    lemma_mul_nonnegative(p, n / p);
    assert(n - n % p == p * (n / p));
}

/// Filling one more digit with nines never lowers the value.
pub proof fn lemma_nines_fill_mono(n: int, k1: nat, k2: nat)
    requires
        0 <= n,
        k1 <= k2,
    ensures
        nines_fill_spec(n, k1) <= nines_fill_spec(n, k2),
    decreases k2 - k1,
{
    if k1 < k2 {
        lemma_nines_fill_mono(n, k1, (k2 - 1) as nat);
        let p = pow10((k2 - 1) as nat);
        lemma_pow10_pos((k2 - 1) as nat);
        assert(pow10(k2) == 10 * p);
        lemma_breakdown(n, p, 10);
        assert(n % (p * 10) == p * ((n / p) % 10) + n % p);
        lemma_mod_division_less_than_divisor(n / p, 10);
        lemma_mul_inequality((n / p) % 10, 9, p);
        assert(p * ((n / p) % 10) <= 9 * p);
    }
}

/// When `n` is below the block size, the fill is the all-nines value.
pub proof fn lemma_nines_fill_small(n: int, k: nat)
    requires
        0 <= n,
        n < pow10(k),
    ensures
        nines_fill_spec(n, k) == pow10(k) - 1,
{
    lemma_pow10_pos(k);
    lemma_small_mod(n as nat, pow10(k) as nat);
}

/// Computes the nines fill of `integer` at digit position `nines_count`.
pub fn fill_by_nines(integer: i64, nines_count: usize) -> (r: i64)
    requires
        0 <= integer < pow10(18),
        1 <= nines_count <= 18,
    ensures
        r == nines_fill_spec(integer as int, nines_count as nat),
{
    proof {
        lemma_pow10_values();
        lemma_pow10_increases(nines_count as nat, 18);
        lemma_pow10_pos(nines_count as nat);
        lemma_mod_division_less_than_divisor(integer as int, pow10(nines_count as nat));
        lemma_fundamental_div_mod(integer as int, pow10(nines_count as nat));
        lemma_div_pos_is_pos(integer as int, pow10(nines_count as nat));
        lemma_mul_nonnegative(pow10(nines_count as nat), integer as int / pow10(nines_count as nat));
    }
    let offset: i64 = pow10_i64(nines_count);
    integer - integer % offset + offset - 1
}

/// Walks the ascending breakpoints where a growing run of trailing nines,
/// anchored at `min`, still stays inside `[min, max]`.
pub struct FillByNinesIterator {
    pub min: i64,
    pub max: i64,
    pub stop: i64,
    pub nines_count: usize,
}

impl FillByNinesIterator {
    pub open spec fn wf(self) -> bool {
        &&& 0 <= self.min <= self.max
        &&& (self.max as int) < pow10(17)
        &&& 1 <= self.nines_count <= 18
        &&& self.stop == nines_fill_spec(self.min as int, self.nines_count as nat)
    }

    pub fn new(min: i64, max: i64) -> (r: Self)
        requires
            0 <= min <= max,
            (max as int) < pow10(17),
        ensures
            r.wf(),
            r.min == min,
            r.max == max,
            r.nines_count == 1,
    {
        proof {
            lemma_pow10_strictly_increases(17, 18);
        }
        let nines_count: usize = 1;
        let stop: i64 = fill_by_nines(min, nines_count);
        Self { min, max, stop, nines_count }
    }

    pub fn next(&mut self) -> (r: Option<i64>)
        requires
            old(self).wf(),
        ensures
            final(self).wf(),
            final(self).min == old(self).min,
            final(self).max == old(self).max,
            nines_fill_spec(old(self).min as int, old(self).nines_count as nat) <= old(self).max
                ==> (r == Some(old(self).stop) && final(self).nines_count == old(self).nines_count
                + 1),
            nines_fill_spec(old(self).min as int, old(self).nines_count as nat) > old(self).max
                ==> (r == Option::<i64>::None && *final(self) == *old(self)),
    {
        proof {
            lemma_nines_fill_bounds(self.min as int, self.nines_count as nat);
        }
        if self.min <= self.stop && self.stop <= self.max {
            let stop = self.stop;
            proof {
                if self.nines_count > 17 {
                    lemma_pow10_strictly_increases(17, self.nines_count as nat);
                    assert(false);
                }
                lemma_pow10_strictly_increases(17, 18);
            }
            self.nines_count = self.nines_count + 1;
            self.stop = fill_by_nines(self.min, self.nines_count);
            Some(stop)
        } else {
            None
        }
    }
}

} // verus!
