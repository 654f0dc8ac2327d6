use vstd::prelude::*;
use vstd::arithmetic::div_mod::*;

verus! {

/// 10 raised to the power `k`.
pub open spec fn pow10(k: nat) -> int
    decreases k,
{
    if k == 0 {
        1
    } else {
        10 * pow10((k - 1) as nat)
    }
}

pub proof fn lemma_pow10_pos(k: nat)
    ensures
        pow10(k) >= 1,
    decreases k,
{
    if k > 0 {
        lemma_pow10_pos((k - 1) as nat);
    }
}

pub proof fn lemma_pow10_increases(k1: nat, k2: nat)
    requires
        k1 <= k2,
    ensures
        pow10(k1) <= pow10(k2),
    decreases k2 - k1,
{
    if k1 < k2 {
        lemma_pow10_increases(k1, (k2 - 1) as nat);
        lemma_pow10_pos((k2 - 1) as nat);
    }
}

pub proof fn lemma_pow10_strictly_increases(k1: nat, k2: nat)
    requires
        k1 < k2,
    ensures
        pow10(k1) < pow10(k2),
{
    lemma_pow10_increases(k1, (k2 - 1) as nat);
    lemma_pow10_pos((k2 - 1) as nat);
}

pub proof fn lemma_pow10_values()
    ensures
        pow10(17) == 100_000_000_000_000_000,
        pow10(18) == 1_000_000_000_000_000_000,
        pow10(19) == 10_000_000_000_000_000_000,
{
    reveal_with_fuel(pow10, 20);
}

/// The character for one decimal digit.
pub open spec fn digit_char(d: int) -> char {
    if d <= 0 {
        '0'
    } else if d == 1 {
        '1'
    } else if d == 2 {
        '2'
    } else if d == 3 {
        '3'
    } else if d == 4 {
        '4'
    } else if d == 5 {
        '5'
    } else if d == 6 {
        '6'
    } else if d == 7 {
        '7'
    } else if d == 8 {
        '8'
    } else {
        '9'
    }
}

/// The decimal digits of a nonnegative integer, most significant first,
/// with no leading zeros (`0` is written as the single digit `0`).
pub open spec fn decimal_digits(n: int) -> Seq<char>
    decreases n,
{
    if n < 10 {
        seq![digit_char(n)]
    } else {
        decimal_digits(n / 10).push(digit_char(n % 10))
    }
}

/// The canonical decimal form of an integer: a leading `-` for negative
/// values, then the digits of the magnitude, most significant first.
pub open spec fn decimal_chars(n: int) -> Seq<char> {
    if n < 0 {
        seq!['-'] + decimal_digits(-n)
    } else {
        decimal_digits(n)
    }
}

/// How many decimal digits a nonnegative integer has.
pub open spec fn num_digits(n: int) -> nat
    decreases n,
{
    if n < 10 {
        1
    } else {
        1 + num_digits(n / 10)
    }
}

/// The decimal digits of `n` written with exactly `k + 1` positions,
/// most significant first, keeping leading zeros.
pub open spec fn padded_digits(n: int, k: nat) -> Seq<char>
    decreases k,
{
    seq![digit_char(n / pow10(k))] + if k == 0 {
        Seq::<char>::empty()
    } else {
        padded_digits(n % pow10(k), (k - 1) as nat)
    }
}

pub proof fn lemma_padded_digits_len(n: int, k: nat)
    ensures
        padded_digits(n, k).len() == k + 1,
    decreases k,
{
    if k > 0 {
        lemma_padded_digits_len(n % pow10(k), (k - 1) as nat);
    }
}

/// Peeling one digit from the low end of a padded representation.
pub proof fn lemma_padded_step(n: int, k: nat)
    requires
        0 <= n,
        1 <= k,
    ensures
        padded_digits(n, k) == padded_digits(n / 10, (k - 1) as nat).push(digit_char(n % 10)),
    decreases k,
{
    let p = pow10((k - 1) as nat);
    lemma_pow10_pos((k - 1) as nat);
    assert(pow10(k) == 10 * p);
    lemma_div_denominator(n, 10, p);
    assert(n / 10 / p == n / (10 * p));
    lemma_mod_division_less_than_divisor(n, 10);
    if k == 1 {
        assert(pow10(0nat) == 1);
        assert(pow10(1nat) == 10);
        lemma_div_basics(n % 10);
        lemma_div_basics(n / 10);
        lemma_mod_division_less_than_divisor(n, 10);
        assert(padded_digits(n % 10, 0) =~= seq![digit_char(n % 10)]);
        assert(padded_digits(n / 10, 0) =~= seq![digit_char(n / 10)]);
        assert(padded_digits(n, 1) =~= padded_digits(n / 10, 0).push(digit_char(n % 10)));
    } else {
        let bigp = pow10(k);
        lemma_breakdown(n, 10, p);
        assert(n % (10 * p) == 10 * ((n / 10) % p) + n % 10);
        let a = (n / 10) % p;
        let b = n % 10;
        lemma_mod_division_less_than_divisor(n / 10, p);
        lemma_div_pos_is_pos(n, 10);
        assert(0 <= a < p);
        // (10 * a + b) / 10 == a and (10 * a + b) % 10 == b
        lemma_div_multiples_vanish_fancy(a, b, 10);
        assert((10 * a + b) / 10 == a);
        lemma_mod_multiples_vanish(a, b, 10);
        assert((10 * a + b) % 10 == b % 10);
        lemma_small_mod(b as nat, 10);
        assert((n % bigp) / 10 == a);
        assert((n % bigp) % 10 == b);
        lemma_mod_division_less_than_divisor(n, bigp);
        lemma_padded_step(n % bigp, (k - 1) as nat);
        assert(padded_digits(n % bigp, (k - 1) as nat) == padded_digits(a, (k - 2) as nat).push(
            digit_char(b)));
        assert(padded_digits(n, k) =~= padded_digits(n / 10, (k - 1) as nat).push(digit_char(n % 10)));
    }
}

/// A padded representation whose width matches the true digit count is the
/// plain decimal representation.
pub proof fn lemma_padded_is_decimal(n: int, k: nat)
    requires
        0 <= n,
        (k == 0 && n < 10) || (pow10(k) <= n && n < pow10((k + 1) as nat)),
    ensures
        padded_digits(n, k) == decimal_digits(n),
    decreases k,
{
    if k == 0 {
        lemma_div_basics(n);
        assert(padded_digits(n, 0) =~= decimal_digits(n));
    } else {
        lemma_pow10_increases(1, k);
        assert(n >= 10);
        lemma_padded_step(n, k);
        // bounds for the quotient
        lemma_pow10_pos((k - 1) as nat);
        let p = pow10((k - 1) as nat);
        assert(pow10(k) == 10 * p);
        lemma_div_is_ordered(10 * p, n, 10);
        lemma_div_multiples_vanish(p, 10);
        assert(n / 10 >= p);
        assert(n < 10 * pow10(k));
        lemma_multiply_divide_lt(n, 10, pow10(k));
        assert(n / 10 < pow10(k));
        if k == 1 {
            assert(n / 10 < 10);
        }
        lemma_padded_is_decimal(n / 10, (k - 1) as nat);
        lemma_mod_division_less_than_divisor(n, 10);
        assert(decimal_digits(n) == decimal_digits(n / 10).push(digit_char(n % 10)));
    }
}

/// The decimal form is canonical: every integer has at least one digit, zero
/// is the single digit `0`, and a positive value never starts with a zero.
pub proof fn lemma_decimal_digits_canonical(n: int)
    requires
        0 <= n,
    ensures
        decimal_digits(n).len() >= 1,
        n >= 1 ==> decimal_digits(n)[0] != '0',
        n == 0 ==> decimal_digits(n) == seq!['0'],
    decreases n,
{
    if n >= 10 {
        lemma_decimal_digits_canonical(n / 10);
        assert(decimal_digits(n)[0] == decimal_digits(n / 10)[0]);
    }
}

/// A positive integer lies between the block sizes at its own digit count.
pub proof fn lemma_num_digits_bounds(n: int)
    requires
        1 <= n,
    ensures
        pow10((num_digits(n) - 1) as nat) <= n,
        n < pow10(num_digits(n)),
        num_digits(n) >= 1,
    decreases n,
{
    if n < 10 {
        assert(pow10(0nat) == 1);
        assert(pow10(1nat) == 10);
    } else {
        lemma_num_digits_bounds(n / 10);
        let d = num_digits(n / 10);
        lemma_fundamental_div_mod(n, 10);
        lemma_mod_division_less_than_divisor(n, 10);
        assert(pow10(d) == 10 * pow10((d - 1) as nat));
        assert(pow10((d + 1) as nat) == 10 * pow10(d));
    }
}

/// A larger integer never has fewer decimal digits.
pub proof fn lemma_num_digits_monotone(a: int, b: int)
    requires
        0 <= a <= b,
    ensures
        num_digits(a) <= num_digits(b),
    decreases b,
{
    if b >= 10 && a >= 10 {
        lemma_div_is_ordered(a, b, 10);
        lemma_div_pos_is_pos(a, 10);
        lemma_num_digits_monotone(a / 10, b / 10);
    }
}

/// A value below the block size at digit position `j` has at most `j` digits.
pub proof fn lemma_decimal_digits_len_bound(n: int, j: nat)
    requires
        0 <= n,
        n < pow10(j),
        1 <= j,
    ensures
        decimal_digits(n).len() <= j,
    decreases j,
{
    if n >= 10 {
        if j < 2 {
            assert(pow10(0nat) == 1);
            assert(pow10(1nat) == 10);
            assert(false);
        }
        let p = pow10((j - 1) as nat);
        lemma_pow10_pos((j - 1) as nat);
        assert(pow10(j) == 10 * p);
        lemma_multiply_divide_lt(n, 10, p);
        lemma_decimal_digits_len_bound(n / 10, (j - 1) as nat);
    }
}

fn digit_to_char(d: i64) -> (c: char)
    requires
        0 <= d <= 9,
    ensures
        c == digit_char(d as int),
{
    if d == 0 {
        '0'
    } else if d == 1 {
        '1'
    } else if d == 2 {
        '2'
    } else if d == 3 {
        '3'
    } else if d == 4 {
        '4'
    } else if d == 5 {
        '5'
    } else if d == 6 {
        '6'
    } else if d == 7 {
        '7'
    } else if d == 8 {
        '8'
    } else {
        '9'
    }
}

/// Computes 10 raised to the power `k`.
pub fn pow10_i64(k: usize) -> (r: i64)
    requires
        k <= 18,
    ensures
        r == pow10(k as nat),
{
    let mut result: i64 = 1;
    let mut i: usize = 0;
    while i < k
        invariant
            i <= k,
            k <= 18,
            result == pow10(i as nat),
        decreases k - i,
    {
        proof {
            lemma_pow10_values();
            lemma_pow10_pos(i as nat);
            assert(pow10((i as nat + 1) as nat) == 10 * pow10(i as nat));
            lemma_pow10_increases((i + 1) as nat, 18);
        }
        result = result * 10;
        i = i + 1;
    }
    result
}

/// Walks the decimal form of a signed integer from left to right: a `-`
/// first for a negative value, then each digit, most significant first.
pub struct Base10DigitIterator {
    number: i64,
    powered: i64,
    exp: Ghost<nat>,
}

impl Base10DigitIterator {
    pub closed spec fn wf(self) -> bool {
        &&& self.number > i64::MIN
        &&& if self.number < 0 {
            self.powered == pow10(self.exp@) && -(self.number as int) < 10 * self.powered
        } else {
            (self.powered == 0 && self.number == 0) || (self.powered == pow10(self.exp@)
                && self.number < 10 * self.powered)
        }
    }

    /// The characters this iterator has still to produce.
    pub closed spec fn remaining(self) -> Seq<char> {
        if self.number < 0 {
            seq!['-'] + padded_digits(-(self.number as int), self.exp@)
        } else if self.powered == 0 {
            Seq::<char>::empty()
        } else {
            padded_digits(self.number as int, self.exp@)
        }
    }

    pub fn new(number: i64) -> (r: Self)
        requires
            number > i64::MIN,
        ensures
            r.wf(),
            r.remaining() == decimal_chars(number as int),
    {
        let magnitude: i64 = if number < 0 {
            -number
        } else {
            number
        };
        let mut powered: i64 = 1;
        let ghost mut k: nat = 0;
        while powered <= magnitude / 10
            invariant
                0 <= magnitude,
                1 <= powered,
                powered == pow10(k),
                powered == 1 || powered <= magnitude,
            decreases magnitude - powered,
        {
            proof {
                lemma_fundamental_div_mod(magnitude as int, 10);
                lemma_mod_division_less_than_divisor(magnitude as int, 10);
                assert(10 * powered <= magnitude);
            }
            powered = powered * 10;
            proof {
                k = k + 1;
            }
        }
        proof {
            lemma_fundamental_div_mod(magnitude as int, 10);
            lemma_mod_division_less_than_divisor(magnitude as int, 10);
            assert(magnitude < 10 * powered);
            if powered == 1 {
                if k != 0 {
                    lemma_pow10_strictly_increases(0, k);
                }
                assert(k == 0);
            }
            assert(pow10((k + 1) as nat) == 10 * pow10(k));
            lemma_padded_is_decimal(magnitude as int, k);
        }
        Self { number, powered, exp: Ghost(k) }
    }

    pub fn next(&mut self) -> (r: Option<char>)
        requires
            old(self).wf(),
        ensures
            final(self).wf(),
            old(self).remaining().len() > 0 ==> (r == Some(old(self).remaining()[0])
                && final(self).remaining() == old(self).remaining().skip(1)),
            old(self).remaining().len() == 0 ==> (r == Option::<char>::None && *final(self)
                == *old(self)),
    {
        proof {
            if old(self).number < 0 || old(self).powered != 0 {
                let m = if old(self).number < 0 {
                    -(old(self).number as int)
                } else {
                    old(self).number as int
                };
                lemma_padded_digits_len(m, old(self).exp@);
            }
        }
        if self.number < 0 {
            self.number = -self.number;
            proof {
                assert(self.remaining() =~= old(self).remaining().skip(1));
            }
            return Some('-');
        }
        if self.powered > 0 && self.number == 0 {
            let ghost k = self.exp@;
            self.powered = self.powered / 10;
            self.exp = Ghost(if k == 0 { 0nat } else { (k - 1) as nat });
            proof {
                lemma_pow10_pos(k);
                lemma_div_of0(pow10(k));
                assert(old(self).remaining()[0] == digit_char(0));
                lemma_small_mod(0, pow10(k) as nat);
                if k == 0 {
                    assert(old(self).powered == 1);
                    assert(self.powered == 0);
                    assert(self.remaining() =~= old(self).remaining().skip(1));
                } else {
                    assert(pow10(k) == 10 * pow10((k - 1) as nat));
                    lemma_div_multiples_vanish(pow10((k - 1) as nat), 10);
                    assert(self.powered == pow10((k - 1) as nat));
                    lemma_pow10_pos((k - 1) as nat);
                    assert(self.remaining() =~= old(self).remaining().skip(1));
                }
            }
            return Some('0');
        }
        if self.number == 0 || self.powered == 0 {
            return None;
        }
        let ghost k = self.exp@;
        let d: i64 = self.number / self.powered;
        proof {
            lemma_pow10_pos(k);
            lemma_div_pos_is_pos(self.number as int, self.powered as int);
            lemma_multiply_divide_lt(self.number as int, self.powered as int, 10);
            assert(0 <= d <= 9);
        }
        self.number = self.number % self.powered;
        self.powered = self.powered / 10;
        self.exp = Ghost(if k == 0 { 0nat } else { (k - 1) as nat });
        proof {
            lemma_pow10_pos(k);
            lemma_mod_division_less_than_divisor(old(self).number as int, pow10(k));
            if k == 0 {
                assert(old(self).powered == 1);
                lemma_fundamental_div_mod(old(self).number as int, 1);
                lemma_div_basics(old(self).number as int);
                assert(self.number == 0);
                assert(self.powered == 0);
                assert(self.remaining() =~= old(self).remaining().skip(1));
            } else {
                assert(pow10(k) == 10 * pow10((k - 1) as nat));
                lemma_div_multiples_vanish(pow10((k - 1) as nat), 10);
                assert(self.powered == pow10((k - 1) as nat));
                lemma_pow10_pos((k - 1) as nat);
                assert(self.remaining() =~= old(self).remaining().skip(1));
            }
        }
        Some(digit_to_char(d))
    }
}

} // verus!
