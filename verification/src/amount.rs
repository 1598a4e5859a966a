//! Exact non-negative rational quantities.
//!
//! Every quantity the expansion works with (requested amounts, batch sizes,
//! per-batch requirement counts, ledger totals) is a rational `num / den`
//! held in two `u64` fields. All arithmetic is exact; an operation whose
//! result does not fit returns `None` instead of losing precision.

use vstd::prelude::*;
use vstd::arithmetic::div_mod::{lemma_fundamental_div_mod, lemma_mod_bound};

verus! {

/// A non-negative rational quantity `num / den`.
#[derive(Clone, Copy, Debug)]
pub struct Amount {
    pub num: u64,
    pub den: u64,
}

/// `a <= b` as rationals, by cross-multiplication (valid for positive
/// denominators).
pub open spec fn rat_le(a: Amount, b: Amount) -> bool {
    a.num * b.den <= b.num * a.den
}

/// The exact sum of two amounts, or `None` when a component would not fit
/// in `u64`.
pub open spec fn spec_plus(a: Amount, b: Amount) -> Option<Amount> {
    let n = a.num * b.den + b.num * a.den;
    let d = a.den * b.den;
    if n > u64::MAX || d > u64::MAX {
        None
    } else {
        Some(Amount { num: n as u64, den: d as u64 })
    }
}

/// The exact product of two amounts, or `None` when a component would not
/// fit in `u64`.
pub open spec fn spec_times(a: Amount, b: Amount) -> Option<Amount> {
    let n = a.num * b.num;
    let d = a.den * b.den;
    if n > u64::MAX || d > u64::MAX {
        None
    } else {
        Some(Amount { num: n as u64, den: d as u64 })
    }
}

/// The exact product of a whole number of batches and an amount, or `None`
/// when the numerator would not fit in `u64`.
pub open spec fn spec_times_int(k: u64, b: Amount) -> Option<Amount> {
    let n = k * b.num;
    if n > u64::MAX {
        None
    } else {
        Some(Amount { num: n as u64, den: b.den })
    }
}

/// `ceil(r / b)`: the number of whole batches of size `b` needed to cover
/// `r`, or `None` when it would not fit in `u64`.
pub open spec fn spec_batches(r: Amount, b: Amount) -> Option<u64> {
    let n = r.num * b.den;
    let d = r.den * b.num;
    let q = n / d + if n % d == 0 { 0int } else { 1int };
    if q > u64::MAX {
        None
    } else {
        Some(q as u64)
    }
}

/// `ceil(a)` as an integer; always fits in `u64` because `ceil(n/d) <= n`.
pub open spec fn spec_ceil(a: Amount) -> int {
    a.num / a.den + if a.num % a.den == 0 { 0int } else { 1int }
}

/// Batch rounding: with a batch size `b` the requested amount is rounded up
/// to the next whole multiple of `b`; with no batch size it is passed
/// through unchanged.
pub open spec fn spec_effective(r: Amount, batch: Option<Amount>) -> Option<Amount> {
    match batch {
        None => Some(r),
        Some(b) => match spec_batches(r, b) {
            None => None,
            Some(k) => spec_times_int(k, b),
        },
    }
}

impl Amount {
    /// Well-formed: the denominator is non-zero.
    pub open spec fn wf(self) -> bool {
        self.den >= 1
    }

    /// A whole quantity `n`.
    pub fn whole(n: u64) -> (r: Amount)
        ensures
            r == (Amount { num: n, den: 1 }),
            r.wf(),
    {
        Amount { num: n, den: 1 }
    }

    /// A rational quantity `num / den`; `None` when `den` is zero.
    pub fn new(num: u64, den: u64) -> (r: Option<Amount>)
        ensures
            r is Some <==> den >= 1,
            r is Some ==> r == Some(Amount { num, den }) && r.unwrap().wf(),
    {
        if den >= 1 {
            Some(Amount { num, den })
        } else {
            None
        }
    }

    /// Exact addition.
    pub fn plus(self, other: Amount) -> (r: Option<Amount>)
        requires
            self.wf(),
            other.wf(),
        ensures
            r == spec_plus(self, other),
            r is Some ==> r.unwrap().wf(),
    {
        proof {
            lemma_u64_prod_bound(self.num as int, other.den as int);
            lemma_u64_prod_bound(other.num as int, self.den as int);
            lemma_u64_prod_bound(self.den as int, other.den as int);
            assert(self.den * other.den >= 1) by (nonlinear_arith)
                requires self.den >= 1, other.den >= 1;
        }
        let p1: u128 = (self.num as u128) * (other.den as u128);
        let p2: u128 = (other.num as u128) * (self.den as u128);
        let d: u128 = (self.den as u128) * (other.den as u128);
        match p1.checked_add(p2) {
            None => None,
            Some(n) => {
                if n <= u64::MAX as u128 && d <= u64::MAX as u128 {
                    Some(Amount { num: n as u64, den: d as u64 })
                } else {
                    None
                }
            },
        }
    }

    /// Exact multiplication.
    pub fn times(self, other: Amount) -> (r: Option<Amount>)
        requires
            self.wf(),
            other.wf(),
        ensures
            r == spec_times(self, other),
            r is Some ==> r.unwrap().wf(),
    {
        proof {
            lemma_u64_prod_bound(self.num as int, other.num as int);
            lemma_u64_prod_bound(self.den as int, other.den as int);
            assert(self.den * other.den >= 1) by (nonlinear_arith)
                requires self.den >= 1, other.den >= 1;
        }
        let n: u128 = (self.num as u128) * (other.num as u128);
        let d: u128 = (self.den as u128) * (other.den as u128);
        if n <= u64::MAX as u128 && d <= u64::MAX as u128 {
            Some(Amount { num: n as u64, den: d as u64 })
        } else {
            None
        }
    }

    /// Exact multiplication by a whole number of batches.
    pub fn times_int(self, k: u64) -> (r: Option<Amount>)
        requires
            self.wf(),
        ensures
            r == spec_times_int(k, self),
            r is Some ==> r.unwrap().wf(),
    {
        match k.checked_mul(self.num) {
            None => None,
            Some(n) => Some(Amount { num: n, den: self.den }),
        }
    }

    /// The number of whole batches of size `b` needed to cover `self`,
    /// i.e. `ceil(self / b)`.
    pub fn batches(self, b: Amount) -> (r: Option<u64>)
        requires
            self.wf(),
            b.wf(),
            b.num >= 1,
        ensures
            r == spec_batches(self, b),
    {
        proof {
            lemma_u64_prod_bound(self.num as int, b.den as int);
            lemma_u64_prod_bound(self.den as int, b.num as int);
            assert(self.den as int * b.num as int >= 1) by (nonlinear_arith)
                requires self.den >= 1 && b.num >= 1;
        }
        let n: u128 = (self.num as u128) * (b.den as u128);
        let d: u128 = (self.den as u128) * (b.num as u128);
        let q0: u128 = n / d;
        let q: u128 = if n % d == 0 { q0 } else { q0 + 1 };
        proof {
            assert(q0 <= n) by {
                vstd::arithmetic::div_mod::lemma_div_basics_5(n as int, d as int);
            }
        }
        if q <= u64::MAX as u128 {
            Some(q as u64)
        } else {
            None
        }
    }

    /// `ceil(self)` as a whole number; always fits.
    pub fn ceil_units(self) -> (r: u64)
        requires
            self.wf(),
        ensures
            r == spec_ceil(self),
    {
        let q0: u64 = self.num / self.den;
        if self.num % self.den == 0 {
            q0
        } else {
            proof {
                assert(self.den >= 2) by {
                    if self.den == 1 {
                        lemma_mod_bound(self.num as int, 1);
                    }
                }
                vstd::arithmetic::div_mod::lemma_div_is_ordered_by_denominator(
                    self.num as int, 2, self.den as int);
                vstd::arithmetic::div_mod::lemma_div_is_ordered(
                    self.num as int, u64::MAX as int, 2);
            }
            q0 + 1
        }
    }

    /// Whether the amount is a whole number.
    pub fn is_whole(self) -> (r: bool)
        requires
            self.wf(),
        ensures
            r == (self.num % self.den == 0),
    {
        self.num % self.den == 0
    }
}

/// Batch rounding of a requested amount: `ceil(r / b) * b` with a batch
/// size, the amount unchanged without one (so fractional requests pass
/// through exactly).
pub fn effective_amount(r: Amount, batch: Option<Amount>) -> (e: Option<Amount>)
    requires
        r.wf(),
        batch is Some ==> batch.unwrap().wf() && batch.unwrap().num >= 1,
    ensures
        e == spec_effective(r, batch),
        batch is None ==> e == Some(r),
        e is Some ==> e.unwrap().wf(),
{
    match batch {
        None => Some(r),
        Some(b) => match r.batches(b) {
            None => None,
            Some(k) => b.times_int(k),
        },
    }
}

/// The product of two `u64` values fits in `u128`.
proof fn lemma_u64_prod_bound(a: int, b: int)
    requires
        0 <= a <= u64::MAX,
        0 <= b <= u64::MAX,
    ensures
        0 <= a * b <= u64::MAX * u64::MAX,
        a * b <= u128::MAX,
{
    assert(0 <= a * b && a * b <= u64::MAX * u64::MAX) by (nonlinear_arith)
        requires 0 <= a <= u64::MAX && 0 <= b <= u64::MAX;
}

/// The number of batches `k = ceil(n / d)` covers `n` and does not overshoot
/// by a whole batch: `k*d >= n` and `(k-1)*d < n`.
proof fn lemma_ceil_div_bounds(n: int, d: int)
    requires
        0 <= n,
        1 <= d,
    ensures
        (n / d + if n % d == 0 { 0int } else { 1int }) * d >= n,
        ((n / d + if n % d == 0 { 0int } else { 1int }) - 1) * d < n,
{
    lemma_fundamental_div_mod(n, d);
    lemma_mod_bound(n, d);
    let q = n / d;
    let r = n % d;
    if r == 0 {
        assert(q * d >= n && (q - 1) * d < n) by (nonlinear_arith)
            requires n == d * q + r, r == 0, d >= 1;
    } else {
        assert((q + 1) * d >= n && ((q + 1) - 1) * d < n) by (nonlinear_arith)
            requires n == d * q + r, 0 < r < d, d >= 1;
    }
}

/// Batch rounding law: the effective amount `e` for request `r` and batch
/// size `b > 0` is at least `r`, is an exact whole multiple of `b`, and
/// overshoots `r` by less than one batch (`e - b < r`, cross-multiplied).
pub proof fn lemma_batch_rounding(r: Amount, b: Amount, e: Amount)
    requires
        r.wf(),
        b.wf(),
        b.num >= 1,
        spec_effective(r, Some(b)) == Some(e),
    ensures
        rat_le(r, e),
        exists|k: int| 0 <= k && #[trigger] (k * (b.num * e.den)) == e.num * b.den,
        (e.num * b.den - b.num * e.den) * r.den < r.num * (e.den * b.den),
{
    let n = r.num * b.den as int;
    let d = r.den * b.num as int;
    assert(d >= 1) by (nonlinear_arith)
        requires d == r.den * b.num, r.den >= 1, b.num >= 1;
    assert(n >= 0) by (nonlinear_arith)
        requires n == r.num * b.den, r.num >= 0, b.den >= 0;
    let k = n / d + if n % d == 0 { 0int } else { 1int };
    lemma_ceil_div_bounds(n, d);
    // From the definition of spec_effective, e = (k * b.num) / b.den.
    assert(e.num == k * b.num && e.den == b.den);
    assert(k >= 0) by {
        vstd::arithmetic::div_mod::lemma_div_pos_is_pos(n, d);
    }

    // e >= r: r.num * e.den <= e.num * r.den, i.e. n <= k * d rearranged.
    assert(r.num * e.den <= e.num * r.den) by (nonlinear_arith)
        requires
            e.num == k * b.num,
            e.den == b.den,
            k * (r.den * b.num) >= r.num * b.den;

    // e is the k-th multiple of b: e.num * b.den == k * (b.num * e.den).
    assert(k * (b.num * e.den) == e.num * b.den) by (nonlinear_arith)
        requires
            e.num == k * b.num,
            e.den == b.den;

    // e - b < r: (e.num*b.den - b.num*e.den) * r.den < r.num * (e.den*b.den).
    assert((e.num * b.den - b.num * e.den) * r.den < r.num * (e.den * b.den))
        by (nonlinear_arith)
        requires
            e.num == k * b.num,
            e.den == b.den,
            b.den >= 1,
            r.den >= 1,
            (k - 1) * (r.den * b.num) < r.num * b.den;
}

/// Addition of amounts is commutative, exactly (the representations are
/// identical, not merely equal as rationals).
pub proof fn lemma_plus_comm(a: Amount, b: Amount)
    ensures
        spec_plus(a, b) == spec_plus(b, a),
{
    assert(a.num * b.den + b.num * a.den == b.num * a.den + a.num * b.den);
    assert(a.den * b.den == b.den * a.den) by (nonlinear_arith);
}

} // verus!
