//! Numbers read as base-5 digit strings. Each base-5 digit names one step down
//! a quad tree (1..=4 a quadrant), so shifting by a digit moves a whole level.
use vstd::prelude::*;
use vstd::std_specs::ops::{AddSpec, ShlSpec, ShrSpec};

verus! {

/// `5` raised to `n`.
pub open spec fn pow5(n: nat) -> nat
    decreases n,
{
    if n == 0 {
        1
    } else {
        5 * pow5((n - 1) as nat)
    }
}

/// Number of base-5 digits of `v` (zero has none).
pub open spec fn digits5(v: nat) -> nat
    decreases v,
{
    if v == 0 {
        0
    } else {
        1 + digits5(v / 5)
    }
}

/// `pow5` is positive and strictly increasing.
pub proof fn lemma_pow5_pos(n: nat)
    ensures
        pow5(n) >= 1,
    decreases n,
{
    if n > 0 {
        lemma_pow5_pos((n - 1) as nat);
    }
}

/// `pow5` grows with its exponent.
pub proof fn lemma_pow5_monotone(a: nat, b: nat)
    requires
        a <= b,
    ensures
        pow5(a) <= pow5(b),
    decreases b,
{
    if a < b {
        lemma_pow5_monotone(a, (b - 1) as nat);
        lemma_pow5_pos((b - 1) as nat);
    }
}

/// A number with `n` base-5 digits lies in `[5^(n-1), 5^n)`.
pub proof fn lemma_digits5_bounds(v: nat)
    ensures
        v < pow5(digits5(v)),
        v > 0 ==> pow5((digits5(v) - 1) as nat) <= v,
    decreases v,
{
    if v > 0 {
        lemma_digits5_bounds(v / 5);
        lemma_pow5_pos(digits5(v / 5));
        if v / 5 > 0 {
            assert(pow5((digits5(v) - 1) as nat) == pow5(digits5(v / 5)));
            assert(digits5(v / 5) >= 1);
            assert(pow5(digits5(v / 5)) == 5 * pow5((digits5(v / 5) - 1) as nat));
        }
    }
}

/// The digit count is the unique `n` with `5^(n-1) <= v < 5^n`.
pub proof fn lemma_digits5_unique(v: nat, n: nat)
    requires
        v < pow5(n),
        n > 0 ==> pow5((n - 1) as nat) <= v,
    ensures
        digits5(v) == n,
    decreases n,
{
    if n == 0 {
        assert(v == 0);
    } else {
        assert(v > 0) by {
            lemma_pow5_pos((n - 1) as nat);
        }
        assert(v / 5 < pow5((n - 1) as nat));
        if n > 1 {
            assert(pow5((n - 2) as nat) <= v / 5);
        } else {
            assert(v < 5);
        }
        lemma_digits5_unique(v / 5, (n - 1) as nat);
    }
}

/// Every `u32` has at most 14 base-5 digits.
pub proof fn lemma_digits5_u32(v: u32)
    ensures
        digits5(v as nat) <= 14,
{
    lemma_digits5_bounds(v as nat);
    if digits5(v as nat) > 14 {
        lemma_pow5_monotone(14, (digits5(v as nat) - 1) as nat);
        reveal_with_fuel(pow5, 15);
        assert(pow5(14) == 6103515625);
    }
}

/// `5^(a+b) == 5^a * 5^b`.
pub proof fn lemma_pow5_add(a: nat, b: nat)
    ensures
        pow5(a + b) == pow5(a) * pow5(b),
    decreases b,
{
    if b > 0 {
        lemma_pow5_add(a, (b - 1) as nat);
        assert(pow5(a + b) == 5 * pow5((a + b - 1) as nat));
        assert(pow5(a) * pow5(b) == pow5(a) * (5 * pow5((b - 1) as nat)));
        assert(pow5(a) * (5 * pow5((b - 1) as nat)) == 5 * (pow5(a) * pow5((b - 1) as nat)))
            by (nonlinear_arith);
        assert((a + b - 1) as nat == a + (b - 1) as nat);
    } else {
        assert(a + b == a);
        assert(pow5(0) == 1);
    }
}

/// The powers of five that fit in a `u32`, indexed by exponent.
pub const MULTIPLES: [u32; 14] = [
    1, 5, 25, 125, 625, 3125, 15625, 78125, 390625, 1953125, 9765625, 48828125, 244140625,
    1220703125,
];

/// Looks up `5^n` in `MULTIPLES`.
fn multiple(n: usize) -> (r: u32)
    requires
        n < 14,
    ensures
        r == pow5(n as nat),
{
    reveal_with_fuel(pow5, 14);
    let m = MULTIPLES;
    assert(m@ =~= seq![
        1u32, 5, 25, 125, 625, 3125, 15625, 78125, 390625, 1953125, 9765625, 48828125, 244140625,
        1220703125,
    ]);
    m[n]
}

/// A `u32` viewed as a string of base-5 digits.
#[allow(non_camel_case_types)]
#[derive(Clone, Copy, PartialEq, Eq, Structural, Debug)]
pub struct b5 {
    value: u32,
}

impl b5 {
    /// The number this digit string stands for.
    pub closed spec fn spec_value(self) -> u32 {
        self.value
    }

    /// Wraps `value`.
    pub fn from(value: u32) -> (r: b5)
        ensures
            r.spec_value() == value,
    {
        b5 { value: value }
    }

    /// The wrapped number.
    pub fn value(self) -> (r: u32)
        ensures
            r == self.spec_value(),
    {
        self.value
    }

    /// Number of base-5 digits; zero has none.
    pub fn length(self) -> (r: usize)
        ensures
            r == digits5(self.spec_value() as nat),
            r <= 14,
            (self.spec_value() as nat) < pow5(r as nat),
            self.spec_value() > 0 ==> pow5((r - 1) as nat) <= self.spec_value(),
    {
        let mut v: u32 = self.value;
        let mut n: usize = 0;
        proof {
            lemma_digits5_u32(v);
        }
        while v > 0
            invariant
                n + digits5(v as nat) == digits5(self.value as nat),
                n <= 14 - digits5(v as nat),
                digits5(v as nat) <= 14,
            decreases v,
        {
            v = v / 5;
            n = n + 1;
        }
        proof {
            lemma_digits5_bounds(self.value as nat);
        }
        n
    }

    /// The leading base-5 digit, as a number of its own.
    pub fn highest_bit(self) -> (r: b5)
        requires
            self.spec_value() != 0,
        ensures
            r.spec_value() == (self.spec_value() as nat) / pow5((digits5(self.spec_value() as nat) - 1) as nat),
            1 <= r.spec_value() <= 4,
    {
        let len: usize = self.length();
        let r = self >> (len - 1);
        proof {
            let p = pow5((len - 1) as nat);
            lemma_pow5_pos((len - 1) as nat);
            assert(pow5(len as nat) == 5 * p);
            assert((self.value as nat) / p < 5) by (nonlinear_arith)
                requires self.value < 5 * p, p > 0;
            assert((self.value as nat) / p >= 1) by (nonlinear_arith)
                requires self.value >= p, p > 0;
        }
        r
    }
}

impl core::ops::Add for b5 {
    type Output = b5;

    /// Digit-wise sum of the numbers (ordinary addition).
    fn add(self, other: b5) -> (r: b5) {
        b5 { value: self.value + other.value }
    }
}

impl vstd::std_specs::ops::AddSpecImpl for b5 {
    open spec fn obeys_add_spec() -> bool {
        true
    }

    open spec fn add_req(self, rhs: b5) -> bool {
        self.spec_value() + rhs.spec_value() <= u32::MAX
    }

    open spec fn add_spec(self, rhs: b5) -> b5 {
        b5_of((self.spec_value() + rhs.spec_value()) as u32)
    }
}

impl core::ops::Shl<usize> for b5 {
    type Output = b5;

    /// Appends `other` zero digits: multiplies by `5^other`.
    fn shl(self, other: usize) -> (r: b5) {
        let m: u32 = multiple(other);
        proof {
            assert(self.value * m <= u32::MAX);
        }
        b5 { value: self.value * m }
    }
}

impl vstd::std_specs::ops::ShlSpecImpl<usize> for b5 {
    open spec fn obeys_shl_spec() -> bool {
        true
    }

    open spec fn shl_req(self, rhs: usize) -> bool {
        rhs < 14 && self.spec_value() * pow5(rhs as nat) <= u32::MAX
    }

    open spec fn shl_spec(self, rhs: usize) -> b5 {
        b5_of((self.spec_value() * pow5(rhs as nat)) as u32)
    }
}

impl core::ops::Shr<usize> for b5 {
    type Output = b5;

    /// Drops the `other` lowest digits: divides by `5^other`.
    fn shr(self, other: usize) -> (r: b5) {
        let m: u32 = multiple(other);
        proof {
            lemma_pow5_pos(other as nat);
        }
        b5 { value: self.value / m }
    }
}

impl vstd::std_specs::ops::ShrSpecImpl<usize> for b5 {
    open spec fn obeys_shr_spec() -> bool {
        true
    }

    open spec fn shr_req(self, rhs: usize) -> bool {
        rhs < 14
    }

    open spec fn shr_spec(self, rhs: usize) -> b5 {
        b5_of(((self.spec_value() as nat) / pow5(rhs as nat)) as u32)
    }
}

/// The digit string whose number is `v`.
pub closed spec fn b5_of(v: u32) -> b5 {
    b5 { value: v }
}

/// Shifting left and then right by the same amount gives the number back.
pub proof fn lemma_shl_shr(x: b5, n: usize)
    requires
        x.shl_req(n),
    ensures
        x.shl_spec(n).shr_spec(n) == x,
{
    let p = pow5(n as nat);
    lemma_pow5_pos(n as nat);
    assert(((x.value as nat) * p) / p == x.value as nat) by (nonlinear_arith)
        requires p > 0;
}

/// Shifting a nonzero number left by `n` adds exactly `n` digits.
pub proof fn lemma_shl_length(x: b5, n: usize)
    requires
        x.shl_req(n),
        x.spec_value() != 0,
    ensures
        digits5(x.shl_spec(n).spec_value() as nat) == digits5(x.spec_value() as nat) + n,
{
    let v = x.value as nat;
    let l = digits5(v);
    let p = pow5(n as nat);
    lemma_digits5_bounds(v);
    lemma_pow5_pos(n as nat);
    lemma_pow5_add(l, n as nat);
    lemma_pow5_add((l - 1) as nat, n as nat);
    assert((l - 1) as nat + n as nat == (l + n - 1) as nat);
    assert(v * p < pow5(l) * p) by (nonlinear_arith)
        requires v < pow5(l), p > 0;
    assert(pow5((l - 1) as nat) * p <= v * p) by (nonlinear_arith)
        requires pow5((l - 1) as nat) <= v, p > 0;
    lemma_digits5_unique(v * p, l + n as nat);
}

/// The leading digit followed by the rest: `v == d * 5^(n-1) + r` with
/// `r < 5^(n-1)`, where `n` is the digit count and `d` the leading digit.
pub proof fn lemma_leading_digit(v: nat)
    requires
        v > 0,
    ensures
        v == (v / pow5((digits5(v) - 1) as nat)) * pow5((digits5(v) - 1) as nat)
            + v % pow5((digits5(v) - 1) as nat),
        1 <= v / pow5((digits5(v) - 1) as nat) <= 4,
{
    let p = pow5((digits5(v) - 1) as nat);
    lemma_digits5_bounds(v);
    lemma_pow5_pos((digits5(v) - 1) as nat);
    assert(pow5(digits5(v)) == 5 * p);
    assert(v == (v / p) * p + v % p) by (nonlinear_arith)
        requires p > 0;
    assert(v / p < 5) by (nonlinear_arith)
        requires v < 5 * p, p > 0;
    assert(v / p >= 1) by (nonlinear_arith)
        requires v >= p, p > 0;
}

/// `b5_of` builds the digit string of exactly its argument.
pub proof fn lemma_b5_of(v: u32)
    ensures
        #[trigger] b5_of(v).spec_value() == v,
{
}

/// Adding two digit strings adds their numbers, whenever the sum fits in a
/// `u32`; so addition is commutative and zero adds nothing.
pub proof fn lemma_add_value(a: b5, b: b5)
    requires
        a.spec_value() + b.spec_value() <= u32::MAX,
    ensures
        a.add_req(b),
        a.add_spec(b).spec_value() == a.spec_value() + b.spec_value(),
        a.add_spec(b) == b.add_spec(a),
        b.spec_value() == 0 ==> a.add_spec(b) == a,
{
}

/// Shifting left by `n` multiplies by `5^n` and shifting right divides by
/// it, rounding down.
pub proof fn lemma_shift_values(x: b5, n: usize)
    requires
        n < 14,
    ensures
        x.shr_spec(n).spec_value() == (x.spec_value() as nat) / pow5(n as nat),
        x.shl_req(n) ==> x.shl_spec(n).spec_value() == x.spec_value() * pow5(n as nat),
{
    lemma_pow5_pos(n as nat);
    assert((x.value as nat) / pow5(n as nat) <= x.value as nat) by (nonlinear_arith)
        requires pow5(n as nat) > 0;
}

} // verus!
