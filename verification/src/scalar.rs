//! The number type that weights, rates and ratios are computed in.
//!
//! Every formula of the library is written against [`Scalar`], so that its contract names the
//! operations and the order in which they are applied, whatever the number type rounds to.
//! [`Milli`] is the fixed-point instance at the quantum by which weights are ordered. Contracts
//! need no more than [`Numbers`], so that their formulas can be read over [`Exact`] numbers too.

use vstd::prelude::*;

verus! {

/// Counts up to this bound have an exact image in every number type that a caller may bring
/// (the largest integer below which a 53-bit significand skips none).
pub const EXACT_COUNT: u64 = 9_007_199_254_740_992;

/// Arithmetic on energy-equivalent amounts, as the contracts speak of it.
pub trait Numbers: Sized {
    /// The image of a count.
    spec fn s_of(n: u64) -> Self;

    /// A finite number that is not below zero.
    spec fn amount(self) -> bool;

    /// A value that has a place in the order of numbers.
    spec fn number(self) -> bool;

    spec fn s_plus(self, other: Self) -> Self;

    spec fn s_minus(self, other: Self) -> Self;

    spec fn s_times(self, other: Self) -> Self;

    spec fn s_over(self, other: Self) -> Self;

    spec fn s_least(self, other: Self) -> Self;

    spec fn s_greatest(self, other: Self) -> Self;

    spec fn s_below(self, other: Self) -> bool;

    spec fn s_same(self, other: Self) -> bool;

    /// The number rounded down, as an index (zero for a number below zero).
    spec fn s_floor(self) -> usize;

    /// The number rounded up, as an index (zero for a number below zero).
    spec fn s_ceil(self) -> usize;

    /// The nearest integer.
    spec fn s_round(self) -> i64;

    /// Numbers are ordered, up to numbers of the same size.
    proof fn lemma_order(a: Self, b: Self, c: Self)
        requires
            a.number(),
            b.number(),
            c.number(),
        ensures
            !a.s_below(a),
            a.s_below(b) ==> !b.s_below(a),
            !a.s_below(b) && !b.s_below(c) ==> !a.s_below(c),
    ;

    /// Of two numbers one is below the other, or they are the same.
    proof fn lemma_trichotomy(a: Self, b: Self)
        requires
            a.number(),
            b.number(),
        ensures
            a.s_below(b) || a.s_same(b) || b.s_below(a),
            a.s_same(b) ==> !a.s_below(b) && !b.s_below(a),
    ;
}

/// Arithmetic that can be carried out: each method computes the operation of its name. The lemmas
/// are what every number type owes the laws of the library.
pub trait Scalar: Numbers + Copy {
    fn of(n: u64) -> (r: Self)
        ensures
            r == Self::s_of(n),
    ;

    fn plus(self, other: Self) -> (r: Self)
        ensures
            r == self.s_plus(other),
    ;

    fn minus(self, other: Self) -> (r: Self)
        ensures
            r == self.s_minus(other),
    ;

    fn times(self, other: Self) -> (r: Self)
        ensures
            r == self.s_times(other),
    ;

    fn over(self, other: Self) -> (r: Self)
        ensures
            r == self.s_over(other),
    ;

    fn least(self, other: Self) -> (r: Self)
        ensures
            r == self.s_least(other),
    ;

    fn greatest(self, other: Self) -> (r: Self)
        ensures
            r == self.s_greatest(other),
    ;

    fn below(self, other: Self) -> (r: bool)
        ensures
            r == self.s_below(other),
    ;

    fn same(self, other: Self) -> (r: bool)
        ensures
            r == self.s_same(other),
    ;

    fn floor_index(self) -> (r: usize)
        ensures
            r == self.s_floor(),
    ;

    fn ceil_index(self) -> (r: usize)
        ensures
            r == self.s_ceil(),
    ;

    fn round(self) -> (r: i64)
        ensures
            r == self.s_round(),
    ;

    /// Counts are amounts, and keep their order.
    proof fn lemma_counts(a: u64, b: u64)
        requires
            a <= b <= EXACT_COUNT,
        ensures
            Self::s_of(a).amount(),
            Self::s_of(a).number(),
            !Self::s_of(b).s_below(Self::s_of(a)),
            a < b ==> Self::s_of(a).s_below(Self::s_of(b)),
    ;

    /// Counts add up exactly.
    proof fn lemma_sum(a: u64, b: u64)
        requires
            a + b <= EXACT_COUNT,
        ensures
            Self::s_of(a).s_plus(Self::s_of(b)) == Self::s_of((a + b) as u64),
    ;

    /// The greatest of two counts is the image of the greater.
    proof fn lemma_greatest(a: u64, b: u64)
        requires
            a <= EXACT_COUNT,
            b <= EXACT_COUNT,
        ensures
            Self::s_of(a).s_greatest(Self::s_of(b)) == Self::s_of(
                if a < b {
                    b
                } else {
                    a
                },
            ),
    ;

    /// The least of two numbers is one of them, and above neither.
    proof fn lemma_least(a: Self, b: Self)
        requires
            a.number(),
            b.number(),
        ensures
            a.s_least(b) == a || a.s_least(b) == b,
            !a.s_below(a.s_least(b)),
            !b.s_below(a.s_least(b)),
    ;

    /// One is the unit of multiplication.
    proof fn lemma_unit(x: Self)
        requires
            x.amount(),
        ensures
            Self::s_of(1).s_times(x) == x,
            x.s_times(Self::s_of(1)) == x,
    ;

    /// Multiplication commutes on amounts.
    proof fn lemma_commutes(x: Self, y: Self)
        requires
            x.amount(),
            y.amount(),
        ensures
            x.s_times(y) == y.s_times(x),
    ;

    /// Zero annihilates an amount.
    proof fn lemma_zero(x: Self)
        requires
            x.amount(),
        ensures
            Self::s_of(0).s_times(x) == Self::s_of(0),
            x.s_greatest(Self::s_of(0)) == x,
    ;

    /// Nothing, shared out, is nothing.
    proof fn lemma_nothing(x: Self)
        requires
            x.amount(),
            Self::s_of(0).s_below(x),
        ensures
            Self::s_of(0).s_over(x) == Self::s_of(0),
    ;

    /// A part over its whole is a share: between zero and one, one exactly for the whole.
    proof fn lemma_share(part: u64, whole: u64)
        requires
            part <= whole,
            0 < whole <= EXACT_COUNT,
        ensures
            Self::s_of(part).s_over(Self::s_of(whole)).amount(),
            Self::s_of(part).s_over(Self::s_of(whole)).number(),
            !Self::s_of(1).s_below(Self::s_of(part).s_over(Self::s_of(whole))),
            part == whole ==> Self::s_of(part).s_over(Self::s_of(whole)) == Self::s_of(1),
            part == 0 ==> Self::s_of(part).s_over(Self::s_of(whole)) == Self::s_of(0),
    ;

    /// A count over a lesser one is no less than one.
    proof fn lemma_multiple(count: u64, unit: u64)
        requires
            0 < unit <= count <= EXACT_COUNT,
        ensures
            Self::s_of(count).s_over(Self::s_of(unit)).amount(),
            Self::s_of(count).s_over(Self::s_of(unit)).number(),
            !Self::s_of(count).s_over(Self::s_of(unit)).s_below(Self::s_of(1)),
    ;

    /// A multiple over its unit is the number of times it holds it, and times the unit the multiple.
    proof fn lemma_exact_quotient(times: u64, unit: u64)
        requires
            0 < unit,
            times * unit <= EXACT_COUNT,
        ensures
            Self::s_of((times * unit) as u64).s_over(Self::s_of(unit)) == Self::s_of(times),
            Self::s_of(times).s_times(Self::s_of(unit)) == Self::s_of((times * unit) as u64),
    ;

    /// Counting down to a deadline: what is left of `a` after `b` and `c`, over `d`, is at least
    /// one where a whole `d` is left, and not above zero where nothing is.
    proof fn lemma_ramp(a: u64, b: u64, c: u64, d: u64)
        requires
            a <= u32::MAX,
            b <= u32::MAX,
            c <= u32::MAX,
            0 < d <= u32::MAX,
        ensures
            ({
                let x = Self::s_of(a).s_minus(Self::s_of(b)).s_minus(Self::s_of(c)).s_over(
                    Self::s_of(d),
                );
                &&& x.number()
                &&& a >= b + c + d ==> !x.s_below(Self::s_of(0)) && (Self::s_of(1).s_below(x) || x
                    == Self::s_of(1))
                &&& a <= b + c ==> x.s_below(Self::s_of(0)) || x == Self::s_of(0)
            }),
    ;

    /// A number in the unit interval, scaled by the last index, stays an index.
    proof fn lemma_rank_in_range(q: Self, last: u64)
        requires
            !q.s_below(Self::s_of(0)),
            !Self::s_of(1).s_below(q),
            last <= EXACT_COUNT,
            last <= usize::MAX,
        ensures
            q.s_times(Self::s_of(last)).s_floor() <= last,
            q.s_times(Self::s_of(last)).s_ceil() <= last,
    ;
}

/// `a` is below `b` or the same.
pub open spec fn s_at_most<S: Numbers>(a: S, b: S) -> bool {
    a.s_below(b) || a.s_same(b)
}

/// Whether `a` is below `b` or the same; a value without a place in the order never is.
pub fn at_most<S: Scalar>(a: S, b: S) -> (r: bool)
    ensures
        r == s_at_most(a, b),
{
    a.below(b) || a.same(b)
}

/// `q` confined to the unit interval.
pub open spec fn s_unit<S: Numbers>(q: S) -> S {
    if q.s_below(S::s_of(0)) {
        S::s_of(0)
    } else if S::s_of(1).s_below(q) {
        S::s_of(1)
    } else {
        q
    }
}

/// Confines a number to the unit interval.
pub fn unit<S: Scalar>(q: S) -> (r: S)
    ensures
        r == s_unit(q),
{
    if q.below(S::of(0)) {
        S::of(0)
    } else if S::of(1).below(q) {
        S::of(1)
    } else {
        q
    }
}

/// A number in exact arithmetic. Laws that rounding would break are stated of the library's
/// formulas over these; nothing computes with them.
pub struct Exact {
    pub v: real,
}

/// The index at or below a number.
pub open spec fn index_below(x: real) -> usize {
    if x < 0real {
        0
    } else if x.floor() > usize::MAX {
        usize::MAX
    } else {
        x.floor() as usize
    }
}

impl Numbers for Exact {
    open spec fn s_of(n: u64) -> Self {
        Exact { v: n as real }
    }

    open spec fn amount(self) -> bool {
        self.v >= 0real
    }

    open spec fn number(self) -> bool {
        true
    }

    open spec fn s_plus(self, other: Self) -> Self {
        Exact { v: self.v + other.v }
    }

    open spec fn s_minus(self, other: Self) -> Self {
        Exact { v: self.v - other.v }
    }

    open spec fn s_times(self, other: Self) -> Self {
        Exact { v: self.v * other.v }
    }

    open spec fn s_over(self, other: Self) -> Self {
        Exact { v: self.v / other.v }
    }

    open spec fn s_least(self, other: Self) -> Self {
        if other.v < self.v {
            other
        } else {
            self
        }
    }

    open spec fn s_greatest(self, other: Self) -> Self {
        if self.v < other.v {
            other
        } else {
            self
        }
    }

    open spec fn s_below(self, other: Self) -> bool {
        self.v < other.v
    }

    open spec fn s_same(self, other: Self) -> bool {
        self.v == other.v
    }

    open spec fn s_floor(self) -> usize {
        index_below(self.v)
    }

    open spec fn s_ceil(self) -> usize {
        if self.v == index_below(self.v) as real {
            index_below(self.v)
        } else {
            index_below(self.v + 1real)
        }
    }

    open spec fn s_round(self) -> i64 {
        if self.v < 0real {
            saturated(-((1real / 2real - self.v).floor()))
        } else {
            saturated((self.v + 1real / 2real).floor())
        }
    }

    proof fn lemma_order(a: Self, b: Self, c: Self) {
    }

    proof fn lemma_trichotomy(a: Self, b: Self) {
    }
}

/// A number in thousandths: the fixed-point instance, at the quantum that weights are ordered by.
/// Results that do not fit saturate, and what division leaves over is dropped.
#[derive(Clone, Copy, Debug, PartialEq, Eq, Structural)]
pub struct Milli {
    /// Thousandths.
    pub v: i64,
}

/// The representable integer nearest to `x`.
pub open spec fn saturated(x: int) -> i64 {
    if x > i64::MAX {
        i64::MAX
    } else if x < i64::MIN {
        i64::MIN
    } else {
        x as i64
    }
}

/// The quotient with its fraction dropped, for a divisor other than zero.
pub open spec fn truncated(x: int, d: int) -> int {
    if (x >= 0) == (d > 0) {
        magnitude(x) / magnitude(d)
    } else {
        -(magnitude(x) / magnitude(d))
    }
}

/// The absolute value.
pub open spec fn magnitude(x: int) -> int {
    if x < 0 {
        -x
    } else {
        x
    }
}

/// Brings a wide number of thousandths back into range.
fn saturate(x: i128) -> (r: i64)
    ensures
        r == saturated(x as int),
{
    if x > i64::MAX as i128 {
        i64::MAX
    } else if x < i64::MIN as i128 {
        i64::MIN
    } else {
        x as i64
    }
}

/// Divides, dropping the fraction.
fn truncate(x: i128, d: i128) -> (r: i128)
    requires
        d != 0,
        x > i128::MIN,
        d > i128::MIN,
    ensures
        r == truncated(x as int, d as int),
{
    let mx: u128 = if x < 0 {
        (-x) as u128
    } else {
        x as u128
    };
    let md: u128 = if d < 0 {
        (-d) as u128
    } else {
        d as u128
    };
    let q: u128 = mx / md;
    proof {
        assert(mx / md <= mx) by (nonlinear_arith)
            requires
                md >= 1,
        ;
    }
    if (x >= 0) == (d > 0) {
        q as i128
    } else {
        -(q as i128)
    }
}

impl Numbers for Milli {
    open spec fn s_of(n: u64) -> Self {
        Milli { v: saturated(n as int * 1000) }
    }

    open spec fn amount(self) -> bool {
        self.v >= 0
    }

    open spec fn number(self) -> bool {
        true
    }

    open spec fn s_plus(self, other: Self) -> Self {
        Milli { v: saturated(self.v + other.v) }
    }

    open spec fn s_minus(self, other: Self) -> Self {
        Milli { v: saturated(self.v - other.v) }
    }

    open spec fn s_times(self, other: Self) -> Self {
        Milli { v: saturated(truncated(self.v * other.v, 1000)) }
    }

    open spec fn s_over(self, other: Self) -> Self {
        if other.v != 0 {
            Milli { v: saturated(truncated(self.v * 1000, other.v as int)) }
        } else if self.v > 0 {
            Milli { v: i64::MAX }
        } else if self.v < 0 {
            Milli { v: i64::MIN }
        } else {
            Milli { v: 0 }
        }
    }

    open spec fn s_least(self, other: Self) -> Self {
        if other.v < self.v {
            other
        } else {
            self
        }
    }

    open spec fn s_greatest(self, other: Self) -> Self {
        if self.v < other.v {
            other
        } else {
            self
        }
    }

    open spec fn s_below(self, other: Self) -> bool {
        self.v < other.v
    }

    open spec fn s_same(self, other: Self) -> bool {
        self.v == other.v
    }

    open spec fn s_floor(self) -> usize {
        if self.v < 0 {
            0
        } else if self.v as int / 1000 > usize::MAX {
            usize::MAX
        } else {
            (self.v as int / 1000) as usize
        }
    }

    open spec fn s_ceil(self) -> usize {
        if self.v < 0 {
            0
        } else if (self.v + 999) / 1000 > usize::MAX {
            usize::MAX
        } else {
            ((self.v + 999) / 1000) as usize
        }
    }

    open spec fn s_round(self) -> i64 {
        if self.v < 0 {
            (-((500 - self.v) / 1000)) as i64
        } else {
            ((self.v + 500) / 1000) as i64
        }
    }

    proof fn lemma_order(a: Self, b: Self, c: Self) {
    }

    proof fn lemma_trichotomy(a: Self, b: Self) {
    }
}

impl Scalar for Milli {
    fn of(n: u64) -> (r: Self) {
        Milli { v: saturate(n as i128 * 1000) }
    }

    fn plus(self, other: Self) -> (r: Self) {
        Milli { v: saturate(self.v as i128 + other.v as i128) }
    }

    fn minus(self, other: Self) -> (r: Self) {
        Milli { v: saturate(self.v as i128 - other.v as i128) }
    }

    fn times(self, other: Self) -> (r: Self) {
        proof {
            lemma_product_fits(self.v, other.v);
        }
        Milli { v: saturate(truncate(self.v as i128 * other.v as i128, 1000)) }
    }

    fn over(self, other: Self) -> (r: Self) {
        if other.v != 0 {
            Milli { v: saturate(truncate(self.v as i128 * 1000, other.v as i128)) }
        } else if self.v > 0 {
            Milli { v: i64::MAX }
        } else if self.v < 0 {
            Milli { v: i64::MIN }
        } else {
            Milli { v: 0 }
        }
    }

    fn least(self, other: Self) -> (r: Self) {
        if other.v < self.v {
            other
        } else {
            self
        }
    }

    fn greatest(self, other: Self) -> (r: Self) {
        if self.v < other.v {
            other
        } else {
            self
        }
    }

    fn below(self, other: Self) -> (r: bool) {
        self.v < other.v
    }

    fn same(self, other: Self) -> (r: bool) {
        self.v == other.v
    }

    fn floor_index(self) -> (r: usize) {
        if self.v < 0 {
            0
        } else {
            let whole: u64 = self.v as u64 / 1000;
            if whole > usize::MAX as u64 {
                usize::MAX
            } else {
                whole as usize
            }
        }
    }

    fn ceil_index(self) -> (r: usize) {
        if self.v < 0 {
            0
        } else {
            let whole: u64 = (self.v as u64 + 999) / 1000;
            if whole > usize::MAX as u64 {
                usize::MAX
            } else {
                whole as usize
            }
        }
    }

    fn round(self) -> (r: i64) {
        if self.v < 0 {
            let away: u128 = (500 - self.v as i128) as u128 / 1000;
            -(away as i64)
        } else {
            let away: u128 = (self.v as i128 + 500) as u128 / 1000;
            away as i64
        }
    }

    proof fn lemma_counts(a: u64, b: u64) {
    }

    proof fn lemma_sum(a: u64, b: u64) {
    }

    proof fn lemma_greatest(a: u64, b: u64) {
    }

    proof fn lemma_least(a: Self, b: Self) {
    }

    proof fn lemma_unit(x: Self) {
        let one: int = Self::s_of(1).v as int;
        assert(one == 1000);
        assert(one * x.v == x.v * 1000) by (nonlinear_arith)
            requires
                one == 1000,
        ;
        lemma_whole_quotient(x.v as int);
    }

    proof fn lemma_commutes(x: Self, y: Self) {
        assert(x.v * y.v == y.v * x.v) by (nonlinear_arith);
    }

    proof fn lemma_zero(x: Self) {
        assert(0 * x.v == 0) by (nonlinear_arith);
    }

    proof fn lemma_nothing(x: Self) {
        assert(0int / (x.v as int) == 0) by (nonlinear_arith)
            requires
                x.v > 0,
        ;
    }

    proof fn lemma_share(part: u64, whole: u64) {
        let num: int = part as int * 1000 * 1000;
        let den: int = whole as int * 1000;
        assert(0 <= num / den <= 1000) by (nonlinear_arith)
            requires
                num == part * 1000 * 1000,
                den == whole * 1000,
                0 <= part <= whole,
                0 < whole,
        ;
        if part == whole {
            assert(num / den == 1000) by (nonlinear_arith)
                requires
                    num == den * 1000,
                    den > 0,
            ;
        }
        if part == 0 {
            assert(num / den == 0) by (nonlinear_arith)
                requires
                    num == 0,
                    den > 0,
            ;
        }
    }

    proof fn lemma_multiple(count: u64, unit: u64) {
        let num: int = count as int * 1000 * 1000;
        let den: int = unit as int * 1000;
        assert(num / den >= 1000) by (nonlinear_arith)
            requires
                num == count * 1000 * 1000,
                den == unit * 1000,
                0 < unit <= count,
        ;
    }

    proof fn lemma_exact_quotient(times: u64, unit: u64) {
        let product: int = times * unit;
        assert(times <= product && unit <= product || times == 0) by (nonlinear_arith)
            requires
                product == times * unit,
                0 < unit,
                0 <= times,
        ;
        assert(times == 0 ==> product == 0) by (nonlinear_arith)
            requires
                product == times * unit,
        ;
        if times > 0 {
            assert((product * 1000 * 1000) / (unit * 1000) == times * 1000) by (nonlinear_arith)
                requires
                    product == times * unit,
                    0 < unit,
            ;
            assert((times * 1000) * (unit * 1000) == (product * 1000) * 1000) by (nonlinear_arith)
                requires
                    product == times * unit,
            ;
        } else {
            assert(0int / (unit * 1000) == 0) by (nonlinear_arith)
                requires
                    0 < unit,
            ;
            let factor: int = Self::s_of(unit).v as int;
            assert(0int * factor == 0) by (nonlinear_arith);
            lemma_whole_quotient(0);
        }
        lemma_whole_quotient(product * 1000);
    }

    proof fn lemma_ramp(a: u64, b: u64, c: u64, d: u64) {
        let left: int = (a - b - c) * 1000;
        let x = Self::s_of(a).s_minus(Self::s_of(b)).s_minus(Self::s_of(c));
        assert(x.v == left);
        let den: int = d as int * 1000;
        if a >= b + c + d {
            assert(left * 1000 / den >= 1000) by (nonlinear_arith)
                requires
                    left >= den,
                    den > 0,
            ;
        } else if a <= b + c {
            assert((-left) * 1000 / den >= 0) by (nonlinear_arith)
                requires
                    left <= 0,
                    den > 0,
            ;
            assert(magnitude(left * 1000) == (-left) * 1000);
            if left == 0 {
                assert(0int / den == 0) by (nonlinear_arith)
                    requires
                        den > 0,
                ;
            }
        }
    }

    proof fn lemma_rank_in_range(q: Self, last: u64) {
        let scaled: int = q.v * (last * 1000);
        assert(0 <= scaled <= 1000 * (last * 1000) && scaled == (q.v * last) * 1000) by (nonlinear_arith)
            requires
                scaled == q.v * (last * 1000),
                0 <= q.v <= 1000,
        ;
        assert(0 <= q.v * last <= 1000 * last) by (nonlinear_arith)
            requires
                0 <= q.v <= 1000,
        ;
        lemma_whole_quotient(q.v * last);
    }
}

/// A multiple of a thousand divides without a rest.
proof fn lemma_whole_quotient(k: int)
    requires
        0 <= k,
    ensures
        truncated(k * 1000, 1000) == k,
{
    let d: int = magnitude(1000);
    assert(d == 1000);
    assert((k * 1000) / d == k) by (nonlinear_arith)
        requires
            d == 1000,
    ;
}

/// The product of two numbers of thousandths fits the wide type.
proof fn lemma_product_fits(a: i64, b: i64)
    ensures
        -0x4000_0000_0000_0000_0000_0000_0000_0000 <= a * b
            <= 0x4000_0000_0000_0000_0000_0000_0000_0000,
{
    assert(-0x4000_0000_0000_0000_0000_0000_0000_0000 <= a * b
        <= 0x4000_0000_0000_0000_0000_0000_0000_0000) by (nonlinear_arith)
        requires
            -0x8000_0000_0000_0000 <= a <= 0x7fff_ffff_ffff_ffff,
            -0x8000_0000_0000_0000 <= b <= 0x7fff_ffff_ffff_ffff,
    ;
}

} // verus!
