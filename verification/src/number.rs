//! Scalars of the language: IEEE 754 double-precision numbers, held by their
//! bit patterns.
//!
//! Everything that can be read off the bits (sign, zero, NaN, order,
//! truncation to an integer, the double of a small integer) is computed and
//! proved here. Rounded arithmetic, the power function, decimal text and
//! decimal parsing are taken from outside and stand behind trusted wrappers
//! at the end of the file.
use const_soft_float::soft_f64::SoftF64;
use vstd::prelude::*;

verus! {

/// The sign bit of a double.
pub const SIGN_BIT: u64 = 0x8000_0000_0000_0000;

/// Everything but the sign bit.
pub const MAGNITUDE_MASK: u64 = 0x7fff_ffff_ffff_ffff;

/// The bits of positive infinity; a larger magnitude is a NaN.
pub const INFINITY_BITS: u64 = 0x7ff0_0000_0000_0000;

/// The 52 stored bits of the significand.
pub const FRACTION_MASK: u64 = 0x000f_ffff_ffff_ffff;

/// The leading significand bit, which normal numbers do not store.
pub const HIDDEN_BIT: u64 = 0x0010_0000_0000_0000;

/// The quiet NaN that stands for every result of the power operator that is
/// not a number.
pub const QUIET_NAN: u64 = 0x7ff8_0000_0000_0000;

/// The first integer that is too large to be converted digit for digit:
/// 2 to the 53.
pub const EXACT_LIMIT: u64 = 0x0020_0000_0000_0000;

/// 2 to the 32.
pub const HALF_WORD: u64 = 0x1_0000_0000;

/// A double-precision number, given by its 64 bits.
#[derive(Clone, Copy, Debug)]
pub struct Number {
    pub bits: u64,
}

/// Index of the highest set bit of `n`, and 0 for 0.
pub open spec fn width(n: u64) -> nat
    decreases n,
{
    if n <= 1 {
        0
    } else {
        1 + width(n / 2)
    }
}

/// The bits of the double whose value is exactly `n`, for `n` below 2 to the 53.
pub open spec fn exact_bits(n: u64) -> u64 {
    if n == 0 {
        0
    } else {
        let p = width(n);
        ((1023 + p) as u64) << 52 | (n << ((52 - p) as u64)) & FRACTION_MASK
    }
}

/// The bits of the double nearest to `n`. Below 2 to the 53 the conversion
/// is exact; above, `n` is split into two halves that are exact, and the
/// rounded sum of the two is the nearest double.
pub open spec fn count_bits(n: u64) -> u64 {
    if n < EXACT_LIMIT {
        exact_bits(n)
    } else {
        sum_bits(
            product_bits(exact_bits(n / HALF_WORD), exact_bits(HALF_WORD)),
            exact_bits(n % HALF_WORD),
        )
    }
}

impl Number {
    /// The bits without the sign.
    pub open spec fn magnitude(self) -> u64 {
        self.bits & MAGNITUDE_MASK
    }

    /// The sign bit is set (true of -0 and of some NaNs too).
    pub open spec fn signed(self) -> bool {
        self.bits >= SIGN_BIT
    }

    pub open spec fn nan(self) -> bool {
        self.magnitude() > INFINITY_BITS
    }

    /// Positive or negative zero.
    pub open spec fn zero(self) -> bool {
        self.magnitude() == 0
    }

    /// A key that orders the numbers that are not NaN as their values do:
    /// the magnitude, negated under a sign bit. Both zeros have key 0.
    pub open spec fn rank(self) -> int {
        if self.signed() {
            -(self.magnitude() as int)
        } else {
            self.magnitude() as int
        }
    }

    /// Numeric equality: no NaN equals anything, and -0 equals +0.
    pub open spec fn same(self, other: Number) -> bool {
        !self.nan() && !other.nan() && self.rank() == other.rank()
    }

    /// Numeric `<`: false as soon as one side is a NaN.
    pub open spec fn below(self, other: Number) -> bool {
        !self.nan() && !other.nan() && self.rank() < other.rank()
    }

    /// The value cut off towards zero and held in 64 bits: 0 for a NaN and
    /// for anything below 1, `u64::MAX` for anything from 2 to the 64 upwards.
    pub open spec fn truncated(self) -> u64 {
        let e = self.magnitude() >> 52;
        let m = self.bits & FRACTION_MASK | HIDDEN_BIT;
        if self.nan() || self.signed() || e < 1023 {
            0
        } else if e > 1086 {
            u64::MAX
        } else if e >= 1075 {
            m << ((e - 1075) as u64)
        } else {
            m >> ((1075 - e) as u64)
        }
    }

    /// The value as a count or an index: `truncated`, saturated to `usize`.
    pub open spec fn count(self) -> usize {
        if self.truncated() > usize::MAX {
            usize::MAX
        } else {
            self.truncated() as usize
        }
    }

    /// The value as a code point candidate: `truncated`, saturated to `u32`.
    pub open spec fn code(self) -> u32 {
        if self.truncated() > u32::MAX {
            u32::MAX
        } else {
            self.truncated() as u32
        }
    }

    /// The number nearest to the integer `n`.
    pub open spec fn of_count(n: u64) -> Number {
        Number { bits: count_bits(n) }
    }

    /// The number 0.
    pub open spec fn nought() -> Number {
        Number { bits: 0 }
    }

    /// The number 1.
    pub open spec fn unit() -> Number {
        Number { bits: 0x3ff0_0000_0000_0000 }
    }

    /// 1 for true and 0 for false.
    pub open spec fn truth(b: bool) -> Number {
        if b {
            Number::unit()
        } else {
            Number::nought()
        }
    }

    /// The rounded sum.
    pub open spec fn sum(self, other: Number) -> Number {
        Number { bits: sum_bits(self.bits, other.bits) }
    }

    /// The rounded difference: the sum with the other's sign flipped.
    pub open spec fn difference(self, other: Number) -> Number {
        Number { bits: sum_bits(self.bits, other.bits ^ SIGN_BIT) }
    }

    /// The rounded product.
    pub open spec fn product(self, other: Number) -> Number {
        Number { bits: product_bits(self.bits, other.bits) }
    }

    /// The rounded quotient.
    pub open spec fn quotient(self, other: Number) -> Number {
        Number { bits: quotient_bits(self.bits, other.bits) }
    }

    /// What a result of the power function is kept as: itself, or the one
    /// quiet NaN if it is not a number.
    pub open spec fn settled(raw: u64) -> Number {
        if (Number { bits: raw }).nan() {
            Number { bits: QUIET_NAN }
        } else {
            Number { bits: raw }
        }
    }

    pub fn from_bits(bits: u64) -> (r: Number)
        ensures
            r.bits == bits,
    {
        Number { bits }
    }

    pub fn to_bits(self) -> (bits: u64)
        ensures
            bits == self.bits,
    {
        self.bits
    }

    pub fn is_nan(self) -> (r: bool)
        ensures
            r == self.nan(),
    {
        self.bits & MAGNITUDE_MASK > INFINITY_BITS
    }

    pub fn is_zero(self) -> (r: bool)
        ensures
            r == self.zero(),
    {
        self.bits & MAGNITUDE_MASK == 0
    }

    /// Numeric equality, as `==` on doubles.
    pub fn equals(self, other: Number) -> (r: bool)
        ensures
            r == self.same(other),
    {
        if self.is_nan() || other.is_nan() {
            false
        } else if self.is_zero() {
            other.is_zero()
        } else {
            proof {
                lemma_rank_one_to_one(self, other);
            }
            self.bits == other.bits
        }
    }

    /// Numeric `<`, as on doubles.
    pub fn less_than(self, other: Number) -> (r: bool)
        ensures
            r == self.below(other),
    {
        if self.is_nan() || other.is_nan() {
            return false;
        }
        let a: u64 = self.bits & MAGNITUDE_MASK;
        let b: u64 = other.bits & MAGNITUDE_MASK;
        if self.bits >= SIGN_BIT {
            if other.bits >= SIGN_BIT {
                b < a
            } else {
                a != 0 || b != 0
            }
        } else {
            if other.bits >= SIGN_BIT {
                false
            } else {
                a < b
            }
        }
    }

    /// Below zero: what `< 0` says of a double. False of -0 and of a NaN.
    pub fn is_negative(self) -> (r: bool)
        ensures
            r == self.below(Number::nought()),
    {
        assert(0u64 & 0x7fff_ffff_ffff_ffff == 0) by (bit_vector);
        self.less_than(Number { bits: 0 })
    }

    /// The number cut off towards zero, as a cast of a double to `u64` gives it.
    pub fn truncate(self) -> (n: u64)
        ensures
            n == self.truncated(),
    {
        let bits: u64 = self.bits;
        let mag: u64 = bits & MAGNITUDE_MASK;
        let e: u64 = mag >> 52;
        let m: u64 = bits & FRACTION_MASK | HIDDEN_BIT;
        if mag > INFINITY_BITS || self.bits >= SIGN_BIT || e < 1023 {
            0
        } else if e > 1086 {
            u64::MAX
        } else if e >= 1075 {
            assert((mag >> 52) <= 0x7ff) by (bit_vector)
                requires
                    mag == bits & 0x7fff_ffff_ffff_ffff,
            ;
            m << (e - 1075)
        } else {
            m >> (1075 - e)
        }
    }

    /// The number as a count or an index, as a cast of a double to `usize`
    /// gives it.
    pub fn to_count(self) -> (n: usize)
        ensures
            n == self.count(),
    {
        let t: u64 = self.truncate();
        if t > usize::MAX as u64 {
            usize::MAX
        } else {
            t as usize
        }
    }

    /// The number as a candidate code point, as a cast of a double to `u32`
    /// gives it.
    pub fn to_code(self) -> (n: u32)
        ensures
            n == self.code(),
    {
        let t: u64 = self.truncate();
        if t > u32::MAX as u64 {
            u32::MAX
        } else {
            t as u32
        }
    }

    /// The double whose value is `n`, for `n` below 2 to the 53.
    fn exact(n: u64) -> (r: Number)
        requires
            n < EXACT_LIMIT,
        ensures
            r.bits == exact_bits(n),
    {
        if n == 0 {
            return Number { bits: 0 };
        }
        let mut p: u64 = 0;
        let mut rest: u64 = n;
        assert(n >> 0 == n) by (bit_vector);
        while rest > 1
            invariant
                0 < rest,
                rest <= n,
                n < EXACT_LIMIT,
                p <= 52,
                (rest > 1 ==> p < 52),
                width(n) == p + width(rest),
                rest == n >> p,
            decreases rest,
        {
            assert((n >> p) / 2 == n >> ((p + 1) as u64) && ((n >> p) > 1 && n
                < 0x0020_0000_0000_0000 && p <= 52 ==> p < 52) && (((n >> p) / 2) > 1 ==> p + 1
                < 52)) by (bit_vector)
                requires
                    p <= 52,
                    n < 0x0020_0000_0000_0000,
            ;
            rest = rest / 2;
            p = p + 1;
        }
        Number { bits: (1023 + p) << 52 | (n << (52 - p)) & FRACTION_MASK }
    }

    /// The double nearest to `n`, as a cast of an integer to a double gives it.
    pub fn from_count(n: usize) -> (r: Number)
        ensures
            r == Number::of_count(n as u64),
    {
        let n: u64 = n as u64;
        if n < EXACT_LIMIT {
            Number::exact(n)
        } else {
            let high = Number::exact(n / HALF_WORD);
            let low = Number::exact(n % HALF_WORD);
            let scale = Number::exact(HALF_WORD);
            high.times(scale).plus(low)
        }
    }

    /// 1 for true and 0 for false.
    pub fn from_bool(b: bool) -> (r: Number)
        ensures
            r == Number::truth(b),
    {
        if b {
            Number { bits: 0x3ff0_0000_0000_0000 }
        } else {
            Number { bits: 0 }
        }
    }

    pub fn plus(self, other: Number) -> (r: Number)
        ensures
            r == self.sum(other),
    {
        Number { bits: soft_add(self.bits, other.bits) }
    }

    pub fn minus(self, other: Number) -> (r: Number)
        ensures
            r == self.difference(other),
    {
        Number { bits: soft_add(self.bits, other.bits ^ SIGN_BIT) }
    }

    pub fn times(self, other: Number) -> (r: Number)
        ensures
            r == self.product(other),
    {
        Number { bits: soft_mul(self.bits, other.bits) }
    }

    /// The quotient as IEEE 754 has it, also where `other` is zero. The
    /// language's division refuses a zero divisor before it gets here.
    pub fn divided_by(self, other: Number) -> (r: Number)
        ensures
            r == self.quotient(other),
    {
        Number { bits: soft_div(self.bits, other.bits) }
    }

    /// The number that a result of the power function is kept as: the number
    /// with these bits, or the one quiet NaN if they are those of a NaN.
    pub fn settle(raw: u64) -> (r: Number)
        ensures
            r == Number::settled(raw),
    {
        if (Number { bits: raw }).is_nan() {
            Number { bits: QUIET_NAN }
        } else {
            Number { bits: raw }
        }
    }

    /// `self` to the power `other`. The power function is only as precise as
    /// the platform makes it, so nothing is promised of the value: the result
    /// is what `settle` makes of whatever the power function gave.
    pub fn to_power(self, other: Number) -> (r: Number)
        ensures
            exists|raw: u64| r == Number::settled(raw),
    {
        Number::settle(native_pow(self.bits, other.bits))
    }

    /// The decimal text of the number: the shortest digits that read back as
    /// the same double, without an exponent.
    pub fn text(self) -> (s: String)
        ensures
            s@ == decimal_text(self.bits),
    {
        print_double(self.bits)
    }

    /// Reads a decimal literal.
    pub fn parse(text: &Vec<char>) -> (r: Option<Number>)
        ensures
            r == Number::parsed(text@),
    {
        match read_double(text) {
            Some(bits) => Some(Number { bits }),
            None => None,
        }
    }

    /// What `parse` gives for a text.
    pub open spec fn parsed(text: Seq<char>) -> Option<Number> {
        match literal_bits(text) {
            Some(bits) => Some(Number { bits }),
            None => None,
        }
    }
}

impl PartialEq for Number {
    fn eq(&self, other: &Number) -> (r: bool) {
        self.equals(*other)
    }
}

impl vstd::std_specs::cmp::PartialEqSpecImpl for Number {
    open spec fn obeys_eq_spec() -> bool {
        true
    }

    open spec fn eq_spec(&self, other: &Number) -> bool {
        self.same(*other)
    }
}

/// Two numbers that are neither NaN nor zero have the same key only if they
/// have the same bits.
pub proof fn lemma_rank_one_to_one(a: Number, b: Number)
    requires
        !a.zero(),
    ensures
        a.rank() == b.rank() <==> a.bits == b.bits,
{
    let x = a.bits;
    let y = b.bits;
    assert((x & 0x7fff_ffff_ffff_ffff) != 0 ==> ((x >= 0x8000_0000_0000_0000) == (y
        >= 0x8000_0000_0000_0000) && (x & 0x7fff_ffff_ffff_ffff) == (y & 0x7fff_ffff_ffff_ffff)
        <==> x == y)) by (bit_vector);
}

/// The sum of two doubles, rounded to nearest, ties to even, as a function of
/// their bits.
pub uninterp spec fn sum_bits(a: u64, b: u64) -> u64;

/// The product of two doubles, rounded likewise.
pub uninterp spec fn product_bits(a: u64, b: u64) -> u64;

/// The quotient of two doubles, rounded likewise.
pub uninterp spec fn quotient_bits(a: u64, b: u64) -> u64;

/// The decimal text of a double.
pub uninterp spec fn decimal_text(bits: u64) -> Seq<char>;

/// The double that a text denotes, where it is a number at all.
pub uninterp spec fn literal_bits(text: Seq<char>) -> Option<u64>;

/// `SoftF64::add` of const_soft_float: IEEE 754 addition worked out on the
/// bit patterns with integer operations only, so the result is a function of
/// the two patterns.
#[verifier::external_body]
fn soft_add(a: u64, b: u64) -> (r: u64)
    ensures
        r == sum_bits(a, b),
{
    SoftF64::from_bits(a).add(SoftF64::from_bits(b)).to_bits()
}

/// `SoftF64::mul` of const_soft_float: IEEE 754 multiplication on the bit
/// patterns, a function of the two patterns.
#[verifier::external_body]
fn soft_mul(a: u64, b: u64) -> (r: u64)
    ensures
        r == product_bits(a, b),
{
    SoftF64::from_bits(a).mul(SoftF64::from_bits(b)).to_bits()
}

/// `SoftF64::div` of const_soft_float: IEEE 754 division on the bit
/// patterns, a function of the two patterns. A zero divisor gives an
/// infinity or a NaN, not a panic.
#[verifier::external_body]
fn soft_div(a: u64, b: u64) -> (r: u64)
    ensures
        r == quotient_bits(a, b),
{
    SoftF64::from_bits(a).div(SoftF64::from_bits(b)).to_bits()
}

/// `powf` of std on the doubles with these bits. Its documentation leaves
/// the precision open and lets it vary from platform to platform, so the
/// contract promises nothing. `from_bits`, `to_f64`, `from_f64` and `to_bits`
/// of const_soft_float pass the 64 bits on unchanged.
#[verifier::external_body]
fn native_pow(a: u64, b: u64) -> (r: u64) {
    let power = SoftF64::from_bits(a).to_f64().powf(SoftF64::from_bits(b).to_f64());
    SoftF64::from_f64(power).to_bits()
}

/// `Display` of std for the double with these bits, which `from_bits` and
/// `to_f64` of const_soft_float pass on unchanged: the text depends on the
/// bits alone.
#[verifier::external_body]
fn print_double(bits: u64) -> (s: String)
    ensures
        s@ == decimal_text(bits),
{
    format!("{}", SoftF64::from_bits(bits).to_f64())
}

/// `str::parse` of std for a double, whose bits `from_f64` and `to_bits` of
/// const_soft_float pass on unchanged: whether a text is a number, and
/// which, depends on the text alone.
#[verifier::external_body]
fn read_double(text: &Vec<char>) -> (r: Option<u64>)
    ensures
        r == literal_bits(text@),
{
    let text: String = text.iter().collect();
    match text.parse() {
        Ok(value) => Some(SoftF64::from_f64(value).to_bits()),
        Err(_) => None,
    }
}

/// The highest set bit of a number that is not zero stands at the index
/// `width` gives.
pub proof fn lemma_width(n: u64)
    requires
        n > 0,
    ensures
        width(n) <= 63,
        n >> (width(n) as u64) == 1,
    decreases n,
{
    if n <= 1 {
        assert(n == 1 ==> n >> 0 == 1) by (bit_vector);
    } else {
        let half = n / 2;
        lemma_width(half);
        let w = width(half) as u64;
        assert(w <= 63 && (n / 2) >> w == 1 ==> w < 63 && n >> ((w + 1) as u64) == 1)
            by (bit_vector);
    }
}

/// An integer below 2 to the 53 comes back from its double unchanged.
pub proof fn lemma_exact_round_trip(n: u64)
    requires
        n < EXACT_LIMIT,
    ensures
        !Number::of_count(n).nan(),
        !Number::of_count(n).signed(),
        Number::of_count(n).truncated() == n,
{
    if n == 0 {
        assert(0u64 & 0x7fff_ffff_ffff_ffff == 0 && (0u64 & 0x7fff_ffff_ffff_ffff) >> 52 == 0)
            by (bit_vector);
    } else {
        lemma_width(n);
        let p = width(n) as u64;
        let bits = exact_bits(n);
        assert(p <= 52) by (bit_vector)
            requires
                n >> p == 1,
                n < 0x0020_0000_0000_0000,
                p <= 63,
        ;
        assert(bits == ((1023 + p) as u64) << 52 | (n << ((52 - p) as u64))
            & 0x000f_ffff_ffff_ffff);
        assert({
            let e = (bits & 0x7fff_ffff_ffff_ffff) >> 52;
            let m = bits & 0x000f_ffff_ffff_ffff | 0x0010_0000_0000_0000;
            &&& bits & 0x7fff_ffff_ffff_ffff <= 0x7ff0_0000_0000_0000
            &&& bits < 0x8000_0000_0000_0000
            &&& 1023 <= e <= 1075
            &&& (e == 1075 ==> m << ((e - 1075) as u64) == n)
            &&& (e < 1075 ==> m >> ((1075 - e) as u64) == n)
        }) by (bit_vector)
            requires
                n >> p == 1,
                p <= 52,
                bits == ((1023 + p) as u64) << 52 | (n << ((52 - p) as u64))
                    & 0x000f_ffff_ffff_ffff,
        ;
    }
}

} // verus!
