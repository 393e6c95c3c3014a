//! The decimal text of a binary64 number.
//!
//! A whole number is written out in full, followed by `.0`. Any other finite
//! number is written with the fewest decimals that still read back as the
//! same binary64 number, and among those the ones nearest to its true value:
//! `0.1`, not `0.1000000000000000055511151231257827`.
use vstd::prelude::*;
use crate::interpreter::digits::pow10;
use crate::interpreter::digits::fixed_text;
use crate::interpreter::decimal::nat_text;
use crate::interpreter::float::float_sign;
use crate::interpreter::float::float_is_nan;
use crate::interpreter::float::float_is_infinite;
use crate::interpreter::float::float_has_fraction;
use crate::interpreter::float::float_whole_magnitude;
use crate::interpreter::float::float_mantissa;
use crate::interpreter::float::float_exponent;
use crate::interpreter::float::float_biased_exponent;
use crate::interpreter::float::float_fraction;
use crate::interpreter::float::float_is_finite;
use crate::interpreter::float::is_nan;
use crate::interpreter::float::is_infinite;
use crate::interpreter::float::has_fraction;
use crate::interpreter::float::whole_magnitude;
use crate::interpreter::number::SIGN_BIT;
use crate::interpreter::number::HIDDEN_BIT;
use crate::interpreter::decimal::append_nat;
use crate::interpreter::digits::digits_ok;
use crate::interpreter::digits::digits_value;
use crate::interpreter::digits::digits_from_u64;
use crate::interpreter::digits::digits_mul_small;
use crate::interpreter::digits::digits_add;
use crate::interpreter::digits::digits_pad;
use crate::interpreter::digits::digits_low;
use crate::interpreter::digits::digits_pow10;
use crate::interpreter::digits::digits_order;
use crate::interpreter::digits::append_digits;
use crate::interpreter::digits::append_digits_value;
use crate::interpreter::digits::lemma_pow10_positive;
use crate::interpreter::digits::lemma_pow10_adds;
use crate::interpreter::digits::lemma_value_take_skip;
use crate::interpreter::digits::lemma_value_split;
use crate::interpreter::digits::lemma_fixed_text;
use vstd::string::StringExecFns;
use vstd::arithmetic::power2::pow2;
use vstd::arithmetic::power2::lemma_pow2_pos;
use vstd::arithmetic::power2::lemma_pow2_unfold;
use vstd::arithmetic::power2::lemma_pow2_strictly_increases;
use vstd::arithmetic::power2::lemma2_to64;
use vstd::arithmetic::div_mod::lemma_fundamental_div_mod;

verus! {

pub open spec fn pow5(n: nat) -> nat
    decreases n,
{
    if n == 0 {
        1
    } else {
        5 * pow5((n - 1) as nat)
    }
}

/// A magnitude `m / 2^k` and the bounds between which a decimal value is
/// taken to read back as the same binary64 number, all counted in units of
/// `10^-scale`.
pub struct Neighbourhood {
    /// The magnitude itself.
    pub value: nat,
    /// The lower bound: halfway to the next smaller magnitude, or nearer.
    pub low: nat,
    /// The upper bound: halfway to the next larger magnitude.
    pub high: nat,
    /// Whether the bounds themselves count: they do for an even mantissa,
    /// since a tie rounds to the even neighbour.
    pub inclusive: bool,
    pub scale: nat,
}

/// The neighbourhood of a finite pattern with a negative exponent.
///
/// With `k = -exponent`, the magnitude is `4m / 2^(k+2)`, which is
/// `4m * 5^(k+2)` units of `10^-(k+2)`, where a unit is `5^(k+2)`. The next
/// larger magnitude is 4 units away, so the upper bound is 2 units above.
/// The lower bound is 2 units below; for a normal number with no fraction
/// bits, whose smaller neighbours lie half as far apart, it is 1 unit below.
pub open spec fn neighbourhood(bits: u64) -> Neighbourhood {
    let m = float_mantissa(bits);
    let scale = ((-float_exponent(bits)) + 2) as nat;
    let unit = pow5(scale);
    let below: nat = if float_biased_exponent(bits) >= 1 && float_fraction(bits) == 0 {
        1
    } else {
        2
    };
    Neighbourhood {
        value: 4 * m * unit,
        low: ((4 * m - below) * unit) as nat,
        high: (4 * m + 2) * unit,
        inclusive: m % 2 == 0,
        scale,
    }
}

impl Neighbourhood {
    /// Whether `x` lies within the bounds.
    pub open spec fn holds(self, x: nat) -> bool {
        if self.inclusive {
            self.low <= x <= self.high
        } else {
            self.low < x < self.high
        }
    }

    /// The largest multiple of `10^j` not above the value.
    pub open spec fn below(self, j: nat) -> nat {
        (self.value / pow10(j)) * pow10(j)
    }

    /// The next multiple of `10^j` after `below`.
    pub open spec fn above(self, j: nat) -> nat {
        self.below(j) + pow10(j)
    }

    /// Whether a multiple of `10^j` next to the value lies within the bounds.
    pub open spec fn fits(self, j: nat) -> bool {
        self.holds(self.below(j)) || self.holds(self.above(j))
    }

    /// The largest `i <= j` with `fits(i)`; level 0 always fits.
    pub open spec fn coarsest_from(self, j: nat) -> nat
        decreases j,
    {
        if j == 0 || self.fits(j) {
            j
        } else {
            self.coarsest_from((j - 1) as nat)
        }
    }

    /// The coarsest power of ten with a multiple within the bounds. There is
    /// none from `10^(scale+16)` on, as `lemma_no_fit_above` shows.
    pub open spec fn level(self) -> nat {
        self.coarsest_from(self.scale + 16)
    }

    /// The multiple of `10^level` within the bounds that lies nearest to the
    /// value; of two equally near, the larger.
    pub open spec fn nearest(self) -> nat {
        let j = self.level();
        if self.holds(self.above(j)) && (!self.holds(self.below(j)) || 2 * (self.value
            - self.below(j)) >= pow10(j)) {
            self.above(j)
        } else {
            self.below(j)
        }
    }
}

/// The text of `x` units of `10^-scale`, where `x` is a multiple of
/// `10^level`: the whole part, and the decimals down to `10^(level-scale)`
/// when there are any.
pub open spec fn scaled_text(x: nat, scale: nat, level: nat) -> Seq<char> {
    if level >= scale {
        nat_text(x / pow10(scale))
    } else {
        nat_text(x / pow10(scale)) + seq!['.'] + fixed_text(
            (x % pow10(scale)) / pow10(level),
            (scale - level) as nat,
        )
    }
}

/// The text of a finite pattern without its sign.
pub open spec fn float_magnitude_text(bits: u64) -> Seq<char> {
    if float_has_fraction(bits) {
        let n = neighbourhood(bits);
        scaled_text(n.nearest(), n.scale, n.level())
    } else {
        nat_text(float_whole_magnitude(bits)) + seq!['.', '0']
    }
}

/// The text of a binary64 pattern.
pub open spec fn float_text(bits: u64) -> Seq<char> {
    if float_is_nan(bits) {
        seq!['N', 'a', 'N']
    } else if float_is_infinite(bits) {
        if float_sign(bits) {
            seq!['-', 'i', 'n', 'f']
        } else {
            seq!['i', 'n', 'f']
        }
    } else if float_sign(bits) {
        seq!['-'] + float_magnitude_text(bits)
    } else {
        float_magnitude_text(bits)
    }
}

/// The neighbourhood of a number with a fraction: its value lies strictly
/// between the bounds, at these distances.
pub proof fn lemma_neighbourhood(bits: u64)
    requires
        float_has_fraction(bits),
    ensures
        ({
            let n = neighbourhood(bits);
            let unit = pow5(n.scale);
            let narrow = float_biased_exponent(bits) >= 1 && float_fraction(bits) == 0;
            &&& unit > 0
            &&& float_mantissa(bits) >= 1
            &&& n.value == 4 * float_mantissa(bits) * unit
            &&& n.value - n.low == if narrow {
                unit
            } else {
                2 * unit
            }
            &&& n.high - n.value == 2 * unit
        }),
{
    let n = neighbourhood(bits);
    let unit = pow5(n.scale);
    let m = float_mantissa(bits);
    lemma_pow5_positive(n.scale);
    let p = pow2((-float_exponent(bits)) as nat);
    lemma_pow2_pos((-float_exponent(bits)) as nat);
    if m == 0 {
        assert(0nat % p == 0) by (nonlinear_arith)
            requires
                p > 0,
        ;
    }
    assert((4 * m - 1) * unit == 4 * m * unit - unit) by (nonlinear_arith)
        requires
            m >= 1,
    ;
    assert((4 * m - 2) * unit == 4 * m * unit - 2 * unit) by (nonlinear_arith)
        requires
            m >= 1,
    ;
    assert((4 * m + 2) * unit == 4 * m * unit + 2 * unit) by (nonlinear_arith);
    assert((4 * m - 1) * unit >= 0) by (nonlinear_arith)
        requires
            m >= 1,
            unit > 0,
    ;
    assert((4 * m - 2) * unit >= 0) by (nonlinear_arith)
        requires
            m >= 1,
            unit > 0,
    ;
}

pub proof fn lemma_pow5_positive(n: nat)
    ensures
        pow5(n) > 0,
    decreases n,
{
    if n > 0 {
        lemma_pow5_positive((n - 1) as nat);
    }
}

/// Whether the two multiples of `10^j` next to the value lie within the
/// bounds, told from the remainder of the value by `10^j`.
pub proof fn lemma_probe(n: Neighbourhood, j: nat)
    requires
        n.low < n.value < n.high,
    ensures
        ({
            let r = n.value % pow10(j);
            &&& n.below(j) == n.value - r
            &&& n.above(j) == n.value - r + pow10(j)
            &&& n.holds(n.below(j)) <==> if n.inclusive {
                r <= n.value - n.low
            } else {
                r < n.value - n.low
            }
            &&& n.holds(n.above(j)) <==> if n.inclusive {
                pow10(j) <= n.high - n.value + r
            } else {
                pow10(j) < n.high - n.value + r
            }
        }),
{
    let p = pow10(j) as int;
    lemma_pow10_positive(j);
    lemma_fundamental_div_mod(n.value as int, p);
    let q = n.value as int / p;
    assert(q * p == p * q) by (nonlinear_arith);
    assert(0 <= n.value as int % p < p) by {
        vstd::arithmetic::div_mod::lemma_mod_pos_bound(n.value as int, p);
    }
    assert(q >= 0) by {
        vstd::arithmetic::div_mod::lemma_div_pos_is_pos(n.value as int, p);
    }
    assert(q * p >= 0) by (nonlinear_arith)
        requires
            q >= 0,
            p > 0,
    ;
}

pub proof fn lemma_pow10_is_pow2_pow5(n: nat)
    ensures
        pow10(n) == pow2(n) * pow5(n),
    decreases n,
{
    if n == 0 {
        lemma2_to64();
    } else {
        lemma_pow10_is_pow2_pow5((n - 1) as nat);
        lemma_pow2_unfold(n);
        let a = pow2((n - 1) as nat);
        let b = pow5((n - 1) as nat);
        assert(10 * (a * b) == (2 * a) * (5 * b)) by (nonlinear_arith);
    }
}

pub proof fn lemma_pow10_increases(a: nat, b: nat)
    requires
        a <= b,
    ensures
        pow10(a) <= pow10(b),
    decreases b,
{
    if a < b {
        lemma_pow10_increases(a, (b - 1) as nat);
    }
}

/// No multiple of `10^j` with `j >= scale + 16` lies within the bounds of a
/// number with a fraction: such a number is below `2^53`.
pub proof fn lemma_no_fit_above(bits: u64, j: nat)
    requires
        float_has_fraction(bits),
        j >= neighbourhood(bits).scale + 16,
    ensures
        !neighbourhood(bits).fits(j),
{
    let n = neighbourhood(bits);
    let m = float_mantissa(bits);
    let unit = pow5(n.scale);
    lemma_neighbourhood(bits);
    lemma_pow10_adds(16, n.scale);
    lemma_pow10_is_pow2_pow5(n.scale);
    lemma_pow10_increases(16 + n.scale, j);
    lemma2_to64();
    if n.scale > 3 {
        lemma_pow2_strictly_increases(3, n.scale);
    }
    reveal_with_fuel(pow10, 17);
    assert(pow10(16) == 10_000_000_000_000_000);
    let p2 = pow2(n.scale);
    assert(n.high < pow10(16) * (p2 * unit)) by (nonlinear_arith)
        requires
            n.high == 4 * m * unit + 2 * unit,
            m < 0x0020_0000_0000_0000,
            p2 >= 8,
            unit > 0,
            pow10(16) == 10_000_000_000_000_000,
    ;
    let p = pow10(j);
    assert(pow10(16 + n.scale) == pow10(16) * pow10(n.scale));
    assert(pow10(n.scale) == p2 * unit);
    assert(n.high < p);
    assert(4 * m * unit >= 4 * unit) by (nonlinear_arith)
        requires
            m >= 1,
            unit > 0,
    ;
    assert(n.low > 0);
    assert(n.value < p);
    assert(n.value / p == 0) by {
        vstd::arithmetic::div_mod::lemma_basic_div(n.value as int, p as int);
    }
    assert(0 * p == 0) by (nonlinear_arith);
    assert(n.below(j) == 0);
    assert(n.above(j) == p);
    assert(!n.holds(n.below(j)));
    assert(!n.holds(n.above(j)));
}

/// The largest fitting level up to `top` is at least any fitting level up
/// to `top`, and fits itself.
pub proof fn lemma_coarsest_from(n: Neighbourhood, top: nat, j: nat)
    requires
        j <= top,
        n.fits(j),
    ensures
        j <= n.coarsest_from(top) <= top,
        n.fits(n.coarsest_from(top)),
    decreases top,
{
    if top != 0 && !n.fits(top) {
        lemma_coarsest_from(n, (top - 1) as nat, j);
    }
}

/// The level of a number with a fraction is the coarsest power of ten of
/// all that has a multiple within the bounds, and the nearest such multiple
/// does lie within the bounds.
pub proof fn lemma_level_is_coarsest(bits: u64, j: nat)
    requires
        float_has_fraction(bits),
    ensures
        neighbourhood(bits).fits(neighbourhood(bits).level()),
        neighbourhood(bits).holds(neighbourhood(bits).nearest()),
        neighbourhood(bits).fits(j) ==> j <= neighbourhood(bits).level(),
{
    let n = neighbourhood(bits);
    lemma_neighbourhood(bits);
    lemma_probe(n, 0);
    assert(n.value % 1 == 0);
    assert(n.fits(0));
    lemma_coarsest_from(n, n.scale + 16, 0);
    if n.fits(j) {
        if j >= n.scale + 16 {
            lemma_no_fit_above(bits, j);
        } else {
            lemma_coarsest_from(n, n.scale + 16, j);
        }
    }
}

/// The digits of `5^scale`.
pub fn unit_digits(scale: usize) -> (unit: Vec<u8>)
    ensures
        digits_ok(unit@),
        digits_value(unit@) == pow5(scale as nat),
{
    let mut unit: Vec<u8> = digits_from_u64(1);
    let mut i: usize = 0;
    while i < scale
        invariant
            0 <= i <= scale,
            digits_ok(unit@),
            digits_value(unit@) == pow5(i as nat),
        decreases scale - i,
    {
        proof {
            let v = pow5(i as nat);
            assert(v * 5 == 5 * v) by (nonlinear_arith);
        }
        unit = digits_mul_small(&unit, 5);
        i += 1;
    }
    unit
}

/// What `probe` tells of the remainder `r` of a value by `10^j`.
pub struct Probe {
    /// Whether `r` is within the gap below.
    pub down: bool,
    /// Whether `10^j - r` is within the gap above.
    pub up: bool,
    /// Whether `r` is at least half of `10^j`.
    pub upper_half: bool,
}

/// Compares the remainder of `value` by `10^j` with the gaps below and above.
pub fn probe(value: &Vec<u8>, gap_below: &Vec<u8>, gap_above: &Vec<u8>, inclusive: bool, j: usize) -> (r:
    Probe)
    requires
        digits_ok(value@),
        digits_ok(gap_below@),
        digits_ok(gap_above@),
        value@.len() == gap_below@.len(),
        value@.len() == gap_above@.len(),
        j < value@.len(),
    ensures
        ({
            let rem = digits_value(value@) % pow10(j as nat);
            &&& r.down == if inclusive {
                rem <= digits_value(gap_below@)
            } else {
                rem < digits_value(gap_below@)
            }
            &&& r.up == if inclusive {
                pow10(j as nat) <= digits_value(gap_above@) + rem
            } else {
                pow10(j as nat) < digits_value(gap_above@) + rem
            }
            &&& r.upper_half == (2 * rem >= pow10(j as nat))
        }),
{
    let width: usize = value.len();
    let mut low = digits_low(value, j);
    proof {
        lemma_value_take_skip(value@, j as int);
    }
    digits_pad(&mut low, width);
    let below = digits_order(&low, gap_below);
    let sum = digits_add(gap_above, &low);
    let twice = digits_add(&low, &low);
    let mut power = digits_pow10(j);
    digits_pad(&mut power, sum.len());
    let above = digits_order(&power, &sum);
    let half = digits_order(&twice, &power);
    Probe {
        down: if inclusive {
            below <= 1
        } else {
            below == 0
        },
        up: if inclusive {
            above <= 1
        } else {
            above == 0
        },
        upper_half: half >= 1,
    }
}

/// The digits of the largest multiple of `10^j` not above the value.
pub fn round_down(value: &Vec<u8>, j: usize) -> (out: Vec<u8>)
    requires
        digits_ok(value@),
        j <= value@.len(),
    ensures
        digits_ok(out@),
        out@.len() == value@.len(),
        digits_value(out@) == digits_value(value@) - digits_value(value@) % pow10(j as nat),
{
    let mut out: Vec<u8> = Vec::new();
    digits_pad(&mut out, j);
    let ghost zeros = out@;
    let mut i: usize = j;
    while i < value.len()
        invariant
            j <= i <= value@.len(),
            out@ == zeros + value@.subrange(j as int, i as int),
            zeros.len() == j,
        decreases value.len() - i,
    {
        out.push(value[i]);
        assert(out@ =~= zeros + value@.subrange(j as int, i + 1));
        i += 1;
    }
    proof {
        assert(value@.subrange(j as int, value@.len() as int) =~= value@.skip(j as int));
        lemma_value_take_skip(value@, j as int);
        lemma_value_split(zeros, value@.skip(j as int));
        assert(digits_value(Seq::<u8>::empty()) == 0);
        assert forall|k: int| 0 <= k < out@.len() implies out@[k] < 10 by {
            if k >= j {
                assert(out@[k] == value@[k]);
            }
        }
    }
    out
}

/// The digits from position `from` on.
pub fn digits_high(d: &Vec<u8>, from: usize) -> (out: Vec<u8>)
    requires
        from <= d@.len(),
    ensures
        out@ == d@.skip(from as int),
{
    let mut out: Vec<u8> = Vec::new();
    let mut i: usize = from;
    while i < d.len()
        invariant
            from <= i <= d@.len(),
            out@ == d@.subrange(from as int, i as int),
        decreases d.len() - i,
    {
        out.push(d[i]);
        assert(out@ =~= d@.subrange(from as int, i + 1));
        i += 1;
    }
    assert(out@ =~= d@.skip(from as int));
    out
}

/// Appends the text of the number that `x` spells in units of `10^-scale`,
/// down to the decimal of `10^(level-scale)`.
pub fn append_scaled(text: &mut String, x: &Vec<u8>, scale: usize, level: usize)
    requires
        digits_ok(x@),
        scale <= x@.len(),
    ensures
        final(text)@ == old(text)@ + scaled_text(digits_value(x@), scale as nat, level as nat),
{
    let whole = digits_high(x, scale);
    proof {
        lemma_value_take_skip(x@, scale as int);
    }
    append_digits_value(text, &whole);
    if level < scale {
        proof {
            reveal_strlit(".");
            let low = x@.take(scale as int);
            lemma_value_take_skip(low, level as int);
            assert(low.skip(level as int) =~= x@.subrange(level as int, scale as int));
            lemma_fixed_text(x@.subrange(level as int, scale as int));
        }
        text.append(".");
        append_digits(text, x, level, scale);
        assert(final(text)@ =~= old(text)@ + scaled_text(
            digits_value(x@),
            scale as nat,
            level as nat,
        ));
    }
}

/// Appends the text of a magnitude with a fraction.
pub fn append_fractional(text: &mut String, bits: u64)
    requires
        float_has_fraction(bits),
    ensures
        final(text)@ == old(text)@ + float_magnitude_text(bits),
{
    let biased: u64 = (bits / HIDDEN_BIT) % 2048;
    let fraction: u64 = bits % HIDDEN_BIT;
    let mantissa: u64 = if biased == 0 {
        fraction
    } else {
        fraction + HIDDEN_BIT
    };
    let scale: usize = if biased == 0 {
        1076
    } else {
        (1077 - biased) as usize
    };
    let ghost n = neighbourhood(bits);
    proof {
        lemma_neighbourhood(bits);
        assert(n.scale == scale);
    }
    let unit = unit_digits(scale);
    let mut value = digits_mul_small(&unit, 4 * mantissa);
    let mut gap_below = digits_mul_small(
        &unit,
        if biased >= 1 && fraction == 0 {
            1
        } else {
            2
        },
    );
    let mut gap_above = digits_mul_small(&unit, 2);
    let inclusive: bool = mantissa % 2 == 0;
    proof {
        let u = pow5(scale as nat);
        assert(u * (4 * mantissa) == 4 * mantissa * u) by (nonlinear_arith);
        assert(u * 1 == u) by (nonlinear_arith);
        assert(u * 2 == 2 * u) by (nonlinear_arith);
    }
    let mut width: usize = scale + 17;
    if value.len() > width {
        width = value.len();
    }
    if gap_below.len() > width {
        width = gap_below.len();
    }
    if gap_above.len() > width {
        width = gap_above.len();
    }
    digits_pad(&mut value, width);
    digits_pad(&mut gap_below, width);
    digits_pad(&mut gap_above, width);
    let mut level: usize = scale + 16;
    let mut found = probe(&value, &gap_below, &gap_above, inclusive, level);
    proof {
        lemma_probe(n, level as nat);
    }
    while level > 0 && !found.down && !found.up
        invariant
            0 <= level <= scale + 16,
            scale <= 1076,
            width >= scale + 17,
            digits_ok(value@),
            digits_ok(gap_below@),
            digits_ok(gap_above@),
            value@.len() == width,
            gap_below@.len() == width,
            gap_above@.len() == width,
            n == neighbourhood(bits),
            n.scale == scale,
            n.inclusive == inclusive,
            n.low < n.value < n.high,
            digits_value(value@) == n.value,
            digits_value(gap_below@) == n.value - n.low,
            digits_value(gap_above@) == n.high - n.value,
            n.level() == n.coarsest_from(level as nat),
            found.down == n.holds(n.below(level as nat)),
            found.up == n.holds(n.above(level as nat)),
            found.upper_half == (2 * (n.value - n.below(level as nat)) >= pow10(level as nat)),
        decreases level,
    {
        level -= 1;
        found = probe(&value, &gap_below, &gap_above, inclusive, level);
        proof {
            lemma_probe(n, level as nat);
        }
    }
    proof {
        lemma_probe(n, level as nat);
        assert(n.level() == level);
    }
    let mut chosen = round_down(&value, level);
    if found.up && (!found.down || found.upper_half) {
        let mut power = digits_pow10(level);
        digits_pad(&mut power, width);
        chosen = digits_add(&chosen, &power);
    }
    assert(digits_value(chosen@) == n.nearest());
    append_scaled(text, &chosen, scale, level);
}

/// Appends the text of a whole magnitude.
pub fn append_whole(text: &mut String, bits: u64)
    requires
        float_is_finite(bits),
        !float_has_fraction(bits),
    ensures
        final(text)@ == old(text)@ + nat_text(float_whole_magnitude(bits)),
{
    let biased: u64 = (bits / HIDDEN_BIT) % 2048;
    if biased < 1075 + 11 {
        let (whole, _) = whole_magnitude(bits);
        proof {
            lemma_small_whole(bits);
        }
        append_nat(text, whole);
    } else {
        let mantissa: u64 = bits % HIDDEN_BIT + HIDDEN_BIT;
        let up: u64 = biased - 1075;
        let mut d = digits_from_u64(mantissa);
        let mut i: u64 = 0;
        proof {
            lemma2_to64();
            assert(mantissa as nat * 1 == mantissa) by (nonlinear_arith);
        }
        while i < up
            invariant
                0 <= i <= up,
                digits_ok(d@),
                digits_value(d@) == mantissa as nat * pow2(i as nat),
            decreases up - i,
        {
            proof {
                lemma_pow2_unfold((i + 1) as nat);
                let p = pow2(i as nat);
                assert(mantissa as nat * p * 2 == mantissa as nat * (2 * p)) by (nonlinear_arith);
            }
            d = digits_mul_small(&d, 2);
            i += 1;
        }
        append_digits_value(text, &d);
    }
}

/// A pattern with an exponent below 11 has a magnitude below two to the 63rd.
pub proof fn lemma_small_whole(bits: u64)
    requires
        float_biased_exponent(bits) < 1075 + 11,
    ensures
        float_whole_magnitude(bits) < 0x8000_0000_0000_0000,
{
    let m = float_mantissa(bits);
    let e = float_exponent(bits);
    lemma2_to64();
    if e >= 0 {
        let p = pow2(e as nat);
        if e < 10 {
            lemma_pow2_strictly_increases(e as nat, 10);
        }
        assert(m * p < 0x8000_0000_0000_0000) by (nonlinear_arith)
            requires
                m < 0x0020_0000_0000_0000,
                p <= 1024,
        ;
    } else {
        let p = pow2((-e) as nat);
        lemma_pow2_pos((-e) as nat);
        assert(m / p <= m) by (nonlinear_arith)
            requires
                p >= 1,
        ;
    }
}

/// The text of a binary64 pattern.
pub fn float_to_text(bits: u64) -> (text: String)
    ensures
        text@ == float_text(bits),
{
    if is_nan(bits) {
        proof {
            reveal_strlit("NaN");
            assert("NaN"@ =~= seq!['N', 'a', 'N']);
        }
        return String::from_str("NaN");
    }
    if is_infinite(bits) {
        proof {
            reveal_strlit("inf");
            reveal_strlit("-inf");
            assert("inf"@ =~= seq!['i', 'n', 'f']);
            assert("-inf"@ =~= seq!['-', 'i', 'n', 'f']);
        }
        if bits >= SIGN_BIT {
            return String::from_str("-inf");
        }
        return String::from_str("inf");
    }
    let mut text = String::new();
    if bits >= SIGN_BIT {
        proof {
            reveal_strlit("-");
        }
        text.append("-");
    }
    let ghost sign_text = text@;
    if has_fraction(bits) {
        append_fractional(&mut text, bits);
    } else {
        append_whole(&mut text, bits);
        proof {
            reveal_strlit(".0");
            assert(".0"@ =~= seq!['.', '0']);
        }
        text.append(".0");
    }
    assert(text@ =~= float_text(bits));
    text
}

} // verus!
