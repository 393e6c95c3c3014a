//! Natural numbers of any size as lists of decimal digits, least significant
//! digit first.
use vstd::prelude::*;
use vstd::string::StringExecFns;
use crate::interpreter::decimal::digit_char;
use crate::interpreter::decimal::digit_str;
use crate::interpreter::decimal::nat_text;

verus! {

pub open spec fn pow10(n: nat) -> nat
    decreases n,
{
    if n == 0 {
        1
    } else {
        10 * pow10((n - 1) as nat)
    }
}

/// Every entry is a decimal digit.
pub open spec fn digits_ok(d: Seq<u8>) -> bool {
    forall|i: int| 0 <= i < d.len() ==> d[i] < 10
}

/// The number that the digits spell.
pub open spec fn digits_value(d: Seq<u8>) -> nat
    decreases d.len(),
{
    if d.len() == 0 {
        0
    } else {
        digits_value(d.drop_last()) + d.last() as nat * pow10((d.len() - 1) as nat)
    }
}

/// The digits as characters, most significant first.
pub open spec fn digits_text(d: Seq<u8>) -> Seq<char> {
    Seq::new(d.len(), |i: int| digit_char(d[d.len() - 1 - i] as nat))
}

/// The last `width` decimal digits of `n`, with leading zeros.
pub open spec fn fixed_text(n: nat, width: nat) -> Seq<char>
    decreases width,
{
    if width == 0 {
        Seq::empty()
    } else {
        fixed_text(n / 10, (width - 1) as nat).push(digit_char(n % 10))
    }
}

pub proof fn lemma_pow10_positive(n: nat)
    ensures
        pow10(n) > 0,
    decreases n,
{
    if n > 0 {
        lemma_pow10_positive((n - 1) as nat);
    }
}

pub proof fn lemma_pow10_adds(a: nat, b: nat)
    ensures
        pow10(a + b) == pow10(a) * pow10(b),
    decreases b,
{
    if b == 0 {
        assert(pow10(a) * 1 == pow10(a)) by (nonlinear_arith);
    } else {
        lemma_pow10_adds(a, (b - 1) as nat);
        let x = pow10(a);
        let y = pow10((b - 1) as nat);
        assert(10 * (x * y) == x * (10 * y)) by (nonlinear_arith);
    }
}

/// A digit pushed at the top adds its place value.
pub proof fn lemma_value_push(d: Seq<u8>, x: u8)
    ensures
        digits_value(d.push(x)) == digits_value(d) + x as nat * pow10(d.len()),
{
    assert(d.push(x).drop_last() =~= d);
}

/// `n` digits spell a number below `10^n`.
pub proof fn lemma_value_bound(d: Seq<u8>)
    requires
        digits_ok(d),
    ensures
        digits_value(d) < pow10(d.len()),
    decreases d.len(),
{
    if d.len() > 0 {
        lemma_value_bound(d.drop_last());
        let p = pow10((d.len() - 1) as nat);
        let x = d.last() as nat;
        assert(x * p <= 9 * p) by (nonlinear_arith)
            requires
                x <= 9,
        ;
    }
}

/// The value of two lists joined: the upper list counts in units of the
/// length of the lower one.
pub proof fn lemma_value_split(a: Seq<u8>, b: Seq<u8>)
    ensures
        digits_value(a + b) == digits_value(a) + pow10(a.len()) * digits_value(b),
    decreases b.len(),
{
    if b.len() == 0 {
        assert(a + b =~= a);
        assert(pow10(a.len()) * 0 == 0) by (nonlinear_arith);
    } else {
        lemma_value_split(a, b.drop_last());
        assert((a + b).drop_last() =~= a + b.drop_last());
        lemma_pow10_adds(a.len(), (b.len() - 1) as nat);
        let pa = pow10(a.len());
        let pb = pow10((b.len() - 1) as nat);
        let x = b.last() as nat;
        let rest = digits_value(b.drop_last());
        assert(pa * (rest + x * pb) == pa * rest + x * (pa * pb)) by (nonlinear_arith);
    }
}

/// The low `j` digits are the remainder, the others the quotient, by `10^j`.
pub proof fn lemma_value_take_skip(d: Seq<u8>, j: int)
    requires
        digits_ok(d),
        0 <= j <= d.len(),
    ensures
        digits_value(d) == digits_value(d.take(j)) + pow10(j as nat) * digits_value(d.skip(j)),
        digits_value(d.take(j)) < pow10(j as nat),
        digits_value(d) % pow10(j as nat) == digits_value(d.take(j)),
        digits_value(d) / pow10(j as nat) == digits_value(d.skip(j)),
{
    assert(d =~= d.take(j) + d.skip(j));
    lemma_value_split(d.take(j), d.skip(j));
    lemma_value_bound(d.take(j));
    lemma_pow10_positive(j as nat);
    let p = pow10(j as nat) as int;
    let q = digits_value(d.skip(j)) as int;
    let r = digits_value(d.take(j)) as int;
    assert(q * p == p * q) by (nonlinear_arith);
    vstd::arithmetic::div_mod::lemma_fundamental_div_mod_converse(digits_value(d) as int, p, q, r);
}

/// Of two lists of one length that agree above position `i`, the one with
/// the smaller digit at `i` spells the smaller number.
pub proof fn lemma_order(a: Seq<u8>, b: Seq<u8>, i: int)
    requires
        digits_ok(a),
        digits_ok(b),
        a.len() == b.len(),
        0 <= i < a.len(),
        forall|k: int| i < k < a.len() ==> a[k] == b[k],
        a[i] < b[i],
    ensures
        digits_value(a) < digits_value(b),
    decreases a.len(),
{
    let p = pow10((a.len() - 1) as nat);
    if i == a.len() - 1 {
        lemma_value_bound(a.drop_last());
        let x = a[i] as nat;
        let y = b[i] as nat;
        assert((x + 1) * p <= y * p) by (nonlinear_arith)
            requires
                x < y,
        ;
        assert((x + 1) * p == x * p + p) by (nonlinear_arith);
    } else {
        lemma_order(a.drop_last(), b.drop_last(), i);
    }
}

/// The value counted from the lowest digit: the lowest digit plus ten times
/// the value of the others.
pub proof fn lemma_value_low_digit(d: Seq<u8>)
    requires
        digits_ok(d),
        d.len() > 0,
    ensures
        digits_value(d) == d[0] as nat + 10 * digits_value(d.skip(1)),
        digits_value(d) % 10 == d[0] as nat,
        digits_value(d) / 10 == digits_value(d.skip(1)),
{
    lemma_value_take_skip(d, 1);
    assert(d.take(1) =~= Seq::<u8>::empty().push(d[0]));
    lemma_value_push(Seq::<u8>::empty(), d[0]);
    assert(pow10(0) == 1);
    assert(pow10(1) == 10);
    assert(d[0] as nat * 1 == d[0] as nat) by (nonlinear_arith);
}

/// Digits of a fixed width are the fixed-width text of their value.
pub proof fn lemma_fixed_text(d: Seq<u8>)
    requires
        digits_ok(d),
    ensures
        fixed_text(digits_value(d), d.len()) == digits_text(d),
    decreases d.len(),
{
    if d.len() == 0 {
        assert(digits_text(d) =~= Seq::<char>::empty());
    } else {
        lemma_value_low_digit(d);
        lemma_fixed_text(d.skip(1));
        assert(digits_text(d) =~= digits_text(d.skip(1)).push(digit_char(d[0] as nat)));
    }
}

/// Digits without a leading zero are the text of their value.
pub proof fn lemma_nat_text(d: Seq<u8>)
    requires
        digits_ok(d),
        d.len() > 0,
        d.len() > 1 ==> d.last() != 0,
    ensures
        nat_text(digits_value(d)) == digits_text(d),
    decreases d.len(),
{
    lemma_value_low_digit(d);
    if d.len() == 1 {
        assert(d.skip(1) =~= Seq::<u8>::empty());
        assert(digits_text(d) =~= seq![digit_char(d[0] as nat)]);
    } else {
        let rest = d.skip(1);
        assert(rest.last() == d.last());
        lemma_nat_text(rest);
        assert(digits_value(rest) >= 1) by {
            let p = pow10((rest.len() - 1) as nat);
            lemma_pow10_positive((rest.len() - 1) as nat);
            assert(rest.last() as nat * p >= p) by (nonlinear_arith)
                requires
                    rest.last() as nat >= 1,
            ;
        }
        assert(digits_text(d) =~= digits_text(rest).push(digit_char(d[0] as nat)));
    }
}

/// The digits of a machine number.
pub fn digits_from_u64(n: u64) -> (d: Vec<u8>)
    ensures
        digits_ok(d@),
        digits_value(d@) == n,
{
    let mut d: Vec<u8> = Vec::new();
    let mut rest: u64 = n;
    proof {
        assert(rest as nat * pow10(0) == n) by (nonlinear_arith)
            requires
                pow10(0) == 1,
                rest == n,
        ;
    }
    while rest > 0
        invariant
            digits_ok(d@),
            digits_value(d@) + rest as nat * pow10(d@.len()) == n,
        decreases rest,
    {
        let digit: u8 = (rest % 10) as u8;
        proof {
            lemma_value_push(d@, digit);
            let p = pow10(d@.len());
            assert(pow10(d@.len() + 1) == 10 * p);
            assert((rest / 10) as nat * (10 * p) + digit as nat * p == rest as nat * p)
                by (nonlinear_arith)
                requires
                    rest as nat == 10 * (rest / 10) as nat + digit as nat,
            ;
        }
        d.push(digit);
        rest = rest / 10;
    }
    proof {
        assert(0 * pow10(d@.len()) == 0) by (nonlinear_arith);
    }
    d
}

/// The largest factor that `digits_mul_small` takes.
pub const MAX_FACTOR: u64 = 0x0100_0000_0000_0000;

/// The digits of `d` times `c`.
pub fn digits_mul_small(d: &Vec<u8>, c: u64) -> (out: Vec<u8>)
    requires
        digits_ok(d@),
        c <= MAX_FACTOR,
    ensures
        digits_ok(out@),
        digits_value(out@) == digits_value(d@) * c,
        out@.len() >= d@.len(),
{
    let mut out: Vec<u8> = Vec::new();
    let mut carry: u64 = 0;
    let mut i: usize = 0;
    proof {
        assert(d@.take(0) =~= Seq::<u8>::empty());
        assert(0 * pow10(0) == 0) by (nonlinear_arith);
        assert(0 * c == 0) by (nonlinear_arith);
    }
    while i < d.len()
        invariant
            0 <= i <= d.len(),
            out@.len() == i,
            digits_ok(d@),
            digits_ok(out@),
            c <= MAX_FACTOR,
            carry <= c,
            digits_value(out@) + carry as nat * pow10(i as nat) == digits_value(d@.take(i as int))
                * c,
        decreases d.len() - i,
    {
        let x: u64 = d[i] as u64;
        assert(x * c <= 9 * c) by (nonlinear_arith)
            requires
                x <= 9,
        ;
        let t: u64 = x * c + carry;
        let digit: u8 = (t % 10) as u8;
        proof {
            lemma_value_push(out@, digit);
            let p = pow10(i as nat);
            assert(pow10((i + 1) as nat) == 10 * p);
            assert(d@.take(i + 1) =~= d@.take(i as int).push(d@[i as int]));
            lemma_value_push(d@.take(i as int), d@[i as int]);
            let before = digits_value(d@.take(i as int));
            assert((before + x as nat * p) * c == before * c + x as nat * c * p) by (nonlinear_arith);
            assert((t / 10) as nat * (10 * p) + digit as nat * p == x as nat * c * p + carry as nat
                * p) by (nonlinear_arith)
                requires
                    t as nat == 10 * (t / 10) as nat + digit as nat,
                    t as nat == x as nat * c as nat + carry as nat,
            ;
        }
        out.push(digit);
        carry = t / 10;
        i += 1;
    }
    assert(d@.take(d@.len() as int) =~= d@);
    while carry > 0
        invariant
            digits_ok(out@),
            out@.len() >= d@.len(),
            digits_value(out@) + carry as nat * pow10(out@.len()) == digits_value(d@) * c,
        decreases carry,
    {
        let digit: u8 = (carry % 10) as u8;
        proof {
            lemma_value_push(out@, digit);
            let p = pow10(out@.len());
            assert(pow10(out@.len() + 1) == 10 * p);
            assert((carry / 10) as nat * (10 * p) + digit as nat * p == carry as nat * p)
                by (nonlinear_arith)
                requires
                    carry as nat == 10 * (carry / 10) as nat + digit as nat,
            ;
        }
        out.push(digit);
        carry = carry / 10;
    }
    proof {
        assert(0 * pow10(out@.len()) == 0) by (nonlinear_arith);
    }
    out
}

/// The digits of the sum of two numbers spelled with one number of digits.
pub fn digits_add(a: &Vec<u8>, b: &Vec<u8>) -> (out: Vec<u8>)
    requires
        digits_ok(a@),
        digits_ok(b@),
        a@.len() == b@.len(),
    ensures
        digits_ok(out@),
        digits_value(out@) == digits_value(a@) + digits_value(b@),
        out@.len() == a@.len() + 1,
{
    let mut out: Vec<u8> = Vec::new();
    let mut carry: u8 = 0;
    let mut i: usize = 0;
    proof {
        assert(a@.take(0) =~= Seq::<u8>::empty());
        assert(b@.take(0) =~= Seq::<u8>::empty());
        assert(0 * pow10(0) == 0) by (nonlinear_arith);
    }
    while i < a.len()
        invariant
            0 <= i <= a.len(),
            a@.len() == b@.len(),
            out@.len() == i,
            digits_ok(a@),
            digits_ok(b@),
            digits_ok(out@),
            carry <= 1,
            digits_value(out@) + carry as nat * pow10(i as nat) == digits_value(a@.take(i as int))
                + digits_value(b@.take(i as int)),
        decreases a.len() - i,
    {
        let t: u8 = a[i] + b[i] + carry;
        let digit: u8 = t % 10;
        proof {
            lemma_value_push(out@, digit);
            let p = pow10(i as nat);
            assert(pow10((i + 1) as nat) == 10 * p);
            assert(a@.take(i + 1) =~= a@.take(i as int).push(a@[i as int]));
            assert(b@.take(i + 1) =~= b@.take(i as int).push(b@[i as int]));
            lemma_value_push(a@.take(i as int), a@[i as int]);
            lemma_value_push(b@.take(i as int), b@[i as int]);
            assert((t / 10) as nat * (10 * p) + digit as nat * p == a@[i as int] as nat * p + b@[i as int] as nat
                * p + carry as nat * p) by (nonlinear_arith)
                requires
                    t as nat == 10 * (t / 10) as nat + digit as nat,
                    t as nat == a@[i as int] as nat + b@[i as int] as nat + carry as nat,
            ;
        }
        out.push(digit);
        carry = t / 10;
        i += 1;
    }
    proof {
        assert(a@.take(a@.len() as int) =~= a@);
        assert(b@.take(b@.len() as int) =~= b@);
        lemma_value_push(out@, carry);
    }
    out.push(carry);
    out
}

/// The same number spelled with at least `n` digits.
pub fn digits_pad(d: &mut Vec<u8>, n: usize)
    requires
        digits_ok(old(d)@),
    ensures
        digits_ok(final(d)@),
        digits_value(final(d)@) == digits_value(old(d)@),
        final(d)@.len() == if old(d)@.len() < n {
            n as nat
        } else {
            old(d)@.len()
        },
        forall|i: int| 0 <= i < old(d)@.len() ==> final(d)@[i] == old(d)@[i],
{
    while d.len() < n
        invariant
            digits_ok(d@),
            digits_value(d@) == digits_value(old(d)@),
            old(d)@.len() <= d@.len(),
            d@.len() <= n || d@.len() == old(d)@.len(),
            forall|i: int| 0 <= i < old(d)@.len() ==> d@[i] == old(d)@[i],
        decreases n - d.len(),
    {
        proof {
            lemma_value_push(d@, 0);
            assert(0 * pow10(d@.len()) == 0) by (nonlinear_arith);
        }
        d.push(0);
    }
}

/// The low `j` digits.
pub fn digits_low(d: &Vec<u8>, j: usize) -> (out: Vec<u8>)
    requires
        j <= d@.len(),
    ensures
        out@ == d@.take(j as int),
{
    let mut out: Vec<u8> = Vec::new();
    let mut i: usize = 0;
    while i < j
        invariant
            0 <= i <= j <= d@.len(),
            out@ == d@.take(i as int),
        decreases j - i,
    {
        out.push(d[i]);
        assert(out@ =~= d@.take(i + 1));
        i += 1;
    }
    assert(out@ =~= d@.take(j as int));
    out
}

/// The digits of `10^j`.
pub fn digits_pow10(j: usize) -> (out: Vec<u8>)
    requires
        j < usize::MAX,
    ensures
        digits_ok(out@),
        digits_value(out@) == pow10(j as nat),
        out@.len() == j + 1,
{
    let mut out: Vec<u8> = Vec::new();
    digits_pad(&mut out, j);
    proof {
        lemma_value_push(out@, 1);
        assert(1 * pow10(j as nat) == pow10(j as nat)) by (nonlinear_arith);
        assert(digits_value(Seq::<u8>::empty()) == 0);
    }
    out.push(1);
    out
}

/// How two numbers spelled with one number of digits compare: 0 when the
/// first is smaller, 1 when they are equal, 2 when the first is larger.
pub fn digits_order(a: &Vec<u8>, b: &Vec<u8>) -> (r: u8)
    requires
        digits_ok(a@),
        digits_ok(b@),
        a@.len() == b@.len(),
    ensures
        r == 0 <==> digits_value(a@) < digits_value(b@),
        r == 1 <==> digits_value(a@) == digits_value(b@),
        r == 2 <==> digits_value(a@) > digits_value(b@),
        r <= 2,
{
    let mut i: usize = a.len();
    while i > 0
        invariant
            0 <= i <= a@.len(),
            a@.len() == b@.len(),
            digits_ok(a@),
            digits_ok(b@),
            forall|k: int| i <= k < a@.len() ==> a@[k] == b@[k],
        decreases i,
    {
        if a[i - 1] < b[i - 1] {
            proof {
                lemma_order(a@, b@, i - 1);
            }
            return 0;
        }
        if a[i - 1] > b[i - 1] {
            proof {
                lemma_order(b@, a@, i - 1);
            }
            return 2;
        }
        i -= 1;
    }
    assert(a@ =~= b@);
    1
}

/// Appends the digits from position `from` up to, not including, position
/// `to`, the most significant first.
pub fn append_digits(text: &mut String, d: &Vec<u8>, from: usize, to: usize)
    requires
        digits_ok(d@),
        from <= to <= d@.len(),
    ensures
        final(text)@ == old(text)@ + digits_text(d@.subrange(from as int, to as int)),
{
    let mut i: usize = to;
    assert(old(text)@ + digits_text(d@.subrange(to as int, to as int)) =~= old(text)@);
    while i > from
        invariant
            from <= i <= to <= d@.len(),
            digits_ok(d@),
            text@ == old(text)@ + digits_text(d@.subrange(i as int, to as int)),
        decreases i,
    {
        i -= 1;
        let ghost before = text@;
        text.append(digit_str(d[i]));
        assert(text@ =~= old(text)@ + digits_text(d@.subrange(i as int, to as int))) by {
            let hi = d@.subrange(i + 1, to as int);
            let lo = d@.subrange(i as int, to as int);
            assert(forall|k: int| 0 <= k < hi.len() ==> digits_text(hi)[k] == digits_text(lo)[k]);
            assert(digits_text(lo)[hi.len() as int] == digit_char(d@[i as int] as nat));
            assert(digits_text(lo) =~= digits_text(hi).push(digit_char(d@[i as int] as nat)));
        }
    }
}

/// Appends the decimal text of the number that the digits spell.
pub fn append_digits_value(text: &mut String, d: &Vec<u8>)
    requires
        digits_ok(d@),
    ensures
        final(text)@ == old(text)@ + nat_text(digits_value(d@)),
{
    let mut top: usize = d.len();
    proof {
        assert(d@.take(top as int) =~= d@);
    }
    while top > 1 && d[top - 1] == 0
        invariant
            0 <= top <= d@.len(),
            digits_ok(d@),
            digits_value(d@.take(top as int)) == digits_value(d@),
        decreases top,
    {
        proof {
            assert(d@.take(top as int).drop_last() =~= d@.take(top - 1));
            assert(0 * pow10((top - 1) as nat) == 0) by (nonlinear_arith);
        }
        top -= 1;
    }
    if top == 0 {
        proof {
            reveal_strlit("0");
            assert(d@.take(0) =~= Seq::<u8>::empty());
            assert("0"@ =~= nat_text(0));
        }
        text.append("0");
    } else {
        proof {
            assert(d@.subrange(0, top as int) =~= d@.take(top as int));
            lemma_nat_text(d@.take(top as int));
        }
        append_digits(text, d, 0, top);
    }
}

} // verus!
