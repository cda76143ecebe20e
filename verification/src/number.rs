//! Encoding of DynamoDB numbers as byte strings that sort as the numbers do.
//!
//! A DynamoDB `N` is a decimal with up to 38 significant digits and a magnitude
//! in `[1e-130, 1e+126)`, or zero. Row keys sort byte-wise, so a number that is
//! part of one is written like this:
//!
//! ```text
//!   value = 0   0x80
//!   value > 0   0xFF | exponent           | digits, padded with 0x00 to 38
//!   value < 0   0x00 | 0xFF - exponent    | 9 - digits, padded with 0xFF to 38
//! ```
//!
//! where `exponent` is the scientific exponent plus 130, and the digits are the
//! significant ones, one byte each, without leading and trailing zeros.

use vstd::prelude::*;
use vstd::string::*;

use crate::bytes::{bytes_slice, lex_asymmetric, lex_lt, lex_lt_at, lex_total, lex_witness};
use crate::error::{internal, invalid, ErrView, StorageError};
use crate::text::{
    all_digits, cat2, cat5, chars_of, dec_value, decimal, decimal_round_trip, decode_text,
    digit_value, find_from, first_index, i128_text, i64_text, is_digit, is_white_space,
    lemma_first_index, lemma_first_index_is, numeral_round_trip, parse_signed, parse_signed_range,
    signed_decimal, string_of, text, trim_chars, trimmed, u64_text, usize_text, utf8_decoded,
    utf8_round_trip,
};

verus! {

pub const EXP_BIAS: i32 = 130;

pub const MANTISSA_DIGITS: usize = 38;

pub const SIGN_NEG: u8 = 0x00;

pub const SIGN_ZERO: u8 = 0x80;

pub const SIGN_POS: u8 = 0xFF;

// ---------------------------------------------------------------------------
// Numerals and the numbers that they denote
// ---------------------------------------------------------------------------

/// A decimal number: `digits`, read as an integer, times ten to the power of
/// `exp`, negated where `neg`.
pub struct Decimal {
    pub neg: bool,
    pub digits: Seq<char>,
    pub exp: int,
}

/// The position of the first `e` or `E`, or the length where there is none.
pub open spec fn exp_index(s: Seq<char>) -> int {
    let a = first_index(s, 'e');
    let b = first_index(s, 'E');
    if a <= b {
        a
    } else {
        b
    }
}

/// A numeral without its sign.
pub open spec fn after_sign(t: Seq<char>) -> Seq<char> {
    if t.len() > 0 && (t[0] == '-' || t[0] == '+') {
        t.skip(1)
    } else {
        t
    }
}

/// The part of a mantissa before the point.
pub open spec fn int_part(m: Seq<char>) -> Seq<char> {
    m.take(first_index(m, '.'))
}

/// The part of a mantissa after the point.
pub open spec fn frac_part(m: Seq<char>) -> Seq<char> {
    let i = first_index(m, '.');
    if i < m.len() {
        m.skip(i + 1)
    } else {
        Seq::empty()
    }
}

/// The decimal that a numeral denotes: white space around it is ignored; then
/// an optional sign, digits with an optional point among them, and optionally
/// `e` or `E` with a 32-bit exponent.
pub open spec fn parse_number(s: Seq<char>) -> Result<Decimal, ErrView> {
    let t = trimmed(s);
    let rest = after_sign(t);
    let ei = exp_index(rest);
    let exp_text = rest.skip(ei + 1);
    let exp_value = parse_signed(exp_text, i32::MIN as int, i32::MAX as int);
    let m = rest.take(ei);
    if t.len() == 0 {
        Err(ErrView::Validation("empty N value"@))
    } else if rest.len() == 0 {
        Err(ErrView::Validation("bad N value: "@ + t))
    } else if ei < rest.len() && exp_value is None {
        Err(ErrView::Validation("bad N exponent: "@ + exp_text))
    } else if int_part(m).len() == 0 && frac_part(m).len() == 0 {
        Err(ErrView::Validation("N has no digits: "@ + t))
    } else if !all_digits(int_part(m)) || !all_digits(frac_part(m)) {
        Err(ErrView::Validation("bad N mantissa: "@ + t))
    } else {
        Ok(
            Decimal {
                neg: t[0] == '-',
                digits: int_part(m) + frac_part(m),
                exp: if ei < rest.len() {
                    exp_value->0
                } else {
                    0
                } - frac_part(m).len(),
            },
        )
    }
}

/// Digits without the zeros at their beginning.
pub open spec fn strip_leading(d: Seq<char>) -> Seq<char>
    decreases d.len(),
{
    if d.len() > 0 && d[0] == '0' {
        strip_leading(d.skip(1))
    } else {
        d
    }
}

/// Digits without the zeros at their end.
pub open spec fn strip_trailing(d: Seq<char>) -> Seq<char>
    decreases d.len(),
{
    if d.len() > 0 && d.last() == '0' {
        strip_trailing(d.drop_last())
    } else {
        d
    }
}

/// The significant digits of a decimal: from the first to the last that is not
/// zero.
pub open spec fn significant(d: Decimal) -> Seq<char> {
    strip_trailing(strip_leading(d.digits))
}

/// The exponent of a decimal other than zero in scientific notation.
pub open spec fn sci_exp(d: Decimal) -> int {
    d.exp + strip_leading(d.digits).len() - 1
}

// ---------------------------------------------------------------------------
// The encoding
// ---------------------------------------------------------------------------

/// The mantissa bytes of a positive number.
pub open spec fn pos_mantissa(sig: Seq<char>) -> Seq<u8> {
    Seq::new(
        MANTISSA_DIGITS as nat,
        |i: int|
            if i < sig.len() {
                digit_value(sig[i]) as u8
            } else {
                0x00u8
            },
    )
}

/// The mantissa bytes of a negative number.
pub open spec fn neg_mantissa(sig: Seq<char>) -> Seq<u8> {
    Seq::new(
        MANTISSA_DIGITS as nat,
        |i: int|
            if i < sig.len() {
                (9 - digit_value(sig[i])) as u8
            } else {
                0xFFu8
            },
    )
}

/// The bytes of a number with the given sign, significant digits and
/// scientific exponent.
pub open spec fn number_bytes(neg: bool, sig: Seq<char>, sci: int) -> Seq<u8> {
    if sig.len() == 0 {
        seq![SIGN_ZERO]
    } else if neg {
        seq![SIGN_NEG, (0xFF - (sci + EXP_BIAS)) as u8] + neg_mantissa(sig)
    } else {
        seq![SIGN_POS, (sci + EXP_BIAS) as u8] + pos_mantissa(sig)
    }
}

/// The bytes of a decimal.
pub open spec fn decimal_bytes(d: Decimal) -> Seq<u8> {
    number_bytes(d.neg, significant(d), sci_exp(d))
}

/// Whether a decimal is among the numbers of DynamoDB.
pub open spec fn in_range(d: Decimal) -> bool {
    significant(d).len() == 0 || (significant(d).len() <= MANTISSA_DIGITS && -130 <= sci_exp(d)
        <= 125)
}

/// What encoding a numeral gives.
pub open spec fn number_encoding(s: Seq<char>) -> Result<Seq<u8>, ErrView> {
    match parse_number(s) {
        Err(e) => Err(e),
        Ok(d) => {
            if in_range(d) {
                Ok(decimal_bytes(d))
            } else if significant(d).len() > MANTISSA_DIGITS {
                Err(
                    ErrView::Validation(
                        "N has more than 38 significant digits: "@ + trimmed(s),
                    ),
                )
            } else {
                Err(
                    ErrView::Validation(
                        "N scientific exponent out of DDB range [-130, 125]: "@ + trimmed(s)
                            + " (sci_exp="@ + signed_decimal(sci_exp(d)) + ")"@,
                    ),
                )
            }
        },
    }
}

proof fn lemma_strip_leading(d: Seq<char>) -> (k: int)
    ensures
        0 <= k <= d.len(),
        strip_leading(d) == d.skip(k),
        forall|j: int| 0 <= j < k ==> d[j] == '0',
        k < d.len() ==> d[k] != '0',
    decreases d.len(),
{
    if d.len() > 0 && d[0] == '0' {
        let k = lemma_strip_leading(d.skip(1));
        assert(d.skip(1).skip(k) =~= d.skip(k + 1));
        assert forall|j: int| 0 <= j < k + 1 implies d[j] == '0' by {
            if j > 0 {
                assert(d.skip(1)[j - 1] == '0');
            }
        }
        k + 1
    } else {
        assert(d.skip(0) =~= d);
        0
    }
}

proof fn lemma_strip_leading_is(d: Seq<char>, k: int)
    requires
        0 <= k <= d.len(),
        forall|j: int| 0 <= j < k ==> d[j] == '0',
        k < d.len() ==> d[k] != '0',
    ensures
        strip_leading(d) == d.skip(k),
{
    let m = lemma_strip_leading(d);
    if m < k {
        assert(d[m] == '0');
    } else if k < m {
        assert(d[k] == '0');
    }
}

proof fn lemma_strip_trailing(d: Seq<char>) -> (k: int)
    ensures
        0 <= k <= d.len(),
        strip_trailing(d) == d.take(k),
        forall|j: int| k <= j < d.len() ==> d[j] == '0',
        k > 0 ==> d[k - 1] != '0',
    decreases d.len(),
{
    if d.len() > 0 && d.last() == '0' {
        let k = lemma_strip_trailing(d.drop_last());
        assert(d.drop_last().take(k) =~= d.take(k));
        assert forall|j: int| k <= j < d.len() implies d[j] == '0' by {
            if j < d.len() - 1 {
                assert(d.drop_last()[j] == '0');
            }
        }
        k
    } else {
        assert(d.take(d.len() as int) =~= d);
        d.len() as int
    }
}

proof fn lemma_strip_trailing_is(d: Seq<char>, k: int)
    requires
        0 <= k <= d.len(),
        forall|j: int| k <= j < d.len() ==> d[j] == '0',
        k > 0 ==> d[k - 1] != '0',
    ensures
        strip_trailing(d) == d.take(k),
{
    let m = lemma_strip_trailing(d);
    if m < k {
        assert(d[k - 1] == '0');
    } else if k < m {
        assert(d[m - 1] == '0');
    }
}

/// What holds of the significant digits of any decimal.
pub proof fn lemma_significant(d: Decimal)
    requires
        all_digits(d.digits),
    ensures
        all_digits(significant(d)),
        significant(d).len() > 0 ==> significant(d)[0] != '0' && significant(d).last() != '0',
        significant(d).len() <= strip_leading(d.digits).len() <= d.digits.len(),
        significant(d).len() == 0 <==> strip_leading(d.digits).len() == 0,
{
    let k = lemma_strip_leading(d.digits);
    let l = strip_leading(d.digits);
    let m = lemma_strip_trailing(l);
    let sig = significant(d);
    assert forall|i: int| 0 <= i < sig.len() implies is_digit(#[trigger] sig[i]) by {
        assert(sig[i] == d.digits[i + k]);
        assert(is_digit(d.digits[i + k]));
    }
    if l.len() > 0 && m == 0 {
        assert(l[0] == '0');
    }
}

/// Whether all of `c[from..to]` are digits.
fn digits_only(c: &[char], from: usize, to: usize) -> (r: bool)
    requires
        from <= to <= c.len(),
    ensures
        r == all_digits(c@.subrange(from as int, to as int)),
{
    let ghost d = c@.subrange(from as int, to as int);
    let mut i: usize = from;
    while i < to
        invariant
            from <= i <= to <= c.len(),
            d == c@.subrange(from as int, to as int),
            forall|j: int| 0 <= j < i - from ==> is_digit(#[trigger] d[j]),
        decreases to - i,
    {
        let ch: char = c[i];
        assert(ch == d[i - from]);
        if !('0' <= ch && ch <= '9') {
            return false;
        }
        i = i + 1;
    }
    true
}

/// Appends `c[from..to]` to `out`.
fn push_chars(out: &mut Vec<char>, c: &[char], from: usize, to: usize)
    requires
        from <= to <= c.len(),
    ensures
        final(out)@ == old(out)@ + c@.subrange(from as int, to as int),
{
    let ghost start = out@;
    let mut i: usize = from;
    while i < to
        invariant
            from <= i <= to <= c.len(),
            out@ == start + c@.subrange(from as int, i as int),
        decreases to - i,
    {
        out.push(c[i]);
        i = i + 1;
        assert(out@ =~= start + c@.subrange(from as int, i as int));
    }
    assert(out@ =~= start + c@.subrange(from as int, to as int));
}

/// The decimal that a numeral denotes, with its digits stored.
struct ParsedNumber {
    neg: bool,
    digits: Vec<char>,
    exp: i128,
}

impl ParsedNumber {
    spec fn view(&self) -> Decimal {
        Decimal { neg: self.neg, digits: self.digits@, exp: self.exp as int }
    }
}

/// Reads a numeral whose white space has been taken off already.
#[verifier::rlimit(40)]
fn parse_trimmed(t: &[char], Ghost(s): Ghost<Seq<char>>) -> (r: Result<ParsedNumber, StorageError>)
    requires
        t@ == trimmed(s),
    ensures
        match r {
            Ok(d) => parse_number(s) == Ok::<Decimal, ErrView>(d@) && all_digits(d@.digits)
                && -0x1_0000_0000_0000_0000_0000 < d.exp < 0x1_0000_0000,
            Err(e) => parse_number(s) == Err::<Decimal, ErrView>(e@),
        },
{
    assert(t@.subrange(0, t@.len() as int) =~= t@);
    if t.len() == 0 {
        return Err(invalid("empty N value"));
    }
    let neg: bool = t[0] == '-';
    let start: usize = if neg || t[0] == '+' {
        1
    } else {
        0
    };
    let ghost rest = after_sign(t@);
    assert(rest =~= t@.skip(start as int));
    if start == t.len() {
        return Err(invalid(cat2("bad N value: ", string_of(t, 0, t.len()).as_str()).as_str()));
    }
    let e1: usize = find_from(t, start, 'e');
    let e2: usize = find_from(t, start, 'E');
    let ei: usize = if e1 <= e2 {
        e1
    } else {
        e2
    };
    assert(ei - start == exp_index(rest));
    let mut exp: i64 = 0;
    if ei < t.len() {
        let exp_text = string_of(t, ei + 1, t.len());
        assert(exp_text@ =~= rest.skip(ei - start + 1));
        let cs = chars_of(exp_text.as_str());
        match parse_signed_range(cs.as_slice(), i32::MIN as i64, i32::MAX as i64) {
            Some(v) => {
                exp = v;
            },
            None => {
                return Err(invalid(cat2("bad N exponent: ", exp_text.as_str()).as_str()));
            },
        }
    }
    let mut m: Vec<char> = Vec::new();
    push_chars(&mut m, t, start, ei);
    assert(m@ =~= rest.take(ei - start));
    assert(m@.skip(0) =~= m@);
    let di: usize = find_from(m.as_slice(), 0, '.');
    let frac_from: usize = if di < m.len() {
        di + 1
    } else {
        di
    };
    assert(int_part(m@) =~= m@.subrange(0, di as int));
    assert(frac_part(m@) =~= m@.subrange(frac_from as int, m@.len() as int));
    if di == 0 && frac_from == m.len() {
        return Err(invalid(cat2("N has no digits: ", string_of(t, 0, t.len()).as_str()).as_str()));
    }
    if !digits_only(m.as_slice(), 0, di) || !digits_only(m.as_slice(), frac_from, m.len()) {
        return Err(invalid(cat2("bad N mantissa: ", string_of(t, 0, t.len()).as_str()).as_str()));
    }
    let mut digits: Vec<char> = Vec::new();
    push_chars(&mut digits, m.as_slice(), 0, di);
    push_chars(&mut digits, m.as_slice(), frac_from, m.len());
    assert(digits@ =~= int_part(m@) + frac_part(m@));
    proof {
        assert forall|i: int| 0 <= i < digits@.len() implies is_digit(#[trigger] digits@[i]) by {
            if i < int_part(m@).len() {
                assert(is_digit(int_part(m@)[i]));
            } else {
                assert(is_digit(frac_part(m@)[i - int_part(m@).len()]));
            }
        }
    }
    let frac_len: usize = m.len() - frac_from;
    Ok(ParsedNumber { neg, digits, exp: exp as i128 - frac_len as i128 })
}

/// Encodes a numeral.
pub fn encode(s: &str) -> (r: Result<Vec<u8>, StorageError>)
    ensures
        match r {
            Ok(b) => number_encoding(s@) == Ok::<Seq<u8>, ErrView>(b@),
            Err(e) => number_encoding(s@) == Err::<Seq<u8>, ErrView>(e@),
        },
{
    let t = trim_chars(s);
    assert(t@.subrange(0, t@.len() as int) =~= t@);
    let d = match parse_trimmed(t.as_slice(), Ghost(s@)) {
        Ok(d) => d,
        Err(e) => {
            return Err(e);
        },
    };
    let ghost dec = d@;
    let mut from: usize = 0;
    while from < d.digits.len() && d.digits[from] == '0'
        invariant
            from <= d.digits.len(),
            forall|j: int| 0 <= j < from ==> d.digits@[j] == '0',
        decreases d.digits.len() - from,
    {
        from = from + 1;
    }
    let mut to: usize = d.digits.len();
    while to > from && d.digits[to - 1] == '0'
        invariant
            from <= to <= d.digits.len(),
            forall|j: int| to <= j < d.digits.len() ==> d.digits@[j] == '0',
        decreases to,
    {
        to = to - 1;
    }
    let ghost sig = significant(dec);
    proof {
        lemma_strip_leading_is(dec.digits, from as int);
        let l = strip_leading(dec.digits);
        lemma_strip_trailing_is(l, to - from);
        assert(l.take(to - from) =~= d.digits@.subrange(from as int, to as int));
        lemma_significant(dec);
    }
    if from == d.digits.len() {
        let mut out: Vec<u8> = Vec::new();
        out.push(SIGN_ZERO);
        assert(out@ =~= seq![SIGN_ZERO]);
        return Ok(out);
    }
    if to - from > MANTISSA_DIGITS {
        return Err(
            invalid(
                cat2(
                    "N has more than 38 significant digits: ",
                    string_of(t.as_slice(), 0, t.len()).as_str(),
                ).as_str(),
            ),
        );
    }
    let sci: i128 = d.exp + (d.digits.len() - from) as i128 - 1;
    if sci < -(EXP_BIAS as i128) || sci > 125 {
        return Err(
            invalid(
                cat5(
                    "N scientific exponent out of DDB range [-130, 125]: ",
                    string_of(t.as_slice(), 0, t.len()).as_str(),
                    " (sci_exp=",
                    i128_text(sci).as_str(),
                    ")",
                ).as_str(),
            ),
        );
    }
    let biased: u8 = (sci + EXP_BIAS as i128) as u8;
    let mut out: Vec<u8> = Vec::with_capacity(2 + MANTISSA_DIGITS);
    if d.neg {
        out.push(SIGN_NEG);
        out.push(0xFF - biased);
    } else {
        out.push(SIGN_POS);
        out.push(biased);
    }
    let ghost full = decimal_bytes(dec);
    let mut i: usize = 0;
    while i < MANTISSA_DIGITS
        invariant
            i <= MANTISSA_DIGITS,
            from < to <= d.digits.len(),
            sig == d.digits@.subrange(from as int, to as int),
            all_digits(sig),
            full.len() == 2 + MANTISSA_DIGITS,
            full.skip(2) == if d.neg {
                neg_mantissa(sig)
            } else {
                pos_mantissa(sig)
            },
            out@ == full.take(2 + i),
        decreases MANTISSA_DIGITS - i,
    {
        assert(full[2 + i] == full.skip(2)[i as int]);
        if i < to - from {
            let ch: char = d.digits[from + i];
            assert(ch == sig[i as int]);
            assert(is_digit(sig[i as int]));
            let x: u8 = (ch as u32 - '0' as u32) as u8;
            out.push(
                if d.neg {
                    9 - x
                } else {
                    x
                },
            );
        } else {
            out.push(
                if d.neg {
                    0xFF
                } else {
                    0x00
                },
            );
        }
        i = i + 1;
        assert(out@ =~= full.take(2 + i));
    }
    assert(full.take(2 + i) =~= full);
    Ok(out)
}


// ---------------------------------------------------------------------------
// Order
// ---------------------------------------------------------------------------

pub open spec fn pow10(n: nat) -> int
    decreases n,
{
    if n == 0 {
        1
    } else {
        10 * pow10((n - 1) as nat)
    }
}

/// The value of a decimal in units of ten to the power of `unit`, which is not
/// above its exponent.
pub open spec fn scaled(d: Decimal, unit: int) -> int {
    let v = dec_value(d.digits) * pow10((d.exp - unit) as nat);
    if d.neg {
        -v
    } else {
        v
    }
}

/// The smaller of the exponents of two decimals: both are whole multiples of
/// ten to that power.
pub open spec fn common_unit(a: Decimal, b: Decimal) -> int {
    if a.exp <= b.exp {
        a.exp
    } else {
        b.exp
    }
}

/// `a` is the smaller number.
pub open spec fn number_lt(a: Decimal, b: Decimal) -> bool {
    scaled(a, common_unit(a, b)) < scaled(b, common_unit(a, b))
}

/// `a` and `b` are the same number.
pub open spec fn number_eq(a: Decimal, b: Decimal) -> bool {
    scaled(a, common_unit(a, b)) == scaled(b, common_unit(a, b))
}

proof fn lemma_pow10_pos(n: nat)
    ensures
        pow10(n) >= 1,
    decreases n,
{
    if n > 0 {
        lemma_pow10_pos((n - 1) as nat);
    }
}

proof fn lemma_pow10_sum(m: nat, n: nat)
    ensures
        pow10(m + n) == pow10(m) * pow10(n),
    decreases m,
{
    if m > 0 {
        lemma_pow10_sum((m - 1) as nat, n);
        let p = pow10((m - 1) as nat);
        let q = pow10(n);
        assert((10 * p) * q == 10 * (p * q)) by (nonlinear_arith);
        assert((m - 1) as nat + n == (m + n - 1) as nat);
    }
}

/// The value in a smaller unit is a multiple of that in a larger one.
proof fn lemma_rescale(d: Decimal, unit: int, k: nat)
    requires
        unit <= d.exp,
    ensures
        scaled(d, unit - k) == scaled(d, unit) * pow10(k),
{
    lemma_pow10_sum((d.exp - unit) as nat, k);
    assert((d.exp - unit) as nat + k == (d.exp - (unit - k)) as nat);
    let v = dec_value(d.digits);
    let p = pow10((d.exp - unit) as nat);
    let q = pow10(k);
    assert(v * (p * q) == (v * p) * q) by (nonlinear_arith);
    assert(-(v * p) * q == -((v * p) * q)) by (nonlinear_arith);
}

/// Comparing two decimals does not depend on the unit.
proof fn lemma_unit_free(a: Decimal, b: Decimal, unit: int)
    requires
        unit <= a.exp,
        unit <= b.exp,
    ensures
        number_lt(a, b) <==> scaled(a, unit) < scaled(b, unit),
        number_eq(a, b) <==> scaled(a, unit) == scaled(b, unit),
{
    let c = common_unit(a, b);
    let k = (c - unit) as nat;
    lemma_rescale(a, c, k);
    lemma_rescale(b, c, k);
    lemma_pow10_pos(k);
    let x = scaled(a, c);
    let y = scaled(b, c);
    let p = pow10(k);
    assert(x < y <==> x * p < y * p) by (nonlinear_arith)
        requires
            p >= 1,
    ;
    assert(x == y <==> x * p == y * p) by (nonlinear_arith)
        requires
            p >= 1,
    ;
}

proof fn lemma_dec_value_append(a: Seq<char>, b: Seq<char>)
    ensures
        dec_value(a + b) == dec_value(a) * pow10(b.len()) + dec_value(b),
    decreases b.len(),
{
    if b.len() == 0 {
        assert(a + b =~= a);
    } else {
        let c = b.drop_last();
        lemma_dec_value_append(a, c);
        assert((a + b).drop_last() =~= a + c);
        let x = dec_value(a);
        let p = pow10(c.len());
        assert(10 * (x * p) == x * (10 * p)) by (nonlinear_arith);
        assert(b.len() == c.len() + 1);
    }
}

proof fn lemma_dec_value_zeros(z: Seq<char>)
    requires
        forall|j: int| 0 <= j < z.len() ==> z[j] == '0',
    ensures
        dec_value(z) == 0,
    decreases z.len(),
{
    if z.len() > 0 {
        lemma_dec_value_zeros(z.drop_last());
    }
}

proof fn lemma_dec_value_bounds(d: Seq<char>)
    requires
        all_digits(d),
    ensures
        0 <= dec_value(d) < pow10(d.len()),
        d.len() > 0 && d[0] != '0' ==> dec_value(d) >= pow10((d.len() - 1) as nat),
    decreases d.len(),
{
    if d.len() > 0 {
        let c = d.drop_last();
        assert forall|i: int| 0 <= i < c.len() implies is_digit(#[trigger] c[i]) by {
            assert(is_digit(d[i]));
        }
        assert(is_digit(d.last()));
        lemma_dec_value_bounds(c);
        if c.len() == 0 {
            assert(dec_value(c) == 0);
            assert(pow10(0) == 1);
            assert(pow10(1) == 10 * pow10(0));
        } else if d[0] != '0' {
            assert(c[0] == d[0]);
            assert(pow10(c.len()) == 10 * pow10((c.len() - 1) as nat));
        }
    }
}

/// The digits of a mantissa, padded to full length.
spec fn padded(sig: Seq<char>) -> Seq<char> {
    sig + Seq::new((MANTISSA_DIGITS - sig.len()) as nat, |i: int| '0')
}

/// The magnitude of a decimal other than zero, in a small enough unit, is its
/// padded mantissa shifted to its place.
proof fn lemma_scaled_mantissa(d: Decimal, unit: int)
    requires
        all_digits(d.digits),
        significant(d).len() > 0,
        significant(d).len() <= MANTISSA_DIGITS,
        unit <= d.exp,
        unit <= sci_exp(d) - 37,
    ensures
        scaled(d, unit) == if d.neg {
            -(dec_value(padded(significant(d))) * pow10((sci_exp(d) - 37 - unit) as nat))
        } else {
            dec_value(padded(significant(d))) * pow10((sci_exp(d) - 37 - unit) as nat)
        },
{
    let sig = significant(d);
    let k = lemma_strip_leading(d.digits);
    let l = strip_leading(d.digits);
    let m = lemma_strip_trailing(l);
    assert(d.digits =~= d.digits.take(k) + l);
    lemma_dec_value_append(d.digits.take(k), l);
    lemma_dec_value_zeros(d.digits.take(k));
    assert(l =~= sig + l.skip(m));
    lemma_dec_value_append(sig, l.skip(m));
    lemma_dec_value_zeros(l.skip(m));
    let v = dec_value(sig);
    let tz = (l.len() - m) as nat;
    assert(0 * pow10(l.len()) == 0) by (nonlinear_arith);
    assert(dec_value(d.digits) == v * pow10(tz));
    let pad = (38 - sig.len()) as nat;
    let z = Seq::new(pad, |i: int| '0');
    lemma_dec_value_append(sig, z);
    lemma_dec_value_zeros(z);
    assert(dec_value(padded(sig)) == v * pow10(pad));
    let p = (d.exp - unit) as nat;
    let q = (sci_exp(d) - 37 - unit) as nat;
    assert(tz + p == pad + q);
    lemma_pow10_sum(tz, p);
    lemma_pow10_sum(pad, q);
    let (t, u, w, y) = (pow10(tz), pow10(p), pow10(pad), pow10(q));
    assert((v * t) * u == v * (t * u)) by (nonlinear_arith);
    assert((v * w) * y == v * (w * y)) by (nonlinear_arith);
}

/// The sign and size of a decimal's value, in a small enough unit.
proof fn lemma_scaled_size(d: Decimal, unit: int)
    requires
        all_digits(d.digits),
        in_range(d),
        unit <= d.exp,
        unit <= -167,
    ensures
        significant(d).len() == 0 ==> scaled(d, unit) == 0,
        significant(d).len() > 0 ==> ({
            let v = scaled(d, unit);
            let size = if d.neg {
                -v
            } else {
                v
            };
            pow10((sci_exp(d) - unit) as nat) <= size < pow10((sci_exp(d) + 1 - unit) as nat)
        }),
{
    let sig = significant(d);
    lemma_significant(d);
    if sig.len() == 0 {
        let k = lemma_strip_leading(d.digits);
        assert(k == d.digits.len());
        lemma_dec_value_zeros(d.digits);
        assert(0 * pow10((d.exp - unit) as nat) == 0) by (nonlinear_arith);
    } else {
        lemma_scaled_mantissa(d, unit);
        let m = padded(sig);
        lemma_padded(sig);
        lemma_dec_value_bounds(m);
        let q = (sci_exp(d) - 37 - unit) as nat;
        lemma_pow10_sum(37, q);
        lemma_pow10_sum(38, q);
        lemma_pow10_pos(q);
        let v = dec_value(m);
        let (a, b, y) = (pow10(37), pow10(38), pow10(q));
        assert(a * y <= v * y && v * y < b * y) by (nonlinear_arith)
            requires
                a <= v < b,
                y >= 1,
        ;
        assert(37 + q == (sci_exp(d) - unit) as nat);
        assert(38 + q == (sci_exp(d) + 1 - unit) as nat);
    }
}

proof fn lemma_padded(sig: Seq<char>)
    requires
        all_digits(sig),
        0 < sig.len() <= MANTISSA_DIGITS,
    ensures
        padded(sig).len() == MANTISSA_DIGITS,
        all_digits(padded(sig)),
        padded(sig)[0] == sig[0],
        forall|i: int| 0 <= i < sig.len() ==> padded(sig)[i] == sig[i],
        forall|i: int| sig.len() <= i < MANTISSA_DIGITS ==> padded(sig)[i] == '0',
        forall|i: int|
            0 <= i < MANTISSA_DIGITS ==> pos_mantissa(sig)[i] == digit_value(padded(sig)[i]),
{
    let p = padded(sig);
    assert forall|i: int| 0 <= i < p.len() implies is_digit(#[trigger] p[i]) by {
        if i < sig.len() {
            assert(is_digit(sig[i]));
        }
    }
    assert forall|i: int| 0 <= i < MANTISSA_DIGITS implies pos_mantissa(sig)[i] == digit_value(
        p[i],
    ) by {
        assert(is_digit(p[i]));
    }
}

/// Strings of digits of one length: the first digit that differs decides.
proof fn lemma_digits_order(a: Seq<char>, b: Seq<char>, i: int)
    requires
        a.len() == b.len(),
        all_digits(a),
        all_digits(b),
        0 <= i < a.len(),
        forall|j: int| 0 <= j < i ==> a[j] == b[j],
        digit_value(a[i]) < digit_value(b[i]),
    ensures
        dec_value(a) < dec_value(b),
{
    let n = (a.len() - i - 1) as nat;
    let h = a.take(i);
    assert(h =~= b.take(i));
    let ta = a.skip(i);
    let tb = b.skip(i);
    assert(a =~= h + ta);
    assert(b =~= h + tb);
    lemma_dec_value_append(h, ta);
    lemma_dec_value_append(h, tb);
    let ra = a.skip(i + 1);
    let rb = b.skip(i + 1);
    assert(ta =~= seq![a[i]] + ra);
    assert(tb =~= seq![b[i]] + rb);
    lemma_dec_value_append(seq![a[i]], ra);
    lemma_dec_value_append(seq![b[i]], rb);
    lemma_dec_value_one(a[i]);
    lemma_dec_value_one(b[i]);
    assert forall|j: int| 0 <= j < ra.len() implies is_digit(#[trigger] ra[j]) by {
        assert(is_digit(a[j + i + 1]));
    }
    assert forall|j: int| 0 <= j < rb.len() implies is_digit(#[trigger] rb[j]) by {
        assert(is_digit(b[j + i + 1]));
    }
    lemma_dec_value_bounds(ra);
    lemma_dec_value_bounds(rb);
    let (x, y, p) = (digit_value(a[i]), digit_value(b[i]), pow10(n));
    assert(x * p + p <= y * p) by (nonlinear_arith)
        requires
            x < y,
            p >= 0,
    ;
}

proof fn lemma_dec_value_one(c: char)
    ensures
        dec_value(seq![c]) == digit_value(c),
{
    assert(seq![c].drop_last() =~= Seq::<char>::empty());
    assert(dec_value(Seq::<char>::empty()) == 0);
}

/// Mantissas of positive numbers sort as they count.
proof fn lemma_pos_mantissa_order(a: Seq<char>, b: Seq<char>)
    requires
        all_digits(a),
        all_digits(b),
        0 < a.len() <= MANTISSA_DIGITS,
        0 < b.len() <= MANTISSA_DIGITS,
    ensures
        lex_lt(pos_mantissa(a), pos_mantissa(b)) <==> dec_value(padded(a)) < dec_value(padded(b)),
{
    let (ma, mb) = (pos_mantissa(a), pos_mantissa(b));
    let (pa, pb) = (padded(a), padded(b));
    lemma_padded(a);
    lemma_padded(b);
    lex_total(ma, mb);
    lex_asymmetric(ma, mb);
    if lex_lt(ma, mb) {
        lemma_mantissa_decides(a, b);
    } else if lex_lt(mb, ma) {
        lemma_mantissa_decides(b, a);
    } else {
        assert forall|j: int| 0 <= j < MANTISSA_DIGITS implies pa[j] == pb[j] by {
            assert(ma[j] == mb[j]);
        }
        assert(pa =~= pb);
    }
}

proof fn lemma_mantissa_decides(a: Seq<char>, b: Seq<char>)
    requires
        all_digits(a),
        all_digits(b),
        0 < a.len() <= MANTISSA_DIGITS,
        0 < b.len() <= MANTISSA_DIGITS,
        lex_lt(pos_mantissa(a), pos_mantissa(b)),
    ensures
        dec_value(padded(a)) < dec_value(padded(b)),
{
    let (ma, mb) = (pos_mantissa(a), pos_mantissa(b));
    let (pa, pb) = (padded(a), padded(b));
    lemma_padded(a);
    lemma_padded(b);
    let i = lex_witness(ma, mb);
    assert(ma.len() == 38 && mb.len() == 38);
    assert forall|j: int| 0 <= j < i implies pa[j] == pb[j] by {
        assert(ma[j] == mb[j]);
    }
    lemma_digits_order(pa, pb, i);
}

/// Mantissas of negative numbers sort against the order of their digits.
proof fn lemma_neg_mantissa_order(a: Seq<char>, b: Seq<char>)
    requires
        all_digits(a),
        all_digits(b),
        0 < a.len() <= MANTISSA_DIGITS,
        0 < b.len() <= MANTISSA_DIGITS,
        a.last() != '0',
        b.last() != '0',
    ensures
        lex_lt(neg_mantissa(a), neg_mantissa(b)) <==> lex_lt(pos_mantissa(b), pos_mantissa(a)),
        neg_mantissa(a) == neg_mantissa(b) ==> a == b,
        pos_mantissa(a) == pos_mantissa(b) ==> a == b,
{
    let (pa, pb) = (pos_mantissa(a), pos_mantissa(b));
    let (na, nb) = (neg_mantissa(a), neg_mantissa(b));
    if lex_lt(pb, pa) {
        lemma_neg_mantissa_reverse(a, b);
    } else if lex_lt(pa, pb) {
        lemma_neg_mantissa_reverse(b, a);
        lex_asymmetric(nb, na);
    } else {
        lex_total(pa, pb);
        lemma_pos_mantissa_injective(a, b);
        lex_asymmetric(na, na);
    }
    if pa == pb {
        lemma_pos_mantissa_injective(a, b);
    }
    if na == nb {
        lex_total(pa, pb);
        lex_asymmetric(na, nb);
        if pa == pb {
            lemma_pos_mantissa_injective(a, b);
        }
    }
}

proof fn lemma_pos_mantissa_injective(a: Seq<char>, b: Seq<char>)
    requires
        all_digits(a),
        all_digits(b),
        0 < a.len() <= MANTISSA_DIGITS,
        0 < b.len() <= MANTISSA_DIGITS,
        a.last() != '0',
        b.last() != '0',
        pos_mantissa(a) == pos_mantissa(b),
    ensures
        a == b,
{
    let (pa, pb) = (pos_mantissa(a), pos_mantissa(b));
    if a.len() < b.len() {
        let k = b.len() - 1;
        assert(is_digit(b[k]));
        assert(pa[k] == pb[k]);
        assert(false);
    }
    if b.len() < a.len() {
        let k = a.len() - 1;
        assert(is_digit(a[k]));
        assert(pa[k] == pb[k]);
        assert(false);
    }
    assert forall|j: int| 0 <= j < a.len() implies a[j] == b[j] by {
        assert(is_digit(a[j]));
        assert(is_digit(b[j]));
        assert(pa[j] == pb[j]);
    }
    assert(a =~= b);
}

proof fn lemma_neg_mantissa_reverse(a: Seq<char>, b: Seq<char>)
    requires
        all_digits(a),
        all_digits(b),
        0 < a.len() <= MANTISSA_DIGITS,
        0 < b.len() <= MANTISSA_DIGITS,
        lex_lt(pos_mantissa(b), pos_mantissa(a)),
    ensures
        lex_lt(neg_mantissa(a), neg_mantissa(b)),
{
    let (pa, pb) = (pos_mantissa(a), pos_mantissa(b));
    let (na, nb) = (neg_mantissa(a), neg_mantissa(b));
    let i = lex_witness(pb, pa);
    assert(i < a.len());
    let k = if b.len() <= i {
        b.len() as int
    } else {
        i
    };
    assert(is_digit(a[k]));
    if k < b.len() {
        assert(is_digit(b[k]));
    }
    assert forall|j: int| 0 <= j < k implies na[j] == nb[j] by {
        assert(pa[j] == pb[j]);
        assert(is_digit(a[j]));
        assert(is_digit(b[j]));
    }
    assert(lex_lt_at(na, nb, k));
}

/// Where the first two bytes of two encodings decide, and else the mantissas.
proof fn lemma_header_order(x0: u8, x1: u8, mx: Seq<u8>, y0: u8, y1: u8, my: Seq<u8>)
    ensures
        lex_lt(seq![x0, x1] + mx, seq![y0, y1] + my) <==> (x0 < y0 || (x0 == y0 && x1 < y1) || (x0
            == y0 && x1 == y1 && lex_lt(mx, my))),
{
    let a = seq![x0, x1] + mx;
    let b = seq![y0, y1] + my;
    if x0 < y0 {
        assert(lex_lt_at(a, b, 0));
    } else if y0 < x0 {
        assert(lex_lt_at(b, a, 0));
        lex_asymmetric(b, a);
    } else if x1 < y1 {
        assert(lex_lt_at(a, b, 1));
    } else if y1 < x1 {
        assert(lex_lt_at(b, a, 1));
        lex_asymmetric(b, a);
    } else {
        crate::bytes::lex_common_prefix(seq![x0, x1], mx, my);
    }
}

proof fn lemma_pow10_monotone(m: nat, n: nat)
    requires
        m <= n,
    ensures
        pow10(m) <= pow10(n),
    decreases n - m,
{
    if m < n {
        lemma_pow10_monotone(m, (n - 1) as nat);
        lemma_pow10_pos((n - 1) as nat);
    }
}

/// Two numbers of one sign: the exponent decides, and else the mantissa.
proof fn lemma_same_sign(a: Decimal, b: Decimal, unit: int)
    requires
        all_digits(a.digits),
        all_digits(b.digits),
        in_range(a),
        in_range(b),
        significant(a).len() > 0,
        significant(b).len() > 0,
        a.neg == b.neg,
        unit <= a.exp,
        unit <= b.exp,
        unit <= -167,
    ensures
        lex_lt(decimal_bytes(a), decimal_bytes(b)) <==> scaled(a, unit) < scaled(b, unit),
        decimal_bytes(a) == decimal_bytes(b) <==> scaled(a, unit) == scaled(b, unit),
{
    lemma_significant(a);
    lemma_significant(b);
    let (sa, sb) = (significant(a), significant(b));
    let (ea, eb) = (sci_exp(a), sci_exp(b));
    lemma_scaled_size(a, unit);
    lemma_scaled_size(b, unit);
    lemma_scaled_mantissa(a, unit);
    lemma_scaled_mantissa(b, unit);
    let (xa, xb) = if a.neg {
        ((0xFF - (ea + 130)) as u8, (0xFF - (eb + 130)) as u8)
    } else {
        ((ea + 130) as u8, (eb + 130) as u8)
    };
    let (ma, mb) = if a.neg {
        (neg_mantissa(sa), neg_mantissa(sb))
    } else {
        (pos_mantissa(sa), pos_mantissa(sb))
    };
    let first = if a.neg {
        SIGN_NEG
    } else {
        SIGN_POS
    };
    lemma_header_order(first, xa, ma, first, xb, mb);
    let (ba, bb) = (decimal_bytes(a), decimal_bytes(b));
    assert(ba == seq![first, xa] + ma);
    assert(bb == seq![first, xb] + mb);
    assert(ba[1] == xa && bb[1] == xb);
    if ea < eb {
        lemma_pow10_monotone((ea + 1 - unit) as nat, (eb - unit) as nat);
        assert(xa != xb);
    } else if eb < ea {
        lemma_pow10_monotone((eb + 1 - unit) as nat, (ea - unit) as nat);
        assert(xa != xb);
    } else {
        lemma_pos_mantissa_order(sa, sb);
        lemma_pos_mantissa_order(sb, sa);
        lemma_neg_mantissa_order(sa, sb);
        lex_total(pos_mantissa(sa), pos_mantissa(sb));
        let q = (ea - 37 - unit) as nat;
        lemma_pow10_pos(q);
        let (va, vb, y) = (dec_value(padded(sa)), dec_value(padded(sb)), pow10(q));
        assert(va < vb <==> va * y < vb * y) by (nonlinear_arith)
            requires
                y >= 1,
        ;
        assert(vb < va <==> vb * y < va * y) by (nonlinear_arith)
            requires
                y >= 1,
        ;
        if ba == bb {
            assert(ba.skip(2) =~= ma);
            assert(bb.skip(2) =~= mb);
            assert(sa == sb);
        }
        if va == vb {
            lex_asymmetric(pos_mantissa(sa), pos_mantissa(sb));
            assert(pos_mantissa(sa) == pos_mantissa(sb));
            assert(sa == sb);
        }
    }
}

/// Encodings sort as the numbers that they stand for, and two numerals have
/// the same encoding exactly if they denote the same number.
pub proof fn encoding_preserves_order(s: Seq<char>, t: Seq<char>)
    requires
        number_encoding(s) is Ok,
        number_encoding(t) is Ok,
    ensures
        lex_lt(number_encoding(s)->Ok_0, number_encoding(t)->Ok_0) <==> number_lt(
            parse_number(s)->Ok_0,
            parse_number(t)->Ok_0,
        ),
        number_encoding(s)->Ok_0 == number_encoding(t)->Ok_0 <==> number_eq(
            parse_number(s)->Ok_0,
            parse_number(t)->Ok_0,
        ),
{
    let a = parse_number(s)->Ok_0;
    let b = parse_number(t)->Ok_0;
    lemma_parsed_digits(s);
    lemma_parsed_digits(t);
    let c = common_unit(a, b);
    let unit = if c <= -167 {
        c
    } else {
        -167
    };
    lemma_unit_free(a, b, unit);
    lemma_scaled_size(a, unit);
    lemma_scaled_size(b, unit);
    let (ba, bb) = (decimal_bytes(a), decimal_bytes(b));
    let (sa, sb) = (significant(a), significant(b));
    lemma_pow10_pos((sci_exp(a) - unit) as nat);
    lemma_pow10_pos((sci_exp(b) - unit) as nat);
    if sa.len() == 0 && sb.len() == 0 {
        lex_asymmetric(ba, bb);
    } else if sa.len() > 0 && sb.len() > 0 && a.neg == b.neg {
        lemma_same_sign(a, b, unit);
    } else {
        assert(ba[0] != bb[0]);
        if ba[0] < bb[0] {
            assert(lex_lt_at(ba, bb, 0));
        } else {
            assert(lex_lt_at(bb, ba, 0));
            lex_asymmetric(bb, ba);
        }
    }
}

proof fn lemma_parsed_digits(s: Seq<char>)
    requires
        parse_number(s) is Ok,
    ensures
        all_digits(parse_number(s)->Ok_0.digits),
{
    let rest = after_sign(trimmed(s));
    let m = rest.take(exp_index(rest));
    let d = parse_number(s)->Ok_0.digits;
    assert forall|i: int| 0 <= i < d.len() implies is_digit(#[trigger] d[i]) by {
        if i < int_part(m).len() {
            assert(is_digit(int_part(m)[i]));
        } else {
            assert(is_digit(frac_part(m)[i - int_part(m).len()]));
        }
    }
}


// ---------------------------------------------------------------------------
// Decoding
// ---------------------------------------------------------------------------

/// The characters, as bytes, of the digits in a mantissa. A byte of a positive
/// mantissa is added to that of `0` modulo 256; one of a negative mantissa that
/// is no digit counts as padding.
pub open spec fn mantissa_digits(neg: bool, m: Seq<u8>) -> Seq<u8> {
    Seq::new(
        m.len(),
        |i: int|
            if !neg {
                ((m[i] + 48) % 256) as u8
            } else if m[i] <= 9 {
                (9 - m[i] + 48) as u8
            } else {
                48u8
            },
    )
}

/// Bytes without the character `0` at their end.
pub open spec fn strip_zero_bytes(d: Seq<u8>) -> Seq<u8>
    decreases d.len(),
{
    if d.len() > 0 && d.last() == 48u8 {
        strip_zero_bytes(d.drop_last())
    } else {
        d
    }
}

/// The numeral with the given sign, digits and exponent of its last digit.
pub open spec fn numeral(neg: bool, digits: Seq<char>, exp: int) -> Seq<char> {
    (if neg {
        seq!['-']
    } else {
        Seq::empty()
    }) + digits + (if exp == 0 {
        Seq::empty()
    } else {
        seq!['e'] + signed_decimal(exp)
    })
}

/// What decoding gives.
pub open spec fn number_decoding(b: Seq<u8>) -> Result<Seq<char>, ErrView> {
    if b.len() == 0 {
        Err(ErrView::Internal("empty number bytes"@))
    } else if b[0] == SIGN_ZERO {
        Ok("0"@)
    } else if b.len() != 2 + MANTISSA_DIGITS {
        Err(ErrView::Internal("invalid encoded number length: "@ + decimal(b.len())))
    } else if b[0] != SIGN_POS && b[0] != SIGN_NEG {
        Err(ErrView::Internal("invalid sign byte: "@ + decimal(b[0] as nat)))
    } else {
        let neg = b[0] == SIGN_NEG;
        let sig = strip_zero_bytes(mantissa_digits(neg, b.skip(2)));
        let exp = if neg {
            0xFF - b[1] - EXP_BIAS
        } else {
            b[1] - EXP_BIAS
        };
        if sig.len() == 0 {
            Ok("0"@)
        } else {
            match utf8_decoded(sig) {
                Err(e) => Err(ErrView::Internal("invalid UTF-8 in numeric digits: "@ + e)),
                Ok(t) => Ok(numeral(neg, t, exp - sig.len() + 1)),
            }
        }
    }
}

proof fn lemma_strip_zero_bytes_is(d: Seq<u8>, k: int)
    requires
        0 <= k <= d.len(),
        forall|j: int| k <= j < d.len() ==> d[j] == 48u8,
        k > 0 ==> d[k - 1] != 48u8,
    ensures
        strip_zero_bytes(d) == d.take(k),
    decreases d.len(),
{
    if k < d.len() {
        lemma_strip_zero_bytes_is(d.drop_last(), k);
        assert(d.drop_last().take(k) =~= d.take(k));
    } else {
        assert(d.take(k) =~= d);
    }
}

/// Decodes the bytes of a number.
pub fn decode(bytes: &[u8]) -> (r: Result<String, StorageError>)
    ensures
        match r {
            Ok(t) => number_decoding(bytes@) == Ok::<Seq<char>, ErrView>(t@),
            Err(e) => number_decoding(bytes@) == Err::<Seq<char>, ErrView>(e@),
        },
{
    if bytes.len() == 0 {
        return Err(internal("empty number bytes"));
    }
    let sign: u8 = bytes[0];
    if sign == SIGN_ZERO {
        return Ok(text("0"));
    }
    if bytes.len() != 2 + MANTISSA_DIGITS {
        return Err(
            internal(
                cat2("invalid encoded number length: ", usize_text(bytes.len()).as_str()).as_str(),
            ),
        );
    }
    if sign != SIGN_POS && sign != SIGN_NEG {
        return Err(
            internal(cat2("invalid sign byte: ", u64_text(sign as u64).as_str()).as_str()),
        );
    }
    let neg: bool = sign == SIGN_NEG;
    let exp: i32 = if neg {
        (0xFF - bytes[1]) as i32 - EXP_BIAS
    } else {
        bytes[1] as i32 - EXP_BIAS
    };
    let ghost all = mantissa_digits(neg, bytes@.skip(2));
    let mut digits: Vec<u8> = Vec::with_capacity(MANTISSA_DIGITS);
    let mut i: usize = 0;
    while i < MANTISSA_DIGITS
        invariant
            i <= MANTISSA_DIGITS,
            bytes.len() == 2 + MANTISSA_DIGITS,
            all == mantissa_digits(neg, bytes@.skip(2)),
            digits@ == all.take(i as int),
        decreases MANTISSA_DIGITS - i,
    {
        let b: u8 = bytes[2 + i];
        assert(b == bytes@.skip(2)[i as int]);
        let d: u8 = if !neg {
            ((b as u16 + 48) % 256) as u8
        } else if b <= 9 {
            9 - b + 48
        } else {
            48
        };
        digits.push(d);
        i = i + 1;
        assert(digits@ =~= all.take(i as int));
    }
    assert(digits@ =~= all);
    let mut len: usize = MANTISSA_DIGITS;
    while len > 0 && digits[len - 1] == 48
        invariant
            len <= MANTISSA_DIGITS,
            digits.len() == MANTISSA_DIGITS,
            forall|j: int| len <= j < MANTISSA_DIGITS ==> digits@[j] == 48u8,
        decreases len,
    {
        len = len - 1;
    }
    proof {
        lemma_strip_zero_bytes_is(all, len as int);
    }
    if len == 0 {
        return Ok(text("0"));
    }
    let sig = bytes_slice(digits.as_slice(), 0, len);
    assert(sig@ =~= all.take(len as int));
    match decode_text(sig.as_slice()) {
        Err(e) => Err(
            internal(cat2("invalid UTF-8 in numeric digits: ", e.as_str()).as_str()),
        ),
        Ok(t) => {
            let mut out = String::new();
            if neg {
                out.push('-');
            }
            out.append(t.as_str());
            let last_exp: i32 = exp - len as i32 + 1;
            if last_exp != 0 {
                out.push('e');
                out.append(i64_text(last_exp as i64).as_str());
            }
            assert(out@ =~= numeral(neg, t@, last_exp as int));
            Ok(out)
        },
    }
}

// ---------------------------------------------------------------------------
// Round trip
// ---------------------------------------------------------------------------

proof fn lemma_trimmed_id(s: Seq<char>)
    requires
        s.len() > 0,
        !is_white_space(s[0]),
        !is_white_space(s.last()),
    ensures
        trimmed(s) == s,
{
}

proof fn lemma_signed_decimal_shape(n: int)
    ensures
        signed_decimal(n).len() > 0,
        is_digit(signed_decimal(n).last()),
{
    let m = if n < 0 {
        (-n) as nat
    } else {
        n as nat
    };
    decimal_round_trip(m);
    let d = decimal(m);
    assert(is_digit(d[d.len() - 1]));
}

/// A numeral in canonical form denotes what it was made from.
proof fn lemma_parse_numeral(neg: bool, digits: Seq<char>, exp: int)
    requires
        all_digits(digits),
        digits.len() > 0,
        i32::MIN <= exp <= i32::MAX,
    ensures
        parse_number(numeral(neg, digits, exp)) == Ok::<Decimal, ErrView>(
            Decimal { neg, digits, exp },
        ),
{
    let s = numeral(neg, digits, exp);
    let tail = if exp == 0 {
        Seq::empty()
    } else {
        seq!['e'] + signed_decimal(exp)
    };
    let off: int = if neg {
        1
    } else {
        0
    };
    lemma_signed_decimal_shape(exp);
    assert(is_digit(digits[0]));
    assert(is_digit(digits[digits.len() - 1]));
    assert(s[off] == digits[0]);
    assert(is_digit(s.last())) by {
        if exp == 0 {
            assert(s.last() == digits[digits.len() - 1]);
        } else {
            assert(s.last() == signed_decimal(exp).last());
        }
    }
    lemma_trimmed_id(s);
    let rest = after_sign(s);
    assert(rest =~= digits + tail);
    let n = digits.len() as int;
    assert forall|j: int| 0 <= j < n implies rest[j] != 'e' && rest[j] != 'E' by {
        assert(is_digit(digits[j]));
    }
    if exp == 0 {
        lemma_first_index_is(rest, 'e', n);
        lemma_first_index_is(rest, 'E', n);
    } else {
        lemma_first_index_is(rest, 'e', n);
        lemma_first_index(rest, 'E');
        let k = first_index(rest, 'E');
        if k < n {
            assert(rest[k] != 'E');
        }
        assert(rest.skip(n + 1) =~= signed_decimal(exp));
        numeral_round_trip(exp, i32::MIN as int, i32::MAX as int);
    }
    let m = rest.take(n);
    assert(m =~= digits);
    assert forall|j: int| 0 <= j < n implies m[j] != '.' by {
        assert(is_digit(digits[j]));
    }
    lemma_first_index_is(m, '.', n);
    assert(int_part(m) =~= digits);
    assert(frac_part(m) =~= Seq::<char>::empty());
    assert(int_part(m) + frac_part(m) =~= digits);
}

/// Decoding an encoded number gives a numeral with the same encoding: the
/// number survives, whatever form it was written in.
pub proof fn number_round_trip(s: Seq<char>)
    requires
        number_encoding(s) is Ok,
    ensures
        ({
            let b = number_encoding(s)->Ok_0;
            &&& number_decoding(b) is Ok
            &&& number_encoding(number_decoding(b)->Ok_0) == Ok::<Seq<u8>, ErrView>(b)
        }),
{
    let d = parse_number(s)->Ok_0;
    let b = number_encoding(s)->Ok_0;
    lemma_parsed_digits(s);
    lemma_significant(d);
    let sig = significant(d);
    if sig.len() == 0 {
        reveal_strlit("0");
        assert("0"@ =~= seq!['0']);
        let z = Decimal { neg: false, digits: seq!['0'], exp: 0 };
        assert(all_digits(z.digits));
        lemma_parse_numeral(false, seq!['0'], 0);
        assert(numeral(false, seq!['0'], 0) =~= "0"@);
        lemma_strip_leading_is(z.digits, 1);
        assert(strip_leading(z.digits) =~= Seq::<char>::empty());
        assert(significant(z) =~= Seq::<char>::empty());
    } else {
        let sci = sci_exp(d);
        let neg = d.neg;
        let m = b.skip(2);
        assert(m =~= if neg {
            neg_mantissa(sig)
        } else {
            pos_mantissa(sig)
        });
        let all = mantissa_digits(neg, m);
        let n = sig.len() as int;
        assert forall|j: int| 0 <= j < n implies all[j] == sig[j] as u8 by {
            assert(is_digit(sig[j]));
        }
        assert(is_digit(sig[n - 1]));
        assert(all[n - 1] != 48u8);
        lemma_strip_zero_bytes_is(all, n);
        let sb = strip_zero_bytes(all);
        assert(vstd::utf8::is_ascii_chars(sig)) by {
            assert forall|i: int| 0 <= i < sig.len() implies '\0' <= #[trigger] sig[i] <= '\u{7f}' by {
                assert(is_digit(sig[i]));
            }
        }
        vstd::utf8::is_ascii_chars_encode_utf8(sig);
        assert(vstd::utf8::encode_utf8(sig) =~= sb);
        utf8_round_trip(sig);
        let exp = sci - n + 1;
        lemma_parse_numeral(neg, sig, exp);
        let c = Decimal { neg, digits: sig, exp };
        lemma_strip_leading_is(sig, 0);
        assert(sig.skip(0) =~= sig);
        lemma_strip_trailing_is(sig, n);
        assert(sig.take(n) =~= sig);
        assert(significant(c) == sig);
        assert(sci_exp(c) == sci);
    }
}

/// No encoding is the beginning of another.
pub proof fn encoding_prefix_free(s: Seq<char>, t: Seq<char>)
    requires
        number_encoding(s) is Ok,
        number_encoding(t) is Ok,
        number_encoding(s)->Ok_0.is_prefix_of(number_encoding(t)->Ok_0),
    ensures
        number_encoding(s)->Ok_0 == number_encoding(t)->Ok_0,
{
    let a = number_encoding(s)->Ok_0;
    let b = number_encoding(t)->Ok_0;
    assert(a.len() == 1 || a.len() == 40);
    assert(b.len() == 1 || b.len() == 40);
    assert(a[0] == b.subrange(0, a.len() as int)[0]);
    assert(a.len() == b.len());
    assert(b.subrange(0, a.len() as int) =~= b);
}

} // verus!
