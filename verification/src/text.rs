//! Text: building strings, decimal and hexadecimal numerals, and taking
//! strings apart. Strings are modelled by their sequence of characters.

use vstd::prelude::*;
use vstd::string::*;
use vstd::utf8::{decode_utf8, encode_utf8, valid_utf8};

use crate::bytes::{bytes_eq, bytes_lt, lex_lt};

verus! {

// ---------------------------------------------------------------------------
// Trusted: functions of std that carry no specification of their own
// ---------------------------------------------------------------------------

/// `String::push` appends one character.
pub assume_specification[ String::push ](s: &mut String, c: char)
    ensures
        final(s)@ == old(s)@.push(c),
;

/// The message that `std::string::FromUtf8Error` displays for these bytes.
pub uninterp spec fn utf8_error_text(bytes: Seq<u8>) -> Seq<char>;

/// Calls `String::from_utf8`: valid UTF-8 gives the string that it encodes, and
/// anything else an error, whose displayed message is handed back.
#[verifier::external_body]
pub(crate) fn string_from_utf8(bytes: Vec<u8>) -> (r: Result<String, String>)
    ensures
        match r {
            Ok(s) => valid_utf8(bytes@) && encode_utf8(s@) == bytes@,
            Err(e) => !valid_utf8(bytes@) && e@ == utf8_error_text(bytes@),
        },
{
    String::from_utf8(bytes).map_err(|e| e.to_string())
}

// ---------------------------------------------------------------------------
// UTF-8
// ---------------------------------------------------------------------------

/// What decoding UTF-8 gives: the text, or the message of the failure.
pub open spec fn utf8_decoded(bytes: Seq<u8>) -> Result<Seq<char>, Seq<char>> {
    if valid_utf8(bytes) {
        Ok(decode_utf8(bytes))
    } else {
        Err(utf8_error_text(bytes))
    }
}

/// Decodes UTF-8.
pub fn decode_text(bytes: &[u8]) -> (r: Result<String, String>)
    ensures
        match r {
            Ok(s) => utf8_decoded(bytes@) == Ok::<Seq<char>, Seq<char>>(s@),
            Err(e) => utf8_decoded(bytes@) == Err::<Seq<char>, Seq<char>>(e@),
        },
{
    let v: Vec<u8> = crate::bytes::bytes_copy(bytes);
    let r = string_from_utf8(v);
    proof {
        if let Ok(s) = &r {
            vstd::utf8::encode_utf8_decode_utf8(s@);
        }
    }
    r
}

/// Decoding gives back the text that was encoded, and only that text.
pub proof fn utf8_round_trip(s: Seq<char>)
    ensures
        utf8_decoded(encode_utf8(s)) == Ok::<Seq<char>, Seq<char>>(s),
{
    vstd::utf8::encode_utf8_decode_utf8(s);
    vstd::utf8::encode_utf8_valid_utf8(s);
}

/// Texts with the same UTF-8 bytes are the same.
pub proof fn utf8_injective(a: Seq<char>, b: Seq<char>)
    requires
        encode_utf8(a) == encode_utf8(b),
    ensures
        a == b,
{
    vstd::utf8::encode_utf8_decode_utf8(a);
    vstd::utf8::encode_utf8_decode_utf8(b);
}

// ---------------------------------------------------------------------------
// Building strings
// ---------------------------------------------------------------------------

/// The bytes of two strings, one behind the other.
pub proof fn lemma_encode_concat(a: Seq<char>, b: Seq<char>)
    ensures
        encode_utf8(a + b) == encode_utf8(a) + encode_utf8(b),
    decreases a.len(),
{
    if a.len() == 0 {
        assert(a + b =~= b);
        assert(encode_utf8(a) + encode_utf8(b) =~= encode_utf8(b));
    } else {
        assert((a + b).drop_first() =~= a.drop_first() + b);
        lemma_encode_concat(a.drop_first(), b);
        assert(encode_utf8(a + b) =~= encode_utf8(a) + encode_utf8(b));
    }
}

/// The bytes of a string.
pub fn text_bytes(s: &str) -> (r: Vec<u8>)
    ensures
        r@ == encode_utf8(s@),
{
    crate::bytes::bytes_copy(s.as_bytes())
}

/// A copy of a string.
pub fn text(s: &str) -> (r: String)
    ensures
        r@ == s@,
{
    s.to_owned()
}

/// `a` followed by `b`.
pub fn cat2(a: &str, b: &str) -> (r: String)
    ensures
        r@ == a@ + b@,
{
    let mut out = a.to_owned();
    out.append(b);
    out
}

/// `a`, `b` and `c` in a row.
pub fn cat3(a: &str, b: &str, c: &str) -> (r: String)
    ensures
        r@ == a@ + b@ + c@,
{
    let mut out = a.to_owned();
    out.append(b);
    out.append(c);
    out
}

/// Four strings in a row.
pub fn cat4(a: &str, b: &str, c: &str, d: &str) -> (r: String)
    ensures
        r@ == a@ + b@ + c@ + d@,
{
    let mut out = cat3(a, b, c);
    out.append(d);
    out
}

/// Five strings in a row.
pub fn cat5(a: &str, b: &str, c: &str, d: &str, e: &str) -> (r: String)
    ensures
        r@ == a@ + b@ + c@ + d@ + e@,
{
    let mut out = cat4(a, b, c, d);
    out.append(e);
    out
}

/// Six strings in a row.
pub fn cat6(a: &str, b: &str, c: &str, d: &str, e: &str, f: &str) -> (r: String)
    ensures
        r@ == a@ + b@ + c@ + d@ + e@ + f@,
{
    let mut out = cat5(a, b, c, d, e);
    out.append(f);
    out
}

/// The characters of a string.
pub fn chars_of(s: &str) -> (r: Vec<char>)
    ensures
        r@ == s@,
{
    let mut out: Vec<char> = Vec::new();
    for c in it: s.chars()
        invariant
            out@ == it.seq().take(it.index() as int),
            it.seq() == s@,
    {
        out.push(c);
        assert(it.seq().take(it.index() as int + 1) =~= it.seq().take(it.index() as int).push(c));
    }
    assert(out@ =~= s@);
    out
}

/// The string of `c[from..to]`.
pub fn string_of(c: &[char], from: usize, to: usize) -> (r: String)
    requires
        from <= to <= c.len(),
    ensures
        r@ == c@.subrange(from as int, to as int),
{
    let mut out = String::new();
    let mut i: usize = from;
    while i < to
        invariant
            from <= i <= to <= c.len(),
            out@ == c@.subrange(from as int, i as int),
        decreases to - i,
    {
        out.push(c[i]);
        i = i + 1;
        assert(out@ =~= c@.subrange(from as int, i as int));
    }
    out
}

// ---------------------------------------------------------------------------
// Comparing strings
// ---------------------------------------------------------------------------

/// The order of strings: that of their UTF-8 bytes.
pub open spec fn str_less(a: Seq<char>, b: Seq<char>) -> bool {
    lex_lt(encode_utf8(a), encode_utf8(b))
}

/// Whether `a` sorts before `b`.
pub fn str_lt(a: &str, b: &str) -> (r: bool)
    ensures
        r == str_less(a@, b@),
{
    bytes_lt(a.as_bytes(), b.as_bytes())
}

/// Whether two strings are the same.
pub fn str_eq(a: &str, b: &str) -> (r: bool)
    ensures
        r == (a@ == b@),
{
    let r = bytes_eq(a.as_bytes(), b.as_bytes());
    proof {
        if r {
            utf8_injective(a@, b@);
        }
    }
    r
}

/// A copy of an optional string.
pub fn opt_text(a: &Option<String>) -> (r: Option<String>)
    ensures
        match (a, r) {
            (Some(x), Some(y)) => x@ == y@,
            (None, None) => true,
            _ => false,
        },
{
    match a {
        Some(x) => Some(text(x.as_str())),
        None => None,
    }
}

/// The view of an optional string.
pub open spec fn opt_view(a: Option<String>) -> Option<Seq<char>> {
    match a {
        Some(x) => Some(x@),
        None => None,
    }
}

/// Of two different strings one sorts before the other.
pub proof fn str_less_total(a: Seq<char>, b: Seq<char>)
    ensures
        str_less(a, b) || str_less(b, a) || a == b,
{
    crate::bytes::lex_total(encode_utf8(a), encode_utf8(b));
    if encode_utf8(a) == encode_utf8(b) {
        utf8_injective(a, b);
    }
}

pub proof fn str_less_asymmetric(a: Seq<char>, b: Seq<char>)
    ensures
        str_less(a, b) ==> !str_less(b, a),
        !str_less(a, a),
{
    crate::bytes::lex_asymmetric(encode_utf8(a), encode_utf8(b));
}

pub proof fn str_less_transitive(a: Seq<char>, b: Seq<char>, c: Seq<char>)
    requires
        str_less(a, b),
        str_less(b, c),
    ensures
        str_less(a, c),
{
    crate::bytes::lex_transitive(encode_utf8(a), encode_utf8(b), encode_utf8(c));
}

// ---------------------------------------------------------------------------
// Numerals
// ---------------------------------------------------------------------------

pub open spec fn is_digit(c: char) -> bool {
    '0' <= c && c <= '9'
}

pub open spec fn digit_value(c: char) -> int {
    c as int - '0' as int
}

/// The character of a digit in base 16; of a decimal digit it is the numeral.
pub open spec fn digit_char(d: nat) -> char {
    if d < 10 {
        (d + '0' as nat) as char
    } else {
        (d - 10 + 'a' as nat) as char
    }
}

pub open spec fn all_digits(s: Seq<char>) -> bool {
    forall|i: int| 0 <= i < s.len() ==> is_digit(#[trigger] s[i])
}

/// The number that a string of digits denotes.
pub open spec fn dec_value(s: Seq<char>) -> int
    decreases s.len(),
{
    if s.len() == 0 {
        0
    } else {
        dec_value(s.drop_last()) * 10 + digit_value(s.last())
    }
}

/// The decimal numeral of `n`, without leading zeros.
pub open spec fn decimal(n: nat) -> Seq<char>
    decreases n,
{
    if n < 10 {
        seq![digit_char(n)]
    } else {
        decimal(n / 10).push(digit_char(n % 10))
    }
}

/// The decimal numeral of an integer, with `-` before a negative one.
pub open spec fn signed_decimal(n: int) -> Seq<char> {
    if n < 0 {
        seq!['-'] + decimal((-n) as nat)
    } else {
        decimal(n as nat)
    }
}

/// `s` with as many `0` before it as bring it to `width` characters.
pub open spec fn zero_padded(s: Seq<char>, width: nat) -> Seq<char> {
    if s.len() < width {
        Seq::new((width - s.len()) as nat, |i: int| '0') + s
    } else {
        s
    }
}

/// `n` in lower-case hexadecimal with exactly `width` digits, the higher part
/// of `n` cut off.
pub open spec fn hex_digits(n: nat, width: nat) -> Seq<char>
    decreases width,
{
    if width == 0 {
        Seq::empty()
    } else {
        hex_digits(n / 16, (width - 1) as nat).push(digit_char(n % 16))
    }
}

pub proof fn lemma_digit_char(d: nat)
    requires
        d < 10,
    ensures
        is_digit(digit_char(d)),
        digit_value(digit_char(d)) == d,
{
}

pub proof fn lemma_dec_value_nonneg(s: Seq<char>)
    requires
        all_digits(s),
    ensures
        dec_value(s) >= 0,
    decreases s.len(),
{
    if s.len() > 0 {
        assert(is_digit(s.last()));
        assert forall|i: int| 0 <= i < s.drop_last().len() implies is_digit(
            #[trigger] s.drop_last()[i],
        ) by {
            assert(is_digit(s[i]));
        }
        lemma_dec_value_nonneg(s.drop_last());
    }
}

/// Reading a decimal numeral gives the number that it was written for.
pub proof fn decimal_round_trip(n: nat)
    ensures
        dec_value(decimal(n)) == n,
        all_digits(decimal(n)),
        decimal(n).len() >= 1,
    decreases n,
{
    if n < 10 {
        lemma_digit_char(n);
        let s = decimal(n);
        assert(s.drop_last() =~= Seq::<char>::empty());
        assert(dec_value(s.drop_last()) == 0);
    } else {
        decimal_round_trip(n / 10);
        lemma_digit_char(n % 10);
        let s = decimal(n);
        assert(s.drop_last() =~= decimal(n / 10));
    }
}

pub proof fn lemma_decimal_injective(m: nat, n: nat)
    requires
        decimal(m) == decimal(n),
    ensures
        m == n,
{
    decimal_round_trip(m);
    decimal_round_trip(n);
}

/// The character of a digit.
pub fn digit_to_char(d: u8) -> (c: char)
    requires
        d < 16,
    ensures
        c == digit_char(d as nat),
{
    if d < 10 {
        (48u8 + d) as char
    } else {
        (97u8 + (d - 10)) as char
    }
}

/// Appends the decimal numeral of `n`.
pub fn push_decimal(out: &mut String, n: u128)
    ensures
        final(out)@ == old(out)@ + decimal(n as nat),
    decreases n,
{
    let ghost start = out@;
    if n >= 10 {
        push_decimal(out, n / 10);
    }
    out.push(digit_to_char((n % 10) as u8));
    proof {
        if n >= 10 {
            assert(out@ =~= start + decimal(n as nat));
        } else {
            assert(decimal(n as nat) =~= seq![digit_char(n as nat)]);
            assert(out@ =~= start + decimal(n as nat));
        }
    }
}

/// The decimal numeral of an unsigned number.
pub fn u64_text(n: u64) -> (r: String)
    ensures
        r@ == decimal(n as nat),
{
    let mut out = String::new();
    push_decimal(&mut out, n as u128);
    assert(out@ =~= decimal(n as nat));
    out
}

/// The decimal numeral of a length or count.
pub fn usize_text(n: usize) -> (r: String)
    ensures
        r@ == decimal(n as nat),
{
    let mut out = String::new();
    push_decimal(&mut out, n as u128);
    assert(out@ =~= decimal(n as nat));
    out
}

/// The decimal numeral of a signed number.
pub fn i128_text(n: i128) -> (r: String)
    requires
        n > i128::MIN,
    ensures
        r@ == signed_decimal(n as int),
{
    let mut out = String::new();
    if n < 0 {
        out.push('-');
        push_decimal(&mut out, (-n) as u128);
        assert(out@ =~= signed_decimal(n as int));
    } else {
        push_decimal(&mut out, n as u128);
        assert(out@ =~= signed_decimal(n as int));
    }
    out
}

/// The decimal numeral of a signed number.
pub fn i64_text(n: i64) -> (r: String)
    ensures
        r@ == signed_decimal(n as int),
{
    i128_text(n as i128)
}

/// The decimal numeral of `n`, padded with `0` to `width` characters.
pub fn padded_text(n: u128, width: usize) -> (r: String)
    ensures
        r@ == zero_padded(decimal(n as nat), width as nat),
{
    let mut digits = String::new();
    push_decimal(&mut digits, n);
    assert(digits@ =~= decimal(n as nat));
    let len: usize = chars_of(digits.as_str()).len();
    let mut out = String::new();
    if len < width {
        let pad: usize = width - len;
        let mut i: usize = 0;
        while i < pad
            invariant
                i <= pad,
                out@ == Seq::new(i as nat, |j: int| '0'),
            decreases pad - i,
        {
            out.push('0');
            i = i + 1;
            assert(out@ =~= Seq::new(i as nat, |j: int| '0'));
        }
    }
    out.append(digits.as_str());
    assert(out@ =~= zero_padded(decimal(n as nat), width as nat));
    out
}

/// Appends `width` lower-case hexadecimal digits of `n`.
pub fn push_hex(out: &mut String, n: u128, width: u8)
    ensures
        final(out)@ == old(out)@ + hex_digits(n as nat, width as nat),
    decreases width,
{
    let ghost start = out@;
    if width > 0 {
        push_hex(out, n / 16, width - 1);
        out.push(digit_to_char((n % 16) as u8));
    }
    assert(out@ =~= start + hex_digits(n as nat, width as nat));
}

/// Bytes in lower-case hexadecimal, two digits each.
pub open spec fn hex_of(b: Seq<u8>) -> Seq<char>
    decreases b.len(),
{
    if b.len() == 0 {
        Seq::empty()
    } else {
        hex_of(b.drop_last()) + hex_digits(b.last() as nat, 2)
    }
}

/// Writes bytes in hexadecimal.
pub fn hex_text(b: &[u8]) -> (r: String)
    ensures
        r@ == hex_of(b@),
{
    let mut out = String::new();
    let mut i: usize = 0;
    while i < b.len()
        invariant
            i <= b.len(),
            out@ == hex_of(b@.subrange(0, i as int)),
        decreases b.len() - i,
    {
        push_hex(&mut out, b[i] as u128, 2);
        i = i + 1;
        proof {
            let s = b@.subrange(0, i as int);
            assert(s.drop_last() =~= b@.subrange(0, i - 1));
        }
    }
    assert(b@.subrange(0, i as int) =~= b@);
    out
}

// ---------------------------------------------------------------------------
// Reading numerals
// ---------------------------------------------------------------------------

/// The number that an unsigned numeral denotes: digits, at least one, possibly
/// with `+` before them, and no larger than `max`.
pub open spec fn parse_unsigned(s: Seq<char>, max: nat) -> Option<nat> {
    let d = if s.len() > 0 && s[0] == '+' {
        s.skip(1)
    } else {
        s
    };
    if d.len() > 0 && all_digits(d) && dec_value(d) <= max {
        Some(dec_value(d) as nat)
    } else {
        None
    }
}

/// The number that a signed numeral denotes: digits, at least one, possibly
/// with `+` or `-` before them, between `min` and `max`.
pub open spec fn parse_signed(s: Seq<char>, min: int, max: int) -> Option<int> {
    let d = if s.len() > 0 && (s[0] == '+' || s[0] == '-') {
        s.skip(1)
    } else {
        s
    };
    let v = if s.len() > 0 && s[0] == '-' {
        -dec_value(d)
    } else {
        dec_value(d)
    };
    if d.len() > 0 && all_digits(d) && min <= v <= max {
        Some(v)
    } else {
        None
    }
}

proof fn lemma_dec_value_grows(s: Seq<char>, k: int)
    requires
        all_digits(s),
        0 <= k <= s.len(),
    ensures
        dec_value(s.take(k)) <= dec_value(s),
    decreases s.len() - k,
{
    if k == s.len() {
        assert(s.take(k) =~= s);
    } else {
        lemma_dec_value_grows(s, k + 1);
        assert(s.take(k + 1).drop_last() =~= s.take(k));
        assert(is_digit(s[k]));
        assert(all_digits(s.take(k)));
        lemma_dec_value_nonneg(s.take(k));
    }
}

/// The value of the digits `c[from..]`, where there is at least one, all are
/// digits and the value does not exceed `max`.
pub fn parse_magnitude(c: &[char], from: usize, max: u64) -> (r: Option<u64>)
    requires
        from <= c.len(),
    ensures
        ({
            let d = c@.skip(from as int);
            r == if d.len() > 0 && all_digits(d) && dec_value(d) <= max {
                Some(dec_value(d) as u64)
            } else {
                None
            }
        }),
{
    let ghost d = c@.skip(from as int);
    if from == c.len() {
        return None;
    }
    let mut v: u64 = 0;
    let mut i: usize = from;
    while i < c.len()
        invariant
            from <= i <= c.len(),
            d == c@.skip(from as int),
            v <= max,
            all_digits(d.take(i - from)),
            v == dec_value(d.take(i - from)),
        decreases c.len() - i,
    {
        let ch: char = c[i];
        assert(ch == d[i - from]);
        if !('0' <= ch && ch <= '9') {
            assert(!is_digit(d[i - from]));
            return None;
        }
        let x: u64 = (ch as u32 - '0' as u32) as u64;
        proof {
            let t = d.take(i - from + 1);
            assert(t.drop_last() =~= d.take(i - from));
            assert forall|j: int| 0 <= j < t.len() implies is_digit(#[trigger] t[j]) by {
                if j < i - from {
                    assert(is_digit(d.take(i - from)[j]));
                }
            }
        }
        if v > max / 10 || (v == max / 10 && x > max % 10) {
            proof {
                if all_digits(d) {
                    lemma_dec_value_grows(d, i - from + 1);
                }
            }
            return None;
        }
        v = v * 10 + x;
        i = i + 1;
    }
    assert(d.take(i - from) =~= d);
    Some(v)
}

/// Reads an unsigned 64-bit numeral.
pub fn parse_u64(s: &str) -> (r: Option<u64>)
    ensures
        match r {
            Some(v) => parse_unsigned(s@, u64::MAX as nat) == Some(v as nat),
            None => parse_unsigned(s@, u64::MAX as nat) is None,
        },
{
    let c = chars_of(s);
    proof {
        assert(c@.skip(0) =~= c@);
        if all_digits(c@) {
            lemma_dec_value_nonneg(c@);
        }
        if all_digits(c@.skip(1)) {
            lemma_dec_value_nonneg(c@.skip(1));
        }
    }
    if c.len() > 0 && c[0] == '+' {
        parse_magnitude(c.as_slice(), 1, u64::MAX)
    } else {
        parse_magnitude(c.as_slice(), 0, u64::MAX)
    }
}

/// Reads a signed numeral between `min` and `max`.
pub fn parse_signed_range(c: &[char], min: i64, max: i64) -> (r: Option<i64>)
    requires
        min <= 0 <= max,
    ensures
        match r {
            Some(v) => parse_signed(c@, min as int, max as int) == Some(v as int),
            None => parse_signed(c@, min as int, max as int) is None,
        },
{
    if c.len() > 0 && c[0] == '-' {
        let bound: u64 = (-(min as i128)) as u64;
        let ghost d = c@.skip(1);
        proof {
            if all_digits(d) {
                lemma_dec_value_nonneg(d);
            }
        }
        match parse_magnitude(c, 1, bound) {
            Some(m) => Some((-(m as i128)) as i64),
            None => None,
        }
    } else {
        let from: usize = if c.len() > 0 && c[0] == '+' {
            1
        } else {
            0
        };
        let ghost d = c@.skip(from as int);
        proof {
            if from == 0 {
                assert(d =~= c@);
            }
            if all_digits(d) {
                lemma_dec_value_nonneg(d);
            }
        }
        match parse_magnitude(c, from, max as u64) {
            Some(m) => Some(m as i64),
            None => None,
        }
    }
}

/// Reads a signed 64-bit numeral.
pub fn parse_i64(s: &str) -> (r: Option<i64>)
    ensures
        match r {
            Some(v) => parse_signed(s@, i64::MIN as int, i64::MAX as int) == Some(v as int),
            None => parse_signed(s@, i64::MIN as int, i64::MAX as int) is None,
        },
{
    let c = chars_of(s);
    parse_signed_range(c.as_slice(), i64::MIN, i64::MAX)
}

/// A numeral that was written for a number in range reads back as that number.
pub proof fn numeral_round_trip(n: int, min: int, max: int)
    requires
        min <= n <= max,
    ensures
        parse_signed(signed_decimal(n), min, max) == Some(n),
        n >= 0 ==> parse_unsigned(decimal(n as nat), max as nat) == Some(n as nat),
{
    let m = if n < 0 {
        (-n) as nat
    } else {
        n as nat
    };
    decimal_round_trip(m);
    assert(is_digit(decimal(m)[0]));
    if n < 0 {
        assert(signed_decimal(n).skip(1) =~= decimal(m));
    }
}

// ---------------------------------------------------------------------------
// Taking strings apart
// ---------------------------------------------------------------------------

/// The position of the first `c`, or the length where there is none.
pub open spec fn first_index(s: Seq<char>, c: char) -> int
    decreases s.len(),
{
    if s.len() == 0 || s[0] == c {
        0
    } else {
        1 + first_index(s.skip(1), c)
    }
}

pub proof fn lemma_first_index(s: Seq<char>, c: char)
    ensures
        0 <= first_index(s, c) <= s.len(),
        first_index(s, c) < s.len() ==> s[first_index(s, c)] == c,
        forall|j: int| 0 <= j < first_index(s, c) ==> s[j] != c,
    decreases s.len(),
{
    if s.len() > 0 && s[0] != c {
        lemma_first_index(s.skip(1), c);
        let k = first_index(s.skip(1), c);
        assert forall|j: int| 0 <= j < k + 1 implies s[j] != c by {
            if j > 0 {
                assert(s.skip(1)[j - 1] != c);
            }
        }
    }
}

/// [`first_index`] is the only position of its kind.
pub proof fn lemma_first_index_is(s: Seq<char>, c: char, i: int)
    requires
        0 <= i <= s.len(),
        i < s.len() ==> s[i] == c,
        forall|j: int| 0 <= j < i ==> s[j] != c,
    ensures
        first_index(s, c) == i,
{
    lemma_first_index(s, c);
    let k = first_index(s, c);
    if k < i {
        assert(s[k] != c);
    } else if i < k {
        assert(s[i] != c);
    }
}

/// The position of the first `c` in `s[from..]`.
pub fn find_from(s: &[char], from: usize, c: char) -> (i: usize)
    requires
        from <= s.len(),
    ensures
        i - from == first_index(s@.skip(from as int), c),
        from <= i <= s.len(),
{
    let mut i: usize = from;
    while i < s.len() && s[i] != c
        invariant
            from <= i <= s.len(),
            forall|j: int| from <= j < i ==> s@[j] != c,
        decreases s.len() - i,
    {
        i = i + 1;
    }
    proof {
        lemma_first_index_is(s@.skip(from as int), c, i - from);
    }
    i
}

/// What stands before and after the first `c`, where there is one.
pub open spec fn split_once(s: Seq<char>, c: char) -> Option<(Seq<char>, Seq<char>)> {
    let i = first_index(s, c);
    if i < s.len() {
        Some((s.take(i), s.skip(i + 1)))
    } else {
        None
    }
}

/// Splits a string at the first `c`.
pub fn split_at_first(s: &str, c: char) -> (r: Option<(String, String)>)
    ensures
        match r {
            Some((a, b)) => split_once(s@, c) == Some((a@, b@)),
            None => split_once(s@, c) is None,
        },
{
    let cs = chars_of(s);
    assert(cs@.skip(0) =~= cs@);
    let i: usize = find_from(cs.as_slice(), 0, c);
    proof {
        lemma_first_index(s@, c);
    }
    if i < cs.len() {
        let a = string_of(cs.as_slice(), 0, i);
        let b = string_of(cs.as_slice(), i + 1, cs.len());
        assert(a@ =~= s@.take(i as int));
        assert(b@ =~= s@.skip(i + 1));
        Some((a, b))
    } else {
        None
    }
}

/// The position of the last `c`, or -1 where there is none.
pub open spec fn last_index(s: Seq<char>, c: char) -> int
    decreases s.len(),
{
    if s.len() == 0 {
        -1
    } else if s.last() == c {
        s.len() - 1
    } else {
        last_index(s.drop_last(), c)
    }
}

pub proof fn lemma_last_index(s: Seq<char>, c: char)
    ensures
        -1 <= last_index(s, c) < s.len(),
        last_index(s, c) >= 0 ==> s[last_index(s, c)] == c,
        forall|j: int| last_index(s, c) < j < s.len() ==> s[j] != c,
    decreases s.len(),
{
    if s.len() > 0 && s.last() != c {
        lemma_last_index(s.drop_last(), c);
        let k = last_index(s.drop_last(), c);
        assert forall|j: int| k < j < s.len() implies s[j] != c by {
            if j < s.len() - 1 {
                assert(s.drop_last()[j] != c);
            }
        }
    }
}

pub proof fn lemma_last_index_is(s: Seq<char>, c: char, i: int)
    requires
        -1 <= i < s.len(),
        i >= 0 ==> s[i] == c,
        forall|j: int| i < j < s.len() ==> s[j] != c,
    ensures
        last_index(s, c) == i,
{
    lemma_last_index(s, c);
    let k = last_index(s, c);
    if k < i {
        assert(s[i] != c);
    } else if i < k {
        assert(s[k] != c);
    }
}

/// What stands before and after the last `c`, where there is one.
pub open spec fn rsplit_once(s: Seq<char>, c: char) -> Option<(Seq<char>, Seq<char>)> {
    let i = last_index(s, c);
    if i >= 0 {
        Some((s.take(i), s.skip(i + 1)))
    } else {
        None
    }
}

/// Splits a string at the last `c`.
pub fn split_at_last(s: &str, c: char) -> (r: Option<(String, String)>)
    ensures
        match r {
            Some((a, b)) => rsplit_once(s@, c) == Some((a@, b@)),
            None => rsplit_once(s@, c) is None,
        },
{
    let cs = chars_of(s);
    let mut i: usize = cs.len();
    while i > 0 && cs[i - 1] != c
        invariant
            i <= cs.len(),
            forall|j: int| i <= j < cs.len() ==> cs@[j] != c,
        decreases i,
    {
        i = i - 1;
    }
    proof {
        lemma_last_index_is(s@, c, i - 1);
    }
    if i > 0 {
        let a = string_of(cs.as_slice(), 0, i - 1);
        let b = string_of(cs.as_slice(), i, cs.len());
        assert(a@ =~= s@.take(i - 1));
        assert(b@ =~= s@.skip(i as int));
        Some((a, b))
    } else {
        None
    }
}

/// The pieces of `s` between the occurrences of `c`.
pub open spec fn split_all(s: Seq<char>, c: char) -> Seq<Seq<char>>
    decreases s.len(),
{
    let i = first_index(s, c);
    if 0 <= i < s.len() {
        seq![s.take(i)] + split_all(s.skip(i + 1), c)
    } else {
        seq![s]
    }
}

/// The views of strings.
pub open spec fn views(v: Seq<String>) -> Seq<Seq<char>> {
    v.map_values(|s: String| s@)
}

/// A copy of a list of strings.
pub fn copy_texts(v: &[String]) -> (r: Vec<String>)
    ensures
        views(r@) == views(v@),
{
    let mut out: Vec<String> = Vec::new();
    let mut i: usize = 0;
    while i < v.len()
        invariant
            i <= v.len(),
            views(out@) == views(v@).take(i as int),
        decreases v.len() - i,
    {
        let ghost before = views(out@);
        out.push(text(v[i].as_str()));
        i = i + 1;
        assert(views(out@) =~= before.push(v@[i - 1]@));
        assert(views(v@).take(i as int) =~= before.push(v@[i - 1]@));
    }
    assert(views(v@).take(i as int) =~= views(v@));
    out
}

/// Splits a string at every `c`.
pub fn split_text(s: &str, c: char) -> (r: Vec<String>)
    ensures
        views(r@) == split_all(s@, c),
{
    let cs = chars_of(s);
    let mut out: Vec<String> = Vec::new();
    let mut from: usize = 0;
    assert(cs@.skip(0) =~= s@);
    assert(views(out@) =~= Seq::<Seq<char>>::empty());
    assert(views(out@) + split_all(s@, c) =~= split_all(s@, c));
    loop
        invariant_except_break
            from <= cs.len(),
            views(out@) + split_all(s@.skip(from as int), c) == split_all(s@, c),
        invariant
            cs@ == s@,
        ensures
            views(out@) == split_all(s@, c),
        decreases cs.len() - from,
    {
        let ghost rest = s@.skip(from as int);
        let ghost before = views(out@);
        let i: usize = find_from(cs.as_slice(), from, c);
        proof {
            lemma_first_index(rest, c);
        }
        let piece = string_of(cs.as_slice(), from, i);
        assert(piece@ =~= rest.take(i - from));
        out.push(piece);
        assert(views(out@) =~= before.push(rest.take(i - from)));
        if i == cs.len() {
            assert(rest.take(i - from) =~= rest);
            assert(split_all(rest, c) =~= seq![rest]);
            assert(views(out@) =~= before + split_all(rest, c));
            break;
        }
        assert(s@.skip(i + 1) =~= rest.skip(i - from + 1));
        assert(views(out@) + split_all(s@.skip(i + 1), c) =~= before + split_all(rest, c));
        from = i + 1;
    }
    out
}

/// What follows the prefix `p`, where `s` begins with it.
pub open spec fn strip_prefix(s: Seq<char>, p: Seq<char>) -> Option<Seq<char>> {
    if p.is_prefix_of(s) {
        Some(s.skip(p.len() as int))
    } else {
        None
    }
}

/// Takes a prefix off a string.
pub fn without_prefix(s: &str, p: &str) -> (r: Option<String>)
    ensures
        match r {
            Some(x) => strip_prefix(s@, p@) == Some(x@),
            None => strip_prefix(s@, p@) is None,
        },
{
    let cs = chars_of(s);
    let ps = chars_of(p);
    if ps.len() > cs.len() {
        return None;
    }
    let mut i: usize = 0;
    while i < ps.len()
        invariant
            i <= ps.len() <= cs.len(),
            cs@ == s@,
            ps@ == p@,
            forall|j: int| 0 <= j < i ==> cs@[j] == ps@[j],
        decreases ps.len() - i,
    {
        if cs[i] != ps[i] {
            assert(p@[i as int] != s@.subrange(0, p@.len() as int)[i as int]);
            return None;
        }
        i = i + 1;
    }
    assert(p@ =~= s@.subrange(0, p@.len() as int));
    let r = string_of(cs.as_slice(), ps.len(), cs.len());
    assert(r@ =~= s@.skip(p@.len() as int));
    Some(r)
}

/// `s` without the characters that are `c`.
pub open spec fn without_char(s: Seq<char>, c: char) -> Seq<char>
    decreases s.len(),
{
    if s.len() == 0 {
        Seq::empty()
    } else if s.last() == c {
        without_char(s.drop_last(), c)
    } else {
        without_char(s.drop_last(), c).push(s.last())
    }
}

/// Removes every `c`.
pub fn remove_char(s: &str, c: char) -> (r: Vec<char>)
    ensures
        r@ == without_char(s@, c),
{
    let cs = chars_of(s);
    let mut out: Vec<char> = Vec::new();
    let mut i: usize = 0;
    while i < cs.len()
        invariant
            i <= cs.len(),
            cs@ == s@,
            out@ == without_char(s@.take(i as int), c),
        decreases cs.len() - i,
    {
        if cs[i] != c {
            out.push(cs[i]);
        }
        i = i + 1;
        assert(s@.take(i as int).drop_last() =~= s@.take(i - 1));
    }
    assert(s@.take(i as int) =~= s@);
    out
}

// ---------------------------------------------------------------------------
// White space
// ---------------------------------------------------------------------------

/// The characters with the Unicode property `White_Space`.
pub open spec fn is_white_space(c: char) -> bool {
    ||| '\u{9}' <= c && c <= '\u{d}'
    ||| c == ' '
    ||| c == '\u{85}'
    ||| c == '\u{a0}'
    ||| c == '\u{1680}'
    ||| '\u{2000}' <= c && c <= '\u{200a}'
    ||| c == '\u{2028}'
    ||| c == '\u{2029}'
    ||| c == '\u{202f}'
    ||| c == '\u{205f}'
    ||| c == '\u{3000}'
}

pub fn white_space(c: char) -> (r: bool)
    ensures
        r == is_white_space(c),
{
    ('\u{9}' <= c && c <= '\u{d}') || c == ' ' || c == '\u{85}' || c == '\u{a0}' || c == '\u{1680}'
        || ('\u{2000}' <= c && c <= '\u{200a}') || c == '\u{2028}' || c == '\u{2029}' || c
        == '\u{202f}' || c == '\u{205f}' || c == '\u{3000}'
}

/// `s` without the white space at its end.
pub open spec fn trim_end(s: Seq<char>) -> Seq<char>
    decreases s.len(),
{
    if s.len() > 0 && is_white_space(s.last()) {
        trim_end(s.drop_last())
    } else {
        s
    }
}

/// `s` without the white space at its beginning.
pub open spec fn trim_start(s: Seq<char>) -> Seq<char>
    decreases s.len(),
{
    if s.len() > 0 && is_white_space(s[0]) {
        trim_start(s.skip(1))
    } else {
        s
    }
}

/// `s` without the white space around it.
pub open spec fn trimmed(s: Seq<char>) -> Seq<char> {
    trim_end(trim_start(s))
}

/// Takes the white space off both ends.
pub fn trim_chars(s: &str) -> (r: Vec<char>)
    ensures
        r@ == trimmed(s@),
{
    let cs = chars_of(s);
    let mut from: usize = 0;
    assert(cs@.skip(0) =~= cs@);
    while from < cs.len() && white_space(cs[from])
        invariant
            from <= cs.len(),
            cs@ == s@,
            trim_start(cs@.skip(from as int)) == trim_start(s@),
        decreases cs.len() - from,
    {
        assert(cs@.skip(from as int).skip(1) =~= cs@.skip(from + 1));
        from = from + 1;
    }
    let ghost rest = cs@.skip(from as int);
    assert(trim_start(rest) == rest);
    let mut to: usize = cs.len();
    assert(cs@.subrange(from as int, to as int) =~= rest);
    while to > from && white_space(cs[to - 1])
        invariant
            from <= to <= cs.len(),
            trim_end(cs@.subrange(from as int, to as int)) == trim_end(rest),
        decreases to,
    {
        assert(cs@.subrange(from as int, to as int).drop_last() =~= cs@.subrange(
            from as int,
            to - 1,
        ));
        to = to - 1;
    }
    let mut out: Vec<char> = Vec::new();
    let mut i: usize = from;
    while i < to
        invariant
            from <= i <= to <= cs.len(),
            out@ == cs@.subrange(from as int, i as int),
        decreases to - i,
    {
        out.push(cs[i]);
        i = i + 1;
        assert(out@ =~= cs@.subrange(from as int, i as int));
    }
    out
}

} // verus!
