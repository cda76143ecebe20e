//! Attribute values as they are shown in error messages.

use vstd::prelude::*;
use vstd::string::*;

use crate::text::{cat2, cat3, decimal, hex_digits, push_decimal, text};
use crate::value::{AttrView, AttributeValue, BytesSet, StringSet};

verus! {

/// A string in the form in which `{:?}` shows it.
pub uninterp spec fn str_debug(s: Seq<char>) -> Seq<char>;

/// Calls `format!` with `{:?}` on a string: the result is quoted and escaped as
/// the `Debug` impl of `str` does it.
#[verifier::external_body]
pub(crate) fn debug_text(s: &str) -> (r: String)
    ensures
        r@ == str_debug(s@),
{
    format!("{:?}", s)
}

/// Parts with `, ` between them.
pub open spec fn comma_list(parts: Seq<Seq<char>>) -> Seq<char>
    decreases parts.len(),
{
    if parts.len() == 0 {
        Seq::empty()
    } else if parts.len() == 1 {
        parts[0]
    } else {
        comma_list(parts.drop_last()) + ", "@ + parts.last()
    }
}

/// Strings, each in quotes.
pub open spec fn quoted(s: Seq<Seq<char>>) -> Seq<Seq<char>> {
    s.map_values(|x: Seq<char>| str_debug(x))
}

/// Bytes as a list of numbers.
pub open spec fn bytes_debug(b: Seq<u8>) -> Seq<char> {
    "["@ + comma_list(b.map_values(|x: u8| decimal(x as nat))) + "]"@
}

/// How an attribute value is shown.
pub open spec fn attr_debug(a: AttrView) -> Seq<char>
    decreases a,
{
    match a {
        AttrView::S(s) => "S("@ + str_debug(s) + ")"@,
        AttrView::N(s) => "N("@ + str_debug(s) + ")"@,
        AttrView::B(b) => "B("@ + bytes_debug(b) + ")"@,
        AttrView::Bool(b) => if b {
            "Bool(true)"@
        } else {
            "Bool(false)"@
        },
        AttrView::Null => "Null"@,
        AttrView::SS(s) => "SS({"@ + comma_list(quoted(s)) + "})"@,
        AttrView::NS(s) => "NS({"@ + comma_list(quoted(s)) + "})"@,
        AttrView::BS(s) => "BS({"@ + comma_list(s.map_values(|b: Seq<u8>| bytes_debug(b)))
            + "})"@,
        AttrView::L(l) => "L(["@ + comma_list(list_debug(l)) + "])"@,
        AttrView::M(m) => "M({"@ + comma_list(map_debug(m)) + "})"@,
    }
}

/// How the elements of a list are shown.
pub open spec fn list_debug(l: Seq<AttrView>) -> Seq<Seq<char>>
    decreases l,
{
    if l.len() == 0 {
        Seq::empty()
    } else {
        list_debug(l.drop_last()).push(attr_debug(l.last()))
    }
}

/// How the attributes of a map are shown.
pub open spec fn map_debug(m: Seq<(Seq<char>, AttrView)>) -> Seq<Seq<char>>
    decreases m,
{
    if m.len() == 0 {
        Seq::empty()
    } else {
        map_debug(m.drop_last()).push(str_debug(m.last().0) + ": "@ + attr_debug(m.last().1))
    }
}

/// Appends one part of a list of which `index` parts stand there already.
fn push_part(out: &mut String, index: usize, part: &str, Ghost(parts): Ghost<Seq<Seq<char>>>)
    requires
        index < parts.len(),
        parts[index as int] == part@,
        old(out)@ == comma_list(parts.take(index as int)),
    ensures
        final(out)@ == comma_list(parts.take(index + 1)),
{
    if index > 0 {
        out.append(", ");
    }
    out.append(part);
    proof {
        let t = parts.take(index + 1);
        assert(t.drop_last() =~= parts.take(index as int));
        assert(t.last() == part@);
        if index == 0 {
            assert(parts.take(0) =~= Seq::<Seq<char>>::empty());
            assert(comma_list(parts.take(0)) =~= Seq::<char>::empty());
            assert(out@ =~= part@);
        } else {
            assert(t.len() == index + 1);
        }
    }
}

fn show_bytes(b: &[u8]) -> (r: String)
    ensures
        r@ == bytes_debug(b@),
{
    let ghost parts = b@.map_values(|x: u8| decimal(x as nat));
    let mut list = String::new();
    let mut i: usize = 0;
    assert(parts.take(0) =~= Seq::<Seq<char>>::empty());
    while i < b.len()
        invariant
            i <= b.len(),
            parts == b@.map_values(|x: u8| decimal(x as nat)),
            list@ == comma_list(parts.take(i as int)),
        decreases b.len() - i,
    {
        let mut d = String::new();
        push_decimal(&mut d, b[i] as u128);
        assert(d@ =~= decimal(b@[i as int] as nat));
        push_part(&mut list, i, d.as_str(), Ghost(parts));
        i = i + 1;
    }
    assert(parts.take(i as int) =~= parts);
    cat3("[", list.as_str(), "]")
}

fn show_strings(s: &StringSet) -> (r: String)
    ensures
        r@ == comma_list(quoted(s@)),
{
    let ghost parts = quoted(s@);
    let mut list = String::new();
    let n: usize = s.len();
    let mut i: usize = 0;
    assert(parts.take(0) =~= Seq::<Seq<char>>::empty());
    while i < n
        invariant
            i <= n == s@.len(),
            parts == quoted(s@),
            list@ == comma_list(parts.take(i as int)),
        decreases n - i,
    {
        let d = debug_text(s.at(i).as_str());
        push_part(&mut list, i, d.as_str(), Ghost(parts));
        i = i + 1;
    }
    assert(parts.take(i as int) =~= parts);
    list
}

fn show_byte_strings(s: &BytesSet) -> (r: String)
    ensures
        r@ == comma_list(s@.map_values(|b: Seq<u8>| bytes_debug(b))),
{
    let ghost parts = s@.map_values(|b: Seq<u8>| bytes_debug(b));
    let mut list = String::new();
    let n: usize = s.len();
    let mut i: usize = 0;
    assert(parts.take(0) =~= Seq::<Seq<char>>::empty());
    while i < n
        invariant
            i <= n == s@.len(),
            parts == s@.map_values(|b: Seq<u8>| bytes_debug(b)),
            list@ == comma_list(parts.take(i as int)),
        decreases n - i,
    {
        let d = show_bytes(s.at(i).as_slice());
        push_part(&mut list, i, d.as_str(), Ghost(parts));
        i = i + 1;
    }
    assert(parts.take(i as int) =~= parts);
    list
}

/// Shows an attribute value.
pub fn show_attr(a: &AttributeValue) -> (r: String)
    ensures
        r@ == attr_debug(a@),
    decreases a,
{
    match a {
        AttributeValue::S(s) => cat3("S(", debug_text(s.as_str()).as_str(), ")"),
        AttributeValue::N(s) => cat3("N(", debug_text(s.as_str()).as_str(), ")"),
        AttributeValue::B(b) => cat3("B(", show_bytes(b.as_slice()).as_str(), ")"),
        AttributeValue::Bool(b) => if *b {
            text("Bool(true)")
        } else {
            text("Bool(false)")
        },
        AttributeValue::Null => text("Null"),
        AttributeValue::SS(s) => cat3("SS({", show_strings(s).as_str(), "})"),
        AttributeValue::NS(s) => cat3("NS({", show_strings(s).as_str(), "})"),
        AttributeValue::BS(s) => cat3("BS({", show_byte_strings(s).as_str(), "})"),
        AttributeValue::L(l) => {
            let ghost v = a@->L_0;
            let mut list = String::new();
            let mut i: usize = 0;
            assert(v.take(0) =~= Seq::empty());
            while i < l.len()
                invariant
                    i <= l.len(),
                    *a == AttributeValue::L(*l),
                    v == a@->L_0,
                    list@ == comma_list(list_debug(v.take(i as int))),
                    list_debug(v.take(i as int)).len() == i,
                decreases l.len() - i,
            {
                let e = &l[i];
                assert(*e == a->L_0@[i as int]);
                assert(decreases_to!(a => a->L_0@[i as int]));
                let d = show_attr(e);
                let ghost parts = list_debug(v.take(i + 1));
                proof {
                    assert(v.take(i + 1).drop_last() =~= v.take(i as int));
                    assert(parts.take(i as int) =~= list_debug(v.take(i as int)));
                    assert(parts.take(i + 1) =~= parts);
                }
                push_part(&mut list, i, d.as_str(), Ghost(parts));
                i = i + 1;
            }
            assert(v.take(i as int) =~= v);
            cat3("L([", list.as_str(), "])")
        },
        AttributeValue::M(m) => {
            let ghost v = m@;
            let mut list = String::new();
            let n: usize = m.len();
            let mut i: usize = 0;
            assert(v.take(0) =~= Seq::empty());
            while i < n
                invariant
                    i <= n == v.len(),
                    v == m@,
                    *a == AttributeValue::M(*m),
                    list@ == comma_list(map_debug(v.take(i as int))),
                    map_debug(v.take(i as int)).len() == i,
                decreases n - i,
            {
                let e = m.value_at(i);
                assert(decreases_to!(a => a->M_0));
                let d = cat3(
                    debug_text(m.name_at(i).as_str()).as_str(),
                    ": ",
                    show_attr(e).as_str(),
                );
                let ghost parts = map_debug(v.take(i + 1));
                proof {
                    assert(v.take(i + 1).drop_last() =~= v.take(i as int));
                    assert(parts.take(i as int) =~= map_debug(v.take(i as int)));
                    assert(parts.take(i + 1) =~= parts);
                }
                push_part(&mut list, i, d.as_str(), Ghost(parts));
                i = i + 1;
            }
            assert(v.take(i as int) =~= v);
            cat3("M({", list.as_str(), "})")
        },
    }
}

/// A byte in two upper-case hexadecimal digits.
pub open spec fn upper_hex(b: u8) -> Seq<char> {
    seq![upper_digit(b as nat / 16), upper_digit(b as nat % 16)]
}

pub open spec fn upper_digit(d: nat) -> char {
    if d < 10 {
        (d + '0' as nat) as char
    } else {
        (d - 10 + 'A' as nat) as char
    }
}

fn upper_digit_char(d: u8) -> (c: char)
    requires
        d < 16,
    ensures
        c == upper_digit(d as nat),
{
    if d < 10 {
        (48u8 + d) as char
    } else {
        (65u8 + (d - 10)) as char
    }
}

/// Writes a byte in upper-case hexadecimal.
pub fn upper_hex_text(b: u8) -> (r: String)
    ensures
        r@ == upper_hex(b),
{
    let mut out = String::new();
    out.push(upper_digit_char(b / 16));
    out.push(upper_digit_char(b % 16));
    assert(out@ =~= upper_hex(b));
    out
}

/// A byte in lower-case hexadecimal without leading zeros, after `0x`.
pub open spec fn short_hex(b: u8) -> Seq<char> {
    "0x"@ + if b < 16 {
        hex_digits(b as nat, 1)
    } else {
        hex_digits(b as nat, 2)
    }
}

/// Writes a byte as `{:#x}` does.
pub fn short_hex_text(b: u8) -> (r: String)
    ensures
        r@ == short_hex(b),
{
    let mut digits = String::new();
    crate::text::push_hex(
        &mut digits,
        b as u128,
        if b < 16 {
            1
        } else {
            2
        },
    );
    assert(digits@ =~= if b < 16 {
        hex_digits(b as nat, 1)
    } else {
        hex_digits(b as nat, 2)
    });
    cat2("0x", digits.as_str())
}

} // verus!
