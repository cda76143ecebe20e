//! Row keys.
//!
//! ```text
//! Composite:  [pk_tag:1] [pk_len:u32BE] [pk_bytes]  [sk_tag:1] [sk_bytes]
//! PK-only:    [pk_tag:1] [pk_len:u32BE] [pk_bytes]
//! ```
//!
//! A tag is `0x53` for S, `0x4E` for N and `0x42` for B. The length prefix keeps
//! the rows of one partition together; the bytes of the sort key keep the order
//! within it: those of S and B are raw, those of N come from [`crate::number`].

use vstd::prelude::*;
use vstd::string::*;
use vstd::utf8::encode_utf8;

use crate::bytes::{
    be_bytes, be_bytes_round_trip, be_value, bytes_copy, bytes_slice, lemma_be_bytes_len,
    lemma_pow256, lex_asymmetric, lex_common_prefix, lex_le, lex_lt, lex_lt_at, lex_witness,
    push_bytes, push_u32_be, read_u32_be,
};
use crate::debug::{attr_debug, show_attr};
use crate::error::{internal, invalid, ErrView, StorageError};
use crate::number::{
    decode as decode_number, encode as encode_number, encoding_preserves_order, number_decoding,
    number_encoding, number_lt, number_round_trip, parse_number,
};
use crate::text::{cat2, decimal, decode_text, text, u64_text, utf8_decoded, utf8_round_trip};
use crate::value::{
    find_key, item_put, item_put_lookup, key_name, lookup, schema_view, AttrView, AttributeValue,
    Item, ItemView, KeySchemaElement, KeyType, SchemaView,
};

verus! {

pub const TAG_S: u8 = 0x53;

pub const TAG_N: u8 = 0x4E;

pub const TAG_B: u8 = 0x42;

/// The longest row key that Bigtable accepts.
pub const MAX_ROW_KEY_SIZE: usize = 4096;

// ---------------------------------------------------------------------------
// Parts of a key
// ---------------------------------------------------------------------------

/// The tag and the bytes of a key attribute.
pub open spec fn key_part(v: AttrView) -> Result<(u8, Seq<u8>), ErrView> {
    match v {
        AttrView::S(s) => Ok((TAG_S, encode_utf8(s))),
        AttrView::N(n) => match number_encoding(n) {
            Ok(b) => Ok((TAG_N, b)),
            Err(e) => Err(e),
        },
        AttrView::B(b) => Ok((TAG_B, b)),
        other => Err(
            ErrView::Validation("key attribute must be S/N/B, got "@ + attr_debug(other)),
        ),
    }
}

/// The tag, the length and the bytes of the part of a key that others follow.
pub open spec fn delimited(part: (u8, Seq<u8>)) -> Seq<u8> {
    seq![part.0] + be_bytes(part.1.len(), 4) + part.1
}

/// The tag and the bytes of the last part of a key.
pub open spec fn undelimited(part: (u8, Seq<u8>)) -> Seq<u8> {
    seq![part.0] + part.1
}

/// The type tag of a key attribute.
pub fn tag_for(av: &AttributeValue) -> (r: Result<u8, StorageError>)
    ensures
        match r {
            Ok(t) => t == match av@ {
                AttrView::S(_) => TAG_S,
                AttrView::N(_) => TAG_N,
                _ => TAG_B,
            } && (av@ is S || av@ is N || av@ is B),
            Err(e) => !(av@ is S || av@ is N || av@ is B) && key_part(av@) == Err::<
                (u8, Seq<u8>),
                ErrView,
            >(e@),
        },
{
    match av {
        AttributeValue::S(_) => Ok(TAG_S),
        AttributeValue::N(_) => Ok(TAG_N),
        AttributeValue::B(_) => Ok(TAG_B),
        other => Err(
            invalid(
                cat2("key attribute must be S/N/B, got ", show_attr(other).as_str()).as_str(),
            ),
        ),
    }
}

/// The bytes of a key attribute, without its tag.
pub fn encoded_key_bytes(av: &AttributeValue) -> (r: Result<Vec<u8>, StorageError>)
    ensures
        match r {
            Ok(b) => key_part(av@) matches Ok(p) && p.1 == b@,
            Err(e) => key_part(av@) == Err::<(u8, Seq<u8>), ErrView>(e@),
        },
{
    match av {
        AttributeValue::S(s) => Ok(bytes_copy(s.as_str().as_bytes())),
        AttributeValue::N(n) => encode_number(n.as_str()),
        AttributeValue::B(b) => Ok(bytes_copy(b.as_slice())),
        other => Err(
            invalid(
                cat2("key attribute must be S/N/B, got ", show_attr(other).as_str()).as_str(),
            ),
        ),
    }
}

/// The tag and the bytes of a key attribute.
pub fn sk_tag_and_bytes(av: &AttributeValue) -> (r: Result<(u8, Vec<u8>), StorageError>)
    ensures
        match r {
            Ok(p) => key_part(av@) == Ok::<(u8, Seq<u8>), ErrView>((p.0, p.1@)),
            Err(e) => key_part(av@) == Err::<(u8, Seq<u8>), ErrView>(e@),
        },
{
    let tag: u8 = match tag_for(av) {
        Ok(t) => t,
        Err(e) => {
            return Err(e);
        },
    };
    match encoded_key_bytes(av) {
        Ok(b) => Ok((tag, b)),
        Err(e) => Err(e),
    }
}

/// A length is written modulo 2^32.
proof fn lemma_len_bytes(n: nat)
    ensures
        be_bytes(n, 4) == be_bytes(n % 0x1_0000_0000, 4),
{
    let m = n % 0x1_0000_0000;
    reveal_with_fuel(be_bytes, 5);
    assert(n % 256 == m % 256);
    assert(n / 256 % 256 == m / 256 % 256);
    assert(n / 256 / 256 % 256 == m / 256 / 256 % 256);
    assert(n / 256 / 256 / 256 % 256 == m / 256 / 256 / 256 % 256);
    assert(be_bytes(n, 4) =~= be_bytes(m, 4));
}

/// Appends a part of a key that others follow.
pub fn push_delimited(out: &mut Vec<u8>, tag: u8, b: &[u8])
    ensures
        final(out)@ == old(out)@ + delimited((tag, b@)),
{
    let ghost start = out@;
    out.push(tag);
    push_u32_be(out, (b.len() as u64 % 0x1_0000_0000) as u32);
    push_bytes(out, b);
    proof {
        lemma_len_bytes(b@.len());
    }
    assert(out@ =~= start + delimited((tag, b@)));
}

/// Appends the last part of a key.
pub fn push_undelimited(out: &mut Vec<u8>, tag: u8, b: &[u8])
    ensures
        final(out)@ == old(out)@ + undelimited((tag, b@)),
{
    let ghost start = out@;
    out.push(tag);
    push_bytes(out, b);
    assert(out@ =~= start + undelimited((tag, b@)));
}

// ---------------------------------------------------------------------------
// Encoding a key
// ---------------------------------------------------------------------------

/// The part of an item's key that the attribute `name` makes.
pub open spec fn item_part(item: ItemView, name: Seq<char>, missing: Seq<char>) -> Result<
    (u8, Seq<u8>),
    ErrView,
> {
    match lookup(item, name) {
        None => Err(ErrView::Validation(missing + name)),
        Some(v) => key_part(v),
    }
}

/// The row key of an item.
pub open spec fn row_key(item: ItemView, schema: SchemaView) -> Result<Seq<u8>, ErrView> {
    match key_name(schema, KeyType::Hash) {
        None => Err(ErrView::Validation("key schema missing HASH"@)),
        Some(pk_name) => match item_part(item, pk_name, "missing key attr "@) {
            Err(e) => Err(e),
            Ok(pk) => match key_name(schema, KeyType::Range) {
                None => Ok(delimited(pk)),
                Some(sk_name) => match item_part(item, sk_name, "missing key attr "@) {
                    Err(e) => Err(e),
                    Ok(sk) => Ok(delimited(pk) + undelimited(sk)),
                },
            },
        },
    }
}

/// The part of an item's key that the attribute `name` makes.
pub fn part_of_item(item: &Item, name: &str, missing: &str) -> (r: Result<
    (u8, Vec<u8>),
    StorageError,
>)
    ensures
        match r {
            Ok(p) => item_part(item@, name@, missing@) == Ok::<(u8, Seq<u8>), ErrView>(
                (p.0, p.1@),
            ),
            Err(e) => item_part(item@, name@, missing@) == Err::<(u8, Seq<u8>), ErrView>(e@),
        },
{
    match item.get(name) {
        None => Err(invalid(cat2(missing, name).as_str())),
        Some(v) => sk_tag_and_bytes(v),
    }
}

/// Builds the row key of an item.
pub fn encode_key(item: &Item, key_schema: &[KeySchemaElement]) -> (r: Result<
    Vec<u8>,
    StorageError,
>)
    ensures
        match r {
            Ok(k) => row_key(item@, schema_view(key_schema@)) == Ok::<Seq<u8>, ErrView>(k@),
            Err(e) => row_key(item@, schema_view(key_schema@)) == Err::<Seq<u8>, ErrView>(e@),
        },
{
    let pk_name = match find_key(key_schema, KeyType::Hash) {
        Some(n) => n,
        None => {
            return Err(invalid("key schema missing HASH"));
        },
    };
    let sk_name = find_key(key_schema, KeyType::Range);
    let pk = match part_of_item(item, pk_name.as_str(), "missing key attr ") {
        Ok(p) => p,
        Err(e) => {
            return Err(e);
        },
    };
    let mut out: Vec<u8> = Vec::new();
    push_delimited(&mut out, pk.0, pk.1.as_slice());
    assert(out@ =~= delimited((pk.0, pk.1@)));
    match sk_name {
        None => {},
        Some(n) => match part_of_item(item, n.as_str(), "missing key attr ") {
            Ok(sk) => {
                push_undelimited(&mut out, sk.0, sk.1.as_slice());
            },
            Err(e) => {
                return Err(e);
            },
        },
    }
    Ok(out)
}

// ---------------------------------------------------------------------------
// Bounds
// ---------------------------------------------------------------------------

/// What follows a prefix to make a key beyond all keys with that prefix.
pub open spec fn upper_trailer() -> Seq<u8> {
    Seq::new(17, |i: int| 0xFFu8)
}

/// The first key of a partition.
pub open spec fn partition_start(pk: AttrView) -> Result<Seq<u8>, ErrView> {
    match key_part(pk) {
        Ok(p) => Ok(delimited(p)),
        Err(e) => Err(e),
    }
}

/// A key beyond all keys of a partition.
pub open spec fn partition_end(pk: AttrView) -> Result<Seq<u8>, ErrView> {
    match key_part(pk) {
        Ok(p) => Ok(delimited(p) + upper_trailer()),
        Err(e) => Err(e),
    }
}

/// Lower bound for a query against a single partition.
pub fn pk_range_start(pk: &AttributeValue) -> (r: Result<Vec<u8>, StorageError>)
    ensures
        match r {
            Ok(k) => partition_start(pk@) == Ok::<Seq<u8>, ErrView>(k@),
            Err(e) => partition_start(pk@) == Err::<Seq<u8>, ErrView>(e@),
        },
{
    let p = match sk_tag_and_bytes(pk) {
        Ok(p) => p,
        Err(e) => {
            return Err(e);
        },
    };
    let mut out: Vec<u8> = Vec::new();
    push_delimited(&mut out, p.0, p.1.as_slice());
    assert(out@ =~= delimited((p.0, p.1@)));
    Ok(out)
}

/// Upper bound for a query against a single partition.
pub fn pk_range_end_inclusive(pk: &AttributeValue) -> (r: Result<Vec<u8>, StorageError>)
    ensures
        match r {
            Ok(k) => partition_end(pk@) == Ok::<Seq<u8>, ErrView>(k@),
            Err(e) => partition_end(pk@) == Err::<Seq<u8>, ErrView>(e@),
        },
{
    let mut out = match pk_range_start(pk) {
        Ok(k) => k,
        Err(e) => {
            return Err(e);
        },
    };
    append_sk_upper_trailer(&mut out);
    Ok(out)
}

/// Appends the trailer that no sort key reaches.
pub fn append_sk_upper_trailer(buf: &mut Vec<u8>)
    ensures
        final(buf)@ == old(buf)@ + upper_trailer(),
{
    let ghost start = buf@;
    let mut i: usize = 0;
    while i < 17
        invariant
            i <= 17,
            buf@ == start + upper_trailer().take(i as int),
        decreases 17 - i,
    {
        buf.push(0xFF);
        i = i + 1;
        assert(buf@ =~= start + upper_trailer().take(i as int));
    }
    assert(buf@ =~= start + upper_trailer());
}

// ---------------------------------------------------------------------------
// Decoding a key
// ---------------------------------------------------------------------------

/// The attribute value that a tag and bytes stand for.
pub open spec fn part_value(
    tag: u8,
    b: Seq<u8>,
    text_error: Seq<char>,
    tag_error: Seq<char>,
) -> Result<AttrView, ErrView> {
    if tag == TAG_S {
        match utf8_decoded(b) {
            Ok(s) => Ok(AttrView::S(s)),
            Err(e) => Err(ErrView::Internal(text_error + e)),
        }
    } else if tag == TAG_B {
        Ok(AttrView::B(b))
    } else if tag == TAG_N {
        match number_decoding(b) {
            Ok(n) => Ok(AttrView::N(n)),
            Err(e) => Err(e),
        }
    } else {
        Err(ErrView::Internal(tag_error))
    }
}

/// Reads an attribute value from its tag and bytes.
pub fn decode_part(tag: u8, b: &[u8], text_error: &str, tag_error: &str) -> (r: Result<
    AttributeValue,
    StorageError,
>)
    ensures
        match r {
            Ok(v) => part_value(tag, b@, text_error@, tag_error@) == Ok::<AttrView, ErrView>(v@),
            Err(e) => part_value(tag, b@, text_error@, tag_error@) == Err::<AttrView, ErrView>(e@),
        },
{
    if tag == TAG_S {
        match decode_text(b) {
            Ok(s) => Ok(AttributeValue::S(s)),
            Err(e) => Err(internal(cat2(text_error, e.as_str()).as_str())),
        }
    } else if tag == TAG_B {
        Ok(AttributeValue::B(bytes_copy(b)))
    } else if tag == TAG_N {
        match decode_number(b) {
            Ok(n) => Ok(AttributeValue::N(n)),
            Err(e) => Err(e),
        }
    } else {
        Err(internal(tag_error))
    }
}

/// The key attributes that a row key holds.
pub open spec fn key_item(key: Seq<u8>, schema: SchemaView) -> Result<ItemView, ErrView> {
    match key_name(schema, KeyType::Hash) {
        None => Err(ErrView::Validation("key schema missing HASH"@)),
        Some(pk_name) => {
            let n = be_value(key.subrange(1, 5)) as int;
            if key.len() == 0 {
                Err(ErrView::Internal("empty row key"@))
            } else if key.len() < 5 {
                Err(ErrView::Internal("malformed row key (PK len)"@))
            } else if key.len() < 5 + n {
                Err(ErrView::Internal("malformed row key (PK bytes)"@))
            } else {
                match part_value(
                    key[0],
                    key.subrange(5, 5 + n),
                    "decode PK S: "@,
                    "unknown PK tag: "@ + decimal(key[0] as nat),
                ) {
                    Err(e) => Err(e),
                    Ok(pk) => {
                        let item = item_put(Seq::empty(), pk_name, pk);
                        match key_name(schema, KeyType::Range) {
                            None => Ok(item),
                            Some(sk_name) => if key.len() < 6 + n {
                                Err(ErrView::Internal("missing SK in row key"@))
                            } else {
                                match part_value(
                                    key[5 + n],
                                    key.skip(6 + n),
                                    "decode SK S: "@,
                                    "unknown SK tag: "@ + decimal(key[5 + n] as nat),
                                ) {
                                    Err(e) => Err(e),
                                    Ok(sk) => Ok(item_put(item, sk_name, sk)),
                                }
                            },
                        }
                    },
                }
            }
        },
    }
}

/// Reads the key attributes out of a row key.
pub fn decode_key(key: &[u8], key_schema: &[KeySchemaElement]) -> (r: Result<Item, StorageError>)
    ensures
        match r {
            Ok(i) => key_item(key@, schema_view(key_schema@)) == Ok::<ItemView, ErrView>(i@),
            Err(e) => key_item(key@, schema_view(key_schema@)) == Err::<ItemView, ErrView>(e@),
        },
{
    let pk_name = match find_key(key_schema, KeyType::Hash) {
        Some(n) => n,
        None => {
            return Err(invalid("key schema missing HASH"));
        },
    };
    let sk_name = find_key(key_schema, KeyType::Range);
    if key.len() == 0 {
        return Err(internal("empty row key"));
    }
    let pk_tag: u8 = key[0];
    if key.len() < 5 {
        return Err(internal("malformed row key (PK len)"));
    }
    let pk_len: u32 = read_u32_be(key, 1);
    if ((key.len() - 5) as u64) < pk_len as u64 {
        return Err(internal("malformed row key (PK bytes)"));
    }
    let at: usize = 5 + pk_len as usize;
    let pk_bytes = bytes_slice(key, 5, at);
    let tag_error = cat2("unknown PK tag: ", u64_text(pk_tag as u64).as_str());
    let pk = match decode_part(pk_tag, pk_bytes.as_slice(), "decode PK S: ", tag_error.as_str()) {
        Ok(v) => v,
        Err(e) => {
            return Err(e);
        },
    };
    let mut item = Item::new();
    item.insert(text(pk_name.as_str()), pk);
    match sk_name {
        None => {},
        Some(n) => {
            if key.len() == at {
                return Err(internal("missing SK in row key"));
            }
            let sk_tag: u8 = key[at];
            let sk_bytes = bytes_slice(key, at + 1, key.len());
            assert(sk_bytes@ =~= key@.skip(at + 1));
            let tag_error = cat2("unknown SK tag: ", u64_text(sk_tag as u64).as_str());
            match decode_part(sk_tag, sk_bytes.as_slice(), "decode SK S: ", tag_error.as_str()) {
                Ok(v) => {
                    item.insert(text(n.as_str()), v);
                },
                Err(e) => {
                    return Err(e);
                },
            }
        },
    }
    Ok(item)
}

// ---------------------------------------------------------------------------
// Laws
// ---------------------------------------------------------------------------

/// Decoding a part of a key gives a value that encodes to the same part; text
/// and bytes come back as they were.
pub proof fn part_round_trip(v: AttrView, text_error: Seq<char>, tag_error: Seq<char>)
    requires
        key_part(v) is Ok,
    ensures
        ({
            let p = key_part(v)->Ok_0;
            &&& part_value(p.0, p.1, text_error, tag_error) matches Ok(w) && key_part(w) == Ok::<
                (u8, Seq<u8>),
                ErrView,
            >(p) && (v is S || v is B ==> w == v) && (v is N <==> w is N)
        }),
{
    match v {
        AttrView::S(s) => {
            utf8_round_trip(s);
        },
        AttrView::N(n) => {
            number_round_trip(n);
        },
        _ => {},
    }
}

/// The pieces of a delimited part, wherever it stands.
pub proof fn lemma_delimited(part: (u8, Seq<u8>), rest: Seq<u8>)
    ensures
        ({
            let k = delimited(part) + rest;
            let n = part.1.len() as int;
            &&& k.len() == 5 + n + rest.len()
            &&& delimited(part).len() == 5 + n
            &&& k[0] == part.0
            &&& k.subrange(1, 5) == be_bytes(part.1.len(), 4)
            &&& k.subrange(5, 5 + n) == part.1
            &&& k.skip(5 + n) == rest
            &&& n < 0x1_0000_0000 ==> be_value(k.subrange(1, 5)) == n
        }),
{
    let n = part.1.len();
    lemma_be_bytes_len(n, 4);
    let k = delimited(part) + rest;
    assert(k.subrange(1, 5) =~= be_bytes(n, 4));
    assert(k.subrange(5, 5 + n as int) =~= part.1);
    assert(k.skip(5 + n as int) =~= rest);
    lemma_pow256();
    if n < 0x1_0000_0000 {
        be_bytes_round_trip(n, 4);
    }
}

/// A key attribute whose length the four bytes of its prefix can hold.
pub open spec fn part_fits(part: Result<(u8, Seq<u8>), ErrView>) -> bool {
    part matches Ok(p) ==> p.1.len() < 0x1_0000_0000
}

/// Decoding a row key gives the key attributes of the item: they encode to the
/// same row key again, and those that are text or bytes are as they were.
pub proof fn row_key_round_trip(item: ItemView, schema: SchemaView)
    requires
        row_key(item, schema) is Ok,
        part_fits(item_part(item, key_name(schema, KeyType::Hash)->0, "missing key attr "@)),
    ensures
        ({
            let k = row_key(item, schema)->Ok_0;
            &&& key_item(k, schema) matches Ok(d) && row_key(d, schema) == Ok::<
                Seq<u8>,
                ErrView,
            >(k) && forall|part: KeyType|
                (key_name(schema, part) matches Some(name) ==> {
                    let v = #[trigger] lookup(item, key_name(schema, part)->0);
                    (v matches Some(AttrView::S(_)) || v matches Some(AttrView::B(_))) ==> lookup(
                        d,
                        name,
                    ) == v
                })
        }),
{
    let k = row_key(item, schema)->Ok_0;
    let pk_name = key_name(schema, KeyType::Hash)->0;
    let pv = lookup(item, pk_name)->0;
    let pk = key_part(pv)->Ok_0;
    let e1 = "decode PK S: "@;
    let t1 = "unknown PK tag: "@ + decimal(pk.0 as nat);
    part_round_trip(pv, e1, t1);
    let pw = part_value(pk.0, pk.1, e1, t1)->Ok_0;
    let i1 = item_put(Seq::empty(), pk_name, pw);
    item_put_lookup(Seq::empty(), pk_name, pw, pk_name);
    match key_name(schema, KeyType::Range) {
        None => {
            lemma_delimited(pk, Seq::empty());
            assert(delimited(pk) + Seq::<u8>::empty() =~= k);
            assert(key_item(k, schema) == Ok::<ItemView, ErrView>(i1));
        },
        Some(sk_name) => {
            let sv = lookup(item, sk_name)->0;
            let sk = key_part(sv)->Ok_0;
            let e2 = "decode SK S: "@;
            let t2 = "unknown SK tag: "@ + decimal(sk.0 as nat);
            part_round_trip(sv, e2, t2);
            let sw = part_value(sk.0, sk.1, e2, t2)->Ok_0;
            lemma_delimited(pk, undelimited(sk));
            let n = pk.1.len() as int;
            assert(k[5 + n] == k.skip(5 + n)[0]);
            assert(k.skip(6 + n) =~= k.skip(5 + n).skip(1));
            assert(undelimited(sk).skip(1) =~= sk.1);
            let i2 = item_put(i1, sk_name, sw);
            assert(key_item(k, schema) == Ok::<ItemView, ErrView>(i2));
            item_put_lookup(i1, sk_name, sw, pk_name);
            item_put_lookup(i1, sk_name, sw, sk_name);
        },
    }
}

/// Within a partition row keys sort as their sort keys: text and bytes as byte
/// strings, numbers as numbers.
pub proof fn sort_key_order(pk: (u8, Seq<u8>), a: AttrView, b: AttrView)
    requires
        key_part(a) is Ok,
        key_part(b) is Ok,
    ensures
        ({
            let ka = delimited(pk) + undelimited(key_part(a)->Ok_0);
            let kb = delimited(pk) + undelimited(key_part(b)->Ok_0);
            &&& a is S && b is S ==> (lex_lt(ka, kb) <==> lex_lt(
                encode_utf8(a->S_0),
                encode_utf8(b->S_0),
            ))
            &&& a is B && b is B ==> (lex_lt(ka, kb) <==> lex_lt(a->B_0, b->B_0))
            &&& a is N && b is N ==> (lex_lt(ka, kb) <==> number_lt(
                parse_number(a->N_0)->Ok_0,
                parse_number(b->N_0)->Ok_0,
            ))
        }),
{
    let pa = key_part(a)->Ok_0;
    let pb = key_part(b)->Ok_0;
    lex_common_prefix(delimited(pk), undelimited(pa), undelimited(pb));
    if pa.0 == pb.0 {
        lex_common_prefix(seq![pa.0], pa.1, pb.1);
        assert(undelimited(pa) == seq![pa.0] + pa.1);
        assert(undelimited(pb) == seq![pa.0] + pb.1);
    }
    if a is N && b is N {
        encoding_preserves_order(a->N_0, b->N_0);
    }
}

/// Between a prefix and the prefix with the trailer lie exactly the keys that
/// have the prefix and continue with something no greater than the trailer.
pub proof fn prefix_range(p: Seq<u8>, k: Seq<u8>)
    ensures
        (lex_le(p, k) && lex_le(k, p + upper_trailer())) <==> (p.is_prefix_of(k) && lex_le(
            k.skip(p.len() as int),
            upper_trailer(),
        )),
{
    let t = upper_trailer();
    let e = p + t;
    if p.is_prefix_of(k) {
        let r = k.skip(p.len() as int);
        assert(k =~= p + r);
        lex_common_prefix(p, r, t);
        if p != k {
            assert(r.len() > 0);
            assert(lex_lt_at(p, k, p.len() as int));
        }
        if k == e {
            assert(r =~= t);
        }
    } else if lex_le(p, k) && lex_le(k, e) {
        assert(p != k) by {
            if p == k {
                assert(p.is_prefix_of(k));
            }
        }
        let i = lex_witness(p, k);
        if i == p.len() {
            assert(k.subrange(0, p.len() as int) =~= p);
            assert(false);
        }
        assert(lex_lt_at(e, k, i));
        lex_asymmetric(e, k);
        assert(false);
    }
}

/// Between the start of a partition and its end lie exactly the keys that begin
/// with its partition key, if what follows a partition key begins with a byte
/// below that of the trailer.
pub proof fn lemma_partition(p: (u8, Seq<u8>), q: (u8, Seq<u8>), rest: Seq<u8>)
    requires
        p.1.len() < 0x1_0000_0000,
        q.1.len() < 0x1_0000_0000,
        rest.len() > 0 ==> rest[0] < 0xFF,
    ensures
        (lex_le(delimited(p), delimited(q) + rest) && lex_le(
            delimited(q) + rest,
            delimited(p) + upper_trailer(),
        )) <==> p == q,
{
    let k = delimited(q) + rest;
    let d = delimited(p);
    prefix_range(d, k);
    lemma_delimited(q, rest);
    lemma_delimited(p, Seq::empty());
    assert(d + Seq::<u8>::empty() =~= d);
    let n = d.len() as int;
    if p == q {
        assert(k.subrange(0, n) =~= d);
        assert(k.skip(n) =~= rest);
        assert(lex_lt_at(rest, upper_trailer(), 0));
    } else if d.is_prefix_of(k) {
        let c = k.subrange(0, n);
        assert(c[0] == k[0]);
        assert(c.subrange(1, 5) =~= k.subrange(1, 5));
        assert(c.subrange(5, n) =~= k.subrange(5, n));
        assert(false);
    }
}

/// The bounds of a partition enclose exactly the rows of that partition: every
/// composite key with the partition key, and no key of another partition.
pub proof fn partition_range(pk: AttrView, item: ItemView, schema: SchemaView)
    requires
        key_part(pk) is Ok,
        row_key(item, schema) is Ok,
        part_fits(key_part(pk)),
        part_fits(item_part(item, key_name(schema, KeyType::Hash)->0, "missing key attr "@)),
    ensures
        ({
            let k = row_key(item, schema)->Ok_0;
            let inside = lex_le(partition_start(pk)->Ok_0, k) && lex_le(
                k,
                partition_end(pk)->Ok_0,
            );
            inside <==> item_part(
                item,
                key_name(schema, KeyType::Hash)->0,
                "missing key attr "@,
            ) == key_part(pk)
        }),
{
    let k = row_key(item, schema)->Ok_0;
    let q = item_part(item, key_name(schema, KeyType::Hash)->0, "missing key attr "@)->Ok_0;
    let rest = match key_name(schema, KeyType::Range) {
        None => Seq::empty(),
        Some(sk_name) => undelimited(
            item_part(item, sk_name, "missing key attr "@)->Ok_0,
        ),
    };
    assert(k =~= delimited(q) + rest);
    lemma_partition(key_part(pk)->Ok_0, q, rest);
}

} // verus!
