//! Global secondary indexes, kept in shadow tables.
//!
//! The row key of an index entry is
//!
//! ```text
//! [gsi_pk_tag:1][gsi_pk_len:4][gsi_pk_bytes]
//! [gsi_sk_tag:1][escaped gsi_sk_bytes][0x00 0x00]
//! [base_pk_tag:1][base_pk_len:4][base_pk_bytes]
//! [base_sk_tag:1][base_sk_bytes]
//! ```
//!
//! The index sort key stands in the middle and must keep its order there, so
//! each `0x00` in it is followed by `0xFF` and two `0x00` end it.

use vstd::prelude::*;
use vstd::string::*;
use vstd::utf8::encode_utf8;

use crate::bigtable::{cell_views, RowCell};
use crate::bytes::{
    be_value, bytes_slice, fnv1a, fnv1a_hash, lex_asymmetric, lex_common_prefix, lex_le, lex_lt,
    lex_lt_at, lex_total, lex_witness, push_bytes, read_u32_be,
};
use crate::debug::{upper_hex, upper_hex_text};
use crate::error::{internal, invalid, ErrView, StorageError};
use crate::item_ops::{present, row_item};
use crate::number::{encoding_preserves_order, number_lt, parse_number};
use crate::row_key::{
    decode_part, delimited, item_part, key_part, lemma_delimited, part_of_item, part_round_trip,
    part_value, push_delimited, push_undelimited, sk_tag_and_bytes, undelimited, MAX_ROW_KEY_SIZE,
};
use crate::text::{cat2, cat5, copy_texts, decimal, hex_digits, push_hex, text, usize_text, views};
use crate::value::{
    find_key, item_put, item_put_lookup, item_put_sorted, item_sorted, key_name, lookup,
    opt_item_view, schema_view, AttrView, AttributeValue, Item, ItemView, KeySchemaElement,
    KeyType, SchemaView,
};

verus! {

// ---------------------------------------------------------------------------
// Escaping
// ---------------------------------------------------------------------------

/// One byte, escaped.
pub open spec fn escaped_byte(b: u8) -> Seq<u8> {
    if b == 0x00 {
        seq![0x00u8, 0xFFu8]
    } else {
        seq![b]
    }
}

/// Bytes with `0xFF` after each `0x00`.
pub open spec fn escaped(b: Seq<u8>) -> Seq<u8>
    decreases b.len(),
{
    if b.len() == 0 {
        Seq::empty()
    } else {
        escaped_byte(b[0]) + escaped(b.skip(1))
    }
}

/// Escaped bytes with the terminator behind them.
pub open spec fn escaped_terminated(b: Seq<u8>) -> Seq<u8> {
    escaped(b) + seq![0x00u8, 0x00u8]
}

/// What an escaped segment at the beginning of `b` holds, and how long it is
/// with its terminator.
pub open spec fn unescaped(b: Seq<u8>) -> Result<(Seq<u8>, int), ErrView>
    decreases b.len(),
{
    if b.len() == 0 {
        Err(ErrView::Internal("malformed escaped bytes: missing terminator 0x00 0x00"@))
    } else if b[0] != 0x00 {
        match unescaped(b.skip(1)) {
            Ok((out, n)) => Ok((seq![b[0]] + out, n + 1)),
            Err(e) => Err(e),
        }
    } else if b.len() == 1 {
        Err(ErrView::Internal("malformed escaped bytes: trailing 0x00"@))
    } else if b[1] == 0x00 {
        Ok((Seq::empty(), 2))
    } else if b[1] == 0xFF {
        match unescaped(b.skip(2)) {
            Ok((out, n)) => Ok((seq![0x00u8] + out, n + 2)),
            Err(e) => Err(e),
        }
    } else {
        Err(
            ErrView::Internal(
                "malformed escaped bytes: 0x00 followed by invalid byte 0x"@ + upper_hex(b[1]),
            ),
        )
    }
}

/// What is left of `b` from `idx` on.
pub open spec fn tail(b: Seq<u8>, idx: int) -> Seq<u8> {
    if idx <= b.len() {
        b.skip(idx)
    } else {
        Seq::empty()
    }
}

proof fn lemma_escaped_push(b: Seq<u8>, x: u8)
    ensures
        escaped(b.push(x)) == escaped(b) + escaped_byte(x),
    decreases b.len(),
{
    let c = b.push(x);
    if b.len() == 0 {
        assert(c.skip(1) =~= Seq::<u8>::empty());
        assert(c[0] == x);
        assert(escaped(c.skip(1)) =~= Seq::<u8>::empty());
        assert(escaped(b) =~= Seq::<u8>::empty());
        assert(escaped(c) =~= escaped_byte(x) + Seq::<u8>::empty());
        assert(escaped(b) + escaped_byte(x) =~= escaped_byte(x));
    } else {
        lemma_escaped_push(b.skip(1), x);
        assert(c.skip(1) =~= b.skip(1).push(x));
        assert(escaped(c) =~= escaped(b) + escaped_byte(x));
    }
}

/// Escapes bytes.
pub fn escape_bytes(bytes: &[u8]) -> (r: Vec<u8>)
    ensures
        r@ == escaped(bytes@),
{
    let mut out: Vec<u8> = Vec::new();
    let mut i: usize = 0;
    assert(bytes@.take(0) =~= Seq::<u8>::empty());
    while i < bytes.len()
        invariant
            i <= bytes.len(),
            out@ == escaped(bytes@.take(i as int)),
        decreases bytes.len() - i,
    {
        let b: u8 = bytes[i];
        proof {
            lemma_escaped_push(bytes@.take(i as int), b);
            assert(bytes@.take(i + 1) =~= bytes@.take(i as int).push(b));
        }
        let ghost before = out@;
        if b == 0x00 {
            out.push(0x00);
            out.push(0xFF);
        } else {
            out.push(b);
        }
        assert(out@ =~= before + escaped_byte(b));
        i = i + 1;
    }
    assert(bytes@.take(i as int) =~= bytes@);
    out
}

/// Escapes bytes and puts the terminator behind them.
pub fn escape_bytes_terminated(bytes: &[u8]) -> (r: Vec<u8>)
    ensures
        r@ == escaped_terminated(bytes@),
{
    let mut out = escape_bytes(bytes);
    out.push(0x00);
    out.push(0x00);
    assert(out@ =~= escaped_terminated(bytes@));
    out
}

/// What a segment that begins with `done`, unescaped already, holds.
spec fn resumed(done: Seq<u8>, used: int, r: Result<(Seq<u8>, int), ErrView>) -> Result<
    (Seq<u8>, int),
    ErrView,
> {
    match r {
        Ok((out, n)) => Ok((done + out, used + n)),
        Err(e) => Err(e),
    }
}

/// Reads an escaped segment that begins at `idx`. Gives what it holds and the
/// position behind its terminator.
pub fn unescape_bytes_terminated(bytes: &[u8], idx: usize) -> (r: Result<
    (Vec<u8>, usize),
    StorageError,
>)
    ensures
        match r {
            Ok((out, next)) => unescaped(tail(bytes@, idx as int)) == Ok::<
                (Seq<u8>, int),
                ErrView,
            >((out@, next - idx)),
            Err(e) => unescaped(tail(bytes@, idx as int)) == Err::<(Seq<u8>, int), ErrView>(e@),
        },
{
    let mut out: Vec<u8> = Vec::new();
    let mut i: usize = idx;
    let ghost goal = unescaped(tail(bytes@, idx as int));
    proof {
        if let Ok((o, n)) = goal {
            assert(Seq::<u8>::empty() + o =~= o);
        }
    }
    while i < bytes.len()
        invariant
            idx <= i,
            i <= bytes.len() || i == idx,
            goal == unescaped(tail(bytes@, idx as int)),
            goal == resumed(out@, i - idx, unescaped(tail(bytes@, i as int))),
        decreases bytes.len() - i,
    {
        let ghost rest = tail(bytes@, i as int);
        let ghost before = out@;
        if bytes[i] == 0x00 {
            if i + 1 == bytes.len() {
                return Err(internal("malformed escaped bytes: trailing 0x00"));
            }
            let b: u8 = bytes[i + 1];
            if b == 0x00 {
                assert(out@ + Seq::<u8>::empty() =~= out@);
                return Ok((out, i + 2));
            } else if b == 0xFF {
                out.push(0x00);
                proof {
                    assert(rest.skip(2) =~= tail(bytes@, i + 2));
                    if let Ok((o, n)) = unescaped(rest.skip(2)) {
                        assert(out@ + o =~= before + (seq![0x00u8] + o));
                    }
                }
                i = i + 2;
            } else {
                return Err(
                    internal(
                        cat2(
                            "malformed escaped bytes: 0x00 followed by invalid byte 0x",
                            upper_hex_text(b).as_str(),
                        ).as_str(),
                    ),
                );
            }
        } else {
            out.push(bytes[i]);
            proof {
                assert(rest.skip(1) =~= tail(bytes@, i + 1));
                if let Ok((o, n)) = unescaped(rest.skip(1)) {
                    assert(out@ + o =~= before + (seq![rest[0]] + o));
                }
            }
            i = i + 1;
        }
    }
    assert(tail(bytes@, i as int) =~= Seq::<u8>::empty());
    Err(internal("malformed escaped bytes: missing terminator 0x00 0x00"))
}

/// Reading an escaped segment gives back what was escaped, and ends where the
/// segment ends, whatever follows it.
pub proof fn escape_round_trip(b: Seq<u8>, rest: Seq<u8>)
    ensures
        unescaped(escaped_terminated(b) + rest) == Ok::<(Seq<u8>, int), ErrView>(
            (b, escaped_terminated(b).len() as int),
        ),
    decreases b.len(),
{
    let k = escaped_terminated(b) + rest;
    if b.len() == 0 {
        assert(escaped(b) =~= Seq::<u8>::empty());
        assert(k[0] == 0 && k[1] == 0);
        assert(b =~= Seq::<u8>::empty());
    } else {
        let c = b.skip(1);
        escape_round_trip(c, rest);
        let e = escaped_byte(b[0]);
        assert(k =~= e + (escaped_terminated(c) + rest));
        assert(k.skip(e.len() as int) =~= escaped_terminated(c) + rest);
        assert(seq![b[0]] + c =~= b);
    }
}

/// Escaping keeps the order of byte strings, whatever follows the segments.
pub proof fn escape_preserves_order(a: Seq<u8>, b: Seq<u8>, x: Seq<u8>, y: Seq<u8>)
    requires
        lex_lt(a, b),
    ensures
        lex_lt(escaped_terminated(a) + x, escaped_terminated(b) + y),
    decreases a.len(),
{
    let i = lex_witness(a, b);
    let ka = escaped_terminated(a) + x;
    let kb = escaped_terminated(b) + y;
    if a.len() == 0 {
        assert(escaped(a) =~= Seq::<u8>::empty());
        assert(ka[0] == 0 && ka[1] == 0);
        if b[0] == 0 {
            assert(kb[0] == 0 && kb[1] == 0xFF);
            assert(lex_lt_at(ka, kb, 1));
        } else {
            assert(kb[0] == b[0]);
            assert(lex_lt_at(ka, kb, 0));
        }
    } else if i == 0 {
        assert(ka[0] == a[0]);
        assert(kb[0] == b[0]);
        assert(lex_lt_at(ka, kb, 0));
    } else {
        assert(a[0] == b[0]);
        let (c, d) = (a.skip(1), b.skip(1));
        assert forall|j: int| 0 <= j < i - 1 implies c[j] == d[j] by {
            assert(a[j + 1] == b[j + 1]);
        }
        assert(lex_lt_at(c, d, i - 1));
        escape_preserves_order(c, d, x, y);
        let e = escaped_byte(a[0]);
        assert(ka =~= e + (escaped_terminated(c) + x));
        assert(kb =~= e + (escaped_terminated(d) + y));
        lex_common_prefix(e, escaped_terminated(c) + x, escaped_terminated(d) + y);
    }
}

/// Bytes escaped begin with others escaped exactly where the bytes begin with the
/// others, whatever follows.
pub proof fn escape_preserves_prefix(b: Seq<u8>, a: Seq<u8>, x: Seq<u8>)
    ensures
        escaped(b).is_prefix_of(escaped_terminated(a) + x) <==> b.is_prefix_of(a),
        b.is_prefix_of(a) ==> escaped_terminated(a) + x == escaped(b) + (escaped_terminated(
            a.skip(b.len() as int),
        ) + x),
    decreases b.len(),
{
    let k = escaped_terminated(a) + x;
    let p = escaped(b);
    if b.len() == 0 {
        assert(k.subrange(0, 0) =~= p);
        assert(a.subrange(0, 0) =~= b);
        assert(a.skip(0) =~= a);
        assert(k =~= p + k);
    } else if a.len() == 0 {
        assert(escaped(a) =~= Seq::<u8>::empty());
        assert(k[0] == 0 && k[1] == 0);
        if p.is_prefix_of(k) {
            assert(p[0] == b[0]);
            assert(k.subrange(0, p.len() as int)[0] == k[0]);
            assert(k.subrange(0, p.len() as int)[1] == k[1]);
            assert(p[1] == 0xFF);
            assert(false);
        }
    } else {
        let (c, d) = (b.skip(1), a.skip(1));
        escape_preserves_prefix(c, d, x);
        let (eb, ea) = (escaped_byte(b[0]), escaped_byte(a[0]));
        let m = escaped_terminated(d) + x;
        assert(k =~= ea + m);
        assert(p == eb + escaped(c));
        if p.is_prefix_of(k) {
            assert(k.subrange(0, p.len() as int)[0] == k[0]);
            assert(p[0] == b[0] && k[0] == a[0]);
            assert forall|j: int| 0 <= j < escaped(c).len() implies escaped(c)[j] == m[j] by {
                assert(p[eb.len() + j] == k.subrange(0, p.len() as int)[eb.len() + j]);
            }
            assert(m.subrange(0, escaped(c).len() as int) =~= escaped(c));
            assert(d.subrange(0, c.len() as int) == c);
            assert forall|j: int| 0 <= j < b.len() implies b[j] == a[j] by {
                if j > 0 {
                    assert(c[j - 1] == d.subrange(0, c.len() as int)[j - 1]);
                }
            }
            assert(a.subrange(0, b.len() as int) =~= b);
        }
        if b.is_prefix_of(a) {
            assert(a[0] == a.subrange(0, b.len() as int)[0]);
            assert forall|j: int| 0 <= j < c.len() implies c[j] == d[j] by {
                assert(b[j + 1] == a.subrange(0, b.len() as int)[j + 1]);
            }
            assert(d.subrange(0, c.len() as int) =~= c);
            assert(d.skip(c.len() as int) =~= a.skip(b.len() as int));
            let r = escaped_terminated(a.skip(b.len() as int)) + x;
            assert(k =~= p + r);
            assert(k.subrange(0, p.len() as int) =~= p);
        }
    }
}

/// Bytes without `0x00` are escaped as they are.
proof fn lemma_escaped_plain(b: Seq<u8>)
    requires
        forall|i: int| 0 <= i < b.len() ==> #[trigger] b[i] != 0,
    ensures
        escaped(b) == b,
    decreases b.len(),
{
    if b.len() > 0 {
        let c = b.skip(1);
        assert forall|i: int| 0 <= i < c.len() implies #[trigger] c[i] != 0 by {
            assert(c[i] == b[i + 1]);
        }
        lemma_escaped_plain(c);
        assert(b[0] != 0);
        assert(seq![b[0]] + c =~= b);
    } else {
        assert(escaped(b) =~= b);
    }
}

/// Escaped bytes are within a trailer of `0xFF` exactly where the bytes do not
/// begin with it.
pub proof fn escaped_below(a: Seq<u8>, x: Seq<u8>, t: Seq<u8>)
    requires
        forall|i: int| 0 <= i < t.len() ==> #[trigger] t[i] == 0xFF,
    ensures
        lex_le(escaped_terminated(a) + x, t) <==> !t.is_prefix_of(a),
{
    let k = escaped_terminated(a) + x;
    lemma_escaped_plain(t);
    escape_preserves_prefix(t, a, x);
    if t.is_prefix_of(a) {
        let rest = escaped_terminated(a.skip(t.len() as int)) + x;
        assert(k == t + rest);
        assert(lex_lt_at(t, k, t.len() as int));
        lex_asymmetric(t, k);
        lex_asymmetric(t, t);
    } else {
        lex_total(k, t);
        if lex_lt(t, k) {
            let i = lex_witness(t, k);
            if i == t.len() {
                assert(k.subrange(0, i) =~= t);
            } else {
                assert(t[i] == 0xFF);
            }
            assert(false);
        }
    }
}

// ---------------------------------------------------------------------------
// Shadow tables
// ---------------------------------------------------------------------------

/// The table that holds the entries of an index: eight hexadecimal digits of a
/// hash of the index name, behind the name of the base table.
pub open spec fn shadow_table(base: Seq<char>, index: Seq<char>) -> Seq<char> {
    base + "_g"@ + hex_digits(fnv1a(encode_utf8(index)) as nat, 8)
}

/// Derives the id of a shadow table.
pub fn shadow_table_id(base_data_table: &str, index_name: &str) -> (r: String)
    ensures
        r@ == shadow_table(base_data_table@, index_name@),
{
    let h: u64 = fnv1a_hash(index_name.as_bytes());
    let mut out = cat2(base_data_table, "_g");
    push_hex(&mut out, h as u128, 8);
    out
}

/// The part of an index entry's key that the index attributes make, or nothing
/// where the item lacks one of them.
pub open spec fn index_part(item: ItemView, gsi: SchemaView) -> Result<Option<Seq<u8>>, ErrView> {
    match key_name(gsi, KeyType::Hash) {
        None => Err(ErrView::Validation("GSI missing HASH key"@)),
        Some(pk_name) => match lookup(item, pk_name) {
            None => Ok(None),
            Some(pv) => match key_part(pv) {
                Err(e) => Err(e),
                Ok(pk) => match key_name(gsi, KeyType::Range) {
                    None => Ok(Some(delimited(pk))),
                    Some(sk_name) => match lookup(item, sk_name) {
                        None => Ok(None),
                        Some(sv) => match key_part(sv) {
                            Err(e) => Err(e),
                            Ok(sk) => Ok(
                                Some(delimited(pk) + (seq![sk.0] + escaped_terminated(sk.1))),
                            ),
                        },
                    },
                },
            },
        },
    }
}

/// The part of an index entry's key that the base key attributes make.
pub open spec fn base_part(item: ItemView, base: SchemaView) -> Result<Seq<u8>, ErrView> {
    match key_name(base, KeyType::Hash) {
        None => Err(ErrView::Validation("base table missing HASH key"@)),
        Some(pk_name) => match item_part(item, pk_name, "item missing key attr "@) {
            Err(e) => Err(e),
            Ok(pk) => match key_name(base, KeyType::Range) {
                None => Ok(delimited(pk)),
                Some(sk_name) => match item_part(item, sk_name, "item missing key attr "@) {
                    Err(e) => Err(e),
                    Ok(sk) => Ok(delimited(pk) + undelimited(sk)),
                },
            },
        },
    }
}

/// The row key of an item's entry in an index. There is none where the item
/// lacks an index attribute, and a key that is too long is refused.
pub open spec fn shadow_key(item: ItemView, gsi: SchemaView, base: SchemaView) -> Result<
    Option<Seq<u8>>,
    ErrView,
> {
    match index_part(item, gsi) {
        Err(e) => Err(e),
        Ok(None) => Ok(None),
        Ok(Some(p)) => match base_part(item, base) {
            Err(e) => Err(e),
            Ok(q) => if (p + q).len() > MAX_ROW_KEY_SIZE {
                Err(
                    ErrView::Validation(
                        "encoded GSI shadow row key size ("@ + decimal((p + q).len())
                            + " bytes) exceeds Bigtable maximum limit of "@ + decimal(
                            MAX_ROW_KEY_SIZE as nat,
                        ) + " bytes"@,
                    ),
                )
            } else {
                Ok(Some(p + q))
            },
        },
    }
}

/// What a row key is, where there is one.
pub open spec fn opt_bytes(k: Option<Vec<u8>>) -> Option<Seq<u8>> {
    match k {
        Some(b) => Some(b@),
        None => None,
    }
}

fn index_key_part(item: &Item, gsi_key_schema: &[KeySchemaElement]) -> (r: Result<
    Option<Vec<u8>>,
    StorageError,
>)
    ensures
        match r {
            Ok(k) => index_part(item@, schema_view(gsi_key_schema@)) == Ok::<
                Option<Seq<u8>>,
                ErrView,
            >(opt_bytes(k)),
            Err(e) => index_part(item@, schema_view(gsi_key_schema@)) == Err::<
                Option<Seq<u8>>,
                ErrView,
            >(e@),
        },
{
    let pk_name = match find_key(gsi_key_schema, KeyType::Hash) {
        Some(n) => n,
        None => {
            return Err(invalid("GSI missing HASH key"));
        },
    };
    let pk_val = match item.get(pk_name.as_str()) {
        Some(v) => v,
        None => {
            return Ok(None);
        },
    };
    let pk = match sk_tag_and_bytes(pk_val) {
        Ok(p) => p,
        Err(e) => {
            return Err(e);
        },
    };
    let mut out: Vec<u8> = Vec::new();
    push_delimited(&mut out, pk.0, pk.1.as_slice());
    assert(out@ =~= delimited((pk.0, pk.1@)));
    match find_key(gsi_key_schema, KeyType::Range) {
        None => {},
        Some(sk_name) => {
            let sk_val = match item.get(sk_name.as_str()) {
                Some(v) => v,
                None => {
                    return Ok(None);
                },
            };
            let sk = match sk_tag_and_bytes(sk_val) {
                Ok(p) => p,
                Err(e) => {
                    return Err(e);
                },
            };
            let ghost before = out@;
            let e = escape_bytes_terminated(sk.1.as_slice());
            out.push(sk.0);
            push_bytes(&mut out, e.as_slice());
            assert(out@ =~= before + (seq![sk.0] + escaped_terminated(sk.1@)));
        },
    }
    Ok(Some(out))
}

/// Builds the row key of an item's entry in an index.
pub fn shadow_row_key_for_item(
    item: &Item,
    gsi_key_schema: &[KeySchemaElement],
    base_key_schema: &[KeySchemaElement],
) -> (r: Result<Option<Vec<u8>>, StorageError>)
    ensures
        match r {
            Ok(k) => shadow_key(
                item@,
                schema_view(gsi_key_schema@),
                schema_view(base_key_schema@),
            ) == Ok::<Option<Seq<u8>>, ErrView>(opt_bytes(k)),
            Err(e) => shadow_key(
                item@,
                schema_view(gsi_key_schema@),
                schema_view(base_key_schema@),
            ) == Err::<Option<Seq<u8>>, ErrView>(e@),
        },
{
    let mut out = match index_key_part(item, gsi_key_schema) {
        Err(e) => {
            return Err(e);
        },
        Ok(None) => {
            return Ok(None);
        },
        Ok(Some(p)) => p,
    };
    let ghost p = out@;
    let pk_name = match find_key(base_key_schema, KeyType::Hash) {
        Some(n) => n,
        None => {
            return Err(invalid("base table missing HASH key"));
        },
    };
    let pk = match part_of_item(item, pk_name.as_str(), "item missing key attr ") {
        Ok(p) => p,
        Err(e) => {
            return Err(e);
        },
    };
    push_delimited(&mut out, pk.0, pk.1.as_slice());
    match find_key(base_key_schema, KeyType::Range) {
        None => {},
        Some(sk_name) => {
            let sk = match part_of_item(item, sk_name.as_str(), "item missing key attr ") {
                Ok(p) => p,
                Err(e) => {
                    return Err(e);
                },
            };
            push_undelimited(&mut out, sk.0, sk.1.as_slice());
            assert(out@ =~= p + (delimited((pk.0, pk.1@)) + undelimited((sk.0, sk.1@))));
        },
    }
    if out.len() > MAX_ROW_KEY_SIZE {
        return Err(
            invalid(
                cat5(
                    "encoded GSI shadow row key size (",
                    usize_text(out.len()).as_str(),
                    " bytes) exceeds Bigtable maximum limit of ",
                    usize_text(MAX_ROW_KEY_SIZE).as_str(),
                    " bytes",
                ).as_str(),
            ),
        );
    }
    Ok(Some(out))
}

// ---------------------------------------------------------------------------
// Reading an entry's key
// ---------------------------------------------------------------------------

/// The attribute value that a tag and bytes in an entry's key stand for.
pub open spec fn attr_value(tag: u8, b: Seq<u8>) -> Result<AttrView, ErrView> {
    part_value(tag, b, "decode S: "@, "unknown tag: 0x"@ + upper_hex(tag))
}

/// Reads an attribute value from its tag and bytes.
pub fn decode_attr_value(tag: u8, bytes: &[u8]) -> (r: Result<AttributeValue, StorageError>)
    ensures
        match r {
            Ok(v) => attr_value(tag, bytes@) == Ok::<AttrView, ErrView>(v@),
            Err(e) => attr_value(tag, bytes@) == Err::<AttrView, ErrView>(e@),
        },
{
    decode_part(
        tag,
        bytes,
        "decode S: ",
        cat2("unknown tag: 0x", upper_hex_text(tag).as_str()).as_str(),
    )
}

/// The value of a delimited part at `idx`, and the position behind it.
pub open spec fn delimited_at(
    key: Seq<u8>,
    idx: int,
    header_error: Seq<char>,
    bytes_error: Seq<char>,
) -> Result<(AttrView, int), ErrView> {
    let n = be_value(key.subrange(idx + 1, idx + 5)) as int;
    if key.len() < idx + 5 {
        Err(ErrView::Internal(header_error))
    } else if key.len() < idx + 5 + n {
        Err(ErrView::Internal(bytes_error))
    } else {
        match attr_value(key[idx], key.subrange(idx + 5, idx + 5 + n)) {
            Ok(v) => Ok((v, idx + 5 + n)),
            Err(e) => Err(e),
        }
    }
}

fn read_delimited(key: &[u8], idx: usize, header_error: &str, bytes_error: &str) -> (r: Result<
    (AttributeValue, usize),
    StorageError,
>)
    requires
        idx <= key.len(),
    ensures
        match r {
            Ok((v, next)) => delimited_at(key@, idx as int, header_error@, bytes_error@) == Ok::<
                (AttrView, int),
                ErrView,
            >((v@, next as int)) && idx + 5 <= next <= key.len(),
            Err(e) => delimited_at(key@, idx as int, header_error@, bytes_error@) == Err::<
                (AttrView, int),
                ErrView,
            >(e@),
        },
{
    if key.len() - idx < 5 {
        return Err(internal(header_error));
    }
    let tag: u8 = key[idx];
    let n: u32 = read_u32_be(key, idx + 1);
    if ((key.len() - idx - 5) as u64) < n as u64 {
        return Err(internal(bytes_error));
    }
    let end: usize = idx + 5 + n as usize;
    let b = bytes_slice(key, idx + 5, end);
    match decode_attr_value(tag, b.as_slice()) {
        Ok(v) => Ok((v, end)),
        Err(e) => Err(e),
    }
}

/// The index attributes that an entry's key holds, and the position behind
/// them.
pub open spec fn index_item(key: Seq<u8>, gsi: SchemaView) -> Result<(ItemView, int), ErrView> {
    match key_name(gsi, KeyType::Hash) {
        None => Err(ErrView::Validation("GSI missing HASH key"@)),
        Some(pk_name) => match delimited_at(
            key,
            0,
            "malformed shadow row key (GSI PK header)"@,
            "malformed shadow row key (GSI PK bytes)"@,
        ) {
            Err(e) => Err(e),
            Ok((pv, idx)) => {
                let item = item_put(Seq::empty(), pk_name, pv);
                match key_name(gsi, KeyType::Range) {
                    None => Ok((item, idx)),
                    Some(sk_name) => if key.len() < idx + 1 {
                        Err(ErrView::Internal("missing GSI SK tag in shadow row key"@))
                    } else {
                        match unescaped(key.skip(idx + 1)) {
                            Err(e) => Err(e),
                            Ok((b, n)) => match attr_value(key[idx], b) {
                                Err(e) => Err(e),
                                Ok(sv) => Ok((item_put(item, sk_name, sv), idx + 1 + n)),
                            },
                        }
                    },
                }
            },
        },
    }
}

/// The index and base key attributes that an entry's key holds.
pub open spec fn shadow_item(key: Seq<u8>, gsi: SchemaView, base: SchemaView) -> Result<
    ItemView,
    ErrView,
> {
    if key.len() == 0 {
        Err(ErrView::Internal("empty shadow row key"@))
    } else {
        match index_item(key, gsi) {
            Err(e) => Err(e),
            Ok((item, idx)) => match key_name(base, KeyType::Hash) {
                None => Err(ErrView::Validation("base table missing HASH key"@)),
                Some(pk_name) => match delimited_at(
                    key,
                    idx,
                    "malformed shadow row key (Base PK header)"@,
                    "malformed shadow row key (Base PK bytes)"@,
                ) {
                    Err(e) => Err(e),
                    Ok((pv, next)) => {
                        let with_pk = item_put(item, pk_name, pv);
                        match key_name(base, KeyType::Range) {
                            None => Ok(with_pk),
                            Some(sk_name) => if key.len() < next + 1 {
                                Err(ErrView::Internal("missing Base SK tag in shadow row key"@))
                            } else {
                                match attr_value(key[next], key.skip(next + 1)) {
                                    Err(e) => Err(e),
                                    Ok(sv) => Ok(item_put(with_pk, sk_name, sv)),
                                }
                            },
                        }
                    },
                },
            },
        }
    }
}

proof fn lemma_unescaped_within(b: Seq<u8>)
    ensures
        unescaped(b) matches Ok((out, n)) ==> 2 <= n <= b.len(),
    decreases b.len(),
{
    if b.len() > 0 {
        lemma_unescaped_within(b.skip(1));
        if b.len() > 1 {
            lemma_unescaped_within(b.skip(2));
        }
    }
}

/// Reads the index and base key attributes out of an entry's key.
pub fn decode_shadow_row_key(
    key: &[u8],
    gsi_key_schema: &[KeySchemaElement],
    base_key_schema: &[KeySchemaElement],
) -> (r: Result<Item, StorageError>)
    ensures
        match r {
            Ok(i) => shadow_item(
                key@,
                schema_view(gsi_key_schema@),
                schema_view(base_key_schema@),
            ) == Ok::<ItemView, ErrView>(i@),
            Err(e) => shadow_item(
                key@,
                schema_view(gsi_key_schema@),
                schema_view(base_key_schema@),
            ) == Err::<ItemView, ErrView>(e@),
        },
{
    if key.len() == 0 {
        return Err(internal("empty shadow row key"));
    }
    let mut item = Item::new();
    let gsi_pk = match find_key(gsi_key_schema, KeyType::Hash) {
        Some(n) => n,
        None => {
            return Err(invalid("GSI missing HASH key"));
        },
    };
    let (pk_val, after_pk) = match read_delimited(
        key,
        0,
        "malformed shadow row key (GSI PK header)",
        "malformed shadow row key (GSI PK bytes)",
    ) {
        Ok(p) => p,
        Err(e) => {
            return Err(e);
        },
    };
    item.insert(text(gsi_pk.as_str()), pk_val);
    let mut idx: usize = after_pk;
    match find_key(gsi_key_schema, KeyType::Range) {
        None => {},
        Some(gsi_sk) => {
            if key.len() == idx {
                return Err(internal("missing GSI SK tag in shadow row key"));
            }
            let tag: u8 = key[idx];
            proof {
                lemma_unescaped_within(key@.skip(idx + 1));
            }
            let (b, next) = match unescape_bytes_terminated(key, idx + 1) {
                Ok(p) => p,
                Err(e) => {
                    return Err(e);
                },
            };
            idx = next;
            match decode_attr_value(tag, b.as_slice()) {
                Ok(v) => {
                    item.insert(text(gsi_sk.as_str()), v);
                },
                Err(e) => {
                    return Err(e);
                },
            }
        },
    }
    assert(index_item(key@, schema_view(gsi_key_schema@)) == Ok::<(ItemView, int), ErrView>(
        (item@, idx as int),
    ));
    let base_pk = match find_key(base_key_schema, KeyType::Hash) {
        Some(n) => n,
        None => {
            return Err(invalid("base table missing HASH key"));
        },
    };
    let (base_val, after_base) = match read_delimited(
        key,
        idx,
        "malformed shadow row key (Base PK header)",
        "malformed shadow row key (Base PK bytes)",
    ) {
        Ok(p) => p,
        Err(e) => {
            return Err(e);
        },
    };
    item.insert(text(base_pk.as_str()), base_val);
    match find_key(base_key_schema, KeyType::Range) {
        None => {},
        Some(base_sk) => {
            if key.len() == after_base {
                return Err(internal("missing Base SK tag in shadow row key"));
            }
            let tag: u8 = key[after_base];
            let b = bytes_slice(key, after_base + 1, key.len());
            assert(b@ =~= key@.skip(after_base + 1));
            match decode_attr_value(tag, b.as_slice()) {
                Ok(v) => {
                    item.insert(text(base_sk.as_str()), v);
                },
                Err(e) => {
                    return Err(e);
                },
            }
        },
    }
    Ok(item)
}

/// The prefix of all entries with the given index partition key.
pub fn shadow_prefix_for_pk(pk: &AttributeValue) -> (r: Result<Vec<u8>, StorageError>)
    ensures
        match r {
            Ok(k) => crate::row_key::partition_start(pk@) == Ok::<Seq<u8>, ErrView>(k@),
            Err(e) => crate::row_key::partition_start(pk@) == Err::<Seq<u8>, ErrView>(e@),
        },
{
    let p = match sk_tag_and_bytes(pk) {
        Ok(p) => p,
        Err(e) => {
            return Err(e);
        },
    };
    let mut out: Vec<u8> = Vec::new();
    push_delimited(&mut out, p.0, p.1.as_slice());
    assert(out@ =~= delimited((p.0, p.1@)));
    Ok(out)
}


// ---------------------------------------------------------------------------
// Laws of entry keys
// ---------------------------------------------------------------------------

/// The names of the attributes that an entry's key is made of.
pub open spec fn is_key_name(name: Seq<char>, gsi: SchemaView, base: SchemaView) -> bool {
    ||| key_name(gsi, KeyType::Hash) == Some(name)
    ||| key_name(gsi, KeyType::Range) == Some(name)
    ||| key_name(base, KeyType::Hash) == Some(name)
    ||| key_name(base, KeyType::Range) == Some(name)
}

/// The value that the attribute `name` has after its part of the key was read
/// back.
spec fn read_back(item: ItemView, name: Seq<char>) -> AttrView {
    let p = key_part(lookup(item, name)->0)->Ok_0;
    attr_value(p.0, p.1)->Ok_0
}

/// Every attribute of `d` is one of `item`, read back from the key.
spec fn holds_read_back(d: ItemView, item: ItemView) -> bool {
    forall|n: Seq<char>|
        #[trigger] lookup(d, n) is Some ==> lookup(d, n) == Some(read_back(item, n))
}

proof fn lemma_put_read_back(d: ItemView, item: ItemView, name: Seq<char>)
    requires
        holds_read_back(d, item),
    ensures
        ({
            let e = item_put(d, name, read_back(item, name));
            &&& holds_read_back(e, item)
            &&& lookup(e, name) is Some
            &&& forall|n: Seq<char>| #[trigger] lookup(d, n) is Some ==> lookup(e, n) is Some
        }),
{
    let v = read_back(item, name);
    let e = item_put(d, name, v);
    assert forall|n: Seq<char>| #[trigger] lookup(e, n) is Some implies lookup(e, n) == Some(
        read_back(item, n),
    ) by {
        item_put_lookup(d, name, v, n);
    }
    item_put_lookup(d, name, v, name);
    assert forall|n: Seq<char>| #[trigger] lookup(d, n) is Some implies lookup(e, n) is Some by {
        item_put_lookup(d, name, v, n);
    }
}

proof fn lemma_delimited_at(before: Seq<u8>, part: (u8, Seq<u8>), rest: Seq<u8>, he: Seq<char>, be: Seq<char>)
    requires
        part.1.len() < 0x1_0000_0000,
        attr_value(part.0, part.1) is Ok,
    ensures
        delimited_at(before + (delimited(part) + rest), before.len() as int, he, be) == Ok::<
            (AttrView, int),
            ErrView,
        >((attr_value(part.0, part.1)->Ok_0, (before.len() + delimited(part).len()) as int)),
{
    lemma_delimited(part, rest);
    let t = delimited(part) + rest;
    let k = before + t;
    let idx = before.len() as int;
    let n = part.1.len() as int;
    assert(k.subrange(idx + 1, idx + 5) =~= t.subrange(1, 5));
    assert(k.subrange(idx + 5, idx + 5 + n) =~= t.subrange(5, 5 + n));
    assert(k[idx] == t[0]);
}

/// The part of the key that the attribute `name` makes can be read back.
spec fn readable(item: ItemView, name: Seq<char>) -> bool {
    let v = lookup(item, name)->0;
    let p = key_part(v)->Ok_0;
    &&& lookup(item, name) is Some
    &&& key_part(v) is Ok
    &&& attr_value(p.0, p.1) is Ok
    &&& key_part(read_back(item, name)) == key_part(v)
    &&& (v is S || v is B ==> read_back(item, name) == v)
}

proof fn lemma_readable(item: ItemView, name: Seq<char>)
    requires
        lookup(item, name) is Some,
        key_part(lookup(item, name)->0) is Ok,
    ensures
        readable(item, name),
{
    let v = lookup(item, name)->0;
    let part = key_part(v)->Ok_0;
    part_round_trip(v, "decode S: "@, "unknown tag: 0x"@ + upper_hex(part.0));
}

/// The index attributes read from the beginning of a key.
proof fn lemma_index_read(item: ItemView, gsi: SchemaView, q: Seq<u8>) -> (d: ItemView)
    requires
        index_part(item, gsi) matches Ok(Some(_)),
        index_part(item, gsi)->Ok_0->0.len() <= MAX_ROW_KEY_SIZE,
    ensures
        ({
            let p = index_part(item, gsi)->Ok_0->0;
            &&& index_item(p + q, gsi) == Ok::<(ItemView, int), ErrView>((d, p.len() as int))
            &&& holds_read_back(d, item)
            &&& p.len() > 0
            &&& key_name(gsi, KeyType::Hash) matches Some(n) && readable(item, n) && lookup(d, n) is Some
            &&& key_name(gsi, KeyType::Range) matches Some(n) ==> readable(item, n) && lookup(
                d,
                n,
            ) is Some
        }),
{
    let p = index_part(item, gsi)->Ok_0->0;
    let k = p + q;
    let gp_name = key_name(gsi, KeyType::Hash)->0;
    lemma_readable(item, gp_name);
    let gp = key_part(lookup(item, gp_name)->0)->Ok_0;
    let (he, be) = (
        "malformed shadow row key (GSI PK header)"@,
        "malformed shadow row key (GSI PK bytes)"@,
    );
    let none = Seq::<(Seq<char>, AttrView)>::empty();
    assert(holds_read_back(none, item));
    let d1 = item_put(none, gp_name, read_back(item, gp_name));
    lemma_put_read_back(none, item, gp_name);
    if let Some(gs_name) = key_name(gsi, KeyType::Range) {
        lemma_readable(item, gs_name);
        let gs = key_part(lookup(item, gs_name)->0)->Ok_0;
        let esc = escaped_terminated(gs.1);
        let rest = seq![gs.0] + esc + q;
        assert(p == delimited(gp) + (seq![gs.0] + esc));
        lemma_delimited(gp, seq![gs.0] + esc);
        assert(k =~= delimited(gp) + rest);
        lemma_delimited_at(Seq::empty(), gp, rest, he, be);
        assert(Seq::<u8>::empty() + (delimited(gp) + rest) =~= k);
        let idx = delimited(gp).len() as int;
        assert(k[idx] == gs.0);
        assert(k.skip(idx + 1) =~= esc + q);
        escape_round_trip(gs.1, q);
        let d2 = item_put(d1, gs_name, read_back(item, gs_name));
        lemma_put_read_back(d1, item, gs_name);
        d2
    } else {
        lemma_delimited(gp, Seq::empty());
        lemma_delimited_at(Seq::empty(), gp, q, he, be);
        assert(Seq::<u8>::empty() + (delimited(gp) + q) =~= k);
        d1
    }
}

/// The base key attributes read from the end of a key.
proof fn lemma_base_read(item: ItemView, base: SchemaView, p: Seq<u8>, gsi: SchemaView, d: ItemView) -> (r:
    ItemView)
    requires
        base_part(item, base) is Ok,
        (p + base_part(item, base)->Ok_0).len() <= MAX_ROW_KEY_SIZE,
        p.len() > 0,
        index_item(p + base_part(item, base)->Ok_0, gsi) == Ok::<(ItemView, int), ErrView>(
            (d, p.len() as int),
        ),
        holds_read_back(d, item),
    ensures
        shadow_item(p + base_part(item, base)->Ok_0, gsi, base) == Ok::<ItemView, ErrView>(r),
        holds_read_back(r, item),
        forall|n: Seq<char>| #[trigger] lookup(d, n) is Some ==> lookup(r, n) is Some,
        key_name(base, KeyType::Hash) matches Some(n) && readable(item, n) && lookup(r, n) is Some,
        key_name(base, KeyType::Range) matches Some(n) ==> readable(item, n) && lookup(
            r,
            n,
        ) is Some,
{
    let q = base_part(item, base)->Ok_0;
    let k = p + q;
    let bp_name = key_name(base, KeyType::Hash)->0;
    lemma_readable(item, bp_name);
    let bp = key_part(lookup(item, bp_name)->0)->Ok_0;
    let (he, be) = (
        "malformed shadow row key (Base PK header)"@,
        "malformed shadow row key (Base PK bytes)"@,
    );
    let d3 = item_put(d, bp_name, read_back(item, bp_name));
    lemma_put_read_back(d, item, bp_name);
    if let Some(bs_name) = key_name(base, KeyType::Range) {
        lemma_readable(item, bs_name);
        let bs = key_part(lookup(item, bs_name)->0)->Ok_0;
        lemma_delimited(bp, undelimited(bs));
        lemma_delimited_at(p, bp, undelimited(bs), he, be);
        let next = (p.len() + delimited(bp).len()) as int;
        assert(k[next] == bs.0);
        assert(k.skip(next + 1) =~= bs.1);
        lemma_put_read_back(d3, item, bs_name);
        item_put(d3, bs_name, read_back(item, bs_name))
    } else {
        lemma_delimited(bp, Seq::empty());
        assert(delimited(bp) + Seq::<u8>::empty() =~= delimited(bp));
        lemma_delimited_at(p, bp, Seq::empty(), he, be);
        d3
    }
}

/// Reading an entry's key gives attributes that make the same key again: the
/// ends of all parts are found where they were put.
pub proof fn shadow_key_round_trip(item: ItemView, gsi: SchemaView, base: SchemaView)
    requires
        shadow_key(item, gsi, base) matches Ok(Some(_)),
    ensures
        ({
            let k = shadow_key(item, gsi, base)->Ok_0->0;
            &&& shadow_item(k, gsi, base) matches Ok(d) && shadow_key(d, gsi, base) == Ok::<
                Option<Seq<u8>>,
                ErrView,
            >(Some(k)) && forall|n: Seq<char>|
                #![trigger lookup(d, n)]
                is_key_name(n, gsi, base) ==> ({
                    &&& lookup(d, n) matches Some(w) && key_part(w) == key_part(lookup(item, n)->0)
                    &&& lookup(item, n)->0 is S || lookup(item, n)->0 is B ==> lookup(d, n)
                        == lookup(item, n)
                })
        }),
{
    let p = index_part(item, gsi)->Ok_0->0;
    let q = base_part(item, base)->Ok_0;
    let d2 = lemma_index_read(item, gsi, q);
    let d = lemma_base_read(item, base, p, gsi, d2);
    assert forall|n: Seq<char>| is_key_name(n, gsi, base) implies #[trigger] lookup(d, n) == Some(
        read_back(item, n),
    ) && readable(item, n) by {
        assert(lookup(d, n) is Some);
    }
    assert(index_part(d, gsi) == index_part(item, gsi)) by {
        let n = key_name(gsi, KeyType::Hash)->0;
        assert(is_key_name(n, gsi, base));
        assert(lookup(d, n) == Some(read_back(item, n)));
        if let Some(m) = key_name(gsi, KeyType::Range) {
            assert(is_key_name(m, gsi, base));
            assert(lookup(d, m) == Some(read_back(item, m)));
        }
    }
    assert(base_part(d, base) == base_part(item, base)) by {
        let n = key_name(base, KeyType::Hash)->0;
        assert(is_key_name(n, gsi, base));
        assert(lookup(d, n) == Some(read_back(item, n)));
        if let Some(m) = key_name(base, KeyType::Range) {
            assert(is_key_name(m, gsi, base));
            assert(lookup(d, m) == Some(read_back(item, m)));
        }
    }
}

/// No two different keys collide: items with the same entry key agree in every
/// part that the key is made of.
pub proof fn shadow_keys_unambiguous(
    x: ItemView,
    y: ItemView,
    gsi: SchemaView,
    base: SchemaView,
    name: Seq<char>,
)
    requires
        shadow_key(x, gsi, base) matches Ok(Some(_)),
        shadow_key(x, gsi, base) == shadow_key(y, gsi, base),
        is_key_name(name, gsi, base),
    ensures
        key_part(lookup(x, name)->0) == key_part(lookup(y, name)->0),
{
    shadow_key_round_trip(x, gsi, base);
    shadow_key_round_trip(y, gsi, base);
    let d = shadow_item(shadow_key(x, gsi, base)->Ok_0->0, gsi, base)->Ok_0;
    assert(lookup(d, name) is Some);
}

/// Entries with the same index partition key sort by the index sort key, text
/// and bytes as byte strings and numbers as numbers, whatever their base keys.
pub proof fn index_sort_order(
    x: ItemView,
    y: ItemView,
    gsi: SchemaView,
    base: SchemaView,
    sk_name: Seq<char>,
)
    requires
        shadow_key(x, gsi, base) matches Ok(Some(_)),
        shadow_key(y, gsi, base) matches Ok(Some(_)),
        key_name(gsi, KeyType::Range) == Some(sk_name),
        key_part(lookup(x, key_name(gsi, KeyType::Hash)->0)->0) == key_part(
            lookup(y, key_name(gsi, KeyType::Hash)->0)->0,
        ),
    ensures
        ({
            let kx = shadow_key(x, gsi, base)->Ok_0->0;
            let ky = shadow_key(y, gsi, base)->Ok_0->0;
            let a = lookup(x, sk_name)->0;
            let b = lookup(y, sk_name)->0;
            &&& a is S && b is S && lex_lt(encode_utf8(a->S_0), encode_utf8(b->S_0)) ==> lex_lt(
                kx,
                ky,
            )
            &&& a is B && b is B && lex_lt(a->B_0, b->B_0) ==> lex_lt(kx, ky)
            &&& a is N && b is N && number_lt(
                parse_number(a->N_0)->Ok_0,
                parse_number(b->N_0)->Ok_0,
            ) ==> lex_lt(kx, ky)
        }),
{
    let kx = shadow_key(x, gsi, base)->Ok_0->0;
    let ky = shadow_key(y, gsi, base)->Ok_0->0;
    let a = lookup(x, sk_name)->0;
    let b = lookup(y, sk_name)->0;
    let pk = delimited(key_part(lookup(x, key_name(gsi, KeyType::Hash)->0)->0)->Ok_0);
    let sa = key_part(a)->Ok_0;
    let sb = key_part(b)->Ok_0;
    let qx = base_part(x, base)->Ok_0;
    let qy = base_part(y, base)->Ok_0;
    if a is N && b is N {
        encoding_preserves_order(a->N_0, b->N_0);
    }
    if sa.0 == sb.0 && lex_lt(sa.1, sb.1) {
        escape_preserves_order(sa.1, sb.1, qx, qy);
        let head = pk + seq![sa.0];
        assert(kx =~= head + (escaped_terminated(sa.1) + qx));
        assert(ky =~= head + (escaped_terminated(sb.1) + qy));
        lex_common_prefix(head, escaped_terminated(sa.1) + qx, escaped_terminated(sb.1) + qy);
    }
}

// ---------------------------------------------------------------------------
// Projection
// ---------------------------------------------------------------------------

/// Which attributes an index copies from its table.
#[derive(Clone, Copy, Debug, PartialEq, Eq, Structural)]
pub enum ProjectionType {
    All,
    KeysOnly,
    Include,
}

/// Which attributes an index copies, and the further ones that it names.
#[derive(Debug, PartialEq, Eq)]
pub struct Projection {
    pub projection_type: ProjectionType,
    pub non_key_attributes: Option<Vec<String>>,
}

/// What a [`Projection`] is.
pub struct ProjectionView {
    pub projection_type: ProjectionType,
    pub non_key_attributes: Option<Seq<Seq<char>>>,
}

impl Projection {
    pub open spec fn view(&self) -> ProjectionView {
        ProjectionView {
            projection_type: self.projection_type,
            non_key_attributes: match self.non_key_attributes {
                Some(v) => Some(views(v@)),
                None => None,
            },
        }
    }
}

impl Clone for Projection {
    fn clone(&self) -> (r: Projection)
        ensures
            r@ == self@,
    {
        Projection {
            projection_type: self.projection_type,
            non_key_attributes: match &self.non_key_attributes {
                Some(v) => Some(copy_texts(v.as_slice())),
                None => None,
            },
        }
    }
}

/// The attributes of `item` with one of the given names.
pub open spec fn picked(item: ItemView, names: Seq<Seq<char>>) -> ItemView
    decreases names.len(),
{
    if names.len() == 0 {
        Seq::empty()
    } else {
        let rest = picked(item, names.drop_last());
        match lookup(item, names.last()) {
            Some(v) => item_put(rest, names.last(), v),
            None => rest,
        }
    }
}

/// The names in a key schema.
pub open spec fn schema_names(s: SchemaView) -> Seq<Seq<char>> {
    s.map_values(|k: (Seq<char>, KeyType)| k.0)
}

/// The names of the attributes that an index copies, where it does not copy all.
pub open spec fn projected_names(p: ProjectionView, base: SchemaView, gsi: SchemaView) -> Seq<
    Seq<char>,
> {
    let keys = schema_names(base) + schema_names(gsi);
    if p.projection_type is Include && p.non_key_attributes is Some {
        keys + p.non_key_attributes->0
    } else {
        keys
    }
}

/// The part of an item that an index copies.
pub open spec fn projected(
    item: ItemView,
    p: ProjectionView,
    base: SchemaView,
    gsi: SchemaView,
) -> ItemView {
    if p.projection_type is All {
        item
    } else {
        picked(item, projected_names(p, base, gsi))
    }
}

/// Adds the attribute `name` of `item` to what was picked.
fn pick(out: &mut Item, item: &Item, name: &str, Ghost(names): Ghost<Seq<Seq<char>>>)
    requires
        old(out)@ == picked(item@, names),
    ensures
        final(out)@ == picked(item@, names.push(name@)),
{
    assert(names.push(name@).drop_last() =~= names);
    match item.get(name) {
        Some(v) => {
            out.insert(text(name), v.clone());
        },
        None => {},
    }
}

/// Projects an item to the attributes that a shadow row needs: with `ALL` every
/// attribute, with `KEYS_ONLY` the key attributes of table and index, and with
/// `INCLUDE` those and the ones that the index names.
pub fn project_for_shadow(
    item: &Item,
    projection: &Projection,
    base_key_schema: &[KeySchemaElement],
    gsi_key_schema: &[KeySchemaElement],
) -> (r: Item)
    ensures
        r@ == projected(
            item@,
            projection@,
            schema_view(base_key_schema@),
            schema_view(gsi_key_schema@),
        ),
{
    if projection.projection_type == ProjectionType::All {
        return item.clone();
    }
    let ghost base = schema_names(schema_view(base_key_schema@));
    let ghost gsi = schema_names(schema_view(gsi_key_schema@));
    let mut out = Item::new();
    let mut i: usize = 0;
    assert(base.take(0) =~= Seq::<Seq<char>>::empty());
    while i < base_key_schema.len()
        invariant
            i <= base_key_schema.len(),
            base == schema_names(schema_view(base_key_schema@)),
            out@ == picked(item@, base.take(i as int)),
        decreases base_key_schema.len() - i,
    {
        pick(&mut out, item, base_key_schema[i].attribute_name.as_str(), Ghost(base.take(i as int)));
        assert(base.take(i + 1) =~= base.take(i as int).push(
            base_key_schema@[i as int].attribute_name@,
        ));
        i = i + 1;
    }
    assert(base.take(i as int) =~= base);
    assert(base + gsi.take(0) =~= base);
    i = 0;
    while i < gsi_key_schema.len()
        invariant
            i <= gsi_key_schema.len(),
            gsi == schema_names(schema_view(gsi_key_schema@)),
            out@ == picked(item@, base + gsi.take(i as int)),
        decreases gsi_key_schema.len() - i,
    {
        pick(
            &mut out,
            item,
            gsi_key_schema[i].attribute_name.as_str(),
            Ghost(base + gsi.take(i as int)),
        );
        assert(base + gsi.take(i + 1) =~= (base + gsi.take(i as int)).push(
            gsi_key_schema@[i as int].attribute_name@,
        ));
        i = i + 1;
    }
    assert(gsi.take(i as int) =~= gsi);
    if projection.projection_type == ProjectionType::Include {
        match &projection.non_key_attributes {
            None => {},
            Some(extras) => {
                let ghost keys = base + gsi;
                let ghost more = views(extras@);
                let mut j: usize = 0;
                assert(keys + more.take(0) =~= keys);
                while j < extras.len()
                    invariant
                        j <= extras.len(),
                        more == views(extras@),
                        out@ == picked(item@, keys + more.take(j as int)),
                    decreases extras.len() - j,
                {
                    pick(
                        &mut out,
                        item,
                        extras[j].as_str(),
                        Ghost(keys + more.take(j as int)),
                    );
                    assert(keys + more.take(j + 1) =~= (keys + more.take(j as int)).push(
                        extras@[j as int]@,
                    ));
                    j = j + 1;
                }
                assert(more.take(j as int) =~= more);
            },
        }
    }
    out
}

/// Of an item's attributes exactly those with one of the names are picked, with
/// their values.
pub proof fn picked_lookup(item: ItemView, names: Seq<Seq<char>>, name: Seq<char>)
    ensures
        lookup(picked(item, names), name) == if names.contains(name) {
            lookup(item, name)
        } else {
            None
        },
        item_sorted(picked(item, names)),
    decreases names.len(),
{
    if names.len() > 0 {
        let d = names.drop_last();
        let l = names.last();
        picked_lookup(item, d, name);
        let rest = picked(item, d);
        if let Some(v) = lookup(item, l) {
            item_put_lookup(rest, l, v, name);
            item_put_sorted(rest, l, v);
        }
        if names.contains(name) && l != name {
            let i = choose|i: int| 0 <= i < names.len() && names[i] == name;
            assert(d[i] == name);
        }
        if d.contains(name) {
            let i = choose|i: int| 0 <= i < d.len() && d[i] == name;
            assert(names[i] == name);
        }
        assert(names[names.len() - 1] == l);
    }
}

/// An index keeps of an item exactly what its projection says: all of it, or the
/// attributes of the two keys alone, or these and the attributes that are named.
pub proof fn indexes_keep_what_they_project(
    item: ItemView,
    p: ProjectionView,
    base: SchemaView,
    gsi: SchemaView,
    name: Seq<char>,
)
    ensures
        ({
            let is_key = (exists|i: int| 0 <= i < base.len() && (#[trigger] base[i]).0 == name) || (
            exists|i: int| 0 <= i < gsi.len() && (#[trigger] gsi[i]).0 == name);
            let named = p.projection_type is Include && (p.non_key_attributes matches Some(l)
                && l.contains(name));
            lookup(projected(item, p, base, gsi), name) == if p.projection_type is All || is_key
                || named {
                lookup(item, name)
            } else {
                None
            }
        }),
{
    let names = projected_names(p, base, gsi);
    let (a, b) = (schema_names(base), schema_names(gsi));
    picked_lookup(item, names, name);
    let keys = a + b;
    if exists|i: int| 0 <= i < base.len() && (#[trigger] base[i]).0 == name {
        let i = choose|i: int| 0 <= i < base.len() && (#[trigger] base[i]).0 == name;
        assert(names[i] == a[i] && a[i] == name);
        assert(names.contains(name));
    }
    if exists|i: int| 0 <= i < gsi.len() && (#[trigger] gsi[i]).0 == name {
        let i = choose|i: int| 0 <= i < gsi.len() && (#[trigger] gsi[i]).0 == name;
        assert(keys[a.len() + i] == b[i] && b[i] == name);
        assert(names[a.len() + i] == name);
        assert(names.contains(name));
    }
    if p.projection_type is Include && p.non_key_attributes is Some {
        let l = p.non_key_attributes->0;
        if l.contains(name) {
            let i = choose|i: int| 0 <= i < l.len() && l[i] == name;
            assert(names[keys.len() + i] == name);
            assert(names.contains(name));
        }
    }
    if names.contains(name) {
        let i = choose|i: int| 0 <= i < names.len() && names[i] == name;
        if i < a.len() {
            assert(base[i].0 == name);
        } else if i < keys.len() {
            assert(gsi[i - a.len()].0 == name);
        } else {
            let l = p.non_key_attributes->0;
            assert(l[i - keys.len()] == name);
        }
    }
}

/// A projection keeps all key attributes of table and index: the projected item
/// has the same entry key.
pub proof fn projection_keeps_keys(
    item: ItemView,
    p: ProjectionView,
    gsi: SchemaView,
    base: SchemaView,
)
    ensures
        shadow_key(projected(item, p, base, gsi), gsi, base) == shadow_key(item, gsi, base),
{
    let q = projected(item, p, base, gsi);
    assert forall|n: Seq<char>| is_key_name(n, gsi, base) implies lookup(q, n) == lookup(
        item,
        n,
    ) by {
        if !(p.projection_type is All) {
            picked_lookup(item, projected_names(p, base, gsi), n);
            lemma_key_name_in(gsi, KeyType::Hash);
            lemma_key_name_in(gsi, KeyType::Range);
            lemma_key_name_in(base, KeyType::Hash);
            lemma_key_name_in(base, KeyType::Range);
            let (a, b) = (schema_names(base), schema_names(gsi));
            let names = projected_names(p, base, gsi);
            if a.contains(n) {
                let i = choose|i: int| 0 <= i < a.len() && a[i] == n;
                assert(names[i] == n);
            } else {
                let i = choose|i: int| 0 <= i < b.len() && b[i] == n;
                assert(names[a.len() + i] == n);
            }
        }
    }
}

proof fn lemma_key_name_in(s: SchemaView, part: KeyType)
    ensures
        key_name(s, part) matches Some(n) ==> schema_names(s).contains(n),
    decreases s.len(),
{
    if s.len() > 0 {
        if s[0].1 == part {
            assert(schema_names(s)[0] == s[0].0);
        } else {
            lemma_key_name_in(s.skip(1), part);
            if let Some(n) = key_name(s, part) {
                let t = schema_names(s.skip(1));
                let i = choose|i: int| 0 <= i < t.len() && t[i] == n;
                assert(schema_names(s)[i + 1] == n);
            }
        }
    }
}

/// Reads the item that a shadow row holds, where it has an attribute.
pub fn decode_shadow_cells(cells: &[RowCell]) -> (r: Result<Option<Item>, StorageError>)
    ensures
        match r {
            Ok(i) => row_item(cell_views(cells@)) matches Ok(x) && opt_item_view(i) == present(x),
            Err(e) => row_item(cell_views(cells@)) == Err::<ItemView, ErrView>(e@),
        },
{
    crate::query_scan::cells_to_item(cells)
}

} // verus!
