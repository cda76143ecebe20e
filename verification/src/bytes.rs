//! Byte strings: lexicographic order, big-endian integers, FNV-1a hashing.

use vstd::prelude::*;

verus! {

// ---------------------------------------------------------------------------
// Lexicographic order
// ---------------------------------------------------------------------------

/// `a` sorts before `b`, and `i` is the first position at which that shows.
pub open spec fn lex_lt_at(a: Seq<u8>, b: Seq<u8>, i: int) -> bool {
    &&& 0 <= i <= a.len()
    &&& i < b.len()
    &&& forall|j: int| 0 <= j < i ==> a[j] == b[j]
    &&& (i == a.len() || a[i] < b[i])
}

/// Byte-wise lexicographic order, in which a proper prefix comes first. This is
/// the order in which Bigtable keeps its row keys.
pub open spec fn lex_lt(a: Seq<u8>, b: Seq<u8>) -> bool {
    exists|i: int| lex_lt_at(a, b, i)
}

pub open spec fn lex_le(a: Seq<u8>, b: Seq<u8>) -> bool {
    a == b || lex_lt(a, b)
}

/// The length of the longest common prefix of `a` and `b`, counted from `k`.
proof fn lemma_first_difference(a: Seq<u8>, b: Seq<u8>, k: int) -> (i: int)
    requires
        0 <= k <= a.len(),
        k <= b.len(),
        forall|j: int| 0 <= j < k ==> a[j] == b[j],
    ensures
        k <= i <= a.len(),
        i <= b.len(),
        forall|j: int| 0 <= j < i ==> a[j] == b[j],
        i == a.len() || i == b.len() || a[i] != b[i],
    decreases a.len() - k,
{
    if k == a.len() || k == b.len() || a[k] != b[k] {
        k
    } else {
        lemma_first_difference(a, b, k + 1)
    }
}

/// Of two byte strings, one sorts before the other or they are equal.
pub proof fn lex_total(a: Seq<u8>, b: Seq<u8>)
    ensures
        lex_lt(a, b) || lex_lt(b, a) || a == b,
{
    let i = lemma_first_difference(a, b, 0);
    if i == a.len() && i == b.len() {
        assert(a =~= b);
    } else if i == a.len() || (i < b.len() && a[i] < b[i]) {
        assert(lex_lt_at(a, b, i));
    } else {
        assert(lex_lt_at(b, a, i));
    }
}

/// No two byte strings sort before one another; none sorts before itself.
pub proof fn lex_asymmetric(a: Seq<u8>, b: Seq<u8>)
    ensures
        lex_lt(a, b) ==> !lex_lt(b, a),
        !lex_lt(a, a),
{
    if lex_lt(a, b) && lex_lt(b, a) {
        let i = choose|i: int| lex_lt_at(a, b, i);
        let j = choose|j: int| lex_lt_at(b, a, j);
        if i < j {
            assert(a[i] == b[i]);
        } else if j < i {
            assert(a[j] == b[j]);
        }
        assert(false);
    }
    if lex_lt(a, a) {
        let i = choose|i: int| lex_lt_at(a, a, i);
        assert(false);
    }
}

pub proof fn lex_transitive(a: Seq<u8>, b: Seq<u8>, c: Seq<u8>)
    requires
        lex_lt(a, b),
        lex_lt(b, c),
    ensures
        lex_lt(a, c),
{
    let i = choose|i: int| lex_lt_at(a, b, i);
    let j = choose|j: int| lex_lt_at(b, c, j);
    if i < j {
        assert(lex_lt_at(a, c, i));
    } else {
        assert(lex_lt_at(a, c, j));
    }
}

/// A common prefix does not change the order of what follows it.
pub proof fn lex_common_prefix(p: Seq<u8>, a: Seq<u8>, b: Seq<u8>)
    ensures
        lex_lt(p + a, p + b) <==> lex_lt(a, b),
{
    if lex_lt(a, b) {
        let i = choose|i: int| lex_lt_at(a, b, i);
        assert forall|j: int| 0 <= j < p.len() + i implies (p + a)[j] == (p + b)[j] by {
            if j >= p.len() {
                assert(a[j - p.len()] == b[j - p.len()]);
            }
        }
        assert(lex_lt_at(p + a, p + b, p.len() + i));
    }
    if lex_lt(p + a, p + b) {
        let i = choose|i: int| lex_lt_at(p + a, p + b, i);
        if i < p.len() {
            assert((p + a)[i] == (p + b)[i]);
        }
        let k = i - p.len();
        assert forall|j: int| 0 <= j < k implies a[j] == b[j] by {
            assert((p + a)[j + p.len()] == (p + b)[j + p.len()]);
        }
        assert(lex_lt_at(a, b, k));
    }
}

/// Two strings that first differ at `i`, both having a byte there, keep their
/// order whatever is appended to them.
pub proof fn lex_decided(a: Seq<u8>, b: Seq<u8>, x: Seq<u8>, y: Seq<u8>, i: int)
    requires
        0 <= i < a.len(),
        i < b.len(),
        forall|j: int| 0 <= j < i ==> a[j] == b[j],
        a[i] < b[i],
    ensures
        lex_lt(a + x, b + y),
{
    assert(lex_lt_at(a + x, b + y, i));
}

/// The first position at which the order of two strings is decided, whichever
/// way it goes.
pub proof fn lex_witness(a: Seq<u8>, b: Seq<u8>) -> (i: int)
    requires
        lex_lt(a, b),
    ensures
        lex_lt_at(a, b, i),
{
    choose|i: int| lex_lt_at(a, b, i)
}

/// Whether `a` sorts before `b`.
pub fn bytes_lt(a: &[u8], b: &[u8]) -> (r: bool)
    ensures
        r == lex_lt(a@, b@),
{
    let mut i: usize = 0;
    while i < a.len() && i < b.len()
        invariant
            i <= a.len(),
            i <= b.len(),
            forall|j: int| 0 <= j < i ==> a@[j] == b@[j],
        decreases a.len() - i,
    {
        if a[i] < b[i] {
            assert(lex_lt_at(a@, b@, i as int));
            return true;
        }
        if a[i] > b[i] {
            proof {
                assert(lex_lt_at(b@, a@, i as int));
                lex_asymmetric(b@, a@);
            }
            return false;
        }
        i = i + 1;
    }
    if i < b.len() {
        assert(lex_lt_at(a@, b@, i as int));
        true
    } else {
        proof {
            if lex_lt(a@, b@) {
                let k = lex_witness(a@, b@);
                assert(a@[k] == b@[k]);
            }
        }
        false
    }
}

/// Whether `a` and `b` hold the same bytes.
pub fn bytes_eq(a: &[u8], b: &[u8]) -> (r: bool)
    ensures
        r == (a@ == b@),
{
    if a.len() != b.len() {
        return false;
    }
    let mut i: usize = 0;
    while i < a.len()
        invariant
            i <= a.len(),
            a.len() == b.len(),
            forall|j: int| 0 <= j < i ==> a@[j] == b@[j],
        decreases a.len() - i,
    {
        if a[i] != b[i] {
            return false;
        }
        i = i + 1;
    }
    assert(a@ =~= b@);
    true
}

/// Whether `b` begins with `p`.
pub fn bytes_starts_with(b: &[u8], p: &[u8]) -> (r: bool)
    ensures
        r == p@.is_prefix_of(b@),
{
    if p.len() > b.len() {
        return false;
    }
    let mut i: usize = 0;
    while i < p.len()
        invariant
            i <= p.len() <= b.len(),
            forall|j: int| 0 <= j < i ==> p@[j] == b@[j],
        decreases p.len() - i,
    {
        if p[i] != b[i] {
            assert(p@[i as int] != b@.subrange(0, p@.len() as int)[i as int]);
            return false;
        }
        i = i + 1;
    }
    assert(p@ =~= b@.subrange(0, p@.len() as int));
    true
}

/// A copy of a byte string.
pub fn bytes_copy(b: &[u8]) -> (r: Vec<u8>)
    ensures
        r@ == b@,
{
    let mut out: Vec<u8> = Vec::with_capacity(b.len());
    push_bytes(&mut out, b);
    assert(out@ =~= b@);
    out
}

/// Appends `b` to `out`.
pub fn push_bytes(out: &mut Vec<u8>, b: &[u8])
    ensures
        final(out)@ == old(out)@ + b@,
{
    let ghost start = out@;
    let mut i: usize = 0;
    while i < b.len()
        invariant
            i <= b.len(),
            out@ == start + b@.subrange(0, i as int),
        decreases b.len() - i,
    {
        out.push(b[i]);
        i = i + 1;
        assert(b@.subrange(0, i as int) =~= b@.subrange(0, i - 1).push(b@[i - 1]));
        assert(out@ =~= start + b@.subrange(0, i as int));
    }
    assert(b@.subrange(0, i as int) =~= b@);
}

/// The bytes of `b` from `from` up to `to`.
pub fn bytes_slice(b: &[u8], from: usize, to: usize) -> (r: Vec<u8>)
    requires
        from <= to <= b.len(),
    ensures
        r@ == b@.subrange(from as int, to as int),
{
    let mut out: Vec<u8> = Vec::with_capacity(to - from);
    let mut i: usize = from;
    while i < to
        invariant
            from <= i <= to <= b.len(),
            out@ == b@.subrange(from as int, i as int),
        decreases to - i,
    {
        out.push(b[i]);
        i = i + 1;
        assert(out@ =~= b@.subrange(from as int, i as int));
    }
    out
}

// ---------------------------------------------------------------------------
// Big-endian integers
// ---------------------------------------------------------------------------

/// The number that a byte string denotes in base 256, most significant first.
pub open spec fn be_value(b: Seq<u8>) -> nat
    decreases b.len(),
{
    if b.len() == 0 {
        0
    } else {
        be_value(b.drop_last()) * 256 + b.last() as nat
    }
}

/// `n` in base 256 with exactly `len` bytes, most significant first; the higher
/// part of `n` is cut off where it does not fit.
pub open spec fn be_bytes(n: nat, len: nat) -> Seq<u8>
    decreases len,
{
    if len == 0 {
        Seq::empty()
    } else {
        be_bytes(n / 256, (len - 1) as nat).push((n % 256) as u8)
    }
}

pub open spec fn pow256(len: nat) -> nat
    decreases len,
{
    if len == 0 {
        1
    } else {
        256 * pow256((len - 1) as nat)
    }
}

pub proof fn lemma_be_bytes_len(n: nat, len: nat)
    ensures
        be_bytes(n, len).len() == len,
    decreases len,
{
    if len > 0 {
        lemma_be_bytes_len(n / 256, (len - 1) as nat);
    }
}

/// Reading back what was written gives the number, where it fits.
pub proof fn be_bytes_round_trip(n: nat, len: nat)
    requires
        n < pow256(len),
    ensures
        be_value(be_bytes(n, len)) == n,
        be_bytes(n, len).len() == len,
    decreases len,
{
    if len > 0 {
        be_bytes_round_trip(n / 256, (len - 1) as nat);
        let b = be_bytes(n, len);
        assert(b.drop_last() =~= be_bytes(n / 256, (len - 1) as nat));
    }
}

/// Writing a number that was read gives the bytes back.
pub proof fn be_value_round_trip(b: Seq<u8>)
    ensures
        be_bytes(be_value(b), b.len()) == b,
        be_value(b) < pow256(b.len()),
    decreases b.len(),
{
    if b.len() > 0 {
        be_value_round_trip(b.drop_last());
        let v = be_value(b);
        assert(v / 256 == be_value(b.drop_last()));
        assert(v % 256 == b.last() as nat);
        assert(be_bytes(v, b.len()) =~= b);
    } else {
        assert(be_bytes(0, 0) =~= b);
    }
}

/// Big-endian byte strings of one length sort as the numbers that they denote.
pub proof fn be_bytes_order(a: Seq<u8>, b: Seq<u8>)
    requires
        a.len() == b.len(),
    ensures
        lex_lt(a, b) <==> be_value(a) < be_value(b),
    decreases a.len(),
{
    if a.len() == 0 {
        if lex_lt(a, b) {
            let i = lex_witness(a, b);
        }
    } else {
        let a0 = a.drop_last();
        let b0 = b.drop_last();
        be_bytes_order(a0, b0);
        be_bytes_order(b0, a0);
        lex_total(a0, b0);
        assert(a =~= a0 + seq![a.last()]);
        assert(b =~= b0 + seq![b.last()]);
        if lex_lt(a0, b0) {
            let i = lex_witness(a0, b0);
            lex_decided(a0, b0, seq![a.last()], seq![b.last()], i);
        } else if lex_lt(b0, a0) {
            let i = lex_witness(b0, a0);
            lex_decided(b0, a0, seq![b.last()], seq![a.last()], i);
            lex_asymmetric(b, a);
        } else {
            lex_common_prefix(a0, seq![a.last()], seq![b.last()]);
            if lex_lt(seq![a.last()], seq![b.last()]) {
                let i = lex_witness(seq![a.last()], seq![b.last()]);
            }
            if a.last() < b.last() {
                assert(lex_lt_at(seq![a.last()], seq![b.last()], 0));
            }
        }
    }
}

pub proof fn lemma_pow256()
    ensures
        pow256(0) == 1,
        pow256(1) == 0x100,
        pow256(4) == 0x1_0000_0000,
        pow256(8) == 0x1_0000_0000_0000_0000,
{
    reveal_with_fuel(pow256, 9);
}

/// Appends `n` as four big-endian bytes.
pub fn push_u32_be(out: &mut Vec<u8>, n: u32)
    ensures
        final(out)@ == old(out)@ + be_bytes(n as nat, 4),
{
    let ghost start = out@;
    out.push((n / 0x100_0000) as u8);
    out.push((n / 0x1_0000 % 0x100) as u8);
    out.push((n / 0x100 % 0x100) as u8);
    out.push((n % 0x100) as u8);
    proof {
        reveal_with_fuel(be_bytes, 5);
        assert(out@ =~= start + be_bytes(n as nat, 4));
    }
}

/// The last four bytes of a big-endian number, apart from what precedes them.
proof fn lemma_be_bytes_split4(n: nat, len: nat)
    requires
        len >= 4,
    ensures
        be_bytes(n, len) == be_bytes(n / 0x1_0000_0000, (len - 4) as nat) + seq![
            (n / 0x100_0000 % 256) as u8,
            (n / 0x1_0000 % 256) as u8,
            (n / 0x100 % 256) as u8,
            (n % 256) as u8,
        ],
{
    let n1 = n / 256;
    let n2 = n1 / 256;
    let n3 = n2 / 256;
    let n4 = n3 / 256;
    assert(n2 == n / 0x1_0000);
    assert(n3 == n / 0x100_0000);
    assert(n4 == n / 0x1_0000_0000);
    assert(be_bytes(n, len) == be_bytes(n1, (len - 1) as nat).push((n % 256) as u8));
    assert(be_bytes(n1, (len - 1) as nat) == be_bytes(n2, (len - 2) as nat).push((n1 % 256) as u8));
    assert(be_bytes(n2, (len - 2) as nat) == be_bytes(n3, (len - 3) as nat).push((n2 % 256) as u8));
    assert(be_bytes(n3, (len - 3) as nat) == be_bytes(n4, (len - 4) as nat).push((n3 % 256) as u8));
    assert(be_bytes(n, len) =~= be_bytes(n4, (len - 4) as nat) + seq![
        (n3 % 256) as u8,
        (n2 % 256) as u8,
        (n1 % 256) as u8,
        (n % 256) as u8,
    ]);
}

proof fn lemma_low_byte(h: nat, q: nat, n: nat, lo: nat, unit: nat, h256: nat)
    requires
        unit > 0,
        q == lo / unit,
        n == h * unit + lo,
        h == h256 * 256,
    ensures
        n / unit % 256 == q % 256,
{
    let r = lo % unit;
    vstd::arithmetic::div_mod::lemma_fundamental_div_mod(lo as int, unit as int);
    assert((h + q) * unit + r == n) by (nonlinear_arith)
        requires
            lo == unit * q + r,
            n == h * unit + lo,
    ;
    vstd::arithmetic::div_mod::lemma_fundamental_div_mod_converse(
        n as int,
        unit as int,
        (h + q) as int,
        r as int,
    );
    vstd::arithmetic::div_mod::lemma_mod_multiples_vanish(h256 as int, q as int, 256);
    assert(256 * h256 + q == h + q);
}

/// The low bytes of a number do not depend on what lies above them.
proof fn lemma_low_bytes(hi: nat, lo: nat, n: nat)
    requires
        n == hi * 0x1_0000_0000 + lo,
        lo < 0x1_0000_0000,
    ensures
        n / 0x100_0000 % 256 == lo / 0x100_0000 % 256,
        n / 0x1_0000 % 256 == lo / 0x1_0000 % 256,
        n / 0x100 % 256 == lo / 0x100 % 256,
        n % 256 == lo % 256,
        n / 0x1_0000_0000 == hi,
{
    lemma_low_byte(hi * 0x100, lo / 0x100_0000, n, lo, 0x100_0000, hi);
    lemma_low_byte(hi * 0x1_0000, lo / 0x1_0000, n, lo, 0x1_0000, hi * 0x100);
    lemma_low_byte(hi * 0x100_0000, lo / 0x100, n, lo, 0x100, hi * 0x1_0000);
    lemma_low_byte(hi * 0x1_0000_0000, lo, n, lo, 1, hi * 0x100_0000);
    vstd::arithmetic::div_mod::lemma_fundamental_div_mod_converse(
        n as int,
        0x1_0000_0000,
        hi as int,
        lo as int,
    );
}

/// Appends `n` as eight big-endian bytes.
pub fn push_u64_be(out: &mut Vec<u8>, n: u64)
    ensures
        final(out)@ == old(out)@ + be_bytes(n as nat, 8),
{
    let ghost start = out@;
    let hi: u32 = (n / 0x1_0000_0000) as u32;
    let lo: u32 = (n % 0x1_0000_0000) as u32;
    push_u32_be(out, hi);
    push_u32_be(out, lo);
    proof {
        lemma_low_bytes(hi as nat, lo as nat, n as nat);
        lemma_be_bytes_split4(n as nat, 8);
        lemma_be_bytes_split4(lo as nat, 4);
        assert(out@ =~= start + be_bytes(n as nat, 8));
    }
}

/// Reads four big-endian bytes at `at`.
pub fn read_u32_be(b: &[u8], at: usize) -> (n: u32)
    requires
        at + 4 <= b.len(),
    ensures
        n as nat == be_value(b@.subrange(at as int, at + 4)),
{
    let n: u32 = b[at] as u32 * 0x100_0000 + b[at + 1] as u32 * 0x1_0000 + b[at + 2] as u32 * 0x100
        + b[at + 3] as u32;
    proof {
        let s = b@.subrange(at as int, at + 4);
        reveal_with_fuel(be_value, 5);
        assert(s.drop_last().drop_last().drop_last().drop_last() =~= Seq::<u8>::empty());
    }
    n
}

/// Reads eight big-endian bytes at `at`.
pub fn read_u64_be(b: &[u8], at: usize) -> (n: u64)
    requires
        at + 8 <= b.len(),
    ensures
        n as nat == be_value(b@.subrange(at as int, at + 8)),
{
    let hi: u32 = read_u32_be(b, at);
    let lo: u32 = read_u32_be(b, at + 4);
    proof {
        let s = b@.subrange(at as int, at + 8);
        let h = b@.subrange(at as int, at + 4);
        let l = b@.subrange(at + 4, at + 8);
        reveal_with_fuel(be_value, 5);
        assert(s.drop_last().drop_last().drop_last().drop_last() =~= h);
        assert(l.drop_last().drop_last().drop_last().drop_last() =~= Seq::<u8>::empty());
    }
    hi as u64 * 0x1_0000_0000 + lo as u64
}

// ---------------------------------------------------------------------------
// FNV-1a
// ---------------------------------------------------------------------------

pub const FNV_OFFSET: u64 = 0xcbf29ce484222325;

pub const FNV_PRIME: u64 = 0x100000001b3;

/// The 64-bit FNV-1a hash: for each byte, exclusive-or it in and multiply by
/// the FNV prime modulo 2^64.
pub open spec fn fnv1a(b: Seq<u8>) -> u64
    decreases b.len(),
{
    if b.len() == 0 {
        FNV_OFFSET
    } else {
        ((fnv1a(b.drop_last()) ^ (b.last() as u64)) * FNV_PRIME % 0x1_0000_0000_0000_0000) as u64
    }
}

/// Computes [`fnv1a`].
pub fn fnv1a_hash(b: &[u8]) -> (h: u64)
    ensures
        h == fnv1a(b@),
{
    let mut h: u64 = FNV_OFFSET;
    let mut i: usize = 0;
    while i < b.len()
        invariant
            i <= b.len(),
            h == fnv1a(b@.subrange(0, i as int)),
        decreases b.len() - i,
    {
        let ghost before = b@.subrange(0, i as int);
        let x: u64 = h ^ (b[i] as u64);
        h = x.wrapping_mul(FNV_PRIME);
        i = i + 1;
        proof {
            let s = b@.subrange(0, i as int);
            assert(s.drop_last() =~= before);
            assert(s.last() == b@[i - 1]);
        }
    }
    assert(b@.subrange(0, i as int) =~= b@);
    h
}

} // verus!
