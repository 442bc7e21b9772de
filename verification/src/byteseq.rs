//! Lexicographic order on byte strings, and big-endian byte encodings of
//! machine integers.
//!
//! Keys, encoded keys and range bounds are all compared in this order; the
//! key codec's order-preservation proof and the store's sortedness invariant
//! both rest on the lemmas here.

use vstd::prelude::*;

verus! {

/// Strict lexicographic order on byte strings: a proper prefix precedes its
/// extensions, and otherwise the first differing byte decides.
pub open spec fn bytes_lt(a: Seq<u8>, b: Seq<u8>) -> bool
    decreases a.len(),
{
    if b.len() == 0 {
        false
    } else if a.len() == 0 {
        true
    } else if a[0] < b[0] {
        true
    } else if a[0] == b[0] {
        bytes_lt(a.drop_first(), b.drop_first())
    } else {
        false
    }
}

/// Non-strict lexicographic order.
pub open spec fn bytes_le(a: Seq<u8>, b: Seq<u8>) -> bool {
    bytes_lt(a, b) || a =~= b
}

/// Unfolding of the order over one leading byte on each side.
pub proof fn lemma_lex_cons(x: u8, y: u8, s: Seq<u8>, t: Seq<u8>)
    ensures
        bytes_lt(seq![x] + s, seq![y] + t) <==> (x < y || (x == y && bytes_lt(s, t))),
{
    let a = seq![x] + s;
    let b = seq![y] + t;
    assert(a[0] == x);
    assert(b[0] == y);
    assert(a.drop_first() =~= s);
    assert(b.drop_first() =~= t);
}

/// Prepending a shared prefix does not change how two byte strings compare.
pub proof fn lemma_lex_common_prefix(p: Seq<u8>, a: Seq<u8>, b: Seq<u8>)
    ensures
        bytes_lt(p + a, p + b) <==> bytes_lt(a, b),
    decreases p.len(),
{
    if p.len() == 0 {
        assert(p + a =~= a);
        assert(p + b =~= b);
    } else {
        let q = p.drop_first();
        assert(p + a =~= seq![p[0]] + (q + a));
        assert(p + b =~= seq![p[0]] + (q + b));
        lemma_lex_cons(p[0], p[0], q + a, q + b);
        lemma_lex_common_prefix(q, a, b);
    }
}

/// The order is transitive.
pub proof fn lemma_bytes_lt_trans(a: Seq<u8>, b: Seq<u8>, c: Seq<u8>)
    requires
        bytes_lt(a, b),
        bytes_lt(b, c),
    ensures
        bytes_lt(a, c),
    decreases a.len() + b.len() + c.len(),
{
    if a.len() == 0 || b.len() == 0 || c.len() == 0 {
    } else {
        if a[0] == b[0] && b[0] == c[0] {
            lemma_bytes_lt_trans(a.drop_first(), b.drop_first(), c.drop_first());
        }
    }
}

/// The order is irreflexive.
pub proof fn lemma_bytes_lt_irrefl(a: Seq<u8>)
    ensures
        !bytes_lt(a, a),
    decreases a.len(),
{
    if a.len() > 0 {
        lemma_bytes_lt_irrefl(a.drop_first());
    }
}

/// The order is total: distinct byte strings compare one way or the other.
pub proof fn lemma_bytes_lt_total(a: Seq<u8>, b: Seq<u8>)
    ensures
        bytes_lt(a, b) || bytes_lt(b, a) || a =~= b,
    decreases a.len(),
{
    if a.len() == 0 || b.len() == 0 {
    } else if a[0] == b[0] {
        lemma_bytes_lt_total(a.drop_first(), b.drop_first());
        if a.drop_first() =~= b.drop_first() {
            assert(a =~= seq![a[0]] + a.drop_first());
            assert(b =~= seq![b[0]] + b.drop_first());
        }
    }
}

/// Appending suffixes cannot reverse a comparison decided within two
/// equally long byte strings.
pub proof fn lemma_lex_concat_lt(a: Seq<u8>, b: Seq<u8>, s: Seq<u8>, t: Seq<u8>)
    requires
        a.len() == b.len(),
        bytes_lt(a, b),
    ensures
        bytes_lt(a + s, b + t),
    decreases a.len(),
{
    if a.len() == 0 {
    } else {
        assert((a + s)[0] == a[0]);
        assert((b + t)[0] == b[0]);
        assert((a + s).drop_first() =~= a.drop_first() + s);
        assert((b + t).drop_first() =~= b.drop_first() + t);
        if a[0] == b[0] {
            lemma_lex_concat_lt(a.drop_first(), b.drop_first(), s, t);
        }
    }
}

/// A proper prefix precedes every extension of itself.
pub proof fn lemma_prefix_lt(a: Seq<u8>, b: Seq<u8>)
    requires
        b.len() > 0,
    ensures
        bytes_lt(a, a + b),
    decreases a.len(),
{
    if a.len() == 0 {
        assert(a + b =~= b);
    } else {
        assert((a + b)[0] == a[0]);
        assert((a + b).drop_first() =~= a.drop_first() + b);
        lemma_prefix_lt(a.drop_first(), b);
    }
}

/// Executable comparison realizing `bytes_lt`.
pub fn bytes_lt_exec(a: &Vec<u8>, b: &Vec<u8>) -> (r: bool)
    ensures
        r == bytes_lt(a@, b@),
{
    let mut i: usize = 0;
    proof {
        assert(a@.subrange(0, a@.len() as int) =~= a@);
        assert(b@.subrange(0, b@.len() as int) =~= b@);
    }
    loop
        invariant
            i <= a.len(),
            i <= b.len(),
            bytes_lt(a@, b@) == bytes_lt(a@.subrange(i as int, a@.len() as int), b@.subrange(i as int, b@.len() as int)),
        decreases a.len() - i,
    {
        let ghost sa = a@.subrange(i as int, a@.len() as int);
        let ghost sb = b@.subrange(i as int, b@.len() as int);
        if i >= b.len() {
            return false;
        }
        if i >= a.len() {
            return true;
        }
        let ca = a[i];
        let cb = b[i];
        proof {
            assert(sa[0] == ca);
            assert(sb[0] == cb);
            assert(sa.drop_first() =~= a@.subrange(i + 1, a@.len() as int));
            assert(sb.drop_first() =~= b@.subrange(i + 1, b@.len() as int));
        }
        if ca < cb {
            return true;
        }
        if ca > cb {
            return false;
        }
        i = i + 1;
    }
}

/// Executable equality on byte strings.
pub fn bytes_eq_exec(a: &Vec<u8>, b: &Vec<u8>) -> (r: bool)
    ensures
        r == (a@ =~= b@),
{
    if a.len() != b.len() {
        return false;
    }
    let mut i: usize = 0;
    while i < a.len()
        invariant
            i <= a.len(),
            a.len() == b.len(),
            forall|j: int| 0 <= j < i ==> a@[j] == b@[j],
        decreases a.len() - i,
    {
        if a[i] != b[i] {
            return false;
        }
        i = i + 1;
    }
    true
}

/// Executable prefix test: does `k` start with `p`?
pub fn starts_with_exec(k: &Vec<u8>, p: &Vec<u8>) -> (r: bool)
    ensures
        r == (p@ =~= k@.subrange(0, p@.len() as int) && p@.len() <= k@.len()),
{
    if p.len() > k.len() {
        return false;
    }
    let mut i: usize = 0;
    while i < p.len()
        invariant
            i <= p.len(),
            p.len() <= k.len(),
            forall|j: int| 0 <= j < i ==> k@[j] == p@[j],
        decreases p.len() - i,
    {
        if k[i] != p[i] {
            return false;
        }
        i = i + 1;
    }
    true
}

/// A step of mixed transitivity.
pub proof fn lemma_bytes_le_lt_trans(a: Seq<u8>, b: Seq<u8>, c: Seq<u8>)
    requires
        bytes_le(a, b),
        bytes_lt(b, c),
    ensures
        bytes_lt(a, c),
{
    if bytes_lt(a, b) {
        lemma_bytes_lt_trans(a, b, c);
    }
}

/// The other step of mixed transitivity.
pub proof fn lemma_bytes_lt_le_trans(a: Seq<u8>, b: Seq<u8>, c: Seq<u8>)
    requires
        bytes_lt(a, b),
        bytes_le(b, c),
    ensures
        bytes_lt(a, c),
{
    if bytes_lt(b, c) {
        lemma_bytes_lt_trans(a, b, c);
    }
}

/// `k` followed by a zero byte is the immediate successor of `k`: the byte
/// strings at or above it are exactly those strictly above `k`.
pub proof fn lemma_bytes_next(k: Seq<u8>, x: Seq<u8>)
    ensures
        bytes_le(k + seq![0u8], x) <==> bytes_lt(k, x),
    decreases k.len(),
{
    let s = k + seq![0u8];
    if k.len() == 0 {
        assert(s.len() == 1 && s[0] == 0);
        assert(s.drop_first() =~= Seq::<u8>::empty());
        if x.len() == 0 {
            assert(!(s =~= x));
        } else {
            assert(bytes_lt(k, x));
            if x[0] == 0 {
                if x.len() > 1 {
                    assert(x.drop_first().len() > 0);
                    assert(bytes_lt(s.drop_first(), x.drop_first()));
                    assert(bytes_lt(s, x));
                } else {
                    assert(s =~= x);
                }
            } else {
                assert(bytes_lt(s, x));
            }
        }
    } else {
        if x.len() == 0 {
            assert(!bytes_lt(s, x));
            assert(!(s =~= x));
        } else {
            assert(s[0] == k[0]);
            assert(s.drop_first() =~= k.drop_first() + seq![0u8]);
            if k[0] == x[0] {
                lemma_bytes_next(k.drop_first(), x.drop_first());
                assert(bytes_lt(s, x) == bytes_lt(k.drop_first() + seq![0u8], x.drop_first()));
                assert(bytes_lt(k, x) == bytes_lt(k.drop_first(), x.drop_first()));
                assert((s =~= x) <==> (k.drop_first() + seq![0u8] =~= x.drop_first())) by {
                    if k.drop_first() + seq![0u8] =~= x.drop_first() {
                        assert(s.len() == x.len());
                        assert(forall|i: int|
                            1 <= i < s.len() ==> s[i] == s.drop_first()[i - 1] && x[i]
                                == x.drop_first()[i - 1]);
                        assert(s =~= x);
                    }
                    if s =~= x {
                        assert(s.drop_first() =~= x.drop_first());
                    }
                }
            } else {
                assert(!(s =~= x));
            }
        }
    }
}

/// Builds the concatenation of two byte strings.
pub fn concat_bytes(a: &Vec<u8>, b: &Vec<u8>) -> (r: Vec<u8>)
    ensures
        r@ =~= a@ + b@,
{
    let mut r = copy_bytes(a);
    let mut i: usize = 0;
    while i < b.len()
        invariant
            i <= b.len(),
            r@ =~= a@ + b@.take(i as int),
        decreases b.len() - i,
    {
        r.push(b[i]);
        proof {
            assert(a@ + b@.take(i + 1) =~= (a@ + b@.take(i as int)).push(b@[i as int]));
        }
        i = i + 1;
    }
    proof {
        assert(b@.take(b@.len() as int) =~= b@);
    }
    r
}

/// Copies a byte string.
pub fn copy_bytes(v: &Vec<u8>) -> (r: Vec<u8>)
    ensures
        r@ =~= v@,
{
    let mut r: Vec<u8> = Vec::new();
    let mut i: usize = 0;
    while i < v.len()
        invariant
            i <= v.len(),
            r@ =~= v@.take(i as int),
        decreases v.len() - i,
    {
        r.push(v[i]);
        proof {
            assert(v@.take(i + 1) =~= v@.take(i as int).push(v@[i as int]));
        }
        i = i + 1;
    }
    proof {
        assert(v@.take(v@.len() as int) =~= v@);
    }
    r
}

/// Copies the bytes of `v` from `from` (inclusive) to `to` (exclusive).
pub fn copy_range(v: &Vec<u8>, from: usize, to: usize) -> (r: Vec<u8>)
    requires
        from <= to <= v.len(),
    ensures
        r@ =~= v@.subrange(from as int, to as int),
{
    let mut r: Vec<u8> = Vec::new();
    let mut i: usize = from;
    while i < to
        invariant
            from <= i <= to <= v@.len(),
            r@ =~= v@.subrange(from as int, i as int),
        decreases to - i,
    {
        r.push(v[i]);
        proof {
            assert(v@.subrange(from as int, i + 1) =~= v@.subrange(from as int, i as int).push(
                v@[i as int],
            ));
        }
        i = i + 1;
    }
    r
}

/// The big-endian bytes of a 64-bit integer, most significant first.
pub open spec fn be8(x: u64) -> Seq<u8> {
    seq![
        (x >> 56) as u8,
        (x >> 48) as u8,
        (x >> 40) as u8,
        (x >> 32) as u8,
        (x >> 24) as u8,
        (x >> 16) as u8,
        (x >> 8) as u8,
        x as u8,
    ]
}

/// Big-endian byte strings compare exactly as the integers they encode.
pub proof fn lemma_be8_order(x: u64, y: u64)
    ensures
        bytes_lt(be8(x), be8(y)) <==> x < y,
{
    let x7 = (x >> 56) as u8;
    let x6 = (x >> 48) as u8;
    let x5 = (x >> 40) as u8;
    let x4 = (x >> 32) as u8;
    let x3 = (x >> 24) as u8;
    let x2 = (x >> 16) as u8;
    let x1 = (x >> 8) as u8;
    let x0 = x as u8;
    let y7 = (y >> 56) as u8;
    let y6 = (y >> 48) as u8;
    let y5 = (y >> 40) as u8;
    let y4 = (y >> 32) as u8;
    let y3 = (y >> 24) as u8;
    let y2 = (y >> 16) as u8;
    let y1 = (y >> 8) as u8;
    let y0 = y as u8;
    assert(be8(x) =~= seq![x7] + seq![x6, x5, x4, x3, x2, x1, x0]);
    assert(be8(y) =~= seq![y7] + seq![y6, y5, y4, y3, y2, y1, y0]);
    lemma_lex_cons(x7, y7, seq![x6, x5, x4, x3, x2, x1, x0], seq![y6, y5, y4, y3, y2, y1, y0]);
    assert(seq![x6, x5, x4, x3, x2, x1, x0] =~= seq![x6] + seq![x5, x4, x3, x2, x1, x0]);
    assert(seq![y6, y5, y4, y3, y2, y1, y0] =~= seq![y6] + seq![y5, y4, y3, y2, y1, y0]);
    lemma_lex_cons(x6, y6, seq![x5, x4, x3, x2, x1, x0], seq![y5, y4, y3, y2, y1, y0]);
    assert(seq![x5, x4, x3, x2, x1, x0] =~= seq![x5] + seq![x4, x3, x2, x1, x0]);
    assert(seq![y5, y4, y3, y2, y1, y0] =~= seq![y5] + seq![y4, y3, y2, y1, y0]);
    lemma_lex_cons(x5, y5, seq![x4, x3, x2, x1, x0], seq![y4, y3, y2, y1, y0]);
    assert(seq![x4, x3, x2, x1, x0] =~= seq![x4] + seq![x3, x2, x1, x0]);
    assert(seq![y4, y3, y2, y1, y0] =~= seq![y4] + seq![y3, y2, y1, y0]);
    lemma_lex_cons(x4, y4, seq![x3, x2, x1, x0], seq![y3, y2, y1, y0]);
    assert(seq![x3, x2, x1, x0] =~= seq![x3] + seq![x2, x1, x0]);
    assert(seq![y3, y2, y1, y0] =~= seq![y3] + seq![y2, y1, y0]);
    lemma_lex_cons(x3, y3, seq![x2, x1, x0], seq![y2, y1, y0]);
    assert(seq![x2, x1, x0] =~= seq![x2] + seq![x1, x0]);
    assert(seq![y2, y1, y0] =~= seq![y2] + seq![y1, y0]);
    lemma_lex_cons(x2, y2, seq![x1, x0], seq![y1, y0]);
    assert(seq![x1, x0] =~= seq![x1] + seq![x0]);
    assert(seq![y1, y0] =~= seq![y1] + seq![y0]);
    lemma_lex_cons(x1, y1, seq![x0], seq![y0]);
    assert(seq![x0] =~= seq![x0] + Seq::<u8>::empty());
    assert(seq![y0] =~= seq![y0] + Seq::<u8>::empty());
    lemma_lex_cons(x0, y0, Seq::<u8>::empty(), Seq::<u8>::empty());
    assert((((x >> 56) as u8) < ((y >> 56) as u8) || (((x >> 56) as u8) == ((y >> 56) as u8) && (
        ((x >> 48) as u8) < ((y >> 48) as u8) || (((x >> 48) as u8) == ((y >> 48) as u8) && (
        ((x >> 40) as u8) < ((y >> 40) as u8) || (((x >> 40) as u8) == ((y >> 40) as u8) && (
        ((x >> 32) as u8) < ((y >> 32) as u8) || (((x >> 32) as u8) == ((y >> 32) as u8) && (
        ((x >> 24) as u8) < ((y >> 24) as u8) || (((x >> 24) as u8) == ((y >> 24) as u8) && (
        ((x >> 16) as u8) < ((y >> 16) as u8) || (((x >> 16) as u8) == ((y >> 16) as u8) && (
        ((x >> 8) as u8) < ((y >> 8) as u8) || (((x >> 8) as u8) == ((y >> 8) as u8) && (
        ((x as u8) < (y as u8))))))))))))))))) <==> x < y) by (bit_vector);
}

/// Equal big-endian byte strings come from equal integers.
pub proof fn lemma_be8_injective(x: u64, y: u64)
    requires
        be8(x) =~= be8(y),
    ensures
        x == y,
{
    lemma_be8_order(x, y);
    lemma_be8_order(y, x);
}

/// Executable big-endian encoding realizing `be8`.
pub fn be8_exec(x: u64) -> (r: Vec<u8>)
    ensures
        r@ =~= be8(x),
{
    let mut r: Vec<u8> = Vec::new();
    r.push((x >> 56) as u8);
    r.push((x >> 48) as u8);
    r.push((x >> 40) as u8);
    r.push((x >> 32) as u8);
    r.push((x >> 24) as u8);
    r.push((x >> 16) as u8);
    r.push((x >> 8) as u8);
    r.push(x as u8);
    r
}

/// The integer whose big-endian bytes are the eight given ones.
pub open spec fn be8_to_u64(s: Seq<u8>) -> u64
    recommends
        s.len() == 8,
{
    (
        ((s[0] as u64) << 56)
        | ((s[1] as u64) << 48)
        | ((s[2] as u64) << 40)
        | ((s[3] as u64) << 32)
        | ((s[4] as u64) << 24)
        | ((s[5] as u64) << 16)
        | ((s[6] as u64) << 8)
        | (s[7] as u64)
    ) as u64
}

/// Reading eight big-endian bytes inverts the encoding.
pub proof fn lemma_be8_roundtrip(x: u64)
    ensures
        be8_to_u64(be8(x)) == x,
{
    let b7 = (x >> 56) as u8;
    let b6 = (x >> 48) as u8;
    let b5 = (x >> 40) as u8;
    let b4 = (x >> 32) as u8;
    let b3 = (x >> 24) as u8;
    let b2 = (x >> 16) as u8;
    let b1 = (x >> 8) as u8;
    let b0 = x as u8;
    assert(((((x >> 56) as u8 as u64) << 56)
        | (((x >> 48) as u8 as u64) << 48)
        | (((x >> 40) as u8 as u64) << 40)
        | (((x >> 32) as u8 as u64) << 32)
        | (((x >> 24) as u8 as u64) << 24)
        | (((x >> 16) as u8 as u64) << 16)
        | (((x >> 8) as u8 as u64) << 8)
        | (x as u8 as u64)) as u64 == x) by (bit_vector);
    assert(be8(x)[0] == b7);
    assert(be8(x)[1] == b6);
    assert(be8(x)[2] == b5);
    assert(be8(x)[3] == b4);
    assert(be8(x)[4] == b3);
    assert(be8(x)[5] == b2);
    assert(be8(x)[6] == b1);
    assert(be8(x)[7] == b0);
}

/// And conversely: encoding the integer read from eight bytes gives them back.
pub proof fn lemma_be8_to_u64_roundtrip(s: Seq<u8>)
    requires
        s.len() == 8,
    ensures
        be8(be8_to_u64(s)) =~= s,
{
    let b7 = s[0];
    let b6 = s[1];
    let b5 = s[2];
    let b4 = s[3];
    let b3 = s[4];
    let b2 = s[5];
    let b1 = s[6];
    let b0 = s[7];
    let x = be8_to_u64(s);
    assert(x == (((b7 as u64) << 56) | ((b6 as u64) << 48) | ((b5 as u64) << 40)
        | ((b4 as u64) << 32) | ((b3 as u64) << 24) | ((b2 as u64) << 16)
        | ((b1 as u64) << 8) | (b0 as u64)) as u64);
    assert(((x >> 56) as u8) == b7 && ((x >> 48) as u8) == b6 && ((x >> 40) as u8) == b5
        && ((x >> 32) as u8) == b4 && ((x >> 24) as u8) == b3 && ((x >> 16) as u8) == b2
        && ((x >> 8) as u8) == b1 && (x as u8) == b0) by (bit_vector)
        requires
            x == (((b7 as u64) << 56) | ((b6 as u64) << 48) | ((b5 as u64) << 40)
                | ((b4 as u64) << 32) | ((b3 as u64) << 24) | ((b2 as u64) << 16)
                | ((b1 as u64) << 8) | (b0 as u64)) as u64,
    ;
}

/// Executable decoding of eight big-endian bytes starting at `at`.
pub fn be8_to_u64_exec(s: &Vec<u8>, at: usize) -> (r: u64)
    requires
        at + 8 <= s.len(),
    ensures
        r == be8_to_u64(s@.subrange(at as int, at + 8)),
{
    let r = ((s[at] as u64) << 56)
        | ((s[at + 1] as u64) << 48)
        | ((s[at + 2] as u64) << 40)
        | ((s[at + 3] as u64) << 32)
        | ((s[at + 4] as u64) << 24)
        | ((s[at + 5] as u64) << 16)
        | ((s[at + 6] as u64) << 8)
        | (s[at + 7] as u64);
    proof {
        let sub = s@.subrange(at as int, at + 8);
        assert(sub[0] == s@[at as int]);
        assert(sub[1] == s@[at as int + 1]);
        assert(sub[2] == s@[at as int + 2]);
        assert(sub[3] == s@[at as int + 3]);
        assert(sub[4] == s@[at as int + 4]);
        assert(sub[5] == s@[at as int + 5]);
        assert(sub[6] == s@[at as int + 6]);
        assert(sub[7] == s@[at as int + 7]);
    }
    r
}

} // verus!
