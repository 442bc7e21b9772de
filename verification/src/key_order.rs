//! The two laws of the key codec.
//!
//! Order preservation: encoded keys compare bytewise exactly as keys compare
//! under the documented part order.  Round trip: decoding an encoded key
//! gives the key back.

use vstd::prelude::*;
use vstd::utf8::{decode_utf8, encode_utf8, encode_utf8_decode_utf8, encode_utf8_valid_utf8};

use crate::byteseq::{
    be8, be8_to_u64, bytes_lt, lemma_be8_order, lemma_be8_roundtrip, lemma_bytes_lt_irrefl,
    lemma_bytes_lt_trans, lemma_lex_common_prefix, lemma_lex_concat_lt, lemma_lex_cons,
};
use crate::keys::{
    enc_key, enc_part, escape, float_key, int_key, key_float, key_int, key_lt, part_lt, part_tag,
    spec_dec_key, spec_dec_part, spec_unescape, PartModel, TAG_BYTES, TAG_FALSE, TAG_FLOAT,
    TAG_INT, TAG_STRING, TAG_TRUE,
};

verus! {

/// A byte string that may legally follow a terminated part inside an encoded
/// key: it is empty or starts with a type tag, never with the escape
/// continuation byte.
pub open spec fn tail_ok(s: Seq<u8>) -> bool {
    s.len() == 0 || s[0] != 0xff
}

/// The encoding of a part after its leading tag byte.
pub open spec fn part_body(p: PartModel) -> Seq<u8> {
    match p {
        PartModel::Bytes(b) => escape(b) + seq![0u8],
        PartModel::String(s) => escape(encode_utf8(s)) + seq![0u8],
        PartModel::Int(i) => be8(int_key(i)),
        PartModel::Float64Bits(b) => be8(float_key(b)),
        PartModel::False => Seq::empty(),
        PartModel::True => Seq::empty(),
    }
}

/// Every part encoding is its tag byte followed by its body.
pub proof fn lemma_enc_part_shape(p: PartModel)
    ensures
        enc_part(p) =~= seq![part_tag(p)] + part_body(p),
        1 <= part_tag(p) <= 6,
{
    match p {
        PartModel::Bytes(b) => {
            assert(seq![TAG_BYTES] + escape(b) + seq![0u8] =~= seq![TAG_BYTES] + (escape(b)
                + seq![0u8]));
        }
        PartModel::String(s) => {
            assert(seq![TAG_STRING] + escape(encode_utf8(s)) + seq![0u8] =~= seq![TAG_STRING] + (
            escape(encode_utf8(s)) + seq![0u8]));
        }
        _ => {}
    }
}

/// No part order is strict against itself.
pub proof fn lemma_part_lt_irrefl(p: PartModel)
    ensures
        !part_lt(p, p),
{
    match p {
        PartModel::Bytes(b) => {
            lemma_bytes_lt_irrefl(b);
        }
        PartModel::String(s) => {
            lemma_bytes_lt_irrefl(encode_utf8(s));
        }
        _ => {}
    }
}

/// No byte string precedes itself together with something else it precedes.
proof fn lemma_bytes_lt_asym(a: Seq<u8>, b: Seq<u8>)
    requires
        bytes_lt(a, b),
    ensures
        !bytes_lt(b, a),
{
    if bytes_lt(b, a) {
        lemma_bytes_lt_trans(a, b, a);
        lemma_bytes_lt_irrefl(a);
    }
}

/// How two escaped, terminated contents with legal tails compare: exactly as
/// the contents compare, with the tails breaking ties.
proof fn lemma_escape_order(a: Seq<u8>, b: Seq<u8>, sa: Seq<u8>, sb: Seq<u8>)
    requires
        tail_ok(sa),
        tail_ok(sb),
    ensures
        bytes_lt(escape(a) + seq![0u8] + sa, escape(b) + seq![0u8] + sb) <==> (bytes_lt(a, b) || (
        a == b && bytes_lt(sa, sb))),
    decreases a.len() + b.len(),
{
    let la = escape(a) + seq![0u8] + sa;
    let lb = escape(b) + seq![0u8] + sb;
    if a.len() == 0 && b.len() == 0 {
        assert(escape(a) =~= Seq::<u8>::empty());
        assert(la =~= seq![0u8] + sa);
        assert(lb =~= seq![0u8] + sb);
        lemma_lex_cons(0, 0, sa, sb);
        assert(a =~= b);
    } else if a.len() == 0 {
        assert(escape(a) =~= Seq::<u8>::empty());
        assert(la =~= seq![0u8] + sa);
        assert(a != b);
        if b[0] == 0 {
            assert(escape(b) =~= seq![0u8, 0xffu8] + escape(b.drop_first()));
            let t = seq![0xffu8] + (escape(b.drop_first()) + seq![0u8] + sb);
            assert(lb =~= seq![0u8] + t);
            lemma_lex_cons(0, 0, sa, t);
            if sa.len() == 0 {
            } else {
                assert(sa =~= seq![sa[0]] + sa.drop_first());
                lemma_lex_cons(sa[0], 0xff, sa.drop_first(), escape(b.drop_first()) + seq![0u8]
                    + sb);
            }
        } else {
            assert(escape(b) =~= seq![b[0]] + escape(b.drop_first()));
            assert(lb =~= seq![b[0]] + (escape(b.drop_first()) + seq![0u8] + sb));
            lemma_lex_cons(0, b[0], sa, escape(b.drop_first()) + seq![0u8] + sb);
        }
    } else if b.len() == 0 {
        assert(escape(b) =~= Seq::<u8>::empty());
        assert(lb =~= seq![0u8] + sb);
        assert(a != b);
        if a[0] == 0 {
            assert(escape(a) =~= seq![0u8, 0xffu8] + escape(a.drop_first()));
            let t = seq![0xffu8] + (escape(a.drop_first()) + seq![0u8] + sa);
            assert(la =~= seq![0u8] + t);
            lemma_lex_cons(0, 0, t, sb);
            if sb.len() == 0 {
            } else {
                assert(sb =~= seq![sb[0]] + sb.drop_first());
                lemma_lex_cons(0xff, sb[0], escape(a.drop_first()) + seq![0u8] + sa,
                    sb.drop_first());
            }
        } else {
            assert(escape(a) =~= seq![a[0]] + escape(a.drop_first()));
            assert(la =~= seq![a[0]] + (escape(a.drop_first()) + seq![0u8] + sa));
            lemma_lex_cons(a[0], 0, escape(a.drop_first()) + seq![0u8] + sa, sb);
        }
    } else {
        let a0 = a[0];
        let b0 = b[0];
        let ta = a.drop_first();
        let tb = b.drop_first();
        assert(a =~= seq![a0] + ta);
        assert(b =~= seq![b0] + tb);
        if a0 == 0 && b0 == 0 {
            assert(escape(a) =~= seq![0u8, 0xffu8] + escape(ta));
            assert(escape(b) =~= seq![0u8, 0xffu8] + escape(tb));
            let ua = escape(ta) + seq![0u8] + sa;
            let ub = escape(tb) + seq![0u8] + sb;
            assert(la =~= seq![0u8] + (seq![0xffu8] + ua));
            assert(lb =~= seq![0u8] + (seq![0xffu8] + ub));
            lemma_lex_cons(0, 0, seq![0xffu8] + ua, seq![0xffu8] + ub);
            lemma_lex_cons(0xff, 0xff, ua, ub);
            lemma_escape_order(ta, tb, sa, sb);
            lemma_lex_cons(a0, b0, ta, tb);
            if ta == tb {
                assert(a =~= b);
            }
            if a == b {
                assert(ta =~= tb);
            }
        } else if a0 == b0 {
            assert(escape(a) =~= seq![a0] + escape(ta));
            assert(escape(b) =~= seq![b0] + escape(tb));
            let ua = escape(ta) + seq![0u8] + sa;
            let ub = escape(tb) + seq![0u8] + sb;
            assert(la =~= seq![a0] + ua);
            assert(lb =~= seq![b0] + ub);
            lemma_lex_cons(a0, b0, ua, ub);
            lemma_escape_order(ta, tb, sa, sb);
            lemma_lex_cons(a0, b0, ta, tb);
            if ta == tb {
                assert(a =~= b);
            }
            if a == b {
                assert(ta =~= tb);
            }
        } else {
            lemma_lex_cons(a0, b0, ta, tb);
            assert(a != b);
            let ha: u8 = if a0 == 0 { 0u8 } else { a0 };
            let ra = if a0 == 0 {
                seq![0xffu8] + (escape(ta) + seq![0u8] + sa)
            } else {
                escape(ta) + seq![0u8] + sa
            };
            if a0 == 0 {
                assert(escape(a) =~= seq![0u8, 0xffu8] + escape(ta));
                assert(la =~= seq![ha] + ra);
            } else {
                assert(escape(a) =~= seq![a0] + escape(ta));
                assert(la =~= seq![ha] + ra);
            }
            let hb: u8 = if b0 == 0 { 0u8 } else { b0 };
            let rb = if b0 == 0 {
                seq![0xffu8] + (escape(tb) + seq![0u8] + sb)
            } else {
                escape(tb) + seq![0u8] + sb
            };
            if b0 == 0 {
                assert(escape(b) =~= seq![0u8, 0xffu8] + escape(tb));
                assert(lb =~= seq![hb] + rb);
            } else {
                assert(escape(b) =~= seq![b0] + escape(tb));
                assert(lb =~= seq![hb] + rb);
            }
            assert(ha == a0 && hb == b0);
            lemma_lex_cons(ha, hb, ra, rb);
        }
    }
}

/// How two eight-byte big-endian bodies with arbitrary tails compare.
proof fn lemma_fixed8_compose(u: u64, v: u64, sa: Seq<u8>, sb: Seq<u8>)
    ensures
        bytes_lt(be8(u) + sa, be8(v) + sb) <==> (u < v || (u == v && bytes_lt(sa, sb))),
{
    lemma_be8_order(u, v);
    lemma_be8_order(v, u);
    if u < v {
        lemma_lex_concat_lt(be8(u), be8(v), sa, sb);
    } else if v < u {
        lemma_lex_concat_lt(be8(v), be8(u), sb, sa);
        lemma_bytes_lt_asym(be8(v) + sb, be8(u) + sa);
    } else {
        assert(be8(u) =~= be8(v));
        lemma_lex_common_prefix(be8(u), sa, sb);
    }
}

/// The two float transforms invert each other, and equal order keys come
/// from equal bit patterns.
pub proof fn lemma_float_key_props(a: u64, b: u64)
    ensures
        key_float(float_key(a)) == a,
        float_key(a) == float_key(b) ==> a == b,
{
    assert(a >> 63 == 0 ==> ((a ^ 0x8000_0000_0000_0000u64) >> 63 == 1 && ((a
        ^ 0x8000_0000_0000_0000u64) ^ 0x8000_0000_0000_0000u64) == a)) by (bit_vector);
    assert(a >> 63 != 0 ==> (a >> 63 == 1 && (!a) >> 63 == 0 && !(!a) == a)) by (bit_vector);
    assert(b >> 63 == 0 ==> ((b ^ 0x8000_0000_0000_0000u64) >> 63 == 1)) by (bit_vector);
    assert(b >> 63 != 0 ==> ((!b) >> 63 == 0)) by (bit_vector);
    assert((a ^ 0x8000_0000_0000_0000u64) == (b ^ 0x8000_0000_0000_0000u64) ==> a == b)
        by (bit_vector);
    assert(!a == !b ==> a == b) by (bit_vector);
    assert(a >> 63 == 0 && b >> 63 != 0 ==> (a ^ 0x8000_0000_0000_0000u64) != !b) by (bit_vector);
    assert(a >> 63 != 0 && b >> 63 == 0 ==> !a != (b ^ 0x8000_0000_0000_0000u64)) by (bit_vector);
}

/// The integer transform inverts, and preserves and reflects order.
pub proof fn lemma_int_key_props(x: i64, y: i64)
    ensures
        key_int(int_key(x)) == x,
        int_key(x) < int_key(y) <==> x < y,
        int_key(x) == int_key(y) ==> x == y,
{
    assert((((x as u64) ^ 0x8000_0000_0000_0000u64) ^ 0x8000_0000_0000_0000u64) as i64 == x)
        by (bit_vector);
    assert((((x as u64) ^ 0x8000_0000_0000_0000u64) < ((y as u64) ^ 0x8000_0000_0000_0000u64))
        <==> x < y) by (bit_vector);
    assert((((x as u64) ^ 0x8000_0000_0000_0000u64) == ((y as u64) ^ 0x8000_0000_0000_0000u64))
        ==> x == y) by (bit_vector);
}

/// How two part encodings with legal tails compare: exactly as the parts
/// compare, with the tails breaking ties.
proof fn lemma_part_compose(p: PartModel, q: PartModel, sa: Seq<u8>, sb: Seq<u8>)
    requires
        tail_ok(sa),
        tail_ok(sb),
    ensures
        bytes_lt(enc_part(p) + sa, enc_part(q) + sb) <==> (part_lt(p, q) || (p == q && bytes_lt(
            sa,
            sb,
        ))),
{
    lemma_enc_part_shape(p);
    lemma_enc_part_shape(q);
    assert(enc_part(p) + sa =~= seq![part_tag(p)] + (part_body(p) + sa));
    assert(enc_part(q) + sb =~= seq![part_tag(q)] + (part_body(q) + sb));
    lemma_lex_cons(part_tag(p), part_tag(q), part_body(p) + sa, part_body(q) + sb);
    if part_tag(p) == part_tag(q) {
        match (p, q) {
            (PartModel::Bytes(x), PartModel::Bytes(y)) => {
                assert(part_body(p) + sa =~= escape(x) + seq![0u8] + sa);
                assert(part_body(q) + sb =~= escape(y) + seq![0u8] + sb);
                lemma_escape_order(x, y, sa, sb);
            }
            (PartModel::String(x), PartModel::String(y)) => {
                assert(part_body(p) + sa =~= escape(encode_utf8(x)) + seq![0u8] + sa);
                assert(part_body(q) + sb =~= escape(encode_utf8(y)) + seq![0u8] + sb);
                lemma_escape_order(encode_utf8(x), encode_utf8(y), sa, sb);
                if encode_utf8(x) == encode_utf8(y) {
                    encode_utf8_decode_utf8(x);
                    encode_utf8_decode_utf8(y);
                    assert(x == y);
                }
            }
            (PartModel::Int(x), PartModel::Int(y)) => {
                lemma_fixed8_compose(int_key(x), int_key(y), sa, sb);
                lemma_int_key_props(x, y);
            }
            (PartModel::Float64Bits(x), PartModel::Float64Bits(y)) => {
                lemma_fixed8_compose(float_key(x), float_key(y), sa, sb);
                lemma_float_key_props(x, y);
            }
            (PartModel::False, PartModel::False) => {
                assert(part_body(p) + sa =~= sa);
                assert(part_body(q) + sb =~= sb);
            }
            (PartModel::True, PartModel::True) => {
                assert(part_body(p) + sa =~= sa);
                assert(part_body(q) + sb =~= sb);
            }
            _ => {
                assert(false);
            }
        }
    }
}

/// An encoded key is empty or starts with a type tag.
pub proof fn lemma_enc_key_head(parts: Seq<PartModel>)
    ensures
        tail_ok(enc_key(parts)),
        parts.len() > 0 ==> enc_key(parts).len() > 0,
    decreases parts.len(),
{
    if parts.len() > 0 {
        lemma_enc_part_shape(parts[0]);
        assert(enc_key(parts)[0] == part_tag(parts[0]));
    }
}

/// THE ORDER LAW.  For every pair of keys, the encodings compare bytewise
/// exactly as the keys compare under the documented total order on keys.
pub proof fn lemma_encode_preserves_order(a: Seq<PartModel>, b: Seq<PartModel>)
    ensures
        bytes_lt(enc_key(a), enc_key(b)) <==> key_lt(a, b),
    decreases a.len() + b.len(),
{
    if a.len() == 0 && b.len() == 0 {
    } else if a.len() == 0 {
        lemma_enc_key_head(b);
        assert(enc_key(a) =~= Seq::<u8>::empty());
    } else if b.len() == 0 {
        assert(enc_key(b) =~= Seq::<u8>::empty());
    } else {
        let ta = a.drop_first();
        let tb = b.drop_first();
        lemma_enc_key_head(ta);
        lemma_enc_key_head(tb);
        lemma_part_compose(a[0], b[0], enc_key(ta), enc_key(tb));
        lemma_encode_preserves_order(ta, tb);
        lemma_part_lt_irrefl(a[0]);
    }
}

/// Equal encodings come from equal keys.
pub proof fn lemma_encode_injective(a: Seq<PartModel>, b: Seq<PartModel>)
    requires
        enc_key(a) == enc_key(b),
    ensures
        a == b,
    decreases a.len() + b.len(),
{
    lemma_encode_preserves_order(a, b);
    lemma_encode_preserves_order(b, a);
    lemma_bytes_lt_irrefl(enc_key(a));
    lemma_key_not_lt(a, b);
}

/// Keys that compare strictly in neither direction are equal.
proof fn lemma_key_not_lt(a: Seq<PartModel>, b: Seq<PartModel>)
    requires
        !key_lt(a, b),
        !key_lt(b, a),
    ensures
        a == b,
    decreases a.len() + b.len(),
{
    if a.len() == 0 && b.len() == 0 {
        assert(a =~= b);
    } else if a.len() == 0 || b.len() == 0 {
    } else {
        if a[0] == b[0] {
            lemma_part_lt_irrefl(a[0]);
            lemma_key_not_lt(a.drop_first(), b.drop_first());
            assert(a =~= seq![a[0]] + a.drop_first());
            assert(b =~= seq![b[0]] + b.drop_first());
        } else {
            lemma_part_not_lt(a[0], b[0]);
        }
    }
}

/// The part order is total: distinct parts compare one way or the other.
proof fn lemma_part_not_lt(p: PartModel, q: PartModel)
    requires
        !part_lt(p, q),
        !part_lt(q, p),
    ensures
        p == q,
{
    if part_tag(p) == part_tag(q) {
        match (p, q) {
            (PartModel::Bytes(x), PartModel::Bytes(y)) => {
                crate::byteseq::lemma_bytes_lt_total(x, y);
            }
            (PartModel::String(x), PartModel::String(y)) => {
                crate::byteseq::lemma_bytes_lt_total(encode_utf8(x), encode_utf8(y));
                encode_utf8_decode_utf8(x);
                encode_utf8_decode_utf8(y);
            }
            (PartModel::Int(x), PartModel::Int(y)) => {}
            (PartModel::Float64Bits(x), PartModel::Float64Bits(y)) => {
                lemma_float_key_props(x, y);
            }
            (PartModel::False, PartModel::False) => {}
            (PartModel::True, PartModel::True) => {}
            _ => {
                assert(false);
            }
        }
    }
}

/// Reading escaped content back gives the content and the tail.
proof fn lemma_unescape_escape(c: Seq<u8>, r: Seq<u8>)
    requires
        tail_ok(r),
    ensures
        spec_unescape(escape(c) + seq![0u8] + r) == Some((c, r)),
    decreases c.len(),
{
    let s = escape(c) + seq![0u8] + r;
    if c.len() == 0 {
        assert(escape(c) =~= Seq::<u8>::empty());
        assert(s =~= seq![0u8] + r);
        assert(s[0] == 0);
        assert(!(s.len() >= 2 && s[1] == 0xff));
        assert(s.drop_first() =~= r);
        assert(spec_unescape(s) == Some((Seq::<u8>::empty(), r)));
        assert(c =~= Seq::<u8>::empty());
    } else if c[0] == 0 {
        assert(escape(c) =~= seq![0u8, 0xffu8] + escape(c.drop_first()));
        assert(s =~= seq![0u8, 0xffu8] + (escape(c.drop_first()) + seq![0u8] + r));
        assert(s[0] == 0 && s[1] == 0xff && s.len() >= 2);
        assert(s.skip(2) =~= escape(c.drop_first()) + seq![0u8] + r);
        lemma_unescape_escape(c.drop_first(), r);
        assert(seq![0u8] + c.drop_first() =~= c);
    } else {
        assert(escape(c) =~= seq![c[0]] + escape(c.drop_first()));
        assert(s =~= seq![c[0]] + (escape(c.drop_first()) + seq![0u8] + r));
        assert(s[0] == c[0]);
        assert(s.drop_first() =~= escape(c.drop_first()) + seq![0u8] + r);
        lemma_unescape_escape(c.drop_first(), r);
        assert(seq![c[0]] + c.drop_first() =~= c);
    }
}

/// Decoding one encoded part with a legal tail gives the part and the tail.
proof fn lemma_dec_part_enc(p: PartModel, r: Seq<u8>)
    requires
        tail_ok(r),
    ensures
        spec_dec_part(enc_part(p) + r) == Some((p, r)),
{
    lemma_enc_part_shape(p);
    let s = enc_part(p) + r;
    assert(s =~= seq![part_tag(p)] + (part_body(p) + r));
    assert(s[0] == part_tag(p));
    assert(s.drop_first() =~= part_body(p) + r);
    match p {
        PartModel::Bytes(b) => {
            assert(part_body(p) + r =~= escape(b) + seq![0u8] + r);
            lemma_unescape_escape(b, r);
        }
        PartModel::String(t) => {
            assert(part_body(p) + r =~= escape(encode_utf8(t)) + seq![0u8] + r);
            lemma_unescape_escape(encode_utf8(t), r);
            encode_utf8_valid_utf8(t);
            encode_utf8_decode_utf8(t);
        }
        PartModel::Int(i) => {
            let rest = part_body(p) + r;
            assert(rest =~= be8(int_key(i)) + r);
            assert(rest.take(8) =~= be8(int_key(i)));
            assert(rest.skip(8) =~= r);
            lemma_be8_roundtrip(int_key(i));
            lemma_int_key_props(i, i);
        }
        PartModel::Float64Bits(b) => {
            let rest = part_body(p) + r;
            assert(rest =~= be8(float_key(b)) + r);
            assert(rest.take(8) =~= be8(float_key(b)));
            assert(rest.skip(8) =~= r);
            lemma_be8_roundtrip(float_key(b));
            lemma_float_key_props(b, b);
        }
        PartModel::False => {
            assert(part_body(p) + r =~= r);
        }
        PartModel::True => {
            assert(part_body(p) + r =~= r);
        }
    }
}

/// THE ROUND-TRIP LAW.  For every key, decoding its encoding gives exactly
/// the key back.
pub proof fn lemma_decode_encode(parts: Seq<PartModel>)
    ensures
        spec_dec_key(enc_key(parts)) == Some(parts),
    decreases parts.len(),
{
    if parts.len() == 0 {
        assert(enc_key(parts) =~= Seq::<u8>::empty());
        assert(Seq::<PartModel>::empty() =~= parts);
    } else {
        let p0 = parts[0];
        let rest = parts.drop_first();
        let s = enc_key(parts);
        lemma_enc_key_head(rest);
        lemma_enc_part_shape(p0);
        lemma_dec_part_enc(p0, enc_key(rest));
        assert(s == enc_part(p0) + enc_key(rest));
        assert(s.len() >= enc_part(p0).len());
        assert(enc_part(p0).len() > 0);
        assert(enc_key(rest).len() < s.len());
        lemma_decode_encode(rest);
        assert(seq![p0] + rest =~= parts);
    }
}

} // verus!
