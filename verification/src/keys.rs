//! Composite keys and their order-preserving binary codec.
//!
//! A key is a sequence of typed parts.  Each part is encoded with a leading
//! type tag from a fixed table; byte-string and text parts are terminated by
//! a sentinel zero byte, with interior zero bytes escaped; fixed-width
//! numeric parts use a big-endian transform that preserves order (the sign
//! bit is flipped for signed integers, and floating-point bit patterns are
//! mapped monotonically).  Encoded keys compare bytewise exactly as keys
//! compare under the documented part order.

use vstd::prelude::*;
use vstd::string::StrSliceExecFns;
use vstd::utf8::{decode_utf8, encode_utf8, valid_utf8};

use crate::byteseq::{be8, be8_to_u64, be8_to_u64_exec, be8_exec};
use crate::errors::KvError;

verus! {

/// One typed part of a key.
#[derive(Clone, Debug)]
pub enum KeyPart {
    /// A byte string.
    Bytes(Vec<u8>),
    /// A text string, ordered by its UTF-8 bytes.
    String(String),
    /// A signed 64-bit integer.
    Int(i64),
    /// The bit pattern of a 64-bit float, ordered by the sign-aware
    /// transform below.  NaN patterns are admitted by the codec but have no
    /// place in the documented order.
    Float64Bits(u64),
    /// The boolean false, above every numeric part.
    False,
    /// The boolean true, the greatest part.
    True,
}

/// The mathematical model of one key part.
pub enum PartModel {
    Bytes(Seq<u8>),
    String(Seq<char>),
    Int(i64),
    Float64Bits(u64),
    False,
    True,
}

impl View for KeyPart {
    type V = PartModel;

    open spec fn view(&self) -> PartModel {
        match self {
            KeyPart::Bytes(b) => PartModel::Bytes(b@),
            KeyPart::String(s) => PartModel::String(s@),
            KeyPart::Int(i) => PartModel::Int(*i),
            KeyPart::Float64Bits(b) => PartModel::Float64Bits(*b),
            KeyPart::False => PartModel::False,
            KeyPart::True => PartModel::True,
        }
    }
}

/// A composite key: a sequence of parts.
#[derive(Clone, Debug)]
pub struct Key(pub Vec<KeyPart>);

impl View for Key {
    type V = Seq<PartModel>;

    open spec fn view(&self) -> Seq<PartModel> {
        Seq::new(self.0@.len(), |i: int| self.0@[i]@)
    }
}

/// The type tag of byte-string parts.
pub const TAG_BYTES: u8 = 0x01;

/// The type tag of text parts.
pub const TAG_STRING: u8 = 0x02;

/// The type tag of integer parts.
pub const TAG_INT: u8 = 0x03;

/// The type tag of float parts.
pub const TAG_FLOAT: u8 = 0x04;

/// The type tag of the boolean false part.
pub const TAG_FALSE: u8 = 0x05;

/// The type tag of the boolean true part.
pub const TAG_TRUE: u8 = 0x06;

/// The order key of a signed integer: flipping the sign bit turns signed
/// comparison into unsigned comparison.
pub open spec fn int_key(i: i64) -> u64 {
    (i as u64) ^ 0x8000_0000_0000_0000
}

/// Inverts `int_key`.
pub open spec fn key_int(u: u64) -> i64 {
    (u ^ 0x8000_0000_0000_0000) as i64
}

/// The order key of a float bit pattern: positives get their sign bit
/// flipped, negatives get all bits flipped, so unsigned comparison of the
/// result matches the numeric order.
pub open spec fn float_key(bits: u64) -> u64 {
    if bits >> 63 == 0 {
        bits ^ 0x8000_0000_0000_0000
    } else {
        !bits
    }
}

/// Inverts `float_key`.
pub open spec fn key_float(k: u64) -> u64 {
    if k >> 63 == 1 {
        k ^ 0x8000_0000_0000_0000
    } else {
        !k
    }
}

/// Escapes a byte string for use inside a terminated part: every zero byte
/// becomes `0x00 0xff`, so that the bare terminator `0x00` cannot occur
/// inside the content.
pub open spec fn escape(s: Seq<u8>) -> Seq<u8>
    decreases s.len(),
{
    if s.len() == 0 {
        Seq::empty()
    } else if s[0] == 0 {
        seq![0u8, 0xffu8] + escape(s.drop_first())
    } else {
        seq![s[0]] + escape(s.drop_first())
    }
}

/// The encoding of one part.
pub open spec fn enc_part(p: PartModel) -> Seq<u8> {
    match p {
        PartModel::Bytes(b) => seq![TAG_BYTES] + escape(b) + seq![0u8],
        PartModel::String(s) => seq![TAG_STRING] + escape(encode_utf8(s)) + seq![0u8],
        PartModel::Int(i) => seq![TAG_INT] + be8(int_key(i)),
        PartModel::Float64Bits(b) => seq![TAG_FLOAT] + be8(float_key(b)),
        PartModel::False => seq![TAG_FALSE],
        PartModel::True => seq![TAG_TRUE],
    }
}

/// The encoding of a key: its parts' encodings, in order.
pub open spec fn enc_key(parts: Seq<PartModel>) -> Seq<u8>
    decreases parts.len(),
{
    if parts.len() == 0 {
        Seq::empty()
    } else {
        enc_part(parts[0]) + enc_key(parts.drop_first())
    }
}

/// The tag byte of a part.
pub open spec fn part_tag(p: PartModel) -> u8 {
    match p {
        PartModel::Bytes(_) => TAG_BYTES,
        PartModel::String(_) => TAG_STRING,
        PartModel::Int(_) => TAG_INT,
        PartModel::Float64Bits(_) => TAG_FLOAT,
        PartModel::False => TAG_FALSE,
        PartModel::True => TAG_TRUE,
    }
}

/// The documented strict order on parts: the tag table first, then the
/// content order of the common type.
pub open spec fn part_lt(a: PartModel, b: PartModel) -> bool {
    if part_tag(a) != part_tag(b) {
        part_tag(a) < part_tag(b)
    } else {
        match (a, b) {
            (PartModel::Bytes(x), PartModel::Bytes(y)) => crate::byteseq::bytes_lt(x, y),
            (PartModel::String(x), PartModel::String(y)) => crate::byteseq::bytes_lt(
                encode_utf8(x),
                encode_utf8(y),
            ),
            (PartModel::Int(x), PartModel::Int(y)) => x < y,
            (PartModel::Float64Bits(x), PartModel::Float64Bits(y)) => float_key(x) < float_key(y),
            _ => false,
        }
    }
}

/// The documented strict order on keys: lexicographic over parts, a proper
/// prefix preceding its extensions.
pub open spec fn key_lt(a: Seq<PartModel>, b: Seq<PartModel>) -> bool
    decreases a.len(),
{
    if b.len() == 0 {
        false
    } else if a.len() == 0 {
        true
    } else if part_lt(a[0], b[0]) {
        true
    } else if a[0] == b[0] {
        key_lt(a.drop_first(), b.drop_first())
    } else {
        false
    }
}

/// Appends the escaped content and the terminator to `out`.
fn escape_into(out: &mut Vec<u8>, data: &Vec<u8>)
    ensures
        final(out)@ =~= old(out)@ + escape(data@) + seq![0u8],
{
    let ghost orig = out@;
    let mut i: usize = 0;
    while i < data.len()
        invariant
            i <= data.len(),
            out@ =~= orig + escape(data@.take(i as int)),
        decreases data.len() - i,
    {
        let b = data[i];
        if b == 0 {
            out.push(0u8);
            out.push(0xffu8);
        } else {
            out.push(b);
        }
        proof {
            lemma_escape_snoc(data@.take(i as int), data@[i as int]);
            assert(data@.take(i + 1) =~= data@.take(i as int) + seq![data@[i as int]]);
        }
        i = i + 1;
    }
    proof {
        assert(data@.take(data@.len() as int) =~= data@);
    }
    out.push(0u8);
}

/// Escaping one more byte appends its escape.
proof fn lemma_escape_snoc(s: Seq<u8>, x: u8)
    ensures
        escape(s + seq![x]) =~= escape(s) + (if x == 0 { seq![0u8, 0xffu8] } else { seq![x] }),
    decreases s.len(),
{
    reveal_with_fuel(escape, 3);
    let w = s + seq![x];
    if s.len() == 0 {
        assert(w[0] == x);
        assert(w.drop_first() =~= Seq::<u8>::empty());
    } else {
        assert(w[0] == s[0]);
        assert(w.drop_first() =~= s.drop_first() + seq![x]);
        lemma_escape_snoc(s.drop_first(), x);
    }
}

/// Appends the encoding of one part to `out`.
fn encode_part_into(out: &mut Vec<u8>, part: &KeyPart)
    ensures
        final(out)@ =~= old(out)@ + enc_part(part@),
{
    match part {
        KeyPart::Bytes(b) => {
            out.push(TAG_BYTES);
            escape_into(out, b);
        }
        KeyPart::String(s) => {
            out.push(TAG_STRING);
            let bytes = s.as_str().as_bytes_vec();
            escape_into(out, &bytes);
        }
        KeyPart::Int(i) => {
            out.push(TAG_INT);
            let k = (*i as u64) ^ 0x8000_0000_0000_0000u64;
            let mut enc = be8_exec(k);
            out.append(&mut enc);
        }
        KeyPart::Float64Bits(b) => {
            out.push(TAG_FLOAT);
            let k = if (*b >> 63u64) == 0 {
                *b ^ 0x8000_0000_0000_0000u64
            } else {
                !*b
            };
            let mut enc = be8_exec(k);
            out.append(&mut enc);
        }
        KeyPart::False => {
            out.push(TAG_FALSE);
        }
        KeyPart::True => {
            out.push(TAG_TRUE);
        }
    }
}

/// Encodes a key into its order-preserving byte string.
pub fn encode_key(key: &Key) -> (r: Vec<u8>)
    ensures
        r@ =~= enc_key(key@),
{
    let mut out: Vec<u8> = Vec::new();
    let mut i: usize = 0;
    while i < key.0.len()
        invariant
            i <= key.0@.len(),
            out@ =~= enc_key(key@.take(i as int)),
        decreases key.0@.len() - i,
    {
        encode_part_into(&mut out, &key.0[i]);
        proof {
            lemma_enc_key_snoc(key@.take(i as int), key@[i as int]);
            assert(key@.take(i + 1) =~= key@.take(i as int) + seq![key@[i as int]]);
        }
        i = i + 1;
    }
    proof {
        assert(key@.take(key@.len() as int) =~= key@);
    }
    out
}

/// Encoding one more part appends its encoding.
pub proof fn lemma_enc_key_snoc(parts: Seq<PartModel>, p: PartModel)
    ensures
        enc_key(parts + seq![p]) =~= enc_key(parts) + enc_part(p),
    decreases parts.len(),
{
    reveal_with_fuel(enc_key, 3);
    let w = parts + seq![p];
    if parts.len() == 0 {
        assert(w[0] == p);
        assert(w.drop_first() =~= Seq::<PartModel>::empty());
    } else {
        assert(w[0] == parts[0]);
        assert(w.drop_first() =~= parts.drop_first() + seq![p]);
        lemma_enc_key_snoc(parts.drop_first(), p);
    }
}

/// The spec-level inverse of `escape` with its terminator: the content up to
/// the first unescaped zero byte, and what follows the terminator.
pub open spec fn spec_unescape(s: Seq<u8>) -> Option<(Seq<u8>, Seq<u8>)>
    decreases s.len(),
{
    if s.len() == 0 {
        None
    } else if s[0] == 0 {
        if s.len() >= 2 && s[1] == 0xff {
            match spec_unescape(s.skip(2)) {
                Some(cr) => Some((seq![0u8] + cr.0, cr.1)),
                None => None,
            }
        } else {
            Some((Seq::empty(), s.drop_first()))
        }
    } else {
        match spec_unescape(s.drop_first()) {
            Some(cr) => Some((seq![s[0]] + cr.0, cr.1)),
            None => None,
        }
    }
}

/// The spec-level decoder of one part: the part and the remaining bytes.
pub open spec fn spec_dec_part(s: Seq<u8>) -> Option<(PartModel, Seq<u8>)> {
    if s.len() == 0 {
        None
    } else {
        let tag = s[0];
        let rest = s.drop_first();
        if tag == TAG_BYTES {
            match spec_unescape(rest) {
                Some(cr) => Some((PartModel::Bytes(cr.0), cr.1)),
                None => None,
            }
        } else if tag == TAG_STRING {
            match spec_unescape(rest) {
                Some(cr) => if valid_utf8(cr.0) {
                    Some((PartModel::String(decode_utf8(cr.0)), cr.1))
                } else {
                    None
                },
                None => None,
            }
        } else if tag == TAG_INT {
            if rest.len() >= 8 {
                Some((PartModel::Int(key_int(be8_to_u64(rest.take(8)))), rest.skip(8)))
            } else {
                None
            }
        } else if tag == TAG_FLOAT {
            if rest.len() >= 8 {
                Some((PartModel::Float64Bits(key_float(be8_to_u64(rest.take(8)))), rest.skip(8)))
            } else {
                None
            }
        } else if tag == TAG_FALSE {
            Some((PartModel::False, rest))
        } else if tag == TAG_TRUE {
            Some((PartModel::True, rest))
        } else {
            None
        }
    }
}

/// The spec-level decoder of a whole key.
pub open spec fn spec_dec_key(s: Seq<u8>) -> Option<Seq<PartModel>>
    decreases s.len(),
{
    if s.len() == 0 {
        Some(Seq::empty())
    } else {
        match spec_dec_part(s) {
            Some(pr) => if pr.1.len() < s.len() {
                match spec_dec_key(pr.1) {
                    Some(ps) => Some(seq![pr.0] + ps),
                    None => None,
                }
            } else {
                None
            },
            None => None,
        }
    }
}

/// Reads the escaped content starting at `pos` up to its terminator.
fn unescape_from(bytes: &Vec<u8>, pos: usize) -> (r: Result<(Vec<u8>, usize), KvError>)
    requires
        pos <= bytes.len(),
    ensures
        r matches Ok(cn) ==> {
            &&& spec_unescape(bytes@.skip(pos as int)) == Some((cn.0@, bytes@.skip(cn.1 as int)))
            &&& pos < cn.1 <= bytes@.len()
        },
        r is Err ==> spec_unescape(bytes@.skip(pos as int)) is None,
        r matches Err(e) ==> e == KvError::MalformedKey,
{
    let mut out: Vec<u8> = Vec::new();
    let mut i: usize = pos;
    loop
        invariant
            pos <= i <= bytes@.len(),
            spec_unescape(bytes@.skip(pos as int)) == (match spec_unescape(bytes@.skip(i as int)) {
                Some(cr) => Some((out@ + cr.0, cr.1)),
                None => None::<(Seq<u8>, Seq<u8>)>,
            }),
        decreases bytes@.len() - i,
    {
        let ghost rest = bytes@.skip(i as int);
        if i >= bytes.len() {
            return Err(KvError::MalformedKey);
        }
        proof {
            assert(rest[0] == bytes@[i as int]);
        }
        let b = bytes[i];
        if b == 0 {
            if i + 1 < bytes.len() && bytes[i + 1] == 0xff {
                proof {
                    assert(rest[1] == bytes@[i as int + 1]);
                    assert(rest.skip(2) =~= bytes@.skip(i + 2));
                }
                out.push(0u8);
                i = i + 2;
                proof {
                    if spec_unescape(bytes@.skip(i as int)) is Some {
                        let cr = spec_unescape(bytes@.skip(i as int)).unwrap();
                        assert(out@ + cr.0 =~= out@.drop_last() + (seq![0u8] + cr.0));
                    }
                }
            } else {
                proof {
                    assert(rest.drop_first() =~= bytes@.skip(i + 1));
                    assert(!(rest.len() >= 2 && rest[1] == 0xff));
                    assert(out@ + Seq::<u8>::empty() =~= out@);
                }
                return Ok((out, i + 1));
            }
        } else {
            proof {
                assert(rest.drop_first() =~= bytes@.skip(i + 1));
            }
            out.push(b);
            i = i + 1;
            proof {
                if spec_unescape(bytes@.skip(i as int)) is Some {
                    let cr = spec_unescape(bytes@.skip(i as int)).unwrap();
                    assert(out@ + cr.0 =~= out@.drop_last() + (seq![b] + cr.0));
                }
            }
        }
    }
}

/// Relies on String::from_utf8: it accepts exactly the valid UTF-8 byte
/// strings and returns the characters they encode.
#[verifier::external_body]
pub(crate) fn bytes_to_string(v: Vec<u8>) -> (r: Option<String>)
    ensures
        r matches Some(s) ==> valid_utf8(v@) && s@ == decode_utf8(v@),
        r is None ==> !valid_utf8(v@),
{
    match std::string::String::from_utf8(v) {
        Ok(s) => Some(s),
        Err(_) => None,
    }
}

/// Decodes one part starting at `pos`; returns it with the next position.
fn decode_part_from(bytes: &Vec<u8>, pos: usize) -> (r: Result<(KeyPart, usize), KvError>)
    requires
        pos < bytes.len(),
    ensures
        r matches Ok(pn) ==> {
            &&& spec_dec_part(bytes@.skip(pos as int)) == Some((pn.0@, bytes@.skip(pn.1 as int)))
            &&& pos < pn.1 <= bytes@.len()
        },
        r is Err ==> spec_dec_part(bytes@.skip(pos as int)) is None,
        r matches Err(e) ==> e == KvError::MalformedKey,
{
    let ghost s = bytes@.skip(pos as int);
    proof {
        assert(s[0] == bytes@[pos as int]);
        assert(s.drop_first() =~= bytes@.skip(pos + 1));
    }
    let tag = bytes[pos];
    if tag == TAG_BYTES {
        match unescape_from(bytes, pos + 1) {
            Ok((content, next)) => Ok((KeyPart::Bytes(content), next)),
            Err(e) => Err(e),
        }
    } else if tag == TAG_STRING {
        match unescape_from(bytes, pos + 1) {
            Ok((content, next)) => {
                match bytes_to_string(content) {
                    Some(text) => Ok((KeyPart::String(text), next)),
                    None => Err(KvError::MalformedKey),
                }
            }
            Err(e) => Err(e),
        }
    } else if tag == TAG_INT {
        if bytes.len() - pos - 1 >= 8 {
            let u = be8_to_u64_exec(bytes, pos + 1);
            proof {
                assert(s.drop_first().take(8) =~= bytes@.subrange(pos + 1, pos + 9));
                assert(s.drop_first().skip(8) =~= bytes@.skip(pos + 9));
            }
            let i = #[verifier::truncate] ((u ^ 0x8000_0000_0000_0000u64) as i64);
            Ok((KeyPart::Int(i), pos + 9))
        } else {
            Err(KvError::MalformedKey)
        }
    } else if tag == TAG_FLOAT {
        if bytes.len() - pos - 1 >= 8 {
            let u = be8_to_u64_exec(bytes, pos + 1);
            proof {
                assert(s.drop_first().take(8) =~= bytes@.subrange(pos + 1, pos + 9));
                assert(s.drop_first().skip(8) =~= bytes@.skip(pos + 9));
            }
            let f = if (u >> 63u64) == 1 {
                u ^ 0x8000_0000_0000_0000u64
            } else {
                !u
            };
            Ok((KeyPart::Float64Bits(f), pos + 9))
        } else {
            Err(KvError::MalformedKey)
        }
    } else if tag == TAG_FALSE {
        Ok((KeyPart::False, pos + 1))
    } else if tag == TAG_TRUE {
        Ok((KeyPart::True, pos + 1))
    } else {
        Err(KvError::MalformedKey)
    }
}

/// Decodes an encoded key.  Success and the decoded parts agree exactly with
/// the spec-level decoder.
pub fn decode_key(bytes: &Vec<u8>) -> (r: Result<Key, KvError>)
    ensures
        r matches Ok(k) ==> spec_dec_key(bytes@) == Some(k@),
        r is Err ==> spec_dec_key(bytes@) is None,
        r matches Err(e) ==> e == KvError::MalformedKey,
{
    let mut parts: Vec<KeyPart> = Vec::new();
    let mut pos: usize = 0;
    proof {
        assert(bytes@.skip(0) =~= bytes@);
        if spec_dec_key(bytes@) is Some {
            let ps = spec_dec_key(bytes@).unwrap();
            assert(Seq::new(parts@.len(), |i: int| parts@[i]@) + ps =~= ps);
        }
    }
    loop
        invariant
            pos <= bytes@.len(),
            spec_dec_key(bytes@) == (match spec_dec_key(bytes@.skip(pos as int)) {
                Some(ps) => Some(Seq::new(parts@.len(), |i: int| parts@[i]@) + ps),
                None => None::<Seq<PartModel>>,
            }),
        decreases bytes@.len() - pos,
    {
        let ghost models = Seq::new(parts@.len(), |i: int| parts@[i]@);
        if pos >= bytes.len() {
            proof {
                assert(bytes@.skip(pos as int) =~= Seq::<u8>::empty());
                assert(models + Seq::<PartModel>::empty() =~= models);
            }
            let key = Key(parts);
            proof {
                assert(key@ =~= models);
            }
            return Ok(key);
        }
        match decode_part_from(bytes, pos) {
            Ok((part, next)) => {
                parts.push(part);
                proof {
                    let ghost rest = bytes@.skip(next as int);
                    if spec_dec_key(rest) is Some {
                        let ps = spec_dec_key(rest).unwrap();
                        assert(Seq::new(parts@.len(), |i: int| parts@[i]@) =~= models + seq![part@]);
                        assert((models + seq![part@]) + ps =~= models + (seq![part@] + ps));
                    }
                }
                pos = next;
            }
            Err(e) => {
                return Err(e);
            }
        }
    }
}

} // verus!
