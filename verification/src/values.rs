//! Stored values, their persisted encoding, and versionstamps.
//!
//! A value is script bytes (`V8`), raw bytes, or an unsigned 64-bit integer.
//! Rows persist a value as a byte string together with an integer encoding
//! tag; versionstamps are ten bytes (the big-endian version followed by two
//! reserved zero bytes) and travel to clients as lowercase hex strings.

use vstd::prelude::*;
use vstd::string::StrSliceExecFns;

use crate::byteseq::{be8, be8_exec, bytes_lt, lemma_be8_order, lemma_lex_concat_lt};
use crate::errors::KvError;

verus! {

/// A value as callers see it.
#[derive(Clone, Debug)]
pub enum Value {
    /// Serialized script data, opaque to the store.
    V8(Vec<u8>),
    /// Raw bytes.
    Bytes(Vec<u8>),
    /// An unsigned 64-bit integer, the domain of the numeric mutations.
    U64(u64),
}

/// The mathematical model of a value.
pub enum ValueModel {
    V8(Seq<u8>),
    Bytes(Seq<u8>),
    U64(u64),
}

impl View for Value {
    type V = ValueModel;

    open spec fn view(&self) -> ValueModel {
        match self {
            Value::V8(b) => ValueModel::V8(b@),
            Value::Bytes(b) => ValueModel::Bytes(b@),
            Value::U64(x) => ValueModel::U64(*x),
        }
    }
}

/// The encoding tag of serialized script data.
pub const VALUE_ENCODING_V8: i64 = 1;

/// The encoding tag of a little-endian 64-bit integer.
pub const VALUE_ENCODING_LE64: i64 = 2;

/// The encoding tag of raw bytes.
pub const VALUE_ENCODING_BYTES: i64 = 3;

/// The persisted byte string of a value.
pub open spec fn spec_encode_value_bytes(v: ValueModel) -> Seq<u8> {
    match v {
        ValueModel::V8(b) => b,
        ValueModel::Bytes(b) => b,
        ValueModel::U64(x) => vstd::bytes::spec_u64_to_le_bytes(x),
    }
}

/// The persisted encoding tag of a value.
pub open spec fn spec_encode_value_tag(v: ValueModel) -> i64 {
    match v {
        ValueModel::V8(_) => VALUE_ENCODING_V8,
        ValueModel::Bytes(_) => VALUE_ENCODING_BYTES,
        ValueModel::U64(_) => VALUE_ENCODING_LE64,
    }
}

/// Do a byte string and a tag form a well-formed persisted value?
pub open spec fn spec_valid_encoding(bytes: Seq<u8>, encoding: i64) -> bool {
    ||| encoding == VALUE_ENCODING_V8
    ||| encoding == VALUE_ENCODING_BYTES
    ||| (encoding == VALUE_ENCODING_LE64 && bytes.len() == 8)
}

/// The value a well-formed persisted byte string and tag stand for.
pub open spec fn spec_decode_value(bytes: Seq<u8>, encoding: i64) -> ValueModel
    recommends
        spec_valid_encoding(bytes, encoding),
{
    if encoding == VALUE_ENCODING_V8 {
        ValueModel::V8(bytes)
    } else if encoding == VALUE_ENCODING_BYTES {
        ValueModel::Bytes(bytes)
    } else {
        ValueModel::U64(vstd::bytes::spec_u64_from_le_bytes(bytes))
    }
}

/// Encodes a value for persistence: its byte string and its encoding tag.
pub fn encode_value(value: &Value) -> (r: (Vec<u8>, i64))
    ensures
        r.0@ == spec_encode_value_bytes(value@),
        r.1 == spec_encode_value_tag(value@),
{
    match value {
        Value::V8(b) => (b.clone(), VALUE_ENCODING_V8),
        Value::Bytes(b) => (b.clone(), VALUE_ENCODING_BYTES),
        Value::U64(x) => (vstd::bytes::u64_to_le_bytes(*x), VALUE_ENCODING_LE64),
    }
}

/// Decodes a persisted value.  A tag outside the fixed table, or an integer
/// row of the wrong width, never arises from rows this store wrote; such
/// inputs are excluded rather than handled.
pub fn decode_value(value: Vec<u8>, encoding: i64) -> (r: Value)
    requires
        spec_valid_encoding(value@, encoding),
    ensures
        r@ == spec_decode_value(value@, encoding),
{
    if encoding == VALUE_ENCODING_V8 {
        Value::V8(value)
    } else if encoding == VALUE_ENCODING_BYTES {
        Value::Bytes(value)
    } else {
        Value::U64(vstd::bytes::u64_from_le_bytes(value.as_slice()))
    }
}

/// Decoding a value that was encoded gives the value back.
pub proof fn lemma_value_roundtrip(v: ValueModel)
    ensures
        spec_valid_encoding(spec_encode_value_bytes(v), spec_encode_value_tag(v)),
        spec_decode_value(spec_encode_value_bytes(v), spec_encode_value_tag(v)) == v,
{
    vstd::bytes::lemma_auto_spec_u64_to_from_le_bytes();
}

/// Encoding a well-formed persisted value gives the bytes and tag back.
pub proof fn lemma_value_roundtrip_rev(bytes: Seq<u8>, encoding: i64)
    requires
        spec_valid_encoding(bytes, encoding),
    ensures
        spec_encode_value_bytes(spec_decode_value(bytes, encoding)) == bytes,
        spec_encode_value_tag(spec_decode_value(bytes, encoding)) == encoding,
{
    vstd::bytes::lemma_auto_spec_u64_to_from_le_bytes();
}

/// The ten versionstamp bytes of a version: eight big-endian bytes followed
/// by two reserved zero bytes.
pub open spec fn spec_versionstamp(version: i64) -> Seq<u8> {
    be8(version as u64) + seq![0u8, 0u8]
}

/// Builds the ten-byte versionstamp of a version.
pub fn version_to_versionstamp(version: i64) -> (r: Vec<u8>)
    ensures
        r@ =~= spec_versionstamp(version),
        r@.len() == 10,
{
    let mut r = be8_exec(version as u64);
    r.push(0u8);
    r.push(0u8);
    r
}

/// Versionstamps of increasing non-negative versions increase strictly in
/// byte order.
pub proof fn lemma_versionstamp_order(v1: i64, v2: i64)
    requires
        0 <= v1 < v2,
    ensures
        bytes_lt(spec_versionstamp(v1), spec_versionstamp(v2)),
{
    lemma_be8_order(v1 as u64, v2 as u64);
    lemma_lex_concat_lt(be8(v1 as u64), be8(v2 as u64), seq![0u8, 0u8], seq![0u8, 0u8]);
}

/// Distinct non-negative versions have distinct versionstamps.
pub proof fn lemma_versionstamp_injective(v1: i64, v2: i64)
    requires
        0 <= v1,
        0 <= v2,
        spec_versionstamp(v1) =~= spec_versionstamp(v2),
    ensures
        v1 == v2,
{
    if v1 < v2 {
        lemma_versionstamp_order(v1, v2);
        crate::byteseq::lemma_bytes_lt_irrefl(spec_versionstamp(v1));
    }
    if v2 < v1 {
        lemma_versionstamp_order(v2, v1);
        crate::byteseq::lemma_bytes_lt_irrefl(spec_versionstamp(v1));
    }
}

/// The lowercase hex digit of a nibble.
pub open spec fn spec_hex_digit(n: u8) -> char
    recommends
        n < 16,
{
    if n < 10 {
        ((('0' as u8) + n) as u8) as char
    } else {
        ((('a' as u8) + (n - 10)) as u8) as char
    }
}

/// The lowercase hex spelling of a byte string, high nibble of each byte
/// first.
pub open spec fn spec_hex_lower(b: Seq<u8>) -> Seq<char>
    decreases b.len(),
{
    if b.len() == 0 {
        Seq::empty()
    } else {
        seq![spec_hex_digit(b[0] / 16), spec_hex_digit(b[0] % 16)] + spec_hex_lower(b.drop_first())
    }
}

/// Every hex digit is an ASCII character with the expected byte value.
proof fn lemma_hex_digit_ascii(n: u8)
    requires
        n < 16,
    ensures
        '\0' <= spec_hex_digit(n) <= '\u{7f}',
        n < 10 ==> spec_hex_digit(n) as u8 == (48 + n) as u8,
        n >= 10 ==> spec_hex_digit(n) as u8 == (87 + n) as u8,
{
}

/// Where each digit of the hex spelling sits: byte `k` is spelled at
/// positions `2k` and `2k + 1`.
proof fn lemma_hex_lower_index(b: Seq<u8>, k: int)
    requires
        0 <= k < b.len(),
    ensures
        spec_hex_lower(b).len() == 2 * b.len(),
        spec_hex_lower(b)[2 * k] == spec_hex_digit(b[k] / 16),
        spec_hex_lower(b)[2 * k + 1] == spec_hex_digit(b[k] % 16),
    decreases k,
{
    lemma_hex_roundtrip(b);
    if k == 0 {
    } else {
        lemma_hex_roundtrip(b.drop_first());
        lemma_hex_lower_index(b.drop_first(), k - 1);
        assert(b.drop_first()[k - 1] == b[k]);
        let head = seq![spec_hex_digit(b[0] / 16), spec_hex_digit(b[0] % 16)];
        assert(spec_hex_lower(b) == head + spec_hex_lower(b.drop_first()));
        assert(spec_hex_lower(b)[2 * k] == spec_hex_lower(b.drop_first())[2 * (k - 1)]);
        assert(spec_hex_lower(b)[2 * k + 1] == spec_hex_lower(b.drop_first())[2 * (k - 1) + 1]);
    }
}

/// The ASCII byte of one hex digit.
fn hex_ascii(n: u8) -> (r: u8)
    requires
        n < 16,
    ensures
        r == spec_hex_digit(n) as u8,
{
    proof {
        lemma_hex_digit_ascii(n);
    }
    if n < 10 {
        48 + n
    } else {
        87 + n
    }
}

/// Prints a byte string as lowercase hex: two digits per byte, high nibble
/// first.
pub(crate) fn hex_encode(b: &Vec<u8>) -> (r: String)
    ensures
        r@ == spec_hex_lower(b@),
{
    let ghost chars = spec_hex_lower(b@);
    proof {
        lemma_hex_roundtrip(b@);
    }
    let mut ascii: Vec<u8> = Vec::new();
    let mut i: usize = 0;
    while i < b.len()
        invariant
            i <= b.len(),
            chars == spec_hex_lower(b@),
            chars.len() == 2 * b@.len(),
            ascii@.len() == 2 * i,
            forall|j: int| 0 <= j < 2 * i ==> #[trigger] ascii@[j] == chars[j] as u8,
        decreases b.len() - i,
    {
        let byte = b[i];
        proof {
            lemma_hex_lower_index(b@, i as int);
        }
        ascii.push(hex_ascii(byte / 16));
        ascii.push(hex_ascii(byte % 16));
        i = i + 1;
    }
    proof {
        assert(vstd::utf8::is_ascii_chars(chars)) by {
            assert forall|j: int| 0 <= j < chars.len() implies '\0' <= #[trigger] chars[j]
                <= '\u{7f}' by {
                let k = j / 2;
                lemma_hex_lower_index(b@, k);
                if j % 2 == 0 {
                    assert(j == 2 * k);
                    lemma_hex_digit_ascii(b@[k] / 16);
                } else {
                    assert(j == 2 * k + 1);
                    lemma_hex_digit_ascii(b@[k] % 16);
                }
            }
        }
        vstd::utf8::is_ascii_chars_encode_utf8(chars);
        assert(ascii@ =~= vstd::utf8::encode_utf8(chars));
        vstd::utf8::encode_utf8_valid_utf8(chars);
        vstd::utf8::encode_utf8_decode_utf8(chars);
    }
    match crate::keys::bytes_to_string(ascii) {
        Some(s) => s,
        None => {
            // Unreachable: the digits form a valid encoding.
            proof {
                assert(false);
            }
            String::new()
        }
    }
}

/// The numeric value of a hex digit, upper or lower case; 255 marks a
/// non-digit.
pub open spec fn spec_hex_val(c: char) -> u8 {
    let n = c as u32;
    if ('0' as u32) <= n <= ('9' as u32) {
        (n - ('0' as u32)) as u8
    } else if ('a' as u32) <= n <= ('f' as u32) {
        (n - ('a' as u32) + 10) as u8
    } else if ('A' as u32) <= n <= ('F' as u32) {
        (n - ('A' as u32) + 10) as u8
    } else {
        255
    }
}

/// Is every character a hex digit?
pub open spec fn spec_all_hex(s: Seq<char>) -> bool {
    forall|i: int| 0 <= i < s.len() ==> spec_hex_val(s[i]) < 16
}

/// The bytes spelled by an even-length string of hex digits.
pub open spec fn spec_hex_bytes(s: Seq<char>) -> Seq<u8>
    recommends
        s.len() % 2 == 0,
        spec_all_hex(s),
    decreases s.len(),
{
    if s.len() < 2 {
        Seq::empty()
    } else {
        seq![(spec_hex_val(s[0]) * 16 + spec_hex_val(s[1])) as u8] + spec_hex_bytes(s.skip(2))
    }
}

/// Reading back the hex spelling of a byte string gives the bytes.
pub proof fn lemma_hex_roundtrip(b: Seq<u8>)
    ensures
        spec_hex_lower(b).len() == 2 * b.len(),
        spec_all_hex(spec_hex_lower(b)),
        spec_hex_bytes(spec_hex_lower(b)) =~= b,
    decreases b.len(),
{
    if b.len() == 0 {
    } else {
        let s = spec_hex_lower(b);
        lemma_hex_roundtrip(b.drop_first());
        assert(spec_hex_val(spec_hex_digit(b[0] / 16)) == b[0] / 16);
        assert(spec_hex_val(spec_hex_digit(b[0] % 16)) == b[0] % 16);
        assert(s.skip(2) =~= spec_hex_lower(b.drop_first()));
        assert(s[0] == spec_hex_digit(b[0] / 16));
        assert(s[1] == spec_hex_digit(b[0] % 16));
        assert((spec_hex_val(s[0]) * 16 + spec_hex_val(s[1])) as u8 == b[0]);
    }
}

/// Parses a twenty-digit hex string into the ten versionstamp bytes.
/// Upper and lower case digits are both accepted; anything else is rejected.
pub fn parse_versionstamp(s: &str) -> (r: Option<Vec<u8>>)
    ensures
        r is Some <==> (s@.len() == 20 && spec_all_hex(s@)),
        r matches Some(v) ==> v@ =~= spec_hex_bytes(s@) && v@.len() == 10,
{
    let len = s.unicode_len();
    if len != 20 {
        return None;
    }
    let mut out: Vec<u8> = Vec::new();
    let mut i: usize = 0;
    while i < 20
        invariant
            s@.len() == 20,
            i % 2 == 0,
            i <= 20,
            spec_all_hex(s@.take(i as int)),
            out@ =~= spec_hex_bytes(s@.take(i as int)),
            out@.len() == i / 2,
        decreases 20 - i,
    {
        let hi = hex_char_val(s.get_char(i));
        let lo = hex_char_val(s.get_char(i + 1));
        if hi >= 16 || lo >= 16 {
            return None;
        }
        out.push(hi * 16 + lo);
        proof {
            let t_old = s@.take(i as int);
            let t_new = s@.take(i + 2);
            assert(t_new[i as int] == s@[i as int]);
            assert(t_new[i + 1] == s@[i + 1]);
            lemma_hex_bytes_snoc(t_old, s@[i as int], s@[i + 1]);
            assert(t_new =~= t_old + seq![s@[i as int], s@[i + 1]]);
        }
        i = i + 2;
    }
    proof {
        assert(s@.take(20) =~= s@);
    }
    Some(out)
}

/// Appending two hex digits appends the byte they spell.
proof fn lemma_hex_bytes_snoc(s: Seq<char>, c1: char, c2: char)
    requires
        s.len() % 2 == 0,
    ensures
        spec_hex_bytes(s + seq![c1, c2]) =~= spec_hex_bytes(s) + seq![(spec_hex_val(c1) * 16 + spec_hex_val(c2)) as u8],
    decreases s.len(),
{
    reveal_with_fuel(spec_hex_bytes, 3);
    let w = s + seq![c1, c2];
    if s.len() == 0 {
        assert(w[0] == c1);
        assert(w[1] == c2);
        assert(w.skip(2) =~= Seq::<char>::empty());
    } else {
        assert(w[0] == s[0]);
        assert(w[1] == s[1]);
        assert(w.skip(2) =~= s.skip(2) + seq![c1, c2]);
        lemma_hex_bytes_snoc(s.skip(2), c1, c2);
        assert(spec_hex_bytes(s) =~= seq![(spec_hex_val(s[0]) * 16 + spec_hex_val(s[1])) as u8] + spec_hex_bytes(s.skip(2)));
    }
}

/// The numeric value of one hex character, or 255 for a non-digit.
fn hex_char_val(c: char) -> (r: u8)
    ensures
        r == spec_hex_val(c),
{
    let n = c as u32;
    if n >= ('0' as u32) && n <= ('9' as u32) {
        (n - ('0' as u32)) as u8
    } else if n >= ('a' as u32) && n <= ('f' as u32) {
        (n - ('a' as u32) + 10) as u8
    } else if n >= ('A' as u32) && n <= ('F' as u32) {
        (n - ('A' as u32) + 10) as u8
    } else {
        255
    }
}

/// The lowercase hex string of a versionstamp, as handed to clients.
pub fn versionstamp_hex(versionstamp: &Vec<u8>) -> (r: String)
    ensures
        r@ == spec_hex_lower(versionstamp@),
{
    hex_encode(versionstamp)
}

/// Rejecting a malformed versionstamp as the public conversion does.
pub fn parse_versionstamp_checked(s: &str) -> (r: Result<Vec<u8>, KvError>)
    ensures
        r matches Ok(v) ==> s@.len() == 20 && spec_all_hex(s@) && v@ =~= spec_hex_bytes(s@) && v@.len() == 10,
        r is Err <==> !(s@.len() == 20 && spec_all_hex(s@)),
        r matches Err(e) ==> e == KvError::InvalidVersionstamp,
{
    match parse_versionstamp(s) {
        Some(v) => Ok(v),
        None => Err(KvError::InvalidVersionstamp),
    }
}

} // verus!
