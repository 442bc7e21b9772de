//! Range selectors and resumable cursors.
//!
//! A read range is declared as a prefix with optional explicit bounds, as an
//! explicit half-open range, or as a single start key.  A cursor is the
//! URL-safe base64 spelling of the last delivered key with the selector's
//! common prefix stripped; resuming keeps the scan inside the declared
//! bounds or fails.

use base64::Engine;
use vstd::prelude::*;

use crate::byteseq::{
    bytes_le, bytes_lt, bytes_lt_exec, concat_bytes, copy_bytes, copy_range,
    lemma_bytes_le_lt_trans, lemma_bytes_lt_le_trans, lemma_bytes_lt_trans, lemma_bytes_next,
    starts_with_exec,
};
use crate::errors::KvError;
use crate::keys::{enc_key, encode_key, Key, PartModel};

verus! {

/// What an encoded cursor token spells: the URL-safe base64 form of the
/// bytes.  Named rather than written out; the codec is the base64 crate's.
pub uninterp spec fn b64url_of(b: Seq<u8>) -> Seq<char>;

/// Relies on the base64 crate's URL-safe engine: encoding produces the
/// canonical padded base64url spelling of the bytes.
#[verifier::external_body]
fn b64url_encode(b: &Vec<u8>) -> (r: String)
    ensures
        r@ == b64url_of(b@),
{
    base64::prelude::BASE64_URL_SAFE.encode(b)
}

/// Relies on the base64 crate's URL-safe engine: with canonical padding
/// required, decoding accepts exactly the canonical encodings and inverts
/// them.
#[verifier::external_body]
fn b64url_decode(s: &str) -> (r: Option<Vec<u8>>)
    ensures
        r matches Some(b) ==> s@ == b64url_of(b@) && (forall|c: Seq<u8>|
            s@ == b64url_of(c) ==> c == b@),
        r is None ==> forall|c: Seq<u8>| s@ != b64url_of(c),
{
    match base64::prelude::BASE64_URL_SAFE.decode(s) {
        Ok(v) => Some(v),
        Err(_) => None,
    }
}

/// The declarative form of a read range, over encoded keys.
pub enum RawSelector {
    /// Every key extending `prefix`, optionally narrowed on either side.
    Prefixed { prefix: Vec<u8>, start: Option<Vec<u8>>, end: Option<Vec<u8>> },
    /// An explicit half-open range.
    Range { start: Vec<u8>, end: Vec<u8> },
}

/// The mathematical model of a selector.
pub enum SelectorModel {
    Prefixed { prefix: Seq<u8>, start: Option<Seq<u8>>, end: Option<Seq<u8>> },
    Range { start: Seq<u8>, end: Seq<u8> },
}

impl View for RawSelector {
    type V = SelectorModel;

    open spec fn view(&self) -> SelectorModel {
        match self {
            RawSelector::Prefixed { prefix, start, end } => SelectorModel::Prefixed {
                prefix: prefix@,
                start: match start {
                    Some(s) => Some(s@),
                    None => None,
                },
                end: match end {
                    Some(e) => Some(e@),
                    None => None,
                },
            },
            RawSelector::Range { start, end } => SelectorModel::Range {
                start: start@,
                end: end@,
            },
        }
    }
}

/// The longest shared prefix of two byte strings.
pub open spec fn common_prefix_spec(a: Seq<u8>, b: Seq<u8>) -> Seq<u8>
    decreases a.len(),
{
    if a.len() == 0 || b.len() == 0 || a[0] != b[0] {
        Seq::empty()
    } else {
        seq![a[0]] + common_prefix_spec(a.drop_first(), b.drop_first())
    }
}

/// The declared lower bound, if one was declared.
pub open spec fn sel_start(m: SelectorModel) -> Option<Seq<u8>> {
    match m {
        SelectorModel::Prefixed { start, .. } => start,
        SelectorModel::Range { start, .. } => Some(start),
    }
}

/// The declared upper bound, if one was declared.
pub open spec fn sel_end(m: SelectorModel) -> Option<Seq<u8>> {
    match m {
        SelectorModel::Prefixed { end, .. } => end,
        SelectorModel::Range { end, .. } => Some(end),
    }
}

/// The selector's common prefix: the declared prefix, or the longest shared
/// prefix of the explicit bounds.
pub open spec fn sel_common_prefix(m: SelectorModel) -> Seq<u8> {
    match m {
        SelectorModel::Prefixed { prefix, .. } => prefix,
        SelectorModel::Range { start, end } => common_prefix_spec(start, end),
    }
}

/// The materialized lower bound of the scan.
pub open spec fn sel_range_start(m: SelectorModel) -> Seq<u8> {
    match m {
        SelectorModel::Prefixed { start: Some(s), .. } => s,
        SelectorModel::Prefixed { prefix, start: None, .. } => prefix + seq![0u8],
        SelectorModel::Range { start, .. } => start,
    }
}

/// The materialized upper bound of the scan.
pub open spec fn sel_range_end(m: SelectorModel) -> Seq<u8> {
    match m {
        SelectorModel::Prefixed { end: Some(e), .. } => e,
        SelectorModel::Prefixed { prefix, end: None, .. } => prefix + seq![0xffu8],
        SelectorModel::Range { end, .. } => end,
    }
}

/// Which selector a combination of declared keys makes, if any.
pub open spec fn spec_selector_from(
    prefix: Option<Seq<PartModel>>,
    start: Option<Seq<PartModel>>,
    end: Option<Seq<PartModel>>,
) -> Result<SelectorModel, KvError> {
    match (prefix, start, end) {
        (Some(p), None, None) => Ok(
            SelectorModel::Prefixed { prefix: enc_key(p), start: None, end: None },
        ),
        (Some(p), Some(s), None) => Ok(
            SelectorModel::Prefixed { prefix: enc_key(p), start: Some(enc_key(s)), end: None },
        ),
        (Some(p), None, Some(e)) => Ok(
            SelectorModel::Prefixed { prefix: enc_key(p), start: None, end: Some(enc_key(e)) },
        ),
        (None, Some(s), Some(e)) => Ok(SelectorModel::Range { start: enc_key(s), end: enc_key(e) }),
        (None, Some(s), None) => Ok(
            SelectorModel::Range { start: enc_key(s), end: enc_key(s) + seq![0u8] },
        ),
        _ => Err(KvError::InvalidRange),
    }
}

impl RawSelector {
    /// Builds a selector from the declared keys, rejecting the combinations
    /// that select nothing well-defined.
    pub fn from_tuple(prefix: Option<Key>, start: Option<Key>, end: Option<Key>) -> (r: Result<
        RawSelector,
        KvError,
    >)
        ensures
            (match r {
                Ok(sel) => spec_selector_from(opt_key_model(prefix), opt_key_model(start), opt_key_model(end)) == Ok::<SelectorModel, KvError>(sel@),
                Err(e) => spec_selector_from(opt_key_model(prefix), opt_key_model(start), opt_key_model(end)) == Err::<SelectorModel, KvError>(e),
            }),
    {
        match (prefix, start, end) {
            (Some(p), None, None) => Ok(RawSelector::Prefixed {
                prefix: encode_key(&p),
                start: None,
                end: None,
            }),
            (Some(p), Some(s), None) => Ok(RawSelector::Prefixed {
                prefix: encode_key(&p),
                start: Some(encode_key(&s)),
                end: None,
            }),
            (Some(p), None, Some(e)) => Ok(RawSelector::Prefixed {
                prefix: encode_key(&p),
                start: None,
                end: Some(encode_key(&e)),
            }),
            (None, Some(s), Some(e)) => Ok(RawSelector::Range {
                start: encode_key(&s),
                end: encode_key(&e),
            }),
            (None, Some(s), None) => {
                let start_key = encode_key(&s);
                let mut end_key = copy_bytes(&start_key);
                end_key.push(0u8);
                proof {
                    assert(end_key@ =~= enc_key(s@) + seq![0u8]);
                }
                Ok(RawSelector::Range { start: start_key, end: end_key })
            }
            _ => Err(KvError::InvalidRange),
        }
    }

    /// The declared lower bound, if one was declared.
    pub fn start(&self) -> (r: Option<&Vec<u8>>)
        ensures
            (match r {
                Some(v) => sel_start(self@) == Some(v@),
                None => sel_start(self@) is None,
            }),
    {
        match self {
            RawSelector::Prefixed { start, .. } => match start {
                Some(v) => Some(v),
                None => None,
            },
            RawSelector::Range { start, .. } => Some(start),
        }
    }

    /// The declared upper bound, if one was declared.
    pub fn end(&self) -> (r: Option<&Vec<u8>>)
        ensures
            (match r {
                Some(v) => sel_end(self@) == Some(v@),
                None => sel_end(self@) is None,
            }),
    {
        match self {
            RawSelector::Prefixed { end, .. } => match end {
                Some(v) => Some(v),
                None => None,
            },
            RawSelector::Range { end, .. } => Some(end),
        }
    }

    /// The selector's common prefix.
    pub fn common_prefix(&self) -> (r: Vec<u8>)
        ensures
            r@ == sel_common_prefix(self@),
    {
        match self {
            RawSelector::Prefixed { prefix, .. } => copy_bytes(prefix),
            RawSelector::Range { start, end } => common_prefix_for_bytes(start, end),
        }
    }

    /// The materialized lower bound of the scan.
    pub fn range_start_key(&self) -> (r: Vec<u8>)
        ensures
            r@ == sel_range_start(self@),
    {
        match self {
            RawSelector::Prefixed { start: Some(s), .. } => copy_bytes(s),
            RawSelector::Prefixed { prefix, start: None, .. } => {
                let mut v = copy_bytes(prefix);
                v.push(0u8);
                proof {
                    assert(v@ =~= prefix@ + seq![0u8]);
                }
                v
            }
            RawSelector::Range { start, .. } => copy_bytes(start),
        }
    }

    /// The materialized upper bound of the scan.
    pub fn range_end_key(&self) -> (r: Vec<u8>)
        ensures
            r@ == sel_range_end(self@),
    {
        match self {
            RawSelector::Prefixed { end: Some(e), .. } => copy_bytes(e),
            RawSelector::Prefixed { prefix, end: None, .. } => {
                let mut v = copy_bytes(prefix);
                v.push(0xffu8);
                proof {
                    assert(v@ =~= prefix@ + seq![0xffu8]);
                }
                v
            }
            RawSelector::Range { end, .. } => copy_bytes(end),
        }
    }
}

/// The model of an `Option<Key>`.
pub open spec fn opt_key_model(o: Option<Key>) -> Option<Seq<PartModel>> {
    match o {
        Some(k) => Some(k@),
        None => None,
    }
}

/// The longest shared byte prefix of two byte strings.
pub fn common_prefix_for_bytes(a: &Vec<u8>, b: &Vec<u8>) -> (r: Vec<u8>)
    ensures
        r@ == common_prefix_spec(a@, b@),
{
    let mut out: Vec<u8> = Vec::new();
    let mut i: usize = 0;
    proof {
        assert(a@.skip(0) =~= a@);
        assert(b@.skip(0) =~= b@);
    }
    loop
        invariant
            i <= a@.len(),
            i <= b@.len(),
            common_prefix_spec(a@, b@) == out@ + common_prefix_spec(
                a@.skip(i as int),
                b@.skip(i as int),
            ),
        decreases a@.len() - i,
    {
        let ghost ra = a@.skip(i as int);
        let ghost rb = b@.skip(i as int);
        if i >= a.len() || i >= b.len() || a[i] != b[i] {
            proof {
                assert(common_prefix_spec(ra, rb) =~= Seq::<u8>::empty());
                assert(out@ + Seq::<u8>::empty() =~= out@);
            }
            return out;
        }
        proof {
            assert(ra[0] == a@[i as int]);
            assert(rb[0] == b@[i as int]);
            assert(ra.drop_first() =~= a@.skip(i + 1));
            assert(rb.drop_first() =~= b@.skip(i + 1));
        }
        out.push(a[i]);
        proof {
            assert(out@ + common_prefix_spec(a@.skip(i + 1), b@.skip(i + 1)) =~= out@.drop_last()
                + (seq![a@[i as int]] + common_prefix_spec(a@.skip(i + 1), b@.skip(i + 1))));
        }
        i = i + 1;
    }
}

/// Encodes a cursor for a boundary key of the selector: the base64url form
/// of the key with the common prefix stripped.  A key that does not carry
/// the prefix is rejected.
pub fn encode_cursor(selector: &RawSelector, boundary_key: &Vec<u8>) -> (r: Result<String, KvError>)
    ensures
        r is Ok <==> sel_common_prefix(selector@).is_prefix_of(boundary_key@),
        r matches Ok(c) ==> c@ == b64url_of(
            boundary_key@.skip(sel_common_prefix(selector@).len() as int),
        ),
        r matches Err(e) ==> e == KvError::InvalidBoundaryKey,
{
    let prefix = selector.common_prefix();
    if !starts_with_exec(boundary_key, &prefix) {
        proof {
            assert(!sel_common_prefix(selector@).is_prefix_of(boundary_key@));
        }
        return Err(KvError::InvalidBoundaryKey);
    }
    let suffix = copy_range(boundary_key, prefix.len(), boundary_key.len());
    proof {
        assert(suffix@ =~= boundary_key@.skip(sel_common_prefix(selector@).len() as int));
    }
    Ok(b64url_encode(&suffix))
}

/// The bounds a resumed scan uses for a given stripped cursor content, or
/// the out-of-bounds error where the resumed range would leave the declared
/// one.
pub open spec fn spec_resume_bounds(m: SelectorModel, reverse: bool, c: Seq<u8>) -> Result<
    (Seq<u8>, Seq<u8>),
    KvError,
> {
    let cp = sel_common_prefix(m);
    let first = if reverse {
        sel_range_start(m)
    } else {
        cp + c + seq![0u8]
    };
    let last = if reverse {
        cp + c
    } else {
        sel_range_end(m)
    };
    let below = match sel_start(m) {
        Some(s) => bytes_lt(first, s),
        None => false,
    };
    let above = match sel_end(m) {
        Some(e) => bytes_lt(e, last),
        None => false,
    };
    if below || above {
        Err(KvError::CursorOutOfBounds)
    } else {
        Ok((first, last))
    }
}

/// Do an executable pair of bounds and a spec-level result agree?
pub open spec fn bounds_agree(
    r: Result<(Vec<u8>, Vec<u8>), KvError>,
    s: Result<(Seq<u8>, Seq<u8>), KvError>,
) -> bool {
    match (r, s) {
        (Ok(b), Ok(p)) => b.0@ == p.0 && b.1@ == p.1,
        (Err(e1), Err(e2)) => e1 == e2,
        _ => false,
    }
}

/// Materializes the scan bounds of a selector, resumed at a cursor if one is
/// given.  A token that is not a canonical cursor is rejected; a resumed
/// range that would leave the declared bounds is rejected.
pub fn decode_selector_and_cursor(
    selector: &RawSelector,
    reverse: bool,
    cursor: Option<&String>,
) -> (r: Result<(Vec<u8>, Vec<u8>), KvError>)
    ensures
        cursor is None ==> (r matches Ok(b) && b.0@ == sel_range_start(selector@) && b.1@
            == sel_range_end(selector@)),
        cursor matches Some(cs) ==> forall|c: Seq<u8>|
            cs@ == b64url_of(c) ==> bounds_agree(r, spec_resume_bounds(selector@, reverse, c)),
        cursor matches Some(cs) ==> ((r is Ok || r == Err::<(Vec<u8>, Vec<u8>), KvError>(
            KvError::CursorOutOfBounds,
        )) ==> exists|c: Seq<u8>| cs@ == b64url_of(c)),
        cursor is Some ==> (r matches Err(e) ==> (e == KvError::InvalidCursor || e
            == KvError::CursorOutOfBounds)),
{
    let cs = match cursor {
        None => {
            return Ok((selector.range_start_key(), selector.range_end_key()));
        }
        Some(cs) => cs,
    };
    let decoded = match b64url_decode(cs.as_str()) {
        Some(d) => d,
        None => {
            return Err(KvError::InvalidCursor);
        }
    };
    let common_prefix = selector.common_prefix();
    let first_key: Vec<u8>;
    let last_key: Vec<u8>;
    if reverse {
        first_key = selector.range_start_key();
        last_key = concat_bytes(&common_prefix, &decoded);
    } else {
        let mut f = concat_bytes(&common_prefix, &decoded);
        f.push(0u8);
        proof {
            assert(f@ =~= sel_common_prefix(selector@) + decoded@ + seq![0u8]);
        }
        first_key = f;
        last_key = selector.range_end_key();
    }
    let below = match selector.start() {
        Some(s) => bytes_lt_exec(&first_key, s),
        None => false,
    };
    if below {
        return Err(KvError::CursorOutOfBounds);
    }
    let above = match selector.end() {
        Some(e) => bytes_lt_exec(e, &last_key),
        None => false,
    };
    if above {
        return Err(KvError::CursorOutOfBounds);
    }
    Ok((first_key, last_key))
}

/// Is `x` inside the half-open byte range `[lo, hi)`?
pub open spec fn in_range(x: Seq<u8>, lo: Seq<u8>, hi: Seq<u8>) -> bool {
    bytes_le(lo, x) && bytes_lt(x, hi)
}

/// THE CURSOR RESUME LAW.  For every selector, every boundary key inside the
/// materialized range and carrying the common prefix, and every key `x`:
/// resuming at the boundary key's cursor succeeds, and the resumed range
/// holds exactly the keys of the original range that lie strictly beyond the
/// boundary in scan direction.
pub proof fn lemma_cursor_resume(m: SelectorModel, k: Seq<u8>, x: Seq<u8>, reverse: bool)
    requires
        sel_common_prefix(m).is_prefix_of(k),
        in_range(k, sel_range_start(m), sel_range_end(m)),
    ensures
        spec_resume_bounds(m, reverse, k.skip(sel_common_prefix(m).len() as int)) is Ok,
        ({
            let b = spec_resume_bounds(m, reverse, k.skip(sel_common_prefix(m).len() as int))->Ok_0;
            in_range(x, b.0, b.1) <==> (in_range(x, sel_range_start(m), sel_range_end(m)) && (
            if reverse {
                bytes_lt(x, k)
            } else {
                bytes_lt(k, x)
            }))
        }),
{
    let cp = sel_common_prefix(m);
    let c = k.skip(cp.len() as int);
    assert(cp + c =~= k);
    let start0 = sel_range_start(m);
    let end0 = sel_range_end(m);
    if reverse {
        // Resumed bounds are [start0, k).
        if sel_start(m) is Some {
            let s = sel_start(m)->0;
            assert(s == start0);
            crate::byteseq::lemma_bytes_lt_irrefl(start0);
        }
        if sel_end(m) is Some {
            let e = sel_end(m)->0;
            assert(e == end0);
            if bytes_lt(e, k) {
                lemma_bytes_lt_trans(e, k, e);
                crate::byteseq::lemma_bytes_lt_irrefl(e);
            }
        }
        let b = spec_resume_bounds(m, reverse, c)->Ok_0;
        assert(b.0 == start0 && b.1 == k);
        if in_range(x, start0, k) {
            lemma_bytes_lt_le_trans(x, k, end0);
            assert(bytes_le(k, end0)) by {
                assert(bytes_lt(k, end0));
            }
        }
    } else {
        // Resumed bounds are [k . 0, end0).
        let f = cp + c + seq![0u8];
        assert(f =~= k + seq![0u8]);
        lemma_bytes_next(k, f);
        assert(bytes_le(f, f)) by {
            assert(f =~= f);
        }
        assert(bytes_lt(k, f));
        if sel_start(m) is Some {
            let s = sel_start(m)->0;
            assert(s == start0);
            if bytes_lt(f, s) {
                lemma_bytes_le_lt_trans(start0, k, f);
                lemma_bytes_lt_trans(start0, f, s);
                crate::byteseq::lemma_bytes_lt_irrefl(s);
            }
        }
        if sel_end(m) is Some {
            let e = sel_end(m)->0;
            assert(e == end0);
            crate::byteseq::lemma_bytes_lt_irrefl(end0);
        }
        let b = spec_resume_bounds(m, reverse, c)->Ok_0;
        assert(b.0 == f && b.1 == end0);
        lemma_bytes_next(k, x);
        if in_range(x, f, end0) {
            // x > k, and x >= start0 via start0 <= k < x.
            lemma_bytes_le_lt_trans(start0, k, x);
        }
    }
}

/// One declared range of a snapshot read, before materialization.
pub struct SnapshotRange {
    pub prefix: Option<Key>,
    pub start: Option<Key>,
    pub end: Option<Key>,
    pub limit: u32,
    pub reverse: bool,
    pub cursor: Option<String>,
}

/// The model of a declared range.
pub struct SnapshotRangeModel {
    pub prefix: Option<Seq<PartModel>>,
    pub start: Option<Seq<PartModel>>,
    pub end: Option<Seq<PartModel>>,
    pub limit: u32,
    pub reverse: bool,
    pub cursor: Option<Seq<char>>,
}

impl View for SnapshotRange {
    type V = SnapshotRangeModel;

    open spec fn view(&self) -> SnapshotRangeModel {
        SnapshotRangeModel {
            prefix: match &self.prefix {
                Some(k) => Some(k@),
                None => None,
            },
            start: match &self.start {
                Some(k) => Some(k@),
                None => None,
            },
            end: match &self.end {
                Some(k) => Some(k@),
                None => None,
            },
            limit: self.limit,
            reverse: self.reverse,
            cursor: match &self.cursor {
                Some(c) => Some(c@),
                None => None,
            },
        }
    }
}

/// Is a materialized range a faithful reading of a declared one?  Its
/// selector is the declared combination; without a cursor the bounds are
/// the selector's own, with one they are a resumption at the byte string
/// the cursor token spells; both bounds fit the read-key cap and the limit
/// is positive.
pub open spec fn spec_range_prepared(
    d: SnapshotRangeModel,
    out: crate::types::ReadRangeModel,
) -> bool {
    &&& out.limit == d.limit
    &&& d.limit > 0
    &&& out.reverse == d.reverse
    &&& out.start.len() <= crate::limits::MAX_READ_KEY_SIZE_BYTES
    &&& out.end.len() <= crate::limits::MAX_READ_KEY_SIZE_BYTES
    &&& (match spec_selector_from(d.prefix, d.start, d.end) {
        Ok(sel) => match d.cursor {
            None => out.start == sel_range_start(sel) && out.end == sel_range_end(sel),
            Some(cs) => exists|c: Seq<u8>|
                cs == b64url_of(c) && spec_resume_bounds(sel, d.reverse, c) == Ok::<
                    (Seq<u8>, Seq<u8>),
                    KvError,
                >((out.start, out.end)),
        },
        Err(_) => false,
    })
}

/// The limits the declared ranges add up to.
pub open spec fn spec_total_limits(ds: Seq<SnapshotRangeModel>) -> int
    decreases ds.len(),
{
    if ds.len() == 0 {
        0
    } else {
        ds[0].limit + spec_total_limits(ds.drop_first())
    }
}

/// Which rejection one declared range can produce: the exact condition each
/// error names, over the declared values alone.
pub open spec fn spec_range_error(d: SnapshotRangeModel, e: KvError) -> bool {
    if e == KvError::LimitIsZero {
        d.limit == 0
    } else if e == KvError::InvalidRange {
        spec_selector_from(d.prefix, d.start, d.end) is Err
    } else {
        match spec_selector_from(d.prefix, d.start, d.end) {
            Ok(sel) => if e == KvError::InvalidCursor {
                d.cursor matches Some(cs) && (forall|c: Seq<u8>| cs != b64url_of(c))
            } else if e == KvError::CursorOutOfBounds {
                d.cursor matches Some(cs) && exists|c: Seq<u8>|
                    cs == b64url_of(c) && spec_resume_bounds(sel, d.reverse, c) is Err
            } else if e == KvError::KeyTooLargeForRead {
                match d.cursor {
                    None => sel_range_start(sel).len() > crate::limits::MAX_READ_KEY_SIZE_BYTES
                        || sel_range_end(sel).len() > crate::limits::MAX_READ_KEY_SIZE_BYTES,
                    Some(cs) => exists|c: Seq<u8>|
                        cs == b64url_of(c) && (spec_resume_bounds(sel, d.reverse, c) matches Ok(b)
                            && (b.0.len() > crate::limits::MAX_READ_KEY_SIZE_BYTES || b.1.len()
                            > crate::limits::MAX_READ_KEY_SIZE_BYTES)),
                }
            } else {
                false
            },
            Err(_) => false,
        }
    }
}

/// Materializes the ranges of a snapshot read: the range-count cap, each
/// selector, cursor resumption, the read-key size caps, per-range limits,
/// and the cap on the total of the limits -- the whole read-side
/// validation, before any row is touched.  Success is exactly the absence
/// of every rejection; each error names the condition that produced it.
pub fn prepare_snapshot_read(ranges: Vec<SnapshotRange>) -> (r: Result<
    Vec<crate::types::ReadRange>,
    KvError,
>)
    ensures
        r matches Ok(outs) ==> {
            &&& ranges@.len() <= crate::limits::MAX_READ_RANGES
            &&& outs@.len() == ranges@.len()
            &&& spec_total_limits(Seq::new(ranges@.len(), |i: int| ranges@[i]@))
                <= crate::limits::MAX_READ_ENTRIES
            &&& forall|i: int|
                0 <= i < outs@.len() ==> spec_range_prepared(ranges@[i]@, (#[trigger] outs@[i])@)
        },
        r matches Err(e) ==> (match e {
            KvError::TooManyRanges => ranges@.len() > crate::limits::MAX_READ_RANGES,
            KvError::TooManyEntries => spec_total_limits(
                Seq::new(ranges@.len(), |i: int| ranges@[i]@),
            ) > crate::limits::MAX_READ_ENTRIES,
            _ => (e == KvError::LimitIsZero || e == KvError::InvalidRange || e
                == KvError::InvalidCursor || e == KvError::CursorOutOfBounds || e
                == KvError::KeyTooLargeForRead) && exists|i: int|
                0 <= i < ranges@.len() && spec_range_error((#[trigger] ranges@[i])@, e),
        }),
{
    let ghost dmodels = Seq::new(ranges@.len(), |i: int| ranges@[i]@);
    let ghost n = ranges@.len();
    if ranges.len() > crate::limits::MAX_READ_RANGES {
        return Err(KvError::TooManyRanges);
    }
    let mut work = ranges;
    let mut outs: Vec<crate::types::ReadRange> = Vec::new();
    let mut total: u64 = 0;
    let mut i: usize = 0;
    proof {
        assert(forall|j: int| 0 <= j < work@.len() ==> (#[trigger] work@[j])@ == dmodels[0 + j]);
        reveal_with_fuel(spec_total_limits, 2);
        assert(spec_total_limits(dmodels.take(0)) == 0) by {
            assert(dmodels.take(0) =~= Seq::<SnapshotRangeModel>::empty());
        }
    }
    while work.len() > 0
        invariant
            i + work@.len() == n,
            n == dmodels.len() <= crate::limits::MAX_READ_RANGES,
            dmodels == Seq::new(ranges@.len(), |j: int| ranges@[j]@),
            forall|j: int| 0 <= j < work@.len() ==> (#[trigger] work@[j])@ == dmodels[i + j],
            outs@.len() == i,
            total == spec_total_limits(dmodels.take(i as int)),
            total <= i * 4294967295,
            forall|j: int|
                0 <= j < i ==> spec_range_prepared(dmodels[j], (#[trigger] outs@[j])@),
        decreases work@.len(),
    {
        let ghost dm = dmodels[i as int];
        proof {
            assert(work@[0]@ == dm);
        }
        let d = work.remove(0);
        proof {
            assert(d@ == dm);
            assert(forall|j: int|
                0 <= j < work@.len() ==> (#[trigger] work@[j])@ == dmodels[i + 1 + j]);
        }
        if d.limit == 0 {
            proof {
                assert(ranges@[i as int]@ == dm);
                assert(spec_range_error(ranges@[i as int]@, KvError::LimitIsZero));
            }
            return Err(KvError::LimitIsZero);
        }
        let limit = d.limit;
        let reverse = d.reverse;
        let cursor = d.cursor;
        let selector = match RawSelector::from_tuple(d.prefix, d.start, d.end) {
            Ok(s) => s,
            Err(e) => {
                proof {
                    assert(ranges@[i as int]@ == dm);
                    assert(e == KvError::InvalidRange);
                    assert(spec_range_error(ranges@[i as int]@, e));
                }
                return Err(e);
            }
        };
        let bounds = match decode_selector_and_cursor(&selector, reverse, cursor.as_ref()) {
            Ok(b) => b,
            Err(e) => {
                proof {
                    assert(ranges@[i as int]@ == dm);
                    let cs = dm.cursor->0;
                    assert(dm.cursor is Some);
                    if e == KvError::InvalidCursor {
                        assert forall|c: Seq<u8>| cs != b64url_of(c) by {
                            if cs == b64url_of(c) {
                                assert(bounds_agree(
                                    Err::<(Vec<u8>, Vec<u8>), KvError>(KvError::InvalidCursor),
                                    spec_resume_bounds(selector@, reverse, c),
                                ));
                                assert(spec_resume_bounds(selector@, reverse, c) is Ok
                                    || spec_resume_bounds(selector@, reverse, c) == Err::<
                                    (Seq<u8>, Seq<u8>),
                                    KvError,
                                >(KvError::CursorOutOfBounds));
                            }
                        }
                    } else {
                        let c0 = choose|c: Seq<u8>| cs == b64url_of(c);
                        assert(bounds_agree(
                            Err::<(Vec<u8>, Vec<u8>), KvError>(KvError::CursorOutOfBounds),
                            spec_resume_bounds(selector@, reverse, c0),
                        ));
                        assert(spec_resume_bounds(selector@, reverse, c0) is Err);
                    }
                    assert(spec_range_error(ranges@[i as int]@, e));
                }
                return Err(e);
            }
        };
        let start_fits = match crate::limits::check_read_key_size(&bounds.0) {
            Ok(()) => true,
            Err(_) => false,
        };
        let end_fits = match crate::limits::check_read_key_size(&bounds.1) {
            Ok(()) => true,
            Err(_) => false,
        };
        if !start_fits || !end_fits {
            proof {
                assert(ranges@[i as int]@ == dm);
                match dm.cursor {
                    None => {}
                    Some(cs) => {
                        let c0 = choose|c: Seq<u8>| cs == b64url_of(c);
                        assert(bounds_agree(
                            Ok::<(Vec<u8>, Vec<u8>), KvError>(bounds),
                            spec_resume_bounds(selector@, reverse, c0),
                        ));
                        assert(spec_resume_bounds(selector@, reverse, c0) matches Ok(b)
                            && b.0 == bounds.0@ && b.1 == bounds.1@);
                    }
                }
                assert(spec_range_error(ranges@[i as int]@, KvError::KeyTooLargeForRead));
            }
            return Err(KvError::KeyTooLargeForRead);
        }
        let out = crate::types::ReadRange { start: bounds.0, end: bounds.1, limit, reverse };
        proof {
            assert(spec_range_prepared(dm, out@)) by {
                match dm.cursor {
                    None => {}
                    Some(cs) => {
                        let c0 = choose|c: Seq<u8>| cs == b64url_of(c);
                        assert(spec_resume_bounds(selector@, reverse, c0) == Ok::<
                            (Seq<u8>, Seq<u8>),
                            KvError,
                        >((out@.start, out@.end)));
                    }
                }
            }
            lemma_total_limits_take(dmodels, i as int);
            assert((i + 1) * 4294967295 == i * 4294967295 + 4294967295) by (nonlinear_arith);
            assert(i * 4294967295 <= 10 * 4294967295) by (nonlinear_arith)
                requires
                    i <= 10,
            ;
        }
        outs.push(out);
        total = total + limit as u64;
        i = i + 1;
    }
    proof {
        assert(dmodels.take(n as int) =~= dmodels);
    }
    if total > crate::limits::MAX_READ_ENTRIES as u64 {
        return Err(KvError::TooManyEntries);
    }
    Ok(outs)
}

/// Taking one more declared range adds its limit.
proof fn lemma_total_limits_take(ds: Seq<SnapshotRangeModel>, i: int)
    requires
        0 <= i < ds.len(),
    ensures
        spec_total_limits(ds.take(i + 1)) == spec_total_limits(ds.take(i)) + ds[i].limit,
    decreases i,
{
    reveal_with_fuel(spec_total_limits, 3);
    if i == 0 {
        assert(ds.take(1)[0] == ds[0]);
        assert(ds.take(1).drop_first() =~= Seq::<SnapshotRangeModel>::empty());
        assert(ds.take(0) =~= Seq::<SnapshotRangeModel>::empty());
    } else {
        assert(ds.take(i + 1)[0] == ds[0]);
        assert(ds.take(i)[0] == ds[0]);
        assert(ds.take(i + 1).drop_first() =~= ds.drop_first().take(i));
        assert(ds.take(i).drop_first() =~= ds.drop_first().take(i - 1));
        assert(ds.drop_first()[i - 1] == ds[i]);
        lemma_total_limits_take(ds.drop_first(), i - 1);
    }
}

} // verus!
