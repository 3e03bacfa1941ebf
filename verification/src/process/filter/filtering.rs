use super::ascii_85::a85_err_is;
use super::ascii_85_roundtrip::lemma_a85_roundtrip;
use super::ascii_85::spec_a85_decode;
use super::ascii_85::spec_a85_encode;
use super::ascii_85::A85;
use super::ascii_hex::spec_ahx_decode;
use super::ascii_hex::lemma_ahx_roundtrip;
use super::ascii_hex::spec_ahx_encode;
use super::ascii_hex::AHx;
use super::error::filter_outcome;
use super::error::is_filter_err;
use super::error::FilterErr;
use super::error::FilterErrorCode;
use super::flate::fl_defilter_outcome;
use super::flate::lemma_fl_roundtrip;
use super::flate::spec_fl_new;
use super::flate::fl_filter_outcome;
use super::flate::zlib_decompressed;
use super::flate::Fl;
use super::lzw::lzw_object;
use super::lzw::spec_lzw_decode;
use super::lzw::spec_lzw_defilter;
use super::lzw::spec_lzw_filter;
use super::lzw::spec_lzw_new;
use super::lzw::Lzw;
use super::lzw::LzwErrorCode;
use super::predictor::bytes_to_vec;
use super::predictor::predictor_defilter_allowed;
use super::predictor::predictor_filter_allowed;
use super::predictor::predictor_object;
use super::predictor::predictor_roundtrips;
use super::predictor::spec_predictor;
use crate::object::direct::dictionary::Dictionary;
use crate::object::direct::name::Name;
use crate::object::direct::DirectValue;
use crate::object::indirect::stream::KEY_DECODEPARMS;
use crate::object::indirect::stream::KEY_F;
use crate::object::indirect::stream::KEY_FDECODEPARMS;
use crate::object::indirect::stream::KEY_FFILTER;
use crate::object::indirect::stream::KEY_FILTER;
use crate::parse::bytes_eq;
use crate::parse::Span;
use vstd::prelude::*;

verus! {

pub const NAME_AHX: [u8; 3] = [65, 72, 120];
pub const NAME_ASCII_HEX_DECODE: [u8; 14] = [65, 83, 67, 73, 73, 72, 101, 120, 68, 101, 99, 111, 100, 101];
pub const NAME_A85: [u8; 3] = [65, 56, 53];
pub const NAME_ASCII_85_DECODE: [u8; 13] = [65, 83, 67, 73, 73, 56, 53, 68, 101, 99, 111, 100, 101];
pub const NAME_LZW: [u8; 3] = [76, 90, 87];
pub const NAME_LZW_DECODE: [u8; 9] = [76, 90, 87, 68, 101, 99, 111, 100, 101];
pub const NAME_FL: [u8; 2] = [70, 108];
pub const NAME_FLATE_DECODE: [u8; 11] = [70, 108, 97, 116, 101, 68, 101, 99, 111, 100, 101];
pub const NAME_RL: [u8; 2] = [82, 76];
pub const NAME_RUN_LENGTH_DECODE: [u8; 15] = [82, 117, 110, 76, 101, 110, 103, 116, 104, 68, 101, 99, 111, 100, 101];
pub const NAME_CCF: [u8; 3] = [67, 67, 70];
pub const NAME_CCITT_FAX_DECODE: [u8; 14] = [67, 67, 73, 84, 84, 70, 97, 120, 68, 101, 99, 111, 100, 101];
pub const NAME_JBIG2_DECODE: [u8; 11] = [74, 66, 73, 71, 50, 68, 101, 99, 111, 100, 101];
pub const NAME_DCT: [u8; 3] = [68, 67, 84];
pub const NAME_DCT_DECODE: [u8; 9] = [68, 67, 84, 68, 101, 99, 111, 100, 101];
pub const NAME_JPX_DECODE: [u8; 9] = [74, 80, 88, 68, 101, 99, 111, 100, 101];
pub const NAME_CRYPT: [u8; 5] = [67, 114, 121, 112, 116];
pub const KEY_JBIG2_GLOBALS: [u8; 12] = [74, 66, 73, 71, 50, 71, 108, 111, 98, 97, 108, 115];

/// REFERENCE: [Table 6 — Standard filters, p37]: the filters that a name
/// selects, by its full or abbreviated form.
#[derive(Debug, PartialEq, Eq, Structural, Clone, Copy)]
pub enum FilterKind {
    AHx,
    A85,
    Lzw,
    Fl,
    RL,
    Ccf,
    JBig2,
    Dct,
    Jpx,
    Crypt,
    Unknown,
}

pub open spec fn spec_filter_kind(name: Seq<u8>) -> FilterKind {
    if name == NAME_AHX@ || name == NAME_ASCII_HEX_DECODE@ {
        FilterKind::AHx
    } else if name == NAME_A85@ || name == NAME_ASCII_85_DECODE@ {
        FilterKind::A85
    } else if name == NAME_LZW@ || name == NAME_LZW_DECODE@ {
        FilterKind::Lzw
    } else if name == NAME_FL@ || name == NAME_FLATE_DECODE@ {
        FilterKind::Fl
    } else if name == NAME_RL@ || name == NAME_RUN_LENGTH_DECODE@ {
        FilterKind::RL
    } else if name == NAME_CCF@ || name == NAME_CCITT_FAX_DECODE@ {
        FilterKind::Ccf
    } else if name == NAME_JBIG2_DECODE@ {
        FilterKind::JBig2
    } else if name == NAME_DCT@ || name == NAME_DCT_DECODE@ {
        FilterKind::Dct
    } else if name == NAME_JPX_DECODE@ {
        FilterKind::Jpx
    } else if name == NAME_CRYPT@ {
        FilterKind::Crypt
    } else {
        FilterKind::Unknown
    }
}

/// The filter that the bytes of a name select.
pub fn filter_kind(name: &[u8]) -> (kind: FilterKind)
    ensures
        kind == spec_filter_kind(name@),
{
    if bytes_eq(name, &NAME_AHX) || bytes_eq(name, &NAME_ASCII_HEX_DECODE) {
        FilterKind::AHx
    } else if bytes_eq(name, &NAME_A85) || bytes_eq(name, &NAME_ASCII_85_DECODE) {
        FilterKind::A85
    } else if bytes_eq(name, &NAME_LZW) || bytes_eq(name, &NAME_LZW_DECODE) {
        FilterKind::Lzw
    } else if bytes_eq(name, &NAME_FL) || bytes_eq(name, &NAME_FLATE_DECODE) {
        FilterKind::Fl
    } else if bytes_eq(name, &NAME_RL) || bytes_eq(name, &NAME_RUN_LENGTH_DECODE) {
        FilterKind::RL
    } else if bytes_eq(name, &NAME_CCF) || bytes_eq(name, &NAME_CCITT_FAX_DECODE) {
        FilterKind::Ccf
    } else if bytes_eq(name, &NAME_JBIG2_DECODE) {
        FilterKind::JBig2
    } else if bytes_eq(name, &NAME_DCT) || bytes_eq(name, &NAME_DCT_DECODE) {
        FilterKind::Dct
    } else if bytes_eq(name, &NAME_JPX_DECODE) {
        FilterKind::Jpx
    } else if bytes_eq(name, &NAME_CRYPT) {
        FilterKind::Crypt
    } else {
        FilterKind::Unknown
    }
}

/// One filter of a stream, with its parameters.
#[derive(Debug, PartialEq, Eq, Structural, Clone, Copy)]
pub enum Filtering {
    /// No filter: the data is left unchanged.
    Identity,
    AHx(AHx),
    A85(A85),
    Lzw(Lzw),
    Fl(Fl),
    RL,
    Jpx,
}

/// A filter named `name` with the decode parameters `parms` can be made
/// without a panic: the filters that are not implemented yet are left out.
pub open spec fn filtering_new_allowed(name: Seq<u8>, parms: Option<Dictionary>) -> bool {
    let kind = spec_filter_kind(name);
    &&& kind != FilterKind::Ccf
    &&& kind != FilterKind::Dct
    &&& kind != FilterKind::Crypt
    &&& kind == FilterKind::JBig2 ==> (parms matches Some(d) ==> d.spec_get(KEY_JBIG2_GLOBALS@) is None)
}

/// The filter named `name`, whose span is `span`, with the decode parameters
/// `parms`.
pub open spec fn spec_filtering_new(name: Seq<u8>, span: Span, parms: Option<Dictionary>) -> Result<Filtering, FilterErr> {
    match spec_filter_kind(name) {
        FilterKind::AHx => Ok(Filtering::AHx(AHx)),
        FilterKind::A85 => Ok(Filtering::A85(A85)),
        FilterKind::Lzw => match spec_lzw_new(parms) {
            Ok(lzw) => Ok(Filtering::Lzw(lzw)),
            Err(e) => Err(e),
        },
        FilterKind::Fl => match spec_fl_new(parms) {
            Ok(fl) => Ok(Filtering::Fl(fl)),
            Err(e) => Err(e),
        },
        FilterKind::RL => Ok(Filtering::RL),
        FilterKind::Jpx => Ok(Filtering::Jpx),
        FilterKind::JBig2 => Err(
            FilterErr { object: "JBiG2", code: FilterErrorCode::MissingRequiredParameter("Jbig2Globals") },
        ),
        _ => Err(FilterErr { object: "Filtering", code: FilterErrorCode::Unsupported(span) }),
    }
}

/// The filter `f` can encode (`encode`) or decode `bytes` without a panic.
pub open spec fn filtering_allowed(f: Filtering, encode: bool, bytes: Seq<u8>) -> bool {
    match f {
        Filtering::Identity | Filtering::AHx(_) | Filtering::A85(_) => true,
        Filtering::Lzw(lzw) => if encode {
            predictor_filter_allowed(lzw.predictor, bytes)
        } else {
            forall|out: Seq<u8>| spec_lzw_decode(lzw.early_change.0, bytes) == Ok::<Seq<u8>, LzwErrorCode>(out)
                ==> predictor_defilter_allowed(lzw.predictor, out)
        },
        Filtering::Fl(fl) => if encode {
            predictor_filter_allowed(fl.predictor, bytes)
        } else {
            forall|out: Seq<u8>| zlib_decompressed(bytes) == Ok::<Seq<u8>, Seq<char>>(out)
                ==> predictor_defilter_allowed(fl.predictor, out)
        },
        Filtering::RL | Filtering::Jpx => false,
    }
}

/// `r` is what the filter `f` gives for `bytes`, encoding (`encode`) or
/// decoding.
pub open spec fn filtering_outcome(f: Filtering, encode: bool, bytes: Seq<u8>, r: Result<Vec<u8>, FilterErr>) -> bool {
    match f {
        Filtering::Identity => (r matches Ok(v) && v@ == bytes),
        Filtering::AHx(_) => if encode {
            r matches Ok(v) && v@ == spec_ahx_encode(bytes)
        } else {
            match spec_ahx_decode(bytes) {
                Ok(decoded) => (r matches Ok(v) && v@ == decoded),
                Err(code) => (r matches Err(e) && is_filter_err(e, "AHx"@, FilterErrorCode::AHx(code))),
            }
        },
        Filtering::A85(_) => if encode {
            r matches Ok(v) && v@ == spec_a85_encode(bytes)
        } else {
            match spec_a85_decode(bytes) {
                Ok(decoded) => (r matches Ok(v) && v@ == decoded),
                Err(e) => (r matches Err(err) && a85_err_is(err, e)),
            }
        },
        Filtering::Lzw(lzw) => if encode {
            filter_outcome(spec_lzw_filter(lzw, bytes), predictor_object(lzw.predictor), r)
        } else {
            filter_outcome(spec_lzw_defilter(lzw, bytes), lzw_object(lzw, bytes), r)
        },
        Filtering::Fl(fl) => if encode {
            fl_filter_outcome(fl, bytes, r)
        } else {
            fl_defilter_outcome(fl, zlib_decompressed(bytes), r)
        },
        Filtering::RL | Filtering::Jpx => false,
    }
}

impl Filtering {
    /// REFERENCE: [7.4 Filters, p34]: the filter that `name` selects, with
    /// the decode parameters `parms`.
    pub fn new(name: &Name, parms: Option<&Dictionary>) -> (r: Result<Self, FilterErr>)
        requires
            filtering_new_allowed(name.value@, match parms {
                Some(d) => Some(*d),
                None => None,
            }),
        ensures
            r == spec_filtering_new(name.value@, name.span, match parms {
                Some(d) => Some(*d),
                None => None,
            }),
    {
        match filter_kind(name.value) {
            FilterKind::AHx => Ok(Filtering::AHx(AHx)),
            FilterKind::A85 => Ok(Filtering::A85(A85)),
            FilterKind::Lzw => Ok(Filtering::Lzw(Lzw::new(parms)?)),
            FilterKind::Fl => Ok(Filtering::Fl(Fl::new(parms)?)),
            FilterKind::RL => Ok(Filtering::RL),
            FilterKind::Jpx => Ok(Filtering::Jpx),
            FilterKind::JBig2 => Err(
                FilterErr::new("JBiG2", FilterErrorCode::MissingRequiredParameter("Jbig2Globals")),
            ),
            _ => Err(FilterErr::new("Filtering", FilterErrorCode::Unsupported(name.span))),
        }
    }

    /// Encodes `bytes`.
    pub fn filter(&self, bytes: &[u8]) -> (r: Result<Vec<u8>, FilterErr>)
        requires
            filtering_allowed(*self, true, bytes@),
        ensures
            filtering_outcome(*self, true, bytes@, r),
    {
        match self {
            Filtering::Identity => Ok(bytes_to_vec(bytes)),
            Filtering::AHx(f) => f.filter(bytes),
            Filtering::A85(f) => f.filter(bytes),
            Filtering::Lzw(f) => f.filter(bytes),
            Filtering::Fl(f) => f.filter(bytes),
            // Not reached: `filtering_allowed` leaves these filters out.
            Filtering::RL | Filtering::Jpx => Err(FilterErr::new("Filtering", FilterErrorCode::Mismatch(0, 0))),
        }
    }

    /// Decodes `bytes` where the filter can do so without a panic: `None`
    /// where it cannot.
    pub fn checked_defilter(&self, bytes: &[u8]) -> (r: Option<Result<Vec<u8>, FilterErr>>)
        ensures
            r is None <==> !filtering_allowed(*self, false, bytes@),
            r matches Some(x) ==> filtering_outcome(*self, false, bytes@, x),
    {
        match self {
            Filtering::Lzw(f) => f.checked_defilter(bytes),
            Filtering::Fl(f) => f.checked_defilter(bytes),
            Filtering::RL | Filtering::Jpx => None,
            _ => Some(self.defilter(bytes)),
        }
    }

    /// Decodes `bytes`.
    pub fn defilter(&self, bytes: &[u8]) -> (r: Result<Vec<u8>, FilterErr>)
        requires
            filtering_allowed(*self, false, bytes@),
        ensures
            filtering_outcome(*self, false, bytes@, r),
    {
        match self {
            Filtering::Identity => Ok(bytes_to_vec(bytes)),
            Filtering::AHx(f) => f.defilter(bytes),
            Filtering::A85(f) => f.defilter(bytes),
            Filtering::Lzw(f) => f.defilter(bytes),
            Filtering::Fl(f) => f.defilter(bytes),
            // Not reached: `filtering_allowed` leaves these filters out.
            Filtering::RL | Filtering::Jpx => Err(FilterErr::new("Filtering", FilterErrorCode::Mismatch(0, 0))),
        }
    }
}

/// The filters of a stream, in the order in which they were applied to
/// decode it.
#[derive(Debug, PartialEq)]
pub struct FilteringChain(pub Vec<Filtering>);

/// The filter for the `k`th pair of an array of filter names and an array
/// of decode parameters.
pub open spec fn pair_filtering(f: DirectValue, p: DirectValue) -> Result<Filtering, FilterErr> {
    match (f, p) {
        (DirectValue::Name(n), DirectValue::Dictionary(d)) => spec_filtering_new(n.value@, n.span, Some(d)),
        (DirectValue::Name(n), DirectValue::Null(_)) => spec_filtering_new(n.value@, n.span, None),
        (DirectValue::Name(_), _) => Err(
            FilterErr { object: "DecodeParms", code: FilterErrorCode::ValueType("Dictionary", p.spec_span()) },
        ),
        _ => Err(FilterErr { object: "Filter", code: FilterErrorCode::ValueType("Name", f.spec_span()) }),
    }
}

/// The filter for a filter name with no decode parameters.
pub open spec fn name_filtering(f: DirectValue) -> Result<Filtering, FilterErr> {
    match f {
        DirectValue::Name(n) => spec_filtering_new(n.value@, n.span, None),
        _ => Err(FilterErr { object: "Filter", code: FilterErrorCode::ValueType("Name", f.spec_span()) }),
    }
}

/// The filter for the `k`th filter name, `parms` holding the decode
/// parameters when they come as an array.
pub open spec fn item_filtering(fs: Seq<DirectValue>, parms: Option<Seq<DirectValue>>, k: int) -> Result<Filtering, FilterErr> {
    match parms {
        Some(ps) => pair_filtering(fs[k], ps[k]),
        None => name_filtering(fs[k]),
    }
}

/// The filters for the first `k` filter names, or the error of the first
/// that cannot be made.
pub open spec fn items_filterings(fs: Seq<DirectValue>, parms: Option<Seq<DirectValue>>, k: nat) -> Result<Seq<Filtering>, FilterErr>
    decreases k,
{
    if k == 0 {
        Ok(Seq::empty())
    } else {
        match items_filterings(fs, parms, (k - 1) as nat) {
            Err(e) => Err(e),
            Ok(v) => match item_filtering(fs, parms, k - 1) {
                Ok(f) => Ok(v.push(f)),
                Err(e) => Err(e),
            },
        }
    }
}

/// Whether the stream's data is in another file, which selects other keys.
pub open spec fn chain_filter_key(d: Dictionary) -> Seq<u8> {
    if d.spec_get(KEY_F@) is Some {
        KEY_FFILTER@
    } else {
        KEY_FILTER@
    }
}

pub open spec fn chain_parms_key(d: Dictionary) -> Seq<u8> {
    if d.spec_get(KEY_F@) is Some {
        KEY_FDECODEPARMS@
    } else {
        KEY_DECODEPARMS@
    }
}

/// REFERENCE: [Table 5 — Entries common to all stream dictionaries, p32]:
/// the filters that the stream dictionary `d` names, with their decode
/// parameters.
pub open spec fn spec_chain_new(d: Dictionary) -> Result<Seq<Filtering>, FilterErr> {
    match (d.spec_get(chain_filter_key(d)), d.spec_get(chain_parms_key(d))) {
        (Some(DirectValue::Name(n)), Some(DirectValue::Dictionary(p))) => match spec_filtering_new(n.value@, n.span, Some(p)) {
            Ok(f) => Ok(seq![f]),
            Err(e) => Err(e),
        },
        (Some(DirectValue::Name(n)), None) => match spec_filtering_new(n.value@, n.span, None) {
            Ok(f) => Ok(seq![f]),
            Err(e) => Err(e),
        },
        (Some(DirectValue::Array(fa)), Some(DirectValue::Array(pa))) => if fa.array@.len() != pa.array@.len() {
            Err(
                FilterErr {
                    object: "FilteringChain",
                    code: FilterErrorCode::Mismatch(fa.array@.len() as usize, pa.array@.len() as usize),
                },
            )
        } else {
            items_filterings(fa.array@, Some(pa.array@), fa.array@.len())
        },
        (Some(DirectValue::Array(fa)), None) => items_filterings(fa.array@, None, fa.array@.len()),
        (None, _) => Ok(seq![Filtering::Identity]),
        (Some(f), _) => Err(FilterErr { object: "Filter", code: FilterErrorCode::ValueType("Name | Array", f.spec_span()) }),
    }
}

/// Every filter that the stream dictionary `d` names can be made without a
/// panic.
pub open spec fn chain_new_allowed(d: Dictionary) -> bool {
    match (d.spec_get(chain_filter_key(d)), d.spec_get(chain_parms_key(d))) {
        (Some(DirectValue::Name(n)), Some(DirectValue::Dictionary(p))) => filtering_new_allowed(n.value@, Some(p)),
        (Some(DirectValue::Name(n)), None) => filtering_new_allowed(n.value@, None),
        (Some(DirectValue::Array(fa)), Some(DirectValue::Array(pa))) => forall|k: int|
            0 <= k < fa.array@.len() && k < pa.array@.len() ==> match (#[trigger] fa.array@[k], pa.array@[k]) {
                (DirectValue::Name(n), DirectValue::Dictionary(p)) => filtering_new_allowed(n.value@, Some(p)),
                (DirectValue::Name(n), DirectValue::Null(_)) => filtering_new_allowed(n.value@, None),
                _ => true,
            },
        (Some(DirectValue::Array(fa)), None) => forall|k: int|
            0 <= k < fa.array@.len() ==> match #[trigger] fa.array@[k] {
                DirectValue::Name(n) => filtering_new_allowed(n.value@, None),
                _ => true,
            },
        _ => true,
    }
}

/// The filters from the `k`th on decode `bytes` to `r`, each applied to
/// what the one before gave.
pub open spec fn chain_defilter_outcome(fs: Seq<Filtering>, k: nat, bytes: Seq<u8>, r: Result<Vec<u8>, FilterErr>) -> bool
    decreases fs.len() - k,
{
    if k >= fs.len() {
        r matches Ok(v) && v@ == bytes
    } else {
        exists|r1: Result<Vec<u8>, FilterErr>| #[trigger] filtering_outcome(fs[k as int], false, bytes, r1) && match r1 {
            Ok(v) => chain_defilter_outcome(fs, k + 1, v@, r),
            Err(e) => r == Err::<Vec<u8>, FilterErr>(e),
        }
    }
}

/// The filters from the `k`th on can decode `bytes` without a panic.
pub open spec fn chain_defilter_allowed(fs: Seq<Filtering>, k: nat, bytes: Seq<u8>) -> bool
    decreases fs.len() - k,
{
    k < fs.len() ==> filtering_allowed(fs[k as int], false, bytes) && forall|r1: Result<Vec<u8>, FilterErr>|
        #[trigger] filtering_outcome(fs[k as int], false, bytes, r1) ==> match r1 {
            Ok(v) => chain_defilter_allowed(fs, k + 1, v@),
            Err(_) => true,
        }
}

/// The first `k` filters, the last applied first, encode `bytes` to `r`.
pub open spec fn chain_filter_outcome(fs: Seq<Filtering>, k: nat, bytes: Seq<u8>, r: Result<Vec<u8>, FilterErr>) -> bool
    decreases k,
{
    if k == 0 || k > fs.len() {
        r matches Ok(v) && v@ == bytes
    } else {
        exists|r1: Result<Vec<u8>, FilterErr>| #[trigger] filtering_outcome(fs[k - 1], true, bytes, r1) && match r1 {
            Ok(v) => chain_filter_outcome(fs, (k - 1) as nat, v@, r),
            Err(e) => r == Err::<Vec<u8>, FilterErr>(e),
        }
    }
}

/// The first `k` filters, the last applied first, can encode `bytes`
/// without a panic.
pub open spec fn chain_filter_allowed(fs: Seq<Filtering>, k: nat, bytes: Seq<u8>) -> bool
    decreases k,
{
    0 < k <= fs.len() ==> filtering_allowed(fs[k - 1], true, bytes) && forall|r1: Result<Vec<u8>, FilterErr>|
        #[trigger] filtering_outcome(fs[k - 1], true, bytes, r1) ==> match r1 {
            Ok(v) => chain_filter_allowed(fs, (k - 1) as nat, v@),
            Err(_) => true,
        }
}

impl FilteringChain {
    /// The filters that the stream dictionary `d` names.
    pub fn new(d: &Dictionary) -> (r: Result<Self, FilterErr>)
        requires
            chain_new_allowed(*d),
        ensures
            match spec_chain_new(*d) {
                Ok(fs) => (r matches Ok(chain) && chain.0@ == fs),
                Err(e) => r == Err::<Self, FilterErr>(e),
            },
    {
        let file = d.opt_get(&KEY_F).is_some();
        let filtering = if file {
            d.opt_get(&KEY_FFILTER)
        } else {
            d.opt_get(&KEY_FILTER)
        };
        let parms = if file {
            d.opt_get(&KEY_FDECODEPARMS)
        } else {
            d.opt_get(&KEY_DECODEPARMS)
        };
        match (filtering, parms) {
            (Some(DirectValue::Name(n)), Some(DirectValue::Dictionary(p))) => {
                let f = Filtering::new(n, Some(p))?;
                Ok(FilteringChain(vec![f]))
            },
            (Some(DirectValue::Name(n)), None) => {
                let f = Filtering::new(n, None)?;
                Ok(FilteringChain(vec![f]))
            },
            (Some(DirectValue::Array(fa)), Some(DirectValue::Array(pa))) => {
                if fa.array.len() != pa.array.len() {
                    return Err(
                        FilterErr::new("FilteringChain", FilterErrorCode::Mismatch(fa.array.len(), pa.array.len())),
                    );
                }
                let fs = Self::items(&fa.array, Some(&pa.array))?;
                Ok(FilteringChain(fs))
            },
            (Some(DirectValue::Array(fa)), None) => {
                let fs = Self::items(&fa.array, None)?;
                Ok(FilteringChain(fs))
            },
            (None, _) => Ok(FilteringChain(vec![Filtering::Identity])),
            (Some(f), _) => Err(FilterErr::new("Filter", FilterErrorCode::ValueType("Name | Array", f.span()))),
        }
    }

    /// The filters for the filter names `fs`, with the decode parameters
    /// `parms` when they come as an array.
    fn items(fs: &Vec<DirectValue>, parms: Option<&Vec<DirectValue>>) -> (r: Result<Vec<Filtering>, FilterErr>)
        requires
            parms matches Some(ps) ==> ps@.len() == fs@.len(),
            forall|k: int|
                0 <= k < fs@.len() ==> match parms {
                    Some(ps) => match (#[trigger] fs@[k], ps@[k]) {
                        (DirectValue::Name(n), DirectValue::Dictionary(p)) => filtering_new_allowed(n.value@, Some(p)),
                        (DirectValue::Name(n), DirectValue::Null(_)) => filtering_new_allowed(n.value@, None),
                        _ => true,
                    },
                    None => match fs@[k] {
                        DirectValue::Name(n) => filtering_new_allowed(n.value@, None),
                        _ => true,
                    },
                },
        ensures
            match items_filterings(fs@, match parms {
                Some(ps) => Some(ps@),
                None => None,
            }, fs@.len()) {
                Ok(v) => (r matches Ok(w) && w@ == v),
                Err(e) => r == Err::<Vec<Filtering>, FilterErr>(e),
            },
    {
        let ghost sp = match parms {
            Some(ps) => Some(ps@),
            None => None,
        };
        let mut out: Vec<Filtering> = Vec::new();
        let mut k: usize = 0;
        while k < fs.len()
            invariant
                k <= fs@.len(),
                sp == (match parms {
                    Some(ps) => Some(ps@),
                    None => None,
                }),
                parms matches Some(ps) ==> ps@.len() == fs@.len(),
                forall|k: int|
                    0 <= k < fs@.len() ==> match parms {
                        Some(ps) => match (#[trigger] fs@[k], ps@[k]) {
                            (DirectValue::Name(n), DirectValue::Dictionary(p)) => filtering_new_allowed(n.value@, Some(p)),
                            (DirectValue::Name(n), DirectValue::Null(_)) => filtering_new_allowed(n.value@, None),
                            _ => true,
                        },
                        None => match fs@[k] {
                            DirectValue::Name(n) => filtering_new_allowed(n.value@, None),
                            _ => true,
                        },
                    },
                items_filterings(fs@, sp, k as nat) == Ok::<Seq<Filtering>, FilterErr>(out@),
            decreases fs@.len() - k,
        {
            let f = &fs[k];
            let item = match parms {
                Some(ps) => {
                    let p = &ps[k];
                    match (f, p) {
                        (DirectValue::Name(n), DirectValue::Dictionary(d)) => Filtering::new(n, Some(d)),
                        (DirectValue::Name(n), DirectValue::Null(_)) => Filtering::new(n, None),
                        (DirectValue::Name(_), _) => Err(
                            FilterErr::new("DecodeParms", FilterErrorCode::ValueType("Dictionary", p.span())),
                        ),
                        _ => Err(FilterErr::new("Filter", FilterErrorCode::ValueType("Name", f.span()))),
                    }
                },
                None => match f {
                    DirectValue::Name(n) => Filtering::new(n, None),
                    _ => Err(FilterErr::new("Filter", FilterErrorCode::ValueType("Name", f.span()))),
                },
            };
            assert(item == item_filtering(fs@, sp, k as int));
            match item {
                Ok(filtering) => out.push(filtering),
                Err(e) => {
                    proof {
                        lemma_items_error(fs@, sp, (k + 1) as nat, fs@.len());
                    }
                    return Err(e);
                },
            }
            k = k + 1;
        }
        Ok(out)
    }

    /// Decodes `bytes` with each filter in turn, as far as each can decode
    /// what it is given without a panic: `None` where one cannot.
    pub fn checked_defilter(&self, bytes: &[u8]) -> (r: Option<Result<Vec<u8>, FilterErr>>)
        ensures
            r matches Some(x) ==> chain_defilter_outcome(self.0@, 0, bytes@, x),
            chain_defilter_allowed(self.0@, 0, bytes@) ==> r is Some,
    {
        let fs = &self.0;
        let mut current = bytes_to_vec(bytes);
        let mut k: usize = 0;
        while k < fs.len()
            invariant
                k <= fs@.len(),
                fs@ == self.0@,
                chain_defilter_allowed(fs@, 0, bytes@) ==> chain_defilter_allowed(fs@, k as nat, current@),
                forall|r: Result<Vec<u8>, FilterErr>| chain_defilter_outcome(fs@, k as nat, current@, r)
                    ==> chain_defilter_outcome(fs@, 0, bytes@, r),
            decreases fs@.len() - k,
        {
            let ghost before = current@;
            match fs[k].checked_defilter(current.as_slice()) {
                None => {
                    return None;
                },
                Some(Ok(v)) => {
                    assert forall|r: Result<Vec<u8>, FilterErr>| chain_defilter_outcome(fs@, (k + 1) as nat, v@, r)
                        implies chain_defilter_outcome(fs@, 0, bytes@, r) by {
                        assert(filtering_outcome(fs@[k as int], false, before, Ok::<Vec<u8>, FilterErr>(v)));
                        assert(chain_defilter_outcome(fs@, k as nat, before, r));
                    }
                    assert(filtering_outcome(fs@[k as int], false, before, Ok::<Vec<u8>, FilterErr>(v)));
                    current = v;
                },
                Some(Err(e)) => {
                    assert(filtering_outcome(fs@[k as int], false, before, Err::<Vec<u8>, FilterErr>(e)));
                    assert(chain_defilter_outcome(fs@, k as nat, before, Err::<Vec<u8>, FilterErr>(e)));
                    return Some(Err(e));
                },
            }
            k = k + 1;
        }
        Some(Ok(current))
    }

    /// Decodes `bytes` with each filter in turn.
    pub fn defilter(&self, bytes: &[u8]) -> (r: Result<Vec<u8>, FilterErr>)
        requires
            chain_defilter_allowed(self.0@, 0, bytes@),
        ensures
            chain_defilter_outcome(self.0@, 0, bytes@, r),
    {
        let fs = &self.0;
        let mut current = bytes_to_vec(bytes);
        let mut k: usize = 0;
        let ghost outcomes: Seq<Seq<u8>> = seq![bytes@];
        while k < fs.len()
            invariant
                k <= fs@.len(),
                fs@ == self.0@,
                chain_defilter_allowed(fs@, k as nat, current@),
                forall|r: Result<Vec<u8>, FilterErr>| chain_defilter_outcome(fs@, k as nat, current@, r)
                    ==> chain_defilter_outcome(fs@, 0, bytes@, r),
            decreases fs@.len() - k,
        {
            let ghost before = current@;
            let r1 = fs[k].defilter(current.as_slice());
            match r1 {
                Ok(v) => {
                    assert forall|r: Result<Vec<u8>, FilterErr>| chain_defilter_outcome(fs@, (k + 1) as nat, v@, r)
                        implies chain_defilter_outcome(fs@, 0, bytes@, r) by {
                        assert(filtering_outcome(fs@[k as int], false, before, Ok::<Vec<u8>, FilterErr>(v)));
                        assert(chain_defilter_outcome(fs@, k as nat, before, r));
                    }
                    current = v;
                },
                Err(e) => {
                    assert(filtering_outcome(fs@[k as int], false, before, Err::<Vec<u8>, FilterErr>(e)));
                    assert(chain_defilter_outcome(fs@, k as nat, before, Err::<Vec<u8>, FilterErr>(e)));
                    return Err(e);
                },
            }
            k = k + 1;
        }
        Ok(current)
    }

    /// Encodes `bytes` with each filter in turn, the last first.
    pub fn filter(&self, bytes: &[u8]) -> (r: Result<Vec<u8>, FilterErr>)
        requires
            chain_filter_allowed(self.0@, self.0@.len(), bytes@),
        ensures
            chain_filter_outcome(self.0@, self.0@.len(), bytes@, r),
    {
        let fs = &self.0;
        let mut current = bytes_to_vec(bytes);
        let mut k: usize = fs.len();
        while k > 0
            invariant
                k <= fs@.len(),
                fs@ == self.0@,
                chain_filter_allowed(fs@, k as nat, current@),
                forall|r: Result<Vec<u8>, FilterErr>| chain_filter_outcome(fs@, k as nat, current@, r)
                    ==> chain_filter_outcome(fs@, fs@.len(), bytes@, r),
            decreases k,
        {
            let ghost before = current@;
            let r1 = fs[k - 1].filter(current.as_slice());
            match r1 {
                Ok(v) => {
                    assert forall|r: Result<Vec<u8>, FilterErr>| chain_filter_outcome(fs@, (k - 1) as nat, v@, r)
                        implies chain_filter_outcome(fs@, fs@.len(), bytes@, r) by {
                        assert(filtering_outcome(fs@[k - 1], true, before, Ok::<Vec<u8>, FilterErr>(v)));
                        assert(chain_filter_outcome(fs@, k as nat, before, r));
                    }
                    current = v;
                },
                Err(e) => {
                    assert(filtering_outcome(fs@[k - 1], true, before, Err::<Vec<u8>, FilterErr>(e)));
                    assert(chain_filter_outcome(fs@, k as nat, before, Err::<Vec<u8>, FilterErr>(e)));
                    return Err(e);
                },
            }
            k = k - 1;
        }
        assert(chain_filter_outcome(fs@, 0, current@, Ok::<Vec<u8>, FilterErr>(current)));
        Ok(current)
    }
}

/// Once a filter cannot be made, the error stays that of the first.
proof fn lemma_items_error(fs: Seq<DirectValue>, parms: Option<Seq<DirectValue>>, k: nat, n: nat)
    requires
        k <= n,
        items_filterings(fs, parms, k) is Err,
    ensures
        items_filterings(fs, parms, n) == items_filterings(fs, parms, k),
    decreases n - k,
{
    if n > k {
        lemma_items_error(fs, parms, k, (n - 1) as nat);
    }
}

/// The filters of which decoding gives back any data that they encoded:
/// none, ASCII hexadecimal, ASCII base-85, and Flate with a predictor that
/// undoes itself.
pub open spec fn filtering_always_roundtrips(f: Filtering) -> bool {
    match f {
        Filtering::Identity | Filtering::AHx(_) | Filtering::A85(_) => true,
        Filtering::Fl(fl) => predictor_roundtrips(fl.predictor),
        _ => false,
    }
}

/// Decoding what a filter encoded gives the data back.
pub proof fn lemma_filtering_roundtrip(f: Filtering, bytes: Seq<u8>, encoded: Vec<u8>, r: Result<Vec<u8>, FilterErr>)
    requires
        filtering_always_roundtrips(f),
        filtering_outcome(f, true, bytes, Ok::<Vec<u8>, FilterErr>(encoded)),
        filtering_outcome(f, false, encoded@, r),
    ensures
        r matches Ok(decoded) && decoded@ == bytes,
{
    match f {
        Filtering::AHx(_) => lemma_ahx_roundtrip(bytes),
        Filtering::A85(_) => lemma_a85_roundtrip(bytes),
        Filtering::Fl(fl) => {
            lemma_fl_roundtrip(fl, bytes, encoded@);
            assert(fl_defilter_outcome(fl, zlib_decompressed(encoded@), r));
        },
        _ => {},
    }
}

/// Decoding with the filters from the `j`th on undoes encoding with the
/// first `j`: the data that the first `j` encoded comes back.
proof fn lemma_chain_roundtrip_prefix(
    fs: Seq<Filtering>,
    j: nat,
    bytes: Seq<u8>,
    encoded: Vec<u8>,
    r: Result<Vec<u8>, FilterErr>,
)
    requires
        j <= fs.len(),
        forall|k: int| 0 <= k < fs.len() ==> filtering_always_roundtrips(#[trigger] fs[k]),
        chain_filter_outcome(fs, j, bytes, Ok::<Vec<u8>, FilterErr>(encoded)),
        chain_defilter_outcome(fs, 0, encoded@, r),
    ensures
        chain_defilter_outcome(fs, j, bytes, r),
    decreases j,
{
    if j > 0 {
        let r1 = choose|r1: Result<Vec<u8>, FilterErr>| #[trigger] filtering_outcome(fs[j - 1], true, bytes, r1) && match r1 {
            Ok(v) => chain_filter_outcome(fs, (j - 1) as nat, v@, Ok::<Vec<u8>, FilterErr>(encoded)),
            Err(e) => Ok::<Vec<u8>, FilterErr>(encoded) == Err::<Vec<u8>, FilterErr>(e),
        };
        if let Ok(v) = r1 {
            lemma_chain_roundtrip_prefix(fs, (j - 1) as nat, v@, encoded, r);
            let r2 = choose|r2: Result<Vec<u8>, FilterErr>| #[trigger] filtering_outcome(fs[j - 1], false, v@, r2) && match r2 {
                Ok(w) => chain_defilter_outcome(fs, j as nat, w@, r),
                Err(e) => r == Err::<Vec<u8>, FilterErr>(e),
            };
            assert(filtering_always_roundtrips(fs[j - 1]));
            lemma_filtering_roundtrip(fs[j - 1], bytes, v, r2);
        }
    } else {
        assert(encoded@ == bytes);
    }
}

/// Decoding with a chain of filters that always undo themselves what the
/// chain encoded gives the data back.
pub proof fn lemma_chain_roundtrip(fs: Seq<Filtering>, bytes: Seq<u8>, encoded: Vec<u8>, r: Result<Vec<u8>, FilterErr>)
    requires
        forall|k: int| 0 <= k < fs.len() ==> filtering_always_roundtrips(#[trigger] fs[k]),
        chain_filter_outcome(fs, fs.len(), bytes, Ok::<Vec<u8>, FilterErr>(encoded)),
        chain_defilter_outcome(fs, 0, encoded@, r),
    ensures
        r matches Ok(decoded) && decoded@ == bytes,
{
    lemma_chain_roundtrip_prefix(fs, fs.len(), bytes, encoded, r);
}

/// The bytes of the ASCII text `s`.
pub open spec fn ascii_bytes(s: Seq<char>) -> Seq<u8> {
    s.map_values(|c: char| c as u8)
}

/// REFERENCE: [Table 6 — Standard filters, p37]: each standard filter is
/// selected by its name and by its abbreviation, and by no other name.
pub proof fn lemma_standard_filter_names(name: Seq<u8>)
    ensures
        spec_filter_kind(name) == FilterKind::AHx <==> (name == ascii_bytes("ASCIIHexDecode"@) || name == ascii_bytes(
            "AHx"@,
        )),
        spec_filter_kind(name) == FilterKind::A85 <==> (name == ascii_bytes("ASCII85Decode"@) || name == ascii_bytes(
            "A85"@,
        )),
        spec_filter_kind(name) == FilterKind::Lzw <==> (name == ascii_bytes("LZWDecode"@) || name == ascii_bytes(
            "LZW"@,
        )),
        spec_filter_kind(name) == FilterKind::Fl <==> (name == ascii_bytes("FlateDecode"@) || name == ascii_bytes(
            "Fl"@,
        )),
        spec_filter_kind(name) == FilterKind::RL <==> (name == ascii_bytes("RunLengthDecode"@) || name == ascii_bytes(
            "RL"@,
        )),
        spec_filter_kind(name) == FilterKind::Ccf <==> (name == ascii_bytes("CCITTFaxDecode"@) || name == ascii_bytes(
            "CCF"@,
        )),
        spec_filter_kind(name) == FilterKind::JBig2 <==> name == ascii_bytes("JBIG2Decode"@),
        spec_filter_kind(name) == FilterKind::Dct <==> (name == ascii_bytes("DCTDecode"@) || name == ascii_bytes(
            "DCT"@,
        )),
        spec_filter_kind(name) == FilterKind::Jpx <==> name == ascii_bytes("JPXDecode"@),
        spec_filter_kind(name) == FilterKind::Crypt <==> name == ascii_bytes("Crypt"@),
{
    reveal_strlit("ASCIIHexDecode");
    reveal_strlit("AHx");
    reveal_strlit("ASCII85Decode");
    reveal_strlit("A85");
    reveal_strlit("LZWDecode");
    reveal_strlit("LZW");
    reveal_strlit("FlateDecode");
    reveal_strlit("Fl");
    reveal_strlit("RunLengthDecode");
    reveal_strlit("RL");
    reveal_strlit("CCITTFaxDecode");
    reveal_strlit("CCF");
    reveal_strlit("JBIG2Decode");
    reveal_strlit("DCTDecode");
    reveal_strlit("DCT");
    reveal_strlit("JPXDecode");
    reveal_strlit("Crypt");
    assert(ascii_bytes("ASCIIHexDecode"@) =~= NAME_ASCII_HEX_DECODE@);
    assert(ascii_bytes("AHx"@) =~= NAME_AHX@);
    assert(ascii_bytes("ASCII85Decode"@) =~= NAME_ASCII_85_DECODE@);
    assert(ascii_bytes("A85"@) =~= NAME_A85@);
    assert(ascii_bytes("LZWDecode"@) =~= NAME_LZW_DECODE@);
    assert(ascii_bytes("LZW"@) =~= NAME_LZW@);
    assert(ascii_bytes("FlateDecode"@) =~= NAME_FLATE_DECODE@);
    assert(ascii_bytes("Fl"@) =~= NAME_FL@);
    assert(ascii_bytes("RunLengthDecode"@) =~= NAME_RUN_LENGTH_DECODE@);
    assert(ascii_bytes("RL"@) =~= NAME_RL@);
    assert(ascii_bytes("CCITTFaxDecode"@) =~= NAME_CCITT_FAX_DECODE@);
    assert(ascii_bytes("CCF"@) =~= NAME_CCF@);
    assert(ascii_bytes("JBIG2Decode"@) =~= NAME_JBIG2_DECODE@);
    assert(ascii_bytes("DCTDecode"@) =~= NAME_DCT_DECODE@);
    assert(ascii_bytes("DCT"@) =~= NAME_DCT@);
    assert(ascii_bytes("JPXDecode"@) =~= NAME_JPX_DECODE@);
    assert(ascii_bytes("Crypt"@) =~= NAME_CRYPT@);
    assert(NAME_A85@[1] != NAME_AHX@[1]);
    assert(NAME_LZW@[0] != NAME_AHX@[0] && NAME_LZW@[0] != NAME_A85@[0]);
    assert(NAME_CCF@[0] != NAME_AHX@[0] && NAME_CCF@[0] != NAME_A85@[0] && NAME_CCF@[0] != NAME_LZW@[0]);
    assert(NAME_DCT@[0] != NAME_AHX@[0] && NAME_DCT@[0] != NAME_A85@[0] && NAME_DCT@[0] != NAME_LZW@[0]
        && NAME_DCT@[0] != NAME_CCF@[0]);
    assert(NAME_FL@[0] != NAME_RL@[0]);
    assert(NAME_ASCII_85_DECODE@[5] != NAME_ASCII_HEX_DECODE@[5]);
    assert(NAME_DCT_DECODE@[0] != NAME_LZW_DECODE@[0] && NAME_JPX_DECODE@[0] != NAME_LZW_DECODE@[0]
        && NAME_JPX_DECODE@[1] != NAME_DCT_DECODE@[1]);
    assert(NAME_CCITT_FAX_DECODE@[0] != NAME_ASCII_HEX_DECODE@[0]);
}

/// The filters made for the first `k` names stand in their order.
proof fn lemma_items_filterings_order(fs: Seq<DirectValue>, parms: Option<Seq<DirectValue>>, k: nat)
    ensures
        items_filterings(fs, parms, k) matches Ok(v) ==> v.len() == k && forall|i: int|
            0 <= i < k ==> item_filtering(fs, parms, i) == Ok::<Filtering, FilterErr>(#[trigger] v[i]),
    decreases k,
{
    if k > 0 {
        lemma_items_filterings_order(fs, parms, (k - 1) as nat);
    }
}

/// REFERENCE: [Table 5 — Entries common to all stream dictionaries, p32]:
/// when the stream dictionary names its filters in an array, the chain has
/// one filter for each name, in the order of the array, the `k`th made from
/// the `k`th name and, when the decode parameters come as an array too,
/// the `k`th of them (a null for none).
pub proof fn lemma_chain_order(d: Dictionary)
    ensures
        match (d.spec_get(chain_filter_key(d)), d.spec_get(chain_parms_key(d)), spec_chain_new(d)) {
            (Some(DirectValue::Array(fa)), Some(DirectValue::Array(pa)), Ok(chain)) => {
                &&& chain.len() == fa.array@.len()
                &&& forall|k: int|
                    0 <= k < chain.len() ==> pair_filtering(fa.array@[k], pa.array@[k]) == Ok::<
                        Filtering,
                        FilterErr,
                    >(#[trigger] chain[k])
            },
            (Some(DirectValue::Array(fa)), None, Ok(chain)) => {
                &&& chain.len() == fa.array@.len()
                &&& forall|k: int|
                    0 <= k < chain.len() ==> name_filtering(fa.array@[k]) == Ok::<Filtering, FilterErr>(
                        #[trigger] chain[k],
                    )
            },
            _ => true,
        },
{
    match (d.spec_get(chain_filter_key(d)), d.spec_get(chain_parms_key(d))) {
        (Some(DirectValue::Array(fa)), Some(DirectValue::Array(pa))) => {
            lemma_items_filterings_order(fa.array@, Some(pa.array@), fa.array@.len());
        },
        (Some(DirectValue::Array(fa)), None) => {
            lemma_items_filterings_order(fa.array@, None, fa.array@.len());
        },
        _ => {},
    }
}

} // verus!
