use super::error::filter_outcome;
use super::error::FilterErr;
use super::error::FilterErrorCode;
use super::predictor::predictor_defilter_allowed;
use super::predictor::predictor_filter_allowed;
use super::predictor::lemma_predictor_roundtrip;
use super::predictor::predictor_object;
use super::predictor::predictor_roundtrips;
use super::predictor::spec_predictor;
use super::predictor::spec_predictor_new;
use super::predictor::Predictor;
use crate::object::direct::dictionary::Dictionary;
use std::io::Read;
use vstd::prelude::*;

verus! {

#[derive(Debug, PartialEq, Clone)]
pub enum FlErrorCode {
    Filter(String),
    Defilter(String),
}

/// What flate2 writes for `bytes` at the default compression level: the
/// zlib stream, or the text of the error that stopped it.
pub uninterp spec fn zlib_compression(bytes: Seq<u8>) -> Result<Seq<u8>, Seq<char>>;

/// What flate2 reads from the zlib stream `bytes`: the decompressed bytes,
/// or the text of the error that stopped it.
pub uninterp spec fn zlib_decompressed(bytes: Seq<u8>) -> Result<Seq<u8>, Seq<char>>;

/// Compresses `bytes` by reading them through `flate2::read::ZlibEncoder`
/// at `Compression::default()`. Trusted: the outcome, the stream or the
/// error's text, is the one named `zlib_compression`, and decompressing the
/// stream gives `bytes` back.
#[verifier::external_body]
fn zlib_compress(bytes: &[u8]) -> (r: Result<Vec<u8>, String>)
    ensures
        match zlib_compression(bytes@) {
            Ok(out) => (r matches Ok(v) && v@ == out),
            Err(msg) => (r matches Err(s) && s@ == msg),
        },
        match r {
            Ok(v) => zlib_decompressed(v@) == Ok::<Seq<u8>, Seq<char>>(bytes@),
            Err(_) => true,
        },
{
    let mut filtered = Vec::new();
    let mut encoder = flate2::read::ZlibEncoder::new(bytes, flate2::Compression::default());
    match encoder.read_to_end(&mut filtered) {
        Ok(_) => Ok(filtered),
        Err(err) => Err(err.to_string()),
    }
}

/// Decompresses `bytes` by reading them through `flate2::read::ZlibDecoder`.
/// Trusted: the outcome, the bytes or the error's text, is the one named
/// `zlib_decompressed`.
#[verifier::external_body]
fn zlib_decompress(bytes: &[u8]) -> (r: Result<Vec<u8>, String>)
    ensures
        match zlib_decompressed(bytes@) {
            Ok(out) => (r matches Ok(v) && v@ == out),
            Err(msg) => (r matches Err(s) && s@ == msg),
        },
{
    let mut defiltered = Vec::new();
    let mut decoder = flate2::read::ZlibDecoder::new(bytes);
    match decoder.read_to_end(&mut defiltered) {
        Ok(_) => Ok(defiltered),
        Err(err) => Err(err.to_string()),
    }
}

/// REFERENCE: [7.4.4 LZWDecode and FlateDecode filters, p38]: the
/// zlib/deflate compression filter, after a predictor.
#[derive(Debug, PartialEq, Eq, Structural, Clone, Copy)]
pub struct Fl {
    pub predictor: Predictor,
}

/// `r` is what the Flate filter decodes, given what zlib reads from the
/// stream: the decompressed bytes, then the predictor.
pub open spec fn fl_defilter_outcome(fl: Fl, inflated: Result<Seq<u8>, Seq<char>>, r: Result<Vec<u8>, FilterErr>) -> bool {
    match inflated {
        Ok(out) => filter_outcome(spec_predictor(fl.predictor, false, out), predictor_object(fl.predictor), r),
        Err(msg) => (r matches Err(err) && err.object@ == "Fl"@ && (err.code matches FilterErrorCode::Fl(
            FlErrorCode::Defilter(text),
        ) && text@ == msg)),
    }
}

/// The Flate filter that the decode parameters `parms` describe.
pub open spec fn spec_fl_new(parms: Option<Dictionary>) -> Result<Fl, FilterErr> {
    match parms {
        None => Ok(Fl { predictor: Predictor::NoPredictor }),
        Some(d) => match spec_predictor_new(d) {
            Ok(predictor) => Ok(Fl { predictor }),
            Err(e) => Err(e),
        },
    }
}

/// The outcome of encoding `bytes` with `fl`: the predictor, then zlib;
/// zlib's error is handed on as its text. What zlib writes, it reads back.
pub open spec fn fl_filter_outcome(fl: Fl, bytes: Seq<u8>, r: Result<Vec<u8>, FilterErr>) -> bool {
    match spec_predictor(fl.predictor, true, bytes) {
        Ok(predicted) => match zlib_compression(predicted) {
            Ok(out) => (r matches Ok(v) && v@ == out) && zlib_decompressed(out) == Ok::<Seq<u8>, Seq<char>>(
                predicted,
            ),
            Err(msg) => (r matches Err(err) && err.object@ == "Fl"@ && (err.code matches FilterErrorCode::Fl(
                FlErrorCode::Filter(m),
            ) && m@ == msg)),
        },
        Err(e) => (r matches Err(err) && err.object@ == predictor_object(fl.predictor) && err.code == e),
    }
}

impl Fl {
    /// The filter that the decode parameters `parms` describe.
    pub fn new(parms: Option<&Dictionary>) -> (r: Result<Self, FilterErr>)
        ensures
            r == spec_fl_new(match parms {
                Some(d) => Some(*d),
                None => None,
            }),
    {
        match parms {
            None => Ok(Fl { predictor: Predictor::NoPredictor }),
            Some(d) => {
                let predictor = Predictor::new(d)?;
                Ok(Fl { predictor })
            },
        }
    }

    /// Applies the predictor, then compresses.
    pub fn filter(&self, bytes: &[u8]) -> (r: Result<Vec<u8>, FilterErr>)
        requires
            predictor_filter_allowed(self.predictor, bytes@),
        ensures
            fl_filter_outcome(*self, bytes@, r),
    {
        let predicted = self.predictor.filter(bytes)?;
        match zlib_compress(predicted.as_slice()) {
            Ok(v) => Ok(v),
            Err(msg) => Err(FilterErr::new("Fl", FilterErrorCode::Fl(FlErrorCode::Filter(msg)))),
        }
    }

    /// Decompresses, then reverses the predictor where it can decode what
    /// came out without a panic: `None` where it cannot.
    pub fn checked_defilter(&self, bytes: &[u8]) -> (r: Option<Result<Vec<u8>, FilterErr>>)
        ensures
            match zlib_decompressed(bytes@) {
                Ok(out) => if predictor_defilter_allowed(self.predictor, out) {
                    r matches Some(x) && fl_defilter_outcome(*self, zlib_decompressed(bytes@), x)
                } else {
                    r is None
                },
                Err(_) => (r matches Some(x) && fl_defilter_outcome(*self, zlib_decompressed(bytes@), x)),
            },
    {
        match zlib_decompress(bytes) {
            Ok(inflated) => {
                if self.predictor.can_defilter(inflated.as_slice()) {
                    Some(self.defilter(bytes))
                } else {
                    None
                }
            },
            Err(_) => Some(self.defilter(bytes)),
        }
    }

    /// Decompresses, then reverses the predictor.
    pub fn defilter(&self, bytes: &[u8]) -> (r: Result<Vec<u8>, FilterErr>)
        requires
            forall|out: Seq<u8>| zlib_decompressed(bytes@) == Ok::<Seq<u8>, Seq<char>>(out)
                ==> predictor_defilter_allowed(self.predictor, out),
        ensures
            fl_defilter_outcome(*self, zlib_decompressed(bytes@), r),
    {
        match zlib_decompress(bytes) {
            Ok(inflated) => self.predictor.defilter(inflated.as_slice()),
            Err(msg) => Err(FilterErr::new("Fl", FilterErrorCode::Fl(FlErrorCode::Defilter(msg)))),
        }
    }
}

/// Decoding what the Flate filter encoded gives the data back, where the
/// predictor undoes itself: zlib reads back the stream that it wrote, and the
/// predictor reverses its encoding.
pub proof fn lemma_fl_roundtrip(fl: Fl, bytes: Seq<u8>, filtered: Seq<u8>)
    requires
        predictor_roundtrips(fl.predictor),
        match spec_predictor(fl.predictor, true, bytes) {
            Ok(predicted) => zlib_compression(predicted) == Ok::<Seq<u8>, Seq<char>>(filtered) && zlib_decompressed(
                filtered,
            ) == Ok::<Seq<u8>, Seq<char>>(predicted),
            Err(_) => false,
        },
    ensures
        forall|r: Result<Vec<u8>, FilterErr>| #[trigger]
            fl_defilter_outcome(fl, zlib_decompressed(filtered), r) ==> (r matches Ok(v) && v@ == bytes),
{
    lemma_predictor_roundtrip(fl.predictor, bytes);
}

} // verus!
