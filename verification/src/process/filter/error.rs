use super::ascii_85::A85ErrorCode;
use super::ascii_hex::AHxErrorCode;
use super::flate::FlErrorCode;
use super::lzw::LzwErrorCode;
use super::predictor::png::PngError;
use super::predictor::tiff::TiffError;
use crate::parse::Span;
use vstd::prelude::*;

verus! {

/// An error of a filter: the filter or parameter concerned, and why.
#[derive(Debug, PartialEq, Clone)]
pub struct FilterErr {
    pub object: &'static str,
    pub code: FilterErrorCode,
}

#[derive(Debug, PartialEq, Clone)]
pub enum FilterErrorCode {
    /// The numbers of filters and of decode parameter dictionaries differ.
    Mismatch(usize, usize),
    /// An unsupported filter name, by its span.
    Unsupported(Span),
    UnsupportedParameter(i128),
    /// A value of the wrong type: the expected type, and the value's span.
    ValueType(&'static str, Span),
    MissingRequiredParameter(&'static str),
    Tiff(TiffError),
    Png(PngError),
    A85(A85ErrorCode),
    AHx(AHxErrorCode),
    Lzw(LzwErrorCode),
    Fl(FlErrorCode),
}

/// `err` is the error of the filter or parameter `object` for the reason `code`.
pub open spec fn is_filter_err(err: FilterErr, object: Seq<char>, code: FilterErrorCode) -> bool {
    err.object@ == object && err.code == code
}

/// `r` is the outcome `expected` of a filter, its error ascribed to `object`.
pub open spec fn filter_outcome(
    expected: Result<Seq<u8>, FilterErrorCode>,
    object: Seq<char>,
    r: Result<Vec<u8>, FilterErr>,
) -> bool {
    match expected {
        Ok(out) => (r matches Ok(v) && v@ == out),
        Err(code) => (r matches Err(err) && err.object@ == object && err.code == code),
    }
}

impl FilterErr {
    pub fn new(object: &'static str, code: FilterErrorCode) -> (err: Self)
        ensures
            err.object == object,
            err.code == code,
    {
        Self { object, code }
    }
}

} // verus!
