pub mod png;
pub mod tiff;
pub mod tiff_bits;
pub mod tiff_roundtrip;

use self::png::png_defilter_supported;
use self::png::lemma_png_roundtrip;
use self::png::png_err_is;
use self::png::spec_png_defilter;
use self::png::spec_png_filter;
use self::png::Png;
use self::png::PngAlgorithm;
use self::tiff::spec_tiff_defilter;
use self::tiff::spec_tiff_filter;
use self::tiff::Tiff;
use self::tiff_roundtrip::lemma_tiff_roundtrip;
use super::error::FilterErr;
use super::error::FilterErrorCode;
use super::error::filter_outcome;
use crate::object::direct::dictionary::Dictionary;
use crate::object::direct::numeric::Numeric;
use crate::object::direct::DirectValue;
use vstd::prelude::*;

verus! {

pub const KEY_PREDICTOR: [u8; 9] = [80, 114, 101, 100, 105, 99, 116, 111, 114];
pub const KEY_BITS_PER_COMPONENT: [u8; 16] = [66, 105, 116, 115, 80, 101, 114, 67, 111, 109, 112, 111, 110, 101, 110, 116];
pub const KEY_COLORS: [u8; 6] = [67, 111, 108, 111, 114, 115];
pub const KEY_COLUMNS: [u8; 7] = [67, 111, 108, 117, 109, 110, 115];

/// The integer that a parameter's value is, if it is one.
pub open spec fn integer_parameter(value: DirectValue) -> Option<i128> {
    match value {
        DirectValue::Numeric(Numeric::Integer(i)) => Some(i.value),
        _ => None,
    }
}

/// The integer that a parameter's value is, if it is one.
pub fn get_integer_parameter(value: &DirectValue) -> (r: Option<i128>)
    ensures
        r == integer_parameter(*value),
{
    match value {
        DirectValue::Numeric(Numeric::Integer(i)) => Some(i.value),
        _ => None,
    }
}

/// The error of a parameter `object` whose value is not an integer.
pub open spec fn not_an_integer(object: &'static str, value: DirectValue) -> FilterErr {
    FilterErr { object, code: FilterErrorCode::ValueType("Integer", value.spec_span()) }
}

/// The error of a parameter `object` whose value `v` is not supported.
pub open spec fn unsupported_parameter(object: &'static str, v: i128) -> FilterErr {
    FilterErr { object, code: FilterErrorCode::UnsupportedParameter(v) }
}

/// REFERENCE: [Table 8 — Optional parameters for LZWDecode and FlateDecode
/// filters, p40]
#[derive(Debug, PartialEq, Eq, Structural, Clone, Copy)]
pub enum BitsPerComponent {
    One,
    Two,
    Four,
    Eight,
}

impl BitsPerComponent {
    pub open spec fn spec_value(self) -> usize {
        match self {
            BitsPerComponent::One => 1,
            BitsPerComponent::Two => 2,
            BitsPerComponent::Four => 4,
            BitsPerComponent::Eight => 8,
        }
    }

    pub open spec fn spec_try_from(value: DirectValue) -> Result<BitsPerComponent, FilterErr> {
        match integer_parameter(value) {
            Some(1) => Ok(BitsPerComponent::One),
            Some(2) => Ok(BitsPerComponent::Two),
            Some(4) => Ok(BitsPerComponent::Four),
            Some(8) => Ok(BitsPerComponent::Eight),
            Some(v) => Err(unsupported_parameter("BitsPerComponent", v)),
            None => Err(not_an_integer("BitsPerComponent", value)),
        }
    }

    /// The number of bits per component that `value` gives.
    pub fn try_from(value: &DirectValue) -> (r: Result<Self, FilterErr>)
        ensures
            r == Self::spec_try_from(*value),
    {
        match get_integer_parameter(value) {
            Some(1) => Ok(BitsPerComponent::One),
            Some(2) => Ok(BitsPerComponent::Two),
            Some(4) => Ok(BitsPerComponent::Four),
            Some(8) => Ok(BitsPerComponent::Eight),
            Some(v) => Err(FilterErr::new("BitsPerComponent", FilterErrorCode::UnsupportedParameter(v))),
            None => Err(FilterErr::new("BitsPerComponent", FilterErrorCode::ValueType("Integer", value.span()))),
        }
    }

    /// The number of bits per component.
    pub fn value(&self) -> (v: usize)
        ensures
            v == self.spec_value(),
    {
        match self {
            BitsPerComponent::One => 1,
            BitsPerComponent::Two => 2,
            BitsPerComponent::Four => 4,
            BitsPerComponent::Eight => 8,
        }
    }
}

/// REFERENCE: [Table 8 — Optional parameters for LZWDecode and FlateDecode
/// filters, p40]
#[derive(Debug, PartialEq, Eq, Structural, Clone, Copy)]
pub enum Colors {
    One,
    Two,
    Three,
    Four,
}

impl Colors {
    pub open spec fn spec_value(self) -> usize {
        match self {
            Colors::One => 1,
            Colors::Two => 2,
            Colors::Three => 3,
            Colors::Four => 4,
        }
    }

    pub open spec fn spec_try_from(value: DirectValue) -> Result<Colors, FilterErr> {
        match integer_parameter(value) {
            Some(1) => Ok(Colors::One),
            Some(2) => Ok(Colors::Two),
            Some(3) => Ok(Colors::Three),
            Some(4) => Ok(Colors::Four),
            Some(v) => Err(unsupported_parameter("Colors", v)),
            None => Err(not_an_integer("Colors", value)),
        }
    }

    /// The number of colour components that `value` gives.
    pub fn try_from(value: &DirectValue) -> (r: Result<Self, FilterErr>)
        ensures
            r == Self::spec_try_from(*value),
    {
        match get_integer_parameter(value) {
            Some(1) => Ok(Colors::One),
            Some(2) => Ok(Colors::Two),
            Some(3) => Ok(Colors::Three),
            Some(4) => Ok(Colors::Four),
            Some(v) => Err(FilterErr::new("Colors", FilterErrorCode::UnsupportedParameter(v))),
            None => Err(FilterErr::new("Colors", FilterErrorCode::ValueType("Integer", value.span()))),
        }
    }

    /// The number of colour components per sample.
    pub fn value(&self) -> (v: usize)
        ensures
            v == self.spec_value(),
    {
        match self {
            Colors::One => 1,
            Colors::Two => 2,
            Colors::Three => 3,
            Colors::Four => 4,
        }
    }
}

/// REFERENCE: [Table 8 — Optional parameters for LZWDecode and FlateDecode
/// filters, p40]: the number of samples in each row.
#[derive(Debug, PartialEq, Eq, Structural, Clone, Copy)]
pub struct Columns(pub usize);

impl Columns {
    pub fn new(value: usize) -> (columns: Self)
        ensures
            columns.0 == value,
    {
        Self(value)
    }

    pub open spec fn spec_try_from(value: DirectValue) -> Result<Columns, FilterErr> {
        match integer_parameter(value) {
            Some(v) => if 0 <= v <= usize::MAX {
                Ok(Columns(v as usize))
            } else {
                Err(unsupported_parameter("Columns", v))
            },
            None => Err(not_an_integer("Columns", value)),
        }
    }

    /// The number of columns that `value` gives.
    pub fn try_from(value: &DirectValue) -> (r: Result<Self, FilterErr>)
        ensures
            r == Self::spec_try_from(*value),
    {
        match get_integer_parameter(value) {
            Some(v) => if 0 <= v && v <= usize::MAX as i128 {
                Ok(Columns(v as usize))
            } else {
                Err(FilterErr::new("Columns", FilterErrorCode::UnsupportedParameter(v)))
            },
            None => Err(FilterErr::new("Columns", FilterErrorCode::ValueType("Integer", value.span()))),
        }
    }
}

#[derive(Debug, PartialEq, Eq, Structural, Clone, Copy)]
pub struct PredictorParms {
    pub bits_per_component: BitsPerComponent,
    pub colors: Colors,
    pub columns: Columns,
}

impl PredictorParms {
    /// The default parameters: 8 bits per component, 1 colour, 1 column.
    pub fn default_parms() -> (parms: Self)
        ensures
            parms.bits_per_component == BitsPerComponent::Eight,
            parms.colors == Colors::One,
            parms.columns.0 == 1,
    {
        Self {
            bits_per_component: BitsPerComponent::Eight,
            colors: Colors::One,
            columns: Columns(1),
        }
    }

    /// The number of bits in a row of samples.
    pub open spec fn bits_per_row(self) -> int {
        self.columns.0 * self.colors.spec_value() * self.bits_per_component.spec_value()
    }

    /// The number of bytes in a row, the bits rounded up to whole bytes.
    pub open spec fn bytes_per_row(self) -> int {
        (self.bits_per_row() + 7) / 8
    }

    /// The number of bytes in a pixel, rounded up to a whole byte.
    pub open spec fn bytes_per_pixel(self) -> int {
        (self.colors.spec_value() * self.bits_per_component.spec_value() + 7) / 8
    }
}

/// The predictor applied to the data before an LZW or Flate filter encodes it.
#[derive(Debug, PartialEq, Eq, Structural, Clone, Copy)]
pub enum Predictor {
    /// No prediction: the data is left unchanged.
    NoPredictor,
    Tiff(Tiff),
    Png(Png),
}

/// The predictor `p` can encode `bytes` without a panic.
pub open spec fn predictor_filter_allowed(p: Predictor, bytes: Seq<u8>) -> bool {
    match p {
        Predictor::NoPredictor => true,
        Predictor::Tiff(t) => bytes.len() * 8 <= usize::MAX && (t.parms.columns.0 > 0 || bytes.len() == 0),
        Predictor::Png(png) => png.algorithm != PngAlgorithm::Optimum && 0 < png.parms.bits_per_row() <= usize::MAX,
    }
}

/// The predictor `p` can decode `bytes` without a panic.
pub open spec fn predictor_defilter_allowed(p: Predictor, bytes: Seq<u8>) -> bool {
    match p {
        Predictor::NoPredictor => true,
        Predictor::Tiff(t) => bytes.len() * 8 <= usize::MAX && (t.parms.columns.0 > 0 || bytes.len() == 0),
        Predictor::Png(png) => png.parms.bits_per_row() <= usize::MAX && png_defilter_supported(png, bytes),
    }
}

/// What the predictor `p` gives for `bytes`, encoding (`encode`) or decoding.
pub open spec fn spec_predictor(p: Predictor, encode: bool, bytes: Seq<u8>) -> Result<Seq<u8>, FilterErrorCode> {
    match p {
        Predictor::NoPredictor => Ok(bytes),
        Predictor::Tiff(t) => match (if encode { spec_tiff_filter(t, bytes) } else { spec_tiff_defilter(t, bytes) }) {
            Ok(out) => Ok(out),
            Err(e) => Err(FilterErrorCode::Tiff(e)),
        },
        Predictor::Png(png) => match (if encode { spec_png_filter(png, bytes) } else { spec_png_defilter(png, bytes) }) {
            Ok(out) => Ok(out),
            Err(e) => Err(FilterErrorCode::Png(e)),
        },
    }
}

/// The name that the errors of the predictor `p` carry.
pub open spec fn predictor_object(p: Predictor) -> Seq<char> {
    match p {
        Predictor::NoPredictor => "Predictor"@,
        Predictor::Tiff(_) => "Tiff"@,
        Predictor::Png(_) => "Png"@,
    }
}

/// Copies `bytes` into a new vector.
pub fn bytes_to_vec(bytes: &[u8]) -> (v: Vec<u8>)
    ensures
        v@ == bytes@,
{
    let mut v: Vec<u8> = Vec::new();
    super::extend_bytes(&mut v, bytes);
    v
}

/// A parameter of `parms` read by `read`, or `default` when it is absent.
pub open spec fn parameter<T>(parms: Dictionary, key: Seq<u8>, read: spec_fn(DirectValue) -> Result<T, FilterErr>, default: T) -> Result<T, FilterErr> {
    match parms.spec_get(key) {
        Some(v) => read(v),
        None => Ok(default),
    }
}

/// The algorithm of the PNG predictor numbered `v`.
pub open spec fn png_algorithm(v: i128) -> Option<PngAlgorithm> {
    if v == 10 {
        Some(PngAlgorithm::NoFilter)
    } else if v == 11 {
        Some(PngAlgorithm::Sub)
    } else if v == 12 {
        Some(PngAlgorithm::Up)
    } else if v == 13 {
        Some(PngAlgorithm::Average)
    } else if v == 14 {
        Some(PngAlgorithm::Paeth)
    } else if v == 15 {
        Some(PngAlgorithm::Optimum)
    } else {
        None
    }
}

/// REFERENCE: [Table 8 — Optional parameters for LZWDecode and FlateDecode
/// filters, p40]: the predictor that the decode parameters `parms` name,
/// with its parameters.
pub open spec fn spec_predictor_new(parms: Dictionary) -> Result<Predictor, FilterErr> {
    match parameter(parms, KEY_BITS_PER_COMPONENT@, |v: DirectValue| BitsPerComponent::spec_try_from(v), BitsPerComponent::Eight) {
        Err(e) => Err(e),
        Ok(bits_per_component) => match parameter(parms, KEY_COLORS@, |v: DirectValue| Colors::spec_try_from(v), Colors::One) {
            Err(e) => Err(e),
            Ok(colors) => match parameter(parms, KEY_COLUMNS@, |v: DirectValue| Columns::spec_try_from(v), Columns(1)) {
                Err(e) => Err(e),
                Ok(columns) => {
                    let p = PredictorParms { bits_per_component, colors, columns };
                    match parms.spec_get(KEY_PREDICTOR@) {
                        None => Ok(Predictor::NoPredictor),
                        Some(value) => match integer_parameter(value) {
                            None => Err(not_an_integer("Predictor", value)),
                            Some(v) => if v == 1 {
                                Ok(Predictor::NoPredictor)
                            } else if v == 2 {
                                Ok(Predictor::Tiff(Tiff { parms: p }))
                            } else {
                                match png_algorithm(v) {
                                    Some(algorithm) => Ok(Predictor::Png(Png { algorithm, parms: p })),
                                    None => Err(unsupported_parameter("Predictor", v)),
                                }
                            },
                        },
                    }
                },
            },
        },
    }
}

impl Predictor {
    /// The predictor that the decode parameters `parms` name.
    pub fn new(parms: &Dictionary) -> (r: Result<Self, FilterErr>)
        ensures
            r == spec_predictor_new(*parms),
    {
        let bits_per_component = match parms.opt_get(&KEY_BITS_PER_COMPONENT) {
            Some(v) => BitsPerComponent::try_from(v)?,
            None => BitsPerComponent::Eight,
        };
        let colors = match parms.opt_get(&KEY_COLORS) {
            Some(v) => Colors::try_from(v)?,
            None => Colors::One,
        };
        let columns = match parms.opt_get(&KEY_COLUMNS) {
            Some(v) => Columns::try_from(v)?,
            None => Columns(1),
        };
        let p = PredictorParms { bits_per_component, colors, columns };
        match parms.opt_get(&KEY_PREDICTOR) {
            None => Ok(Predictor::NoPredictor),
            Some(value) => match get_integer_parameter(value) {
                None => Err(FilterErr::new("Predictor", FilterErrorCode::ValueType("Integer", value.span()))),
                Some(v) => if v == 1 {
                    Ok(Predictor::NoPredictor)
                } else if v == 2 {
                    Ok(Predictor::Tiff(Tiff::new(p)))
                } else if v == 10 {
                    Ok(Predictor::Png(Png::new(PngAlgorithm::NoFilter, p)))
                } else if v == 11 {
                    Ok(Predictor::Png(Png::new(PngAlgorithm::Sub, p)))
                } else if v == 12 {
                    Ok(Predictor::Png(Png::new(PngAlgorithm::Up, p)))
                } else if v == 13 {
                    Ok(Predictor::Png(Png::new(PngAlgorithm::Average, p)))
                } else if v == 14 {
                    Ok(Predictor::Png(Png::new(PngAlgorithm::Paeth, p)))
                } else if v == 15 {
                    Ok(Predictor::Png(Png::new(PngAlgorithm::Optimum, p)))
                } else {
                    Err(FilterErr::new("Predictor", FilterErrorCode::UnsupportedParameter(v)))
                },
            },
        }
    }

    /// Applies the predictor to `bytes` before they are encoded.
    pub fn filter(&self, bytes: &[u8]) -> (r: Result<Vec<u8>, FilterErr>)
        requires
            predictor_filter_allowed(*self, bytes@),
        ensures
            filter_outcome(spec_predictor(*self, true, bytes@), predictor_object(*self), r),
    {
        match self {
            Predictor::NoPredictor => Ok(bytes_to_vec(bytes)),
            Predictor::Tiff(t) => t.filter(bytes),
            Predictor::Png(png) => png.filter(bytes),
        }
    }

    /// Whether the predictor can decode `bytes` without a panic.
    pub fn can_defilter(&self, bytes: &[u8]) -> (b: bool)
        ensures
            b == predictor_defilter_allowed(*self, bytes@),
    {
        match self {
            Predictor::NoPredictor => true,
            Predictor::Tiff(t) => bytes.len() <= usize::MAX / 8 && (t.parms.columns.0 > 0 || bytes.len() == 0),
            Predictor::Png(png) => png.can_defilter(bytes),
        }
    }

    /// Reverses the predictor on decoded `bytes`.
    pub fn defilter(&self, bytes: &[u8]) -> (r: Result<Vec<u8>, FilterErr>)
        requires
            predictor_defilter_allowed(*self, bytes@),
        ensures
            filter_outcome(spec_predictor(*self, false, bytes@), predictor_object(*self), r),
    {
        match self {
            Predictor::NoPredictor => Ok(bytes_to_vec(bytes)),
            Predictor::Tiff(t) => t.defilter(bytes),
            Predictor::Png(png) => png.defilter(bytes),
        }
    }
}

/// The predictors of which decoding undoes encoding: none, the TIFF
/// predictor on rows of at least one column, and the PNG predictors but
/// `Optimum`, which has no encoder.
pub open spec fn predictor_roundtrips(p: Predictor) -> bool {
    match p {
        Predictor::NoPredictor => true,
        Predictor::Tiff(t) => t.parms.columns.0 >= 1,
        Predictor::Png(png) => png.algorithm != PngAlgorithm::Optimum
            && png.parms.bits_per_row() > 0,
    }
}

/// Decoding what the predictor encoded gives the data back.
pub proof fn lemma_predictor_roundtrip(p: Predictor, bytes: Seq<u8>)
    requires
        predictor_roundtrips(p),
    ensures
        spec_predictor(p, true, bytes) matches Ok(encoded) ==> spec_predictor(p, false, encoded) == Ok::<
            Seq<u8>,
            FilterErrorCode,
        >(bytes),
{
    match p {
        Predictor::Png(png) => lemma_png_roundtrip(png, bytes),
        Predictor::Tiff(t) => lemma_tiff_roundtrip(t, bytes),
        Predictor::NoPredictor => {},
    }
}

} // verus!
