use super::PredictorParms;
use crate::process::filter::error::FilterErr;
use crate::process::filter::error::FilterErrorCode;
use crate::process::filter::extend_bytes;
use crate::process::filter::zeros;
use vstd::slice::slice_subrange;
use vstd::slice::slice_to_vec;
use vstd::prelude::*;

verus! {

#[derive(Debug, PartialEq, Eq, Structural, Clone, Copy)]
pub enum PngError {
    Unsupported(u8),
    EncodedNumBytes(usize, usize),
    NumBytes(usize, usize),
    MismatchingAlgorithm(u8, u8),
}

/// REFERENCE: [Table 10 — Predictor values, p42] and
/// [[https://www.w3.org/TR/PNG-Filters.html]]
#[derive(Debug, PartialEq, Eq, Structural, Clone, Copy)]
pub enum PngAlgorithm {
    NoFilter,
    Sub,
    Up,
    Average,
    Paeth,
    Optimum,
}

impl PngAlgorithm {
    /// The filter type byte of the algorithm.
    pub open spec fn spec_byte(self) -> u8 {
        match self {
            PngAlgorithm::NoFilter => 0,
            PngAlgorithm::Sub => 1,
            PngAlgorithm::Up => 2,
            PngAlgorithm::Average => 3,
            PngAlgorithm::Paeth => 4,
            PngAlgorithm::Optimum => 5,
        }
    }

    pub fn byte(&self) -> (b: u8)
        ensures
            b == self.spec_byte(),
    {
        match self {
            PngAlgorithm::NoFilter => 0,
            PngAlgorithm::Sub => 1,
            PngAlgorithm::Up => 2,
            PngAlgorithm::Average => 3,
            PngAlgorithm::Paeth => 4,
            PngAlgorithm::Optimum => 5,
        }
    }

    pub open spec fn spec_try_from(value: u8) -> Result<PngAlgorithm, PngError> {
        if value == 0 {
            Ok(PngAlgorithm::NoFilter)
        } else if value == 1 {
            Ok(PngAlgorithm::Sub)
        } else if value == 2 {
            Ok(PngAlgorithm::Up)
        } else if value == 3 {
            Ok(PngAlgorithm::Average)
        } else if value == 4 {
            Ok(PngAlgorithm::Paeth)
        } else if value == 5 {
            Ok(PngAlgorithm::Optimum)
        } else {
            Err(PngError::Unsupported(value))
        }
    }

    /// The algorithm of a filter type byte.
    pub fn try_from(value: u8) -> (r: Result<PngAlgorithm, PngError>)
        ensures
            r == Self::spec_try_from(value),
    {
        match value {
            0 => Ok(PngAlgorithm::NoFilter),
            1 => Ok(PngAlgorithm::Sub),
            2 => Ok(PngAlgorithm::Up),
            3 => Ok(PngAlgorithm::Average),
            4 => Ok(PngAlgorithm::Paeth),
            5 => Ok(PngAlgorithm::Optimum),
            _ => Err(PngError::Unsupported(value)),
        }
    }
}

/// REFERENCE: [7.4.4.4 LZW and Flate predictor functions, p41]
/// The Portable Network Graphics predictors.
#[derive(Debug, PartialEq, Eq, Structural, Clone, Copy)]
pub struct Png {
    pub algorithm: PngAlgorithm,
    pub parms: PredictorParms,
}

/// The difference of two bytes modulo 256.
pub open spec fn byte_sub(a: u8, b: u8) -> u8 {
    ((a - b + 256) % 256) as u8
}

/// The sum of two bytes modulo 256.
pub open spec fn byte_add(a: u8, b: u8) -> u8 {
    ((a + b) % 256) as u8
}

/// REFERENCE: [[https://www.w3.org/TR/PNG-Filters.html] 6.6 Filter type 4:
/// Paeth]: of `left`, `up` and `up_left`, the one nearest to `left + up -
/// up_left`, ties going in that order.
pub open spec fn spec_paeth_predictor(left: u8, up: u8, up_left: u8) -> u8 {
    let p = left + up - up_left;
    let p_left = if p >= left { p - left } else { left - p };
    let p_up = if p >= up { p - up } else { up - p };
    let p_up_left = if p >= up_left { p - up_left } else { up_left - p };
    if p_left <= p_up && p_left <= p_up_left {
        left
    } else if p_up <= p_up_left {
        up
    } else {
        up_left
    }
}

/// The byte `bpp` bytes before `x` in `s`, or 0 before the start.
pub open spec fn before(s: Seq<u8>, x: int, bpp: int) -> u8 {
    if x >= bpp {
        s[x - bpp]
    } else {
        0
    }
}

/// The prediction of the byte at `x` of a row whose earlier bytes are in
/// `row` and whose prior row is `prior`.
pub open spec fn png_predict(algorithm: PngAlgorithm, row: Seq<u8>, prior: Seq<u8>, x: int, bpp: int) -> u8 {
    let left = before(row, x, bpp);
    let up = prior[x];
    let up_left = before(prior, x, bpp);
    match algorithm {
        PngAlgorithm::Sub => left,
        PngAlgorithm::Up => up,
        PngAlgorithm::Average => ((left + up) / 2) as u8,
        PngAlgorithm::Paeth => spec_paeth_predictor(left, up, up_left),
        _ => 0,
    }
}

/// The differences of a row from its predictions.
pub open spec fn png_diff_row(algorithm: PngAlgorithm, prior: Seq<u8>, row: Seq<u8>, bpp: int) -> Seq<u8> {
    Seq::new(row.len(), |x: int| byte_sub(row[x], png_predict(algorithm, row, prior, x, bpp)))
}

/// The first `n` bytes of the row that the differences `diff` stand for.
pub open spec fn png_rev_row(algorithm: PngAlgorithm, prior: Seq<u8>, diff: Seq<u8>, bpp: int, n: nat) -> Seq<u8>
    decreases n,
{
    if n == 0 {
        Seq::empty()
    } else {
        let done = png_rev_row(algorithm, prior, diff, bpp, (n - 1) as nat);
        done.push(byte_add(diff[n - 1], png_predict(algorithm, done, prior, n - 1, bpp)))
    }
}

/// Whether the algorithm keeps the row as the prior row of the next one.
pub open spec fn keeps_prior(algorithm: PngAlgorithm) -> bool {
    algorithm == PngAlgorithm::Up || algorithm == PngAlgorithm::Average || algorithm
        == PngAlgorithm::Paeth
}

/// The encoder after the first `k` rows: the last differences, the prior row
/// and the output. The `None` algorithm predicts 0, so that a row is written
/// as it stands.
pub open spec fn png_filter_rows(png: Png, bytes: Seq<u8>, bps: int, bpp: int, k: nat) -> (Seq<u8>, Seq<u8>, Seq<u8>)
    decreases k,
{
    if k == 0 {
        (Seq::new(bps as nat, |i: int| 0u8), Seq::new(bps as nat, |i: int| 0u8), Seq::empty())
    } else {
        let (diff, prior, out) = png_filter_rows(png, bytes, bps, bpp, (k - 1) as nat);
        let row = bytes.subrange((k - 1) * bps, k * bps);
        let algorithm = png.algorithm;
        let new_diff = png_diff_row(algorithm, prior, row, bpp);
        let new_prior = if keeps_prior(algorithm) {
            row
        } else {
            prior
        };
        (new_diff, new_prior, out + seq![algorithm.spec_byte()] + new_diff)
    }
}

/// REFERENCE: [7.4.4.4 LZW and Flate predictor functions, p41-42]: each row
/// is written as the filter type byte followed by its differences.
pub open spec fn spec_png_filter(png: Png, bytes: Seq<u8>) -> Result<Seq<u8>, PngError> {
    let bps = png.parms.bytes_per_row();
    let bpp = png.parms.bytes_per_pixel();
    if bytes.len() as int % bps != 0 {
        Err(PngError::NumBytes(bytes.len() as usize, bps as usize))
    } else {
        Ok(png_filter_rows(png, bytes, bps, bpp, (bytes.len() as int / bps) as nat).2)
    }
}

/// The decoder after the first `k` rows of `bytes`: the last row, the prior
/// row and the output, or the error of a row. The `None` algorithm predicts
/// 0, so that a row is read as it stands.
pub open spec fn png_defilter_rows(png: Png, bytes: Seq<u8>, enc: int, bpp: int, k: nat) -> Result<(Seq<u8>, Seq<u8>, Seq<u8>), PngError>
    decreases k,
{
    if k == 0 {
        Ok((Seq::new((enc - 1) as nat, |i: int| 0u8), Seq::new((enc - 1) as nat, |i: int| 0u8), Seq::empty()))
    } else {
        match png_defilter_rows(png, bytes, enc, bpp, (k - 1) as nat) {
            Err(e) => Err(e),
            Ok((scanline, prior, out)) => {
                let row = bytes.subrange((k - 1) * enc, k * enc);
                let filter_type = row[0];
                match PngAlgorithm::spec_try_from(filter_type) {
                    Err(e) => Err(e),
                    Ok(row_algorithm) => if png.algorithm != PngAlgorithm::Optimum && row_algorithm
                        != png.algorithm {
                        Err(PngError::MismatchingAlgorithm(png.algorithm.spec_byte(), filter_type))
                    } else {
                        let new_scanline = png_rev_row(row_algorithm, prior, row.skip(1), bpp, (enc - 1) as nat);
                        let new_prior = if keeps_prior(row_algorithm) {
                            new_scanline
                        } else {
                            prior
                        };
                        Ok((new_scanline, new_prior, out + new_scanline))
                    },
                }
            },
        }
    }
}

/// REFERENCE: [7.4.4.4 LZW and Flate predictor functions, p41-42]
pub open spec fn spec_png_defilter(png: Png, bytes: Seq<u8>) -> Result<Seq<u8>, PngError> {
    let enc = png.parms.bytes_per_row() + 1;
    let bpp = png.parms.bytes_per_pixel();
    if bytes.len() as int % enc != 0 {
        Err(PngError::EncodedNumBytes(bytes.len() as usize, enc as usize))
    } else {
        match png_defilter_rows(png, bytes, enc, bpp, (bytes.len() as int / enc) as nat) {
            Err(e) => Err(e),
            Ok((_, _, out)) => Ok(out),
        }
    }
}

/// The first row of `bytes`, among `k` rows, whose filter type is not one of
/// the five algorithms.
pub open spec fn first_unsupported_row(bytes: Seq<u8>, enc: int, k: nat) -> Option<int>
    decreases k,
{
    if k == 0 {
        None
    } else {
        match first_unsupported_row(bytes, enc, (k - 1) as nat) {
            Some(i) => Some(i),
            None => if bytes[(k - 1) * enc] > 4 {
                Some(k - 1)
            } else {
                None
            },
        }
    }
}

/// Decoding with the `Optimum` algorithm stops at a row of filter type 5,
/// for which no reverse function exists.
pub open spec fn png_defilter_supported(png: Png, bytes: Seq<u8>) -> bool {
    let enc = png.parms.bytes_per_row() + 1;
    png.algorithm == PngAlgorithm::Optimum && bytes.len() as int % enc == 0 ==> match first_unsupported_row(
        bytes,
        enc,
        (bytes.len() as int / enc) as nat,
    ) {
        Some(k) => bytes[k * enc] != 5,
        None => true,
    }
}

pub open spec fn png_err_is(err: FilterErr, e: PngError) -> bool {
    err.object@ == "Png"@ && err.code == FilterErrorCode::Png(e)
}

fn png_error(e: PngError) -> (err: FilterErr)
    ensures
        png_err_is(err, e),
{
    FilterErr::new("Png", FilterErrorCode::Png(e))
}

pub fn wrapping_sub(a: u8, b: u8) -> (r: u8)
    ensures
        r == byte_sub(a, b),
{
    if a >= b {
        a - b
    } else {
        ((a as u16 + 256 - b as u16) % 256) as u8
    }
}

pub fn wrapping_add(a: u8, b: u8) -> (r: u8)
    ensures
        r == byte_add(a, b),
{
    ((a as u16 + b as u16) % 256) as u8
}

/// REFERENCE: [[https://www.w3.org/TR/PNG-Filters.html] 6.6 Filter type 4:
/// Paeth]
pub fn paeth_predictor(left: u8, up: u8, up_left: u8) -> (r: u8)
    ensures
        r == spec_paeth_predictor(left, up, up_left),
{
    let p: i16 = left as i16 + up as i16 - up_left as i16;
    let p_left: i16 = if p >= left as i16 { p - left as i16 } else { left as i16 - p };
    let p_up: i16 = if p >= up as i16 { p - up as i16 } else { up as i16 - p };
    let p_up_left: i16 = if p >= up_left as i16 { p - up_left as i16 } else { up_left as i16 - p };
    if p_left <= p_up && p_left <= p_up_left {
        left
    } else if p_up <= p_up_left {
        up
    } else {
        up_left
    }
}

fn predict(algorithm: PngAlgorithm, row: &Vec<u8>, prior: &Vec<u8>, x: usize, bpp: usize) -> (p: u8)
    requires
        x < prior@.len(),
        x < row@.len() || x >= bpp,
        x >= bpp ==> x - bpp < row@.len(),
    ensures
        p == png_predict(algorithm, row@, prior@, x as int, bpp as int),
{
    let left: u8 = if x >= bpp { row[x - bpp] } else { 0 };
    let up: u8 = prior[x];
    let up_left: u8 = if x >= bpp { prior[x - bpp] } else { 0 };
    match algorithm {
        PngAlgorithm::Sub => left,
        PngAlgorithm::Up => up,
        PngAlgorithm::Average => ((left as u16 + up as u16) / 2) as u8,
        PngAlgorithm::Paeth => paeth_predictor(left, up, up_left),
        _ => 0,
    }
}

/// Writes the differences of `scanline` from its predictions after the
/// filter type byte of `diff`.
fn diff_predicted(algorithm: PngAlgorithm, diff: &mut Vec<u8>, prior: &Vec<u8>, scanline: &Vec<u8>, bpp: usize)
    requires
        old(diff)@.len() == scanline@.len() + 1,
        prior@.len() == scanline@.len(),
    ensures
        final(diff)@ == seq![old(diff)@[0]] + png_diff_row(algorithm, prior@, scanline@, bpp as int),
{
    let ghost first = diff@[0];
    let mut x: usize = 0;
    while x < scanline.len()
        invariant
            x <= scanline@.len(),
            diff@.len() == scanline@.len() + 1,
            prior@.len() == scanline@.len(),
            diff@[0] == first,
            forall|j: int| 0 <= j < x ==> #[trigger] diff@[j + 1] == png_diff_row(algorithm, prior@, scanline@, bpp as int)[j],
        decreases scanline@.len() - x,
    {
        let p = predict(algorithm, scanline, prior, x, bpp);
        let value = wrapping_sub(scanline[x], p);
        diff.set(x + 1, value);
        x = x + 1;
    }
    let ghost d = png_diff_row(algorithm, prior@, scanline@, bpp as int);
    assert forall|i: int| 0 <= i < diff@.len() implies diff@[i] == (seq![first] + d)[i] by {
        if i > 0 {
            assert(diff@[(i - 1) + 1] == d[i - 1]);
        }
    }
    assert(diff@ =~= seq![first] + d);
}

/// Rebuilds `scanline` from the differences after the filter type byte of
/// `diff`.
fn rev_predicted(algorithm: PngAlgorithm, scanline: &mut Vec<u8>, prior: &Vec<u8>, diff: &[u8], bpp: usize)
    requires
        bpp > 0,
        diff@.len() == old(scanline)@.len() + 1,
        prior@.len() == old(scanline)@.len(),
    ensures
        final(scanline)@ == png_rev_row(algorithm, prior@, diff@.skip(1), bpp as int, old(scanline)@.len()),
        final(scanline)@.len() == old(scanline)@.len(),
{
    let ghost n = scanline@.len();
    let mut x: usize = 0;
    assert(png_rev_row(algorithm, prior@, diff@.skip(1), bpp as int, 0) =~= scanline@.take(0));
    while x < scanline.len()
        invariant
            x <= scanline@.len(),
            scanline@.len() == n,
            diff@.len() == n + 1,
            prior@.len() == n,
            scanline@.take(x as int) == png_rev_row(algorithm, prior@, diff@.skip(1), bpp as int, x as nat),
            bpp > 0,
        decreases n - x,
    {
        let ghost done = scanline@.take(x as int);
        let p = predict(algorithm, scanline, prior, x, bpp);
        assert(before(scanline@, x as int, bpp as int) == before(done, x as int, bpp as int));
        assert(p == png_predict(algorithm, done, prior@, x as int, bpp as int));
        let value = wrapping_add(diff[x + 1], p);
        scanline.set(x, value);
        assert(scanline@.take(x + 1) =~= done.push(value));
        x = x + 1;
    }
    assert(scanline@.take(n as int) =~= scanline@);
}

/// REFERENCE: [[https://www.w3.org/TR/PNG-Filters.html] 6.2 Filter type 0: None]
pub fn diff_none(diff: &mut Vec<u8>, prior: &mut Vec<u8>, scanline: &Vec<u8>, bpp: usize)
    requires
        old(diff)@.len() == scanline@.len() + 1,
        old(prior)@.len() == scanline@.len(),
    ensures
        final(diff)@ == seq![old(diff)@[0]] + png_diff_row(PngAlgorithm::NoFilter, old(prior)@, scanline@, bpp as int),
        final(diff)@ == seq![old(diff)@[0]] + scanline@,
        final(prior)@ == old(prior)@,
{
    diff_predicted(PngAlgorithm::NoFilter, diff, prior, scanline, bpp);
    assert(png_diff_row(PngAlgorithm::NoFilter, prior@, scanline@, bpp as int) =~= scanline@);
}

/// REFERENCE: [[https://www.w3.org/TR/PNG-Filters.html] 6.2 Filter type 0: None]
pub fn rev_none(scanline: &mut Vec<u8>, prior: &mut Vec<u8>, diff: &[u8], bpp: usize)
    requires
        diff@.len() == old(scanline)@.len() + 1,
    ensures
        final(scanline)@ == png_rev_row(PngAlgorithm::NoFilter, old(prior)@, diff@.skip(1), bpp as int, old(scanline)@.len()),
        final(scanline)@ == diff@.skip(1),
        final(prior)@ == old(prior)@,
{
    let ghost n = scanline@.len();
    let ghost pr = prior@;
    let mut x: usize = 0;
    assert(png_rev_row(PngAlgorithm::NoFilter, pr, diff@.skip(1), bpp as int, 0) =~= scanline@.take(0));
    while x < scanline.len()
        invariant
            x <= scanline@.len(),
            scanline@.len() == n,
            diff@.len() == n + 1,
            scanline@.take(x as int) == png_rev_row(PngAlgorithm::NoFilter, pr, diff@.skip(1), bpp as int, x as nat),
            scanline@.take(x as int) == diff@.skip(1).take(x as int),
        decreases n - x,
    {
        let ghost done = scanline@.take(x as int);
        let value = diff[x + 1];
        assert(value == byte_add(diff@.skip(1)[x as int], png_predict(PngAlgorithm::NoFilter, done, pr, x as int, bpp as int)));
        scanline.set(x, value);
        assert(scanline@.take(x + 1) =~= done.push(value));
        assert(diff@.skip(1).take(x + 1) =~= diff@.skip(1).take(x as int).push(value));
        x = x + 1;
    }
    assert(scanline@.take(n as int) =~= scanline@);
    assert(diff@.skip(1).take(n as int) =~= diff@.skip(1));
}

/// REFERENCE: [[https://www.w3.org/TR/PNG-Filters.html] 6.3 Filter type 1: Sub]
pub fn diff_sub(diff: &mut Vec<u8>, prior: &mut Vec<u8>, scanline: &Vec<u8>, bpp: usize)
    requires
        old(diff)@.len() == scanline@.len() + 1,
        old(prior)@.len() == scanline@.len(),
    ensures
        final(diff)@ == seq![old(diff)@[0]] + png_diff_row(PngAlgorithm::Sub, old(prior)@, scanline@, bpp as int),
        final(prior)@ == old(prior)@,
{
    diff_predicted(PngAlgorithm::Sub, diff, prior, scanline, bpp);
}

/// REFERENCE: [[https://www.w3.org/TR/PNG-Filters.html] 6.3 Filter type 1: Sub]
pub fn rev_sub(scanline: &mut Vec<u8>, prior: &mut Vec<u8>, diff: &[u8], bpp: usize)
    requires
        bpp > 0,
        diff@.len() == old(scanline)@.len() + 1,
    ensures
        final(scanline)@ == png_rev_row(PngAlgorithm::Sub, old(prior)@, diff@.skip(1), bpp as int, old(scanline)@.len()),
        final(prior)@ == old(prior)@,
{
    let ghost n = scanline@.len();
    let ghost pr = prior@;
    let mut x: usize = 0;
    assert(png_rev_row(PngAlgorithm::Sub, pr, diff@.skip(1), bpp as int, 0) =~= scanline@.take(0));
    while x < scanline.len()
        invariant
            x <= scanline@.len(),
            scanline@.len() == n,
            diff@.len() == n + 1,
            scanline@.take(x as int) == png_rev_row(PngAlgorithm::Sub, pr, diff@.skip(1), bpp as int, x as nat),
            bpp > 0,
        decreases n - x,
    {
        let ghost done = scanline@.take(x as int);
        let left: u8 = if x >= bpp { scanline[x - bpp] } else { 0 };
        assert(left == png_predict(PngAlgorithm::Sub, done, pr, x as int, bpp as int));
        let value = wrapping_add(diff[x + 1], left);
        scanline.set(x, value);
        assert(scanline@.take(x + 1) =~= done.push(value));
        x = x + 1;
    }
    assert(scanline@.take(n as int) =~= scanline@);
}

fn copy_into(dst: &mut Vec<u8>, src: &Vec<u8>)
    requires
        old(dst)@.len() == src@.len(),
    ensures
        final(dst)@ == src@,
{
    let mut i: usize = 0;
    while i < src.len()
        invariant
            i <= src@.len(),
            dst@.len() == src@.len(),
            forall|j: int| 0 <= j < i ==> dst@[j] == src@[j],
        decreases src@.len() - i,
    {
        dst.set(i, src[i]);
        i = i + 1;
    }
    assert(dst@ =~= src@);
}

/// REFERENCE: [[https://www.w3.org/TR/PNG-Filters.html] 6.4 Filter type 2: Up]
pub fn diff_up(diff: &mut Vec<u8>, prior: &mut Vec<u8>, scanline: &Vec<u8>, bpp: usize)
    requires
        old(diff)@.len() == scanline@.len() + 1,
        old(prior)@.len() == scanline@.len(),
    ensures
        final(diff)@ == seq![old(diff)@[0]] + png_diff_row(PngAlgorithm::Up, old(prior)@, scanline@, bpp as int),
        final(prior)@ == scanline@,
{
    diff_predicted(PngAlgorithm::Up, diff, prior, scanline, bpp);
    copy_into(prior, scanline);
}

/// REFERENCE: [[https://www.w3.org/TR/PNG-Filters.html] 6.4 Filter type 2: Up]
pub fn rev_up(scanline: &mut Vec<u8>, prior: &mut Vec<u8>, diff: &[u8], bpp: usize)
    requires
        bpp > 0,
        diff@.len() == old(scanline)@.len() + 1,
        old(prior)@.len() == old(scanline)@.len(),
    ensures
        final(scanline)@ == png_rev_row(PngAlgorithm::Up, old(prior)@, diff@.skip(1), bpp as int, old(scanline)@.len()),
        final(prior)@ == final(scanline)@,
{
    rev_predicted(PngAlgorithm::Up, scanline, prior, diff, bpp);
    copy_into(prior, scanline);
}

/// REFERENCE: [[https://www.w3.org/TR/PNG-Filters.html] 6.5 Filter type 3: Average]
pub fn diff_average(diff: &mut Vec<u8>, prior: &mut Vec<u8>, scanline: &Vec<u8>, bpp: usize)
    requires
        old(diff)@.len() == scanline@.len() + 1,
        old(prior)@.len() == scanline@.len(),
    ensures
        final(diff)@ == seq![old(diff)@[0]] + png_diff_row(PngAlgorithm::Average, old(prior)@, scanline@, bpp as int),
        final(prior)@ == scanline@,
{
    diff_predicted(PngAlgorithm::Average, diff, prior, scanline, bpp);
    copy_into(prior, scanline);
}

/// REFERENCE: [[https://www.w3.org/TR/PNG-Filters.html] 6.5 Filter type 3: Average]
pub fn rev_average(scanline: &mut Vec<u8>, prior: &mut Vec<u8>, diff: &[u8], bpp: usize)
    requires
        bpp > 0,
        diff@.len() == old(scanline)@.len() + 1,
        old(prior)@.len() == old(scanline)@.len(),
    ensures
        final(scanline)@ == png_rev_row(PngAlgorithm::Average, old(prior)@, diff@.skip(1), bpp as int, old(scanline)@.len()),
        final(prior)@ == final(scanline)@,
{
    rev_predicted(PngAlgorithm::Average, scanline, prior, diff, bpp);
    copy_into(prior, scanline);
}

/// REFERENCE: [[https://www.w3.org/TR/PNG-Filters.html] 6.6 Filter type 4: Paeth]
pub fn diff_paeth(diff: &mut Vec<u8>, prior: &mut Vec<u8>, scanline: &Vec<u8>, bpp: usize)
    requires
        old(diff)@.len() == scanline@.len() + 1,
        old(prior)@.len() == scanline@.len(),
    ensures
        final(diff)@ == seq![old(diff)@[0]] + png_diff_row(PngAlgorithm::Paeth, old(prior)@, scanline@, bpp as int),
        final(prior)@ == scanline@,
{
    diff_predicted(PngAlgorithm::Paeth, diff, prior, scanline, bpp);
    copy_into(prior, scanline);
}

/// REFERENCE: [[https://www.w3.org/TR/PNG-Filters.html] 6.6 Filter type 4: Paeth]
pub fn rev_paeth(scanline: &mut Vec<u8>, prior: &mut Vec<u8>, diff: &[u8], bpp: usize)
    requires
        bpp > 0,
        diff@.len() == old(scanline)@.len() + 1,
        old(prior)@.len() == old(scanline)@.len(),
    ensures
        final(scanline)@ == png_rev_row(PngAlgorithm::Paeth, old(prior)@, diff@.skip(1), bpp as int, old(scanline)@.len()),
        final(prior)@ == final(scanline)@,
{
    rev_predicted(PngAlgorithm::Paeth, scanline, prior, diff, bpp);
    copy_into(prior, scanline);
}

impl PngAlgorithm {
    /// Writes the differences of `scanline` after the filter type byte of
    /// `diff`, and keeps the row as the prior row where the algorithm uses one.
    pub fn diff_fn(&self, diff: &mut Vec<u8>, prior: &mut Vec<u8>, scanline: &Vec<u8>, bpp: usize)
        requires
            *self != PngAlgorithm::Optimum,
            old(diff)@.len() == scanline@.len() + 1,
            old(prior)@.len() == scanline@.len(),
        ensures
            final(diff)@ == seq![old(diff)@[0]] + png_diff_row(*self, old(prior)@, scanline@, bpp as int),
            final(prior)@ == (if keeps_prior(*self) {
                scanline@
            } else {
                old(prior)@
            }),
    {
        match self {
            PngAlgorithm::NoFilter => diff_none(diff, prior, scanline, bpp),
            PngAlgorithm::Sub => diff_sub(diff, prior, scanline, bpp),
            PngAlgorithm::Up => diff_up(diff, prior, scanline, bpp),
            PngAlgorithm::Average => diff_average(diff, prior, scanline, bpp),
            PngAlgorithm::Paeth => diff_paeth(diff, prior, scanline, bpp),
            PngAlgorithm::Optimum => {},
        }
    }

    /// Rebuilds `scanline` from the differences after the filter type byte of
    /// `diff`, and keeps the row as the prior row where the algorithm uses one.
    pub fn rev_fn(&self, scanline: &mut Vec<u8>, prior: &mut Vec<u8>, diff: &[u8], bpp: usize)
        requires
            *self != PngAlgorithm::Optimum,
            bpp > 0,
            diff@.len() == old(scanline)@.len() + 1,
            old(prior)@.len() == old(scanline)@.len(),
        ensures
            final(scanline)@ == png_rev_row(*self, old(prior)@, diff@.skip(1), bpp as int, old(scanline)@.len()),
            final(prior)@ == (if keeps_prior(*self) {
                final(scanline)@
            } else {
                old(prior)@
            }),
    {
        match self {
            PngAlgorithm::NoFilter => rev_none(scanline, prior, diff, bpp),
            PngAlgorithm::Sub => rev_sub(scanline, prior, diff, bpp),
            PngAlgorithm::Up => rev_up(scanline, prior, diff, bpp),
            PngAlgorithm::Average => rev_average(scanline, prior, diff, bpp),
            PngAlgorithm::Paeth => rev_paeth(scanline, prior, diff, bpp),
            PngAlgorithm::Optimum => {},
        }
    }
}

/// The number of bytes of `bits` bits, rounded up.
fn bytes_for_bits(bits: usize) -> (n: usize)
    ensures
        n == (bits + 7) / 8,
{
    if bits % 8 == 0 {
        bits / 8
    } else {
        bits / 8 + 1
    }
}

/// Whether decoding `bytes` with `png` stays clear of the rows that no
/// reverse function exists for, and of a row width beyond `usize`.
fn png_can_defilter(png: &Png, bytes: &[u8]) -> (b: bool)
    ensures
        b == (png.parms.bits_per_row() <= usize::MAX && png_defilter_supported(*png, bytes@)),
{
    let columns = png.parms.columns.0;
    let colors = png.parms.colors.value();
    let bpc = png.parms.bits_per_component.value();
    let bits = match columns.checked_mul(colors) {
        Some(x) => match x.checked_mul(bpc) {
            Some(y) => y,
            None => {
                assert(columns * colors * bpc > usize::MAX) by (nonlinear_arith)
                    requires
                        x == columns * colors,
                        x * bpc > usize::MAX,
                ;
                return false;
            },
        },
        None => {
            assert(columns * colors * bpc > usize::MAX) by (nonlinear_arith)
                requires
                    columns * colors > usize::MAX,
                    bpc >= 1,
            ;
            return false;
        },
    };
    assert(bits == png.parms.bits_per_row());
    if png.algorithm != PngAlgorithm::Optimum {
        return true;
    }
    let enc = bytes_for_bits(bits) + 1;
    if bytes.len() % enc != 0 {
        return true;
    }
    let rows = bytes.len() / enc;
    assert(rows * enc == bytes.len()) by (nonlinear_arith)
        requires
            bytes.len() % enc == 0,
            rows == bytes.len() / enc,
            enc > 0,
    ;
    let mut k: usize = 0;
    while k < rows
        invariant
            k <= rows,
            rows * enc == bytes.len(),
            enc == png.parms.bytes_per_row() + 1,
            rows as int == bytes@.len() as int / enc as int,
            bytes@.len() as int % enc as int == 0,
            png.algorithm == PngAlgorithm::Optimum,
            png.parms.bits_per_row() <= usize::MAX,
            first_unsupported_row(bytes@, enc as int, k as nat) is None,
        decreases rows - k,
    {
        assert((k + 1) * enc <= rows * enc) by (nonlinear_arith)
            requires
                k + 1 <= rows,
        ;
        assert(k * enc + enc == (k + 1) * enc) by (nonlinear_arith);
        let filter_type = bytes[k * enc];
        if filter_type > 4 {
            proof {
                assert(first_unsupported_row(bytes@, enc as int, (k + 1) as nat) == Some(k as int));
                lemma_first_unsupported_row_monotone(bytes@, enc as int, (k + 1) as nat, rows as nat);
                let e = png.parms.bytes_per_row() + 1;
                assert(e == enc);
                assert(bytes@.len() as int % e == 0);
                assert((bytes@.len() as int / e) as nat == rows as nat);
                assert(first_unsupported_row(bytes@, e, (bytes@.len() as int / e) as nat) == Some(k as int));
                assert(bytes@[k * e] == filter_type);
            }
            return filter_type != 5;
        }
        k = k + 1;
    }
    true
}

impl Png {
    /// Whether decoding `bytes` stays clear of the rows that no reverse
    /// function exists for, and of a row width beyond `usize`.
    pub fn can_defilter(&self, bytes: &[u8]) -> (b: bool)
        ensures
            b == (self.parms.bits_per_row() <= usize::MAX && png_defilter_supported(*self, bytes@)),
    {
        png_can_defilter(self, bytes)
    }

    pub fn new(algorithm: PngAlgorithm, parms: PredictorParms) -> (png: Self)
        ensures
            png.algorithm == algorithm,
            png.parms == parms,
    {
        Self { algorithm, parms }
    }

    /// REFERENCE: [[https://www.w3.org/TR/PNG-Filters.html]]: writes each row
    /// as its filter type byte and its differences from the predictions.
    pub fn filter(&self, bytes: &[u8]) -> (r: Result<Vec<u8>, FilterErr>)
        requires
            self.algorithm != PngAlgorithm::Optimum,
            0 < self.parms.bits_per_row() <= usize::MAX,
        ensures
            match spec_png_filter(*self, bytes@) {
                Ok(filtered) => (r matches Ok(v) && v@ == filtered),
                Err(e) => (r matches Err(err) && png_err_is(err, e)),
            },
    {
        let columns = self.parms.columns.0;
        let colors = self.parms.colors.value();
        let bpc = self.parms.bits_per_component.value();
        assert(columns * colors <= self.parms.bits_per_row()) by (nonlinear_arith)
            requires
                bpc >= 1,
                self.parms.bits_per_row() == columns * colors * bpc,
        ;
        let bps = bytes_for_bits(columns * colors * bpc);
        let bpp = bytes_for_bits(bpc * colors);
        assert(bpc * colors == colors * bpc) by (nonlinear_arith);
        if bytes.len() % bps != 0 {
            return Err(png_error(PngError::NumBytes(bytes.len(), bps)));
        }
        let rows = bytes.len() / bps;
        assert(rows * bps == bytes.len()) by (nonlinear_arith)
            requires
                bytes.len() % bps == 0,
                rows == bytes.len() / bps,
                bps > 0,
        ;
        let mut prior = zeros(bps);
        let mut diff = zeros(bps + 1);
        diff.set(0, self.algorithm.byte());
        let mut filtered: Vec<u8> = Vec::new();
        let mut k: usize = 0;
        assert(diff@ =~= seq![self.algorithm.spec_byte()] + Seq::new(bps as nat, |i: int| 0u8));
        while k < rows
            invariant
                k <= rows,
                rows * bps == bytes.len(),
                bps == self.parms.bytes_per_row(),
                bpp == self.parms.bytes_per_pixel(),
                bps > 0,
                self.algorithm != PngAlgorithm::Optimum,
                ({
                    let (d, p, out) = png_filter_rows(*self, bytes@, bps as int, bpp as int, k as nat);
                    &&& diff@ == seq![self.algorithm.spec_byte()] + d
                    &&& prior@ == p
                    &&& filtered@ == out
                    &&& d.len() == bps
                    &&& p.len() == bps
                }),
            decreases rows - k,
        {
            assert((k + 1) * bps <= rows * bps) by (nonlinear_arith)
                requires
                    k + 1 <= rows,
                    bps > 0,
            ;
            assert((k + 1) * bps == k * bps + bps) by (nonlinear_arith);
            let start = k * bps;
            let scanline = slice_to_vec(slice_subrange(bytes, start, start + bps));
            let ghost st = png_filter_rows(*self, bytes@, bps as int, bpp as int, k as nat);
            self.algorithm.diff_fn(&mut diff, &mut prior, &scanline, bpp);
            let ghost nd = png_diff_row(self.algorithm, st.1, scanline@, bpp as int);
            assert(diff@ == seq![self.algorithm.spec_byte()] + nd);
            let ghost before = filtered@;
            extend_bytes(&mut filtered, diff.as_slice());
            proof {
                let (d2, p2, out2) = png_filter_rows(*self, bytes@, bps as int, bpp as int, (k + 1) as nat);
                assert(out2 =~= before + diff@);
            }
            k = k + 1;
        }
        Ok(filtered)
    }

    /// REFERENCE: [[https://www.w3.org/TR/PNG-Filters.html]]: rebuilds each
    /// row from its filter type byte and its differences.
    pub fn defilter(&self, bytes: &[u8]) -> (r: Result<Vec<u8>, FilterErr>)
        requires
            self.parms.bits_per_row() <= usize::MAX,
            png_defilter_supported(*self, bytes@),
        ensures
            match spec_png_defilter(*self, bytes@) {
                Ok(defiltered) => (r matches Ok(v) && v@ == defiltered),
                Err(e) => (r matches Err(err) && png_err_is(err, e)),
            },
    {
        let columns = self.parms.columns.0;
        let colors = self.parms.colors.value();
        let bpc = self.parms.bits_per_component.value();
        let bps = bytes_for_bits(columns * colors * bpc);
        let bpp = bytes_for_bits(bpc * colors);
        assert(bpc * colors == colors * bpc) by (nonlinear_arith);
        let enc = bps + 1;
        if bytes.len() % enc != 0 {
            return Err(png_error(PngError::EncodedNumBytes(bytes.len(), enc)));
        }
        let rows = bytes.len() / enc;
        assert(rows * enc == bytes.len()) by (nonlinear_arith)
            requires
                bytes.len() % enc == 0,
                rows == bytes.len() / enc,
                enc > 0,
        ;
        let mut prior = zeros(bps);
        let mut scanline = zeros(bps);
        let mut defiltered: Vec<u8> = Vec::new();
        let mut k: usize = 0;
        while k < rows
            invariant
                k <= rows,
                rows * enc == bytes.len(),
                enc == bps + 1,
                bps == self.parms.bytes_per_row(),
                bpp == self.parms.bytes_per_pixel(),
                bpp > 0,
                png_defilter_supported(*self, bytes@),
                self.algorithm == PngAlgorithm::Optimum ==> first_unsupported_row(bytes@, enc as int, k as nat) is None,
                png_defilter_rows(*self, bytes@, enc as int, bpp as int, k as nat) == Ok::<(Seq<u8>, Seq<u8>, Seq<u8>), PngError>(
                    (scanline@, prior@, defiltered@),
                ),
                scanline@.len() == bps,
                prior@.len() == bps,
                rows as int == bytes@.len() as int / enc as int,
                bytes@.len() as int % enc as int == 0,
            decreases rows - k,
        {
            assert((k + 1) * enc <= rows * enc) by (nonlinear_arith)
                requires
                    k + 1 <= rows,
            ;
            assert((k + 1) * enc == k * enc + enc) by (nonlinear_arith);
            let start = k * enc;
            let diff = slice_subrange(bytes, start, start + enc);
            let filter_type = diff[0];
            assert(bytes@[k * enc] == filter_type);
            let ghost row = bytes@.subrange(k * enc, (k + 1) * enc);
            assert(diff@ == row);
            let algorithm = match PngAlgorithm::try_from(filter_type) {
                Ok(algorithm) => algorithm,
                Err(e) => {
                    assert(png_defilter_rows(*self, bytes@, enc as int, bpp as int, (k + 1) as nat) == Err::<(Seq<u8>, Seq<u8>, Seq<u8>), PngError>(e));
                    proof {
                        lemma_png_error_persists(*self, bytes@, enc as int, bpp as int, (k + 1) as nat, rows as nat);
                    }
                    return Err(png_error(e));
                },
            };
            if self.algorithm != PngAlgorithm::Optimum && algorithm != self.algorithm {
                assert(png_defilter_rows(*self, bytes@, enc as int, bpp as int, (k + 1) as nat) == Err::<(Seq<u8>, Seq<u8>, Seq<u8>), PngError>(PngError::MismatchingAlgorithm(self.algorithm.spec_byte(), filter_type)));
                proof {
                    lemma_png_error_persists(*self, bytes@, enc as int, bpp as int, (k + 1) as nat, rows as nat);
                }
                return Err(png_error(PngError::MismatchingAlgorithm(self.algorithm.byte(), filter_type)));
            }
            proof {
                if self.algorithm == PngAlgorithm::Optimum && filter_type == 5 {
                    assert(first_unsupported_row(bytes@, enc as int, (k + 1) as nat) == Some(k as int));
                    lemma_first_unsupported_row_monotone(bytes@, enc as int, (k + 1) as nat, rows as nat);
                    assert(false);
                }
            }
            let ghost old_prior = prior@;
            algorithm.rev_fn(&mut scanline, &mut prior, diff, bpp);
            proof {
                lemma_png_rev_row_len(algorithm, old_prior, diff@.skip(1), bpp as int, bps as nat);
            }
            let ghost before = defiltered@;
            extend_bytes(&mut defiltered, scanline.as_slice());
            assert(png_defilter_rows(*self, bytes@, enc as int, bpp as int, (k + 1) as nat) == Ok::<(Seq<u8>, Seq<u8>, Seq<u8>), PngError>(
                (scanline@, prior@, defiltered@),
            ));
            k = k + 1;
        }
        assert(rows == bytes@.len() as int / enc as int) by (nonlinear_arith)
            requires
                rows * enc == bytes@.len(),
                enc > 0,
        ;
        Ok(defiltered)
    }
}

proof fn lemma_png_rev_row_len(algorithm: PngAlgorithm, prior: Seq<u8>, diff: Seq<u8>, bpp: int, n: nat)
    ensures
        png_rev_row(algorithm, prior, diff, bpp, n).len() == n,
    decreases n,
{
    if n > 0 {
        lemma_png_rev_row_len(algorithm, prior, diff, bpp, (n - 1) as nat);
    }
}

proof fn lemma_png_error_persists(png: Png, bytes: Seq<u8>, enc: int, bpp: int, k: nat, n: nat)
    requires
        k <= n,
        png_defilter_rows(png, bytes, enc, bpp, k) is Err,
    ensures
        png_defilter_rows(png, bytes, enc, bpp, n) == png_defilter_rows(png, bytes, enc, bpp, k),
    decreases n - k,
{
    if k < n {
        lemma_png_error_persists(png, bytes, enc, bpp, k, (n - 1) as nat);
    }
}

proof fn lemma_first_unsupported_row_monotone(bytes: Seq<u8>, enc: int, k: nat, n: nat)
    requires
        k <= n,
        first_unsupported_row(bytes, enc, k) is Some,
    ensures
        first_unsupported_row(bytes, enc, n) == first_unsupported_row(bytes, enc, k),
    decreases n - k,
{
    if k < n {
        lemma_first_unsupported_row_monotone(bytes, enc, k, (n - 1) as nat);
    }
}


/// Adding back the prediction that was subtracted gives the byte.
proof fn lemma_byte_add_sub(a: u8, p: u8)
    ensures
        byte_add(byte_sub(a, p), p) == a,
{
}

/// Reversing the differences of the first `n` bytes of a row gives those
/// bytes back: each prediction reads only bytes before the one predicted.
proof fn lemma_png_rev_diff(algorithm: PngAlgorithm, prior: Seq<u8>, row: Seq<u8>, bpp: int, n: nat)
    requires
        bpp >= 1,
        n <= row.len(),
        row.len() <= prior.len(),
    ensures
        png_rev_row(algorithm, prior, png_diff_row(algorithm, prior, row, bpp), bpp, n) == row.take(n as int),
    decreases n,
{
    if n > 0 {
        lemma_png_rev_diff(algorithm, prior, row, bpp, (n - 1) as nat);
        let done = row.take(n - 1);
        let x = n - 1;
        assert(before(done, x, bpp) == before(row, x, bpp));
        assert(png_predict(algorithm, done, prior, x, bpp) == png_predict(algorithm, row, prior, x, bpp));
        lemma_byte_add_sub(row[x], png_predict(algorithm, row, prior, x, bpp));
        assert(done.push(row[x]) =~= row.take(n as int));
    }
}

/// The filter type byte of an algorithm reads back as that algorithm.
proof fn lemma_png_byte_roundtrip(algorithm: PngAlgorithm)
    ensures
        PngAlgorithm::spec_try_from(algorithm.spec_byte()) == Ok::<PngAlgorithm, PngError>(algorithm),
{
}

/// The encoder's state after `k` rows: differences and prior row of a row's
/// length, and `k` encoded rows.
proof fn lemma_png_filter_rows_len(png: Png, bytes: Seq<u8>, bps: int, bpp: int, k: nat)
    requires
        bps >= 0,
        k * bps <= bytes.len(),
    ensures
        ({
            let (diff, prior, out) = png_filter_rows(png, bytes, bps, bpp, k);
            diff.len() == bps && prior.len() == bps && out.len() == k * (bps + 1)
        }),
    decreases k,
{
    if k > 0 {
        assert((k - 1) * bps <= k * bps) by (nonlinear_arith)
            requires
                bps >= 0,
                k > 0,
        ;
        lemma_png_filter_rows_len(png, bytes, bps, bpp, (k - 1) as nat);
        assert(k * bps - (k - 1) * bps == bps && (k - 1) * bps >= 0) by (nonlinear_arith)
            requires
                bps >= 0,
                k > 0,
        ;
        assert((k - 1) * (bps + 1) + 1 + bps == k * (bps + 1)) by (nonlinear_arith);
    }
}

/// The encoding of the first `j` rows starts the encoding of the first `k`.
proof fn lemma_png_filter_rows_prefix(png: Png, bytes: Seq<u8>, bps: int, bpp: int, j: nat, k: nat)
    requires
        bps >= 0,
        j <= k,
        k * bps <= bytes.len(),
    ensures
        png_filter_rows(png, bytes, bps, bpp, k).2.take(j * (bps + 1)) == png_filter_rows(png, bytes, bps, bpp, j).2,
    decreases k - j,
{
    assert(j * bps <= k * bps) by (nonlinear_arith)
        requires
            bps >= 0,
            j <= k,
    ;
    lemma_png_filter_rows_len(png, bytes, bps, bpp, j);
    if j < k {
        assert((k - 1) * bps <= k * bps) by (nonlinear_arith)
            requires
                bps >= 0,
                k > 0,
        ;
        lemma_png_filter_rows_prefix(png, bytes, bps, bpp, j, (k - 1) as nat);
        lemma_png_filter_rows_len(png, bytes, bps, bpp, (k - 1) as nat);
        assert(j * (bps + 1) <= (k - 1) * (bps + 1)) by (nonlinear_arith)
            requires
                bps >= 0,
                j <= k - 1,
        ;
        let prev = png_filter_rows(png, bytes, bps, bpp, (k - 1) as nat).2;
        let cur = png_filter_rows(png, bytes, bps, bpp, k).2;
        assert(cur.take(j * (bps + 1)) =~= prev.take(j * (bps + 1)));
    } else {
        assert(png_filter_rows(png, bytes, bps, bpp, k).2.take(j * (bps + 1)) =~= png_filter_rows(
            png,
            bytes,
            bps,
            bpp,
            j,
        ).2);
    }
}

/// Decoding the first `k` rows of an encoding gives the first `k` rows of
/// the data, with the encoder's prior row.
#[verifier::spinoff_prover]
#[verifier::rlimit(40)]
proof fn lemma_png_defilter_filter_rows(png: Png, bytes: Seq<u8>, encoded: Seq<u8>, bps: int, bpp: int, k: nat, n: nat)
    requires
        png.algorithm != PngAlgorithm::Optimum,
        bps >= 1,
        bpp >= 1,
        k <= n,
        n * bps <= bytes.len(),
        encoded == png_filter_rows(png, bytes, bps, bpp, n).2,
    ensures
        png_defilter_rows(png, encoded, bps + 1, bpp, k) matches Ok((_, prior, out)) && prior
            == png_filter_rows(png, bytes, bps, bpp, k).1 && out == bytes.take(k * bps),
    decreases k,
{
    assert(k * bps <= n * bps) by (nonlinear_arith)
        requires
            bps >= 0,
            k <= n,
    ;
    if k == 0 {
        assert(bytes.take(0) =~= Seq::<u8>::empty());
    } else {
        lemma_png_defilter_filter_rows(png, bytes, encoded, bps, bpp, (k - 1) as nat, n);
        assert((k - 1) * bps + bps == k * bps) by (nonlinear_arith);
        lemma_png_filter_rows_len(png, bytes, bps, bpp, (k - 1) as nat);
        lemma_png_filter_rows_len(png, bytes, bps, bpp, k);
        lemma_png_filter_rows_prefix(png, bytes, bps, bpp, k, n);
        let (diff0, prior0, out0) = png_filter_rows(png, bytes, bps, bpp, (k - 1) as nat);
        let data_row = bytes.subrange((k - 1) * bps, k * bps);
        let new_diff = png_diff_row(png.algorithm, prior0, data_row, bpp);
        let cur = png_filter_rows(png, bytes, bps, bpp, k).2;
        assert(cur == out0 + seq![png.algorithm.spec_byte()] + new_diff);
        assert((k - 1) * (bps + 1) + (bps + 1) == k * (bps + 1)) by (nonlinear_arith);
        assert(k * bps - (k - 1) * bps == bps && (k - 1) * bps >= 0) by (nonlinear_arith)
            requires
                bps >= 0,
                k > 0,
        ;
        assert(new_diff.len() == bps);
        assert(encoded.take(k * (bps + 1)) == cur);
        lemma_png_filter_rows_len(png, bytes, bps, bpp, n);
        assert(k * (bps + 1) <= n * (bps + 1) && (k - 1) * (bps + 1) >= 0) by (nonlinear_arith)
            requires
                bps >= 0,
                1 <= k <= n,
        ;
        let row = encoded.subrange((k - 1) * (bps + 1), k * (bps + 1));
        assert(row =~= cur.subrange((k - 1) * (bps + 1), k * (bps + 1)));
        assert(row =~= seq![png.algorithm.spec_byte()] + new_diff);
        assert(row.skip(1) =~= new_diff);
        lemma_png_byte_roundtrip(png.algorithm);
        lemma_png_rev_diff(png.algorithm, prior0, data_row, bpp, bps as nat);
        assert(data_row.take(bps) =~= data_row);
        let prev_out = bytes.take((k - 1) * bps);
        assert(prev_out + data_row =~= bytes.take(k * bps));
    }
}

/// REFERENCE: [7.4.4.4 LZW and Flate predictor functions, p41-42]: with
/// the None, Sub, Up, Average or Paeth algorithm, decoding the encoding of
/// the data gives the data back.
pub proof fn lemma_png_roundtrip(png: Png, bytes: Seq<u8>)
    requires
        png.algorithm != PngAlgorithm::Optimum,
        png.parms.bits_per_row() > 0,
    ensures
        spec_png_filter(png, bytes) matches Ok(encoded) ==> spec_png_defilter(png, encoded) == Ok::<Seq<u8>, PngError>(bytes),
{
    let bps = png.parms.bytes_per_row();
    let bpp = png.parms.bytes_per_pixel();
    assert(bps >= 1);
    assert(bpp >= 1) by {
        assert(png.parms.colors.spec_value() * png.parms.bits_per_component.spec_value() >= 1) by (nonlinear_arith)
            requires
                png.parms.colors.spec_value() >= 1,
                png.parms.bits_per_component.spec_value() >= 1,
        ;
    }
    if bytes.len() as int % bps == 0 {
        let n = (bytes.len() as int / bps) as nat;
        assert(n * bps == bytes.len()) by (nonlinear_arith)
            requires
                bps >= 1,
                bytes.len() as int % bps == 0,
                n == bytes.len() as int / bps,
        ;
        let encoded = png_filter_rows(png, bytes, bps, bpp, n).2;
        lemma_png_filter_rows_len(png, bytes, bps, bpp, n);
        lemma_png_defilter_filter_rows(png, bytes, encoded, bps, bpp, n, n);
        assert(encoded.len() as int % (bps + 1) == 0 && encoded.len() as int / (bps + 1) == n) by (nonlinear_arith)
            requires
                encoded.len() == n * (bps + 1),
                bps >= 1,
        ;
        assert(bytes.take(n * bps) =~= bytes);
    }
}

/// The first `m` bytes of a decoded row do not depend on the bytes after
/// them.
proof fn lemma_png_rev_row_prefix(algorithm: PngAlgorithm, prior: Seq<u8>, diff: Seq<u8>, bpp: int, m: nat, n: nat)
    requires
        m <= n,
    ensures
        png_rev_row(algorithm, prior, diff, bpp, n).len() == n,
        png_rev_row(algorithm, prior, diff, bpp, n).take(m as int) == png_rev_row(algorithm, prior, diff, bpp, m),
    decreases n,
{
    if n == 0 {
        assert(png_rev_row(algorithm, prior, diff, bpp, n).take(0) =~= Seq::<u8>::empty());
    } else if m == n {
        lemma_png_rev_row_prefix(algorithm, prior, diff, bpp, (n - 1) as nat, (n - 1) as nat);
        assert(png_rev_row(algorithm, prior, diff, bpp, n).take(m as int) =~= png_rev_row(algorithm, prior, diff, bpp, n));
    } else {
        lemma_png_rev_row_prefix(algorithm, prior, diff, bpp, m, (n - 1) as nat);
        let done = png_rev_row(algorithm, prior, diff, bpp, (n - 1) as nat);
        assert(png_rev_row(algorithm, prior, diff, bpp, n).take(m as int) =~= done.take(m as int));
    }
}

/// REFERENCE: [[https://www.w3.org/TR/PNG-Filters.html] 6]: decoding byte
/// `x` of a row adds to its difference, modulo 256, the prediction of the
/// row's algorithm from `left`, the decoded byte `bpp` before (0 before the
/// start), `up`, byte `x` of the prior row, and `up_left`, the byte `bpp`
/// before that (0 before the start): nothing for None, `left` for Sub, `up`
/// for Up, the floor of the mean of `left` and `up` for Average, and for
/// Paeth the one of `left`, `up` and `up_left` nearest to `left + up -
/// up_left`, ties going in that order.
pub proof fn lemma_png_decoded_byte(algorithm: PngAlgorithm, prior: Seq<u8>, diff: Seq<u8>, bpp: int, n: nat, x: int)
    requires
        algorithm != PngAlgorithm::Optimum,
        bpp >= 1,
        0 <= x < n,
    ensures
        ({
            let row = png_rev_row(algorithm, prior, diff, bpp, n);
            let left: int = if x >= bpp { row[x - bpp] as int } else { 0 };
            let up: int = prior[x] as int;
            let up_left: int = if x >= bpp { prior[x - bpp] as int } else { 0 };
            let p = left + up - up_left;
            let d_left = if p >= left { p - left } else { left - p };
            let d_up = if p >= up { p - up } else { up - p };
            let d_up_left = if p >= up_left { p - up_left } else { up_left - p };
            let prediction: int = match algorithm {
                PngAlgorithm::Sub => left,
                PngAlgorithm::Up => up,
                PngAlgorithm::Average => (left + up) / 2,
                PngAlgorithm::Paeth => if d_left <= d_up && d_left <= d_up_left {
                    left
                } else if d_up <= d_up_left {
                    up
                } else {
                    up_left
                },
                _ => 0,
            };
            &&& row.len() == n
            &&& row[x] as int == (diff[x] as int + prediction) % 256
        }),
{
    lemma_png_rev_row_prefix(algorithm, prior, diff, bpp, (x + 1) as nat, n);
    lemma_png_rev_row_prefix(algorithm, prior, diff, bpp, x as nat, (x + 1) as nat);
    let row = png_rev_row(algorithm, prior, diff, bpp, n);
    let done = png_rev_row(algorithm, prior, diff, bpp, x as nat);
    assert(row[x] == png_rev_row(algorithm, prior, diff, bpp, (x + 1) as nat)[x]);
    if x >= bpp {
        assert(done[x - bpp] == png_rev_row(algorithm, prior, diff, bpp, (x + 1) as nat)[x - bpp]);
        assert(row[x - bpp] == png_rev_row(algorithm, prior, diff, bpp, (x + 1) as nat)[x - bpp]);
    }
}

/// REFERENCE: [[https://www.w3.org/TR/PNG-Filters.html] 6]: encoding byte
/// `x` of a row writes, modulo 256, the byte less the prediction of the
/// row's algorithm from the bytes of the row and of the prior row, as in
/// decoding.
pub proof fn lemma_png_encoded_byte(algorithm: PngAlgorithm, prior: Seq<u8>, row: Seq<u8>, bpp: int, x: int)
    requires
        algorithm != PngAlgorithm::Optimum,
        bpp >= 1,
        0 <= x < row.len(),
    ensures
        ({
            let diff = png_diff_row(algorithm, prior, row, bpp);
            let left: int = if x >= bpp { row[x - bpp] as int } else { 0 };
            let up: int = prior[x] as int;
            let up_left: int = if x >= bpp { prior[x - bpp] as int } else { 0 };
            let p = left + up - up_left;
            let d_left = if p >= left { p - left } else { left - p };
            let d_up = if p >= up { p - up } else { up - p };
            let d_up_left = if p >= up_left { p - up_left } else { up_left - p };
            let prediction: int = match algorithm {
                PngAlgorithm::Sub => left,
                PngAlgorithm::Up => up,
                PngAlgorithm::Average => (left + up) / 2,
                PngAlgorithm::Paeth => if d_left <= d_up && d_left <= d_up_left {
                    left
                } else if d_up <= d_up_left {
                    up
                } else {
                    up_left
                },
                _ => 0,
            };
            &&& diff.len() == row.len()
            &&& diff[x] as int == (row[x] as int - prediction + 256) % 256
        }),
{
}

/// REFERENCE: [[https://www.w3.org/TR/PNG-Filters.html] 6] and [Table 10 —
/// Predictor values, p42]: the filter type byte that tags a row names its
/// algorithm, 0 None, 1 Sub, 2 Up, 3 Average, 4 Paeth (and 5 Optimum), each
/// algorithm is read back from its own byte, and any other byte is refused
/// as unsupported.
pub proof fn lemma_png_filter_types(value: u8, algorithm: PngAlgorithm)
    ensures
        (PngAlgorithm::spec_try_from(value) == Ok::<PngAlgorithm, PngError>(PngAlgorithm::NoFilter)) <==> value == 0,
        (PngAlgorithm::spec_try_from(value) == Ok::<PngAlgorithm, PngError>(PngAlgorithm::Sub)) <==> value == 1,
        (PngAlgorithm::spec_try_from(value) == Ok::<PngAlgorithm, PngError>(PngAlgorithm::Up)) <==> value == 2,
        (PngAlgorithm::spec_try_from(value) == Ok::<PngAlgorithm, PngError>(PngAlgorithm::Average)) <==> value == 3,
        (PngAlgorithm::spec_try_from(value) == Ok::<PngAlgorithm, PngError>(PngAlgorithm::Paeth)) <==> value == 4,
        (PngAlgorithm::spec_try_from(value) == Ok::<PngAlgorithm, PngError>(PngAlgorithm::Optimum)) <==> value == 5,
        (PngAlgorithm::spec_try_from(value) == Err::<PngAlgorithm, PngError>(PngError::Unsupported(value))) <==> value
            > 5,
        PngAlgorithm::spec_try_from(algorithm.spec_byte()) == Ok::<PngAlgorithm, PngError>(algorithm),
{
}

} // verus!
