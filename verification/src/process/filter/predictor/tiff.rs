use super::BitsPerComponent;
use super::PredictorParms;
use crate::process::filter::error::FilterErr;
use crate::process::filter::error::FilterErrorCode;
use crate::process::filter::zeros;
use super::png::wrapping_add;
use super::png::wrapping_sub;
use vstd::prelude::*;

verus! {

#[derive(Debug, PartialEq, Eq, Structural, Clone, Copy)]
pub enum TiffError {
    BitsOutOfBound(usize, usize),
    ColorsOutOfBound(usize, usize),
    ColumnsOutOfBound(usize, usize),
    MismatchingComponents(usize, usize),
    RowMissingPadding(usize, u8),
    CorruptComponent(u8, usize),
}

/// REFERENCE: [7.4.4.4 LZW and Flate predictor functions, p41] and [[TIFF
/// 6.0 Specification] Section 14: Differencing Predictor, p64]
#[derive(Debug, PartialEq, Eq, Structural, Clone, Copy)]
pub struct Tiff {
    pub parms: PredictorParms,
}

/// The largest value of a component of `bpc` bits.
pub open spec fn component_mask(bpc: usize) -> u8 {
    if bpc == 1 {
        1
    } else if bpc == 2 {
        3
    } else if bpc == 4 {
        15
    } else {
        255
    }
}

fn mask(bits_per_component: BitsPerComponent) -> (m: u8)
    ensures
        m == component_mask(bits_per_component.spec_value()),
{
    match bits_per_component {
        BitsPerComponent::One => 1,
        BitsPerComponent::Two => 3,
        BitsPerComponent::Four => 15,
        BitsPerComponent::Eight => 255,
    }
}

/// The component at the bit `loc` of `bytes`, and the location after it.
pub open spec fn spec_next_bits(bytes: Seq<u8>, parms: PredictorParms, loc: int) -> (Result<Option<u8>, TiffError>, int) {
    let bpc = parms.bits_per_component.spec_value();
    let byte_location = loc / 8;
    let bit_location = loc % 8;
    if byte_location >= bytes.len() {
        (Ok(None), loc)
    } else if bit_location + bpc > 8 {
        (Err(TiffError::BitsOutOfBound(bpc, (8 - bit_location) as usize)), loc)
    } else if bpc == 8 {
        (Ok(Some(bytes[byte_location])), loc + 8)
    } else {
        (Ok(Some((bytes[byte_location] >> ((8 - bit_location - bpc) as u8)) & component_mask(bpc))), loc + bpc)
    }
}

/// The next `n` components from the bit `loc`: a missing one is an error of
/// the colours of a sample.
pub open spec fn read_colors(bytes: Seq<u8>, parms: PredictorParms, loc: int, n: nat) -> (Result<Seq<u8>, TiffError>, int)
    decreases n,
{
    if n == 0 {
        (Ok(Seq::empty()), loc)
    } else {
        let (r, l) = read_colors(bytes, parms, loc, (n - 1) as nat);
        match r {
            Err(e) => (Err(e), l),
            Ok(colors) => {
                let (b, l2) = spec_next_bits(bytes, parms, l);
                match b {
                    Err(e) => (Err(e), l2),
                    Ok(None) => (Err(TiffError::ColorsOutOfBound(parms.colors.spec_value(), (n - 1) as usize)), l2),
                    Ok(Some(v)) => (Ok(colors.push(v)), l2),
                }
            },
        }
    }
}

/// The sample at the bit `loc`, if the data is not over.
pub open spec fn spec_next_colors(bytes: Seq<u8>, parms: PredictorParms, loc: int) -> (Result<Option<Seq<u8>>, TiffError>, int) {
    if loc == bytes.len() * 8 {
        (Ok(None), loc)
    } else {
        let (r, l) = read_colors(bytes, parms, loc, parms.colors.spec_value() as nat);
        match r {
            Err(e) => (Err(e), l),
            Ok(colors) => (Ok(Some(colors)), l),
        }
    }
}

/// The next `n` samples from the bit `loc`: a missing one is an error of the
/// columns of a row.
pub open spec fn read_columns(bytes: Seq<u8>, parms: PredictorParms, loc: int, n: nat) -> (Result<Seq<Seq<u8>>, TiffError>, int)
    decreases n,
{
    if n == 0 {
        (Ok(Seq::empty()), loc)
    } else {
        let (r, l) = read_columns(bytes, parms, loc, (n - 1) as nat);
        match r {
            Err(e) => (Err(e), l),
            Ok(row) => {
                let (c, l2) = spec_next_colors(bytes, parms, l);
                match c {
                    Err(e) => (Err(e), l2),
                    Ok(None) => (Err(TiffError::ColumnsOutOfBound(parms.columns.0, (n - 1) as usize)), l2),
                    Ok(Some(colors)) => (Ok(row.push(colors)), l2),
                }
            },
        }
    }
}

/// The low `padding` bits of `byte`.
pub open spec fn low_bits(byte: u8, padding: int) -> u8 {
    byte & (((1u16 << (padding as u16)) - 1) as u8)
}

/// The row at the bit `loc`, if the data is not over: its samples, after
/// which the rest of the last byte must be zero bits.
pub open spec fn spec_next_row(bytes: Seq<u8>, parms: PredictorParms, loc: int) -> (Result<Option<Seq<Seq<u8>>>, TiffError>, int) {
    if loc == bytes.len() * 8 {
        (Ok(None), loc)
    } else {
        let (r, l) = read_columns(bytes, parms, loc, parms.columns.0 as nat);
        match r {
            Err(e) => (Err(e), l),
            Ok(row) => if l % 8 != 0 {
                let padding = 8 - l % 8;
                if l / 8 < bytes.len() && low_bits(bytes[l / 8], padding) != 0 {
                    (Err(TiffError::RowMissingPadding(padding as usize, bytes[l / 8])), l)
                } else {
                    (Ok(Some(row)), l + padding)
                }
            } else {
                (Ok(Some(row)), l)
            },
        }
    }
}

/// The state of a writer: the bytes written, the bits of the current byte,
/// and how many of them there are.
pub type WriterState = (Seq<u8>, u8, int);

/// Writes a component of the writer's size.
pub open spec fn spec_write_component(state: WriterState, parms: PredictorParms, component: u8) -> Result<WriterState, TiffError> {
    let (buffer, cache, bit_location) = state;
    let bpc = parms.bits_per_component.spec_value();
    if bit_location + bpc > 8 {
        Err(TiffError::BitsOutOfBound(bpc, (8 - bit_location) as usize))
    } else if bpc == 8 {
        Ok((buffer.push(component), cache, 0))
    } else if component > component_mask(bpc) {
        Err(TiffError::CorruptComponent(component, bpc))
    } else {
        let new_cache = ((cache << (bpc as u8)) | component) as u8;
        if bit_location + bpc == 8 {
            Ok((buffer.push(new_cache), 0, 0))
        } else {
            Ok((buffer, new_cache, bit_location + bpc))
        }
    }
}

/// Ends a row: the bits of a partial byte are written, padded with zeros.
pub open spec fn spec_flush_row(state: WriterState) -> WriterState {
    let (buffer, cache, bit_location) = state;
    if bit_location == 0 {
        state
    } else {
        (buffer.push((cache << ((8 - bit_location) as u8)) as u8), 0, 0)
    }
}

proof fn lemma_read_colors_error_persists(bytes: Seq<u8>, parms: PredictorParms, loc: int, k: nat, n: nat)
    requires
        k <= n,
        read_colors(bytes, parms, loc, k).0 is Err,
    ensures
        read_colors(bytes, parms, loc, n) == read_colors(bytes, parms, loc, k),
    decreases n - k,
{
    if k < n {
        lemma_read_colors_error_persists(bytes, parms, loc, k, (n - 1) as nat);
    }
}

proof fn lemma_read_columns_error_persists(bytes: Seq<u8>, parms: PredictorParms, loc: int, k: nat, n: nat)
    requires
        k <= n,
        read_columns(bytes, parms, loc, k).0 is Err,
    ensures
        read_columns(bytes, parms, loc, n) == read_columns(bytes, parms, loc, k),
    decreases n - k,
{
    if k < n {
        lemma_read_columns_error_persists(bytes, parms, loc, k, (n - 1) as nat);
    }
}

/// A reader of the components of rows, bit by bit.
#[derive(Debug, Clone, Copy)]
pub struct BitsReader<'a> {
    pub bytes: &'a [u8],
    pub parms: PredictorParms,
    pub location: usize,
}

impl<'a> BitsReader<'a> {
    pub open spec fn wf(self) -> bool {
        self.location <= self.bytes@.len() * 8 && self.bytes@.len() * 8 <= usize::MAX
    }

    pub fn new(bytes: &'a [u8], parms: PredictorParms) -> (reader: Self)
        ensures
            reader.bytes == bytes,
            reader.parms == parms,
            reader.location == 0,
    {
        Self { bytes, parms, location: 0 }
    }

    /// The next component.
    pub fn next_bits(&mut self) -> (r: Result<Option<u8>, TiffError>)
        requires
            old(self).wf(),
        ensures
            final(self).wf(),
            final(self).bytes == old(self).bytes,
            final(self).parms == old(self).parms,
            (r, final(self).location as int) == spec_next_bits(old(self).bytes@, old(self).parms, old(self).location as int),
    {
        let byte_location = self.location / 8;
        let bit_location = self.location % 8;
        if byte_location >= self.bytes.len() {
            return Ok(None);
        }
        let byte = self.bytes[byte_location];
        let bpc = self.parms.bits_per_component.value();
        if bit_location + bpc > 8 {
            return Err(TiffError::BitsOutOfBound(bpc, 8 - bit_location));
        }
        if bpc == 8 {
            self.location = self.location + 8;
            return Ok(Some(byte));
        }
        let bits = (byte >> ((8 - bit_location - bpc) as u8)) & mask(self.parms.bits_per_component);
        self.location = self.location + bpc;
        Ok(Some(bits))
    }

    /// The next sample: one component per colour.
    pub fn next_colors(&mut self) -> (r: Result<Option<Vec<u8>>, TiffError>)
        requires
            old(self).wf(),
        ensures
            final(self).wf(),
            final(self).bytes == old(self).bytes,
            final(self).parms == old(self).parms,
            ({
                let (s, l) = spec_next_colors(old(self).bytes@, old(self).parms, old(self).location as int);
                &&& l == final(self).location
                &&& match s {
                    Ok(Some(colors)) => (r matches Ok(Some(v)) && v@ == colors),
                    Ok(None) => r is Ok && r->Ok_0 is None,
                    Err(e) => r == Err::<Option<Vec<u8>>, TiffError>(e),
                }
            }),
    {
        if self.location == self.bytes.len() * 8 {
            return Ok(None);
        }
        let n = self.parms.colors.value();
        let ghost bytes = self.bytes@;
        let ghost parms = self.parms;
        let ghost start = self.location as int;
        let mut colors: Vec<u8> = Vec::new();
        let mut i: usize = 0;
        while i < n
            invariant
                i <= n,
                n == parms.colors.spec_value(),
                self.wf(),
                self.bytes@ == bytes,
                self.parms == parms,
                self.bytes == old(self).bytes,
                self.parms == old(self).parms,
                start == old(self).location,
                start != bytes.len() * 8,
                read_colors(bytes, parms, start, i as nat) == (Ok::<Seq<u8>, TiffError>(colors@), self.location as int),
            decreases n - i,
        {
            match self.next_bits() {
                Ok(Some(component)) => {
                    colors.push(component);
                },
                Ok(None) => {
                    proof {
                        lemma_read_colors_error_persists(bytes, parms, start, (i + 1) as nat, n as nat);
                    }

                    return Err(TiffError::ColorsOutOfBound(n, i));
                },
                Err(e) => {
                    proof {
                        lemma_read_colors_error_persists(bytes, parms, start, (i + 1) as nat, n as nat);
                    }
                    return Err(e);
                },
            }
            i = i + 1;
        }
        Ok(Some(colors))
    }

    /// The next row: one sample per column, then the padding of its last byte.
    pub fn next_row(&mut self) -> (r: Result<Option<Vec<Vec<u8>>>, TiffError>)
        requires
            old(self).wf(),
        ensures
            final(self).wf(),
            final(self).bytes == old(self).bytes,
            final(self).parms == old(self).parms,
            ({
                let (s, l) = spec_next_row(old(self).bytes@, old(self).parms, old(self).location as int);
                &&& r is Ok ==> l == final(self).location
                &&& match s {
                    Ok(Some(row)) => (r matches Ok(Some(v)) && v.len() == row.len() && forall|j: int|
                        0 <= j < row.len() ==> (#[trigger] v@[j])@ == row[j]),
                    Ok(None) => r is Ok && r->Ok_0 is None,
                    Err(e) => r == Err::<Option<Vec<Vec<u8>>>, TiffError>(e),
                }
            }),
    {
        if self.location == self.bytes.len() * 8 {
            return Ok(None);
        }
        let n = self.parms.columns.0;
        let ghost bytes = self.bytes@;
        let ghost parms = self.parms;
        let ghost start = self.location as int;
        let mut row: Vec<Vec<u8>> = Vec::new();
        let mut i: usize = 0;
        while i < n
            invariant
                i <= n,
                n == parms.columns.0,
                self.wf(),
                self.bytes@ == bytes,
                self.parms == parms,
                self.bytes == old(self).bytes,
                self.parms == old(self).parms,
                start == old(self).location,
                start != bytes.len() * 8,
                ({
                    let (s, l) = read_columns(bytes, parms, start, i as nat);
                    &&& l == self.location
                    &&& s matches Ok(rs) && rs.len() == row.len() && forall|j: int|
                        0 <= j < rs.len() ==> (#[trigger] row@[j])@ == rs[j]
                }),
            decreases n - i,
        {
            match self.next_colors() {
                Ok(Some(colors)) => {
                    row.push(colors);
                },
                Ok(None) => {
                    proof {
                        lemma_read_columns_error_persists(bytes, parms, start, (i + 1) as nat, n as nat);
                    }
                    return Err(TiffError::ColumnsOutOfBound(n, i));
                },
                Err(e) => {
                    proof {
                        lemma_read_columns_error_persists(bytes, parms, start, (i + 1) as nat, n as nat);
                    }
                    return Err(e);
                },
            }
            i = i + 1;
        }
        if self.location % 8 != 0 {
            let padding = 8 - self.location % 8;
            if self.location / 8 < self.bytes.len() {
                let byte = self.bytes[self.location / 8];
                let p16 = padding as u16;
                assert(1 <= p16 <= 7 ==> (1u16 << p16) >= 1) by (bit_vector);
                let remaining = byte & (((1u16 << p16) - 1) as u8);
                if remaining != 0 {
                    return Err(TiffError::RowMissingPadding(padding, byte));
                }
            }
            self.location = self.location + padding;
        }
        Ok(Some(row))
    }
}

/// A writer of the components of rows, bit by bit.
#[derive(Debug, PartialEq, Eq)]
pub struct BitsWriter {
    pub buffer: Vec<u8>,
    pub parms: PredictorParms,
    pub cache: u8,
    pub bit_location: usize,
}

impl BitsWriter {
    pub open spec fn state(&self) -> WriterState {
        (self.buffer@, self.cache, self.bit_location as int)
    }

    pub open spec fn wf(&self) -> bool {
        self.bit_location < 8
    }

    pub fn new(parms: PredictorParms) -> (writer: Self)
        ensures
            writer.buffer@ == Seq::<u8>::empty(),
            writer.parms == parms,
            writer.cache == 0,
            writer.bit_location == 0,
    {
        Self { buffer: Vec::new(), parms, cache: 0, bit_location: 0 }
    }

    /// Writes a component.
    pub fn write_component(&mut self, component: u8) -> (r: Result<(), TiffError>)
        requires
            old(self).wf(),
        ensures
            final(self).wf(),
            final(self).parms == old(self).parms,
            match spec_write_component(old(self).state(), old(self).parms, component) {
                Ok(state) => r is Ok && final(self).state() == state,
                Err(e) => r == Err::<(), TiffError>(e) && final(self).state() == old(self).state(),
            },
    {
        let bpc = self.parms.bits_per_component.value();
        if self.bit_location + bpc > 8 {
            return Err(TiffError::BitsOutOfBound(bpc, 8 - self.bit_location));
        }
        if bpc == 8 {
            self.buffer.push(component);
            self.bit_location = 0;
            return Ok(());
        }
        if component > mask(self.parms.bits_per_component) {
            return Err(TiffError::CorruptComponent(component, bpc));
        }
        self.cache = ((self.cache << (bpc as u8)) | component) as u8;
        self.bit_location = self.bit_location + bpc;
        if self.bit_location == 8 {
            self.buffer.push(self.cache);
            self.cache = 0;
            self.bit_location = 0;
        }
        Ok(())
    }

    /// Ends a row: the bits of a partial byte are written, padded with zeros.
    pub fn flush_row(&mut self) -> (r: Result<(), TiffError>)
        requires
            old(self).wf(),
        ensures
            final(self).wf(),
            final(self).parms == old(self).parms,
            r is Ok,
            final(self).state() == spec_flush_row(old(self).state()),
    {
        if self.bit_location == 0 {
            return Ok(());
        }
        self.cache = (self.cache << ((8 - self.bit_location) as u8)) as u8;
        self.buffer.push(self.cache);
        self.cache = 0;
        self.bit_location = 0;
        Ok(())
    }
}

/// Writes the components one after the other.
pub open spec fn write_all(state: WriterState, parms: PredictorParms, components: Seq<u8>) -> Result<WriterState, TiffError>
    decreases components.len(),
{
    if components.len() == 0 {
        Ok(state)
    } else {
        match write_all(state, parms, components.drop_last()) {
            Err(e) => Err(e),
            Ok(s) => spec_write_component(s, parms, components.last()),
        }
    }
}

/// The difference of each component from the same component of the sample
/// before it, in `bpc` bits.
pub open spec fn tiff_differences(prev: Seq<u8>, colors: Seq<u8>, bpc: usize) -> Seq<u8> {
    Seq::new(
        if prev.len() <= colors.len() { prev.len() } else { colors.len() },
        |i: int| (((colors[i] - prev[i] + 256) % 256) as u8) & component_mask(bpc),
    )
}

/// The sum of each difference and the same component of the sample before
/// it, in `bpc` bits.
pub open spec fn tiff_sums(prev: Seq<u8>, diffs: Seq<u8>, bpc: usize) -> Seq<u8> {
    Seq::new(
        if prev.len() <= diffs.len() { prev.len() } else { diffs.len() },
        |i: int| (((diffs[i] + prev[i]) % 256) as u8) & component_mask(bpc),
    )
}

/// The components that the encoder writes for the first `j` samples of a row.
pub open spec fn tiff_filter_components(row: Seq<Seq<u8>>, colors: nat, bpc: usize, j: nat) -> Seq<u8>
    decreases j,
{
    if j == 0 {
        Seq::empty()
    } else {
        let prev = if j == 1 { Seq::new(colors, |i: int| 0u8) } else { row[j - 2] };
        tiff_filter_components(row, colors, bpc, (j - 1) as nat) + tiff_differences(prev, row[j - 1], bpc)
    }
}

/// The first `j` samples of a row that the decoder rebuilds.
pub open spec fn tiff_defilter_samples(row: Seq<Seq<u8>>, colors: nat, bpc: usize, j: nat) -> Seq<Seq<u8>>
    decreases j,
{
    if j == 0 {
        Seq::empty()
    } else {
        let done = tiff_defilter_samples(row, colors, bpc, (j - 1) as nat);
        let prev = if j == 1 { Seq::new(colors, |i: int| 0u8) } else { done.last() };
        done.push(tiff_sums(prev, row[j - 1], bpc))
    }
}

/// All the components of the samples, in order.
pub open spec fn flatten_samples(samples: Seq<Seq<u8>>) -> Seq<u8>
    decreases samples.len(),
{
    if samples.len() == 0 {
        Seq::empty()
    } else {
        flatten_samples(samples.drop_last()) + samples.last()
    }
}

/// The components that the encoder (`encode`) or the decoder writes for a row.
pub open spec fn tiff_row_components(encode: bool, row: Seq<Seq<u8>>, parms: PredictorParms) -> Seq<u8> {
    let colors = parms.colors.spec_value() as nat;
    let bpc = parms.bits_per_component.spec_value();
    if encode {
        tiff_filter_components(row, colors, bpc, row.len())
    } else {
        flatten_samples(tiff_defilter_samples(row, colors, bpc, row.len()))
    }
}

/// Reads the rows from the bit `loc` on and writes each row's components,
/// each row ending on a byte boundary.
pub open spec fn tiff_rows(encode: bool, bytes: Seq<u8>, parms: PredictorParms, loc: int, state: WriterState) -> Result<Seq<u8>, TiffError>
    decreases bytes.len() * 8 - loc,
{
    let (r, l) = spec_next_row(bytes, parms, loc);
    match r {
        Err(e) => Err(e),
        Ok(None) => Ok(state.0),
        Ok(Some(row)) => match write_all(state, parms, tiff_row_components(encode, row, parms)) {
            Err(e) => Err(e),
            Ok(written) => {
                let flushed = spec_flush_row(written);
                if loc < l <= bytes.len() * 8 {
                    tiff_rows(encode, bytes, parms, l, flushed)
                } else {
                    Ok(flushed.0)
                }
            },
        },
    }
}

/// REFERENCE: [[TIFF 6.0 Specification] Section 14: Differencing Predictor,
/// p64]: each component is replaced by its difference from the same
/// component of the sample to its left in the row.
pub open spec fn spec_tiff_filter(tiff: Tiff, bytes: Seq<u8>) -> Result<Seq<u8>, TiffError> {
    tiff_rows(true, bytes, tiff.parms, 0, (Seq::empty(), 0, 0))
}

/// REFERENCE: [[TIFF 6.0 Specification] Section 14: Differencing Predictor,
/// p64]: each component is the sum of its difference and the same component
/// of the sample to its left in the row.
pub open spec fn spec_tiff_defilter(tiff: Tiff, bytes: Seq<u8>) -> Result<Seq<u8>, TiffError> {
    tiff_rows(false, bytes, tiff.parms, 0, (Seq::empty(), 0, 0))
}

proof fn lemma_write_all_push(state: WriterState, parms: PredictorParms, a: Seq<u8>, x: u8)
    ensures
        write_all(state, parms, a.push(x)) == (match write_all(state, parms, a) {
            Err(e) => Err(e),
            Ok(s) => spec_write_component(s, parms, x),
        }),
{
    assert(a.push(x).drop_last() =~= a);
}

proof fn lemma_write_all_error_persists(state: WriterState, parms: PredictorParms, a: Seq<u8>, b: Seq<u8>)
    requires
        write_all(state, parms, a) is Err,
    ensures
        write_all(state, parms, a + b) == write_all(state, parms, a),
    decreases b.len(),
{
    if b.len() == 0 {
        assert(a + b =~= a);
    } else {
        lemma_write_all_error_persists(state, parms, a, b.drop_last());
        assert((a + b).drop_last() =~= a + b.drop_last());
    }
}

proof fn lemma_write_all_concat(state: WriterState, parms: PredictorParms, a: Seq<u8>, b: Seq<u8>)
    ensures
        write_all(state, parms, a + b) == (match write_all(state, parms, a) {
            Err(e) => Err(e),
            Ok(s) => write_all(s, parms, b),
        }),
    decreases b.len(),
{
    if b.len() == 0 {
        assert(a + b =~= a);
    } else {
        lemma_write_all_concat(state, parms, a, b.drop_last());
        assert((a + b).drop_last() =~= a + b.drop_last());
    }
}

/// An error in writing a prefix of the components of a row is the error of
/// the whole row.
proof fn lemma_row_error(state: WriterState, parms: PredictorParms, full: Seq<u8>, part: Seq<u8>, prefix: Seq<u8>)
    requires
        part.len() <= full.len(),
        full.take(part.len() as int) == part,
        prefix.len() <= part.len(),
        part.take(prefix.len() as int) == prefix,
        write_all(state, parms, prefix) is Err,
    ensures
        write_all(state, parms, full) == write_all(state, parms, prefix),
{
    assert forall|k: int| 0 <= k < prefix.len() implies full[k] == prefix[k] by {
        assert(full.take(part.len() as int)[k] == part[k]);
        assert(part.take(prefix.len() as int)[k] == prefix[k]);
    }
    assert(full.take(prefix.len() as int) =~= prefix);
    lemma_write_all_error_persists(state, parms, prefix, full.skip(prefix.len() as int));
    assert(prefix + full.skip(prefix.len() as int) =~= full);
}

proof fn lemma_filter_components_prefix(row: Seq<Seq<u8>>, colors: nat, bpc: usize, j: nat, n: nat)
    requires
        j <= n,
    ensures
        tiff_filter_components(row, colors, bpc, n).take(tiff_filter_components(row, colors, bpc, j).len() as int)
            == tiff_filter_components(row, colors, bpc, j),
        tiff_filter_components(row, colors, bpc, j).len() <= tiff_filter_components(row, colors, bpc, n).len(),
    decreases n - j,
{
    if j < n {
        lemma_filter_components_prefix(row, colors, bpc, j, (n - 1) as nat);
        let a = tiff_filter_components(row, colors, bpc, j);
        let b = tiff_filter_components(row, colors, bpc, (n - 1) as nat);
        let c = tiff_filter_components(row, colors, bpc, n);
        assert(c.take(b.len() as int) =~= b);
        assert(c.take(a.len() as int) =~= b.take(a.len() as int));
    } else {
        let a = tiff_filter_components(row, colors, bpc, j);
        assert(a.take(a.len() as int) =~= a);
    }
}

pub(crate) proof fn lemma_samples_prefix(row: Seq<Seq<u8>>, colors: nat, bpc: usize, j: nat, n: nat)
    requires
        j <= n,
    ensures
        tiff_defilter_samples(row, colors, bpc, n).len() == n,
        tiff_defilter_samples(row, colors, bpc, n).take(j as int) == tiff_defilter_samples(row, colors, bpc, j),
    decreases n - j,
{
    if j < n {
        lemma_samples_prefix(row, colors, bpc, j, (n - 1) as nat);
        let b = tiff_defilter_samples(row, colors, bpc, (n - 1) as nat);
        let c = tiff_defilter_samples(row, colors, bpc, n);
        assert(c.take(j as int) =~= b.take(j as int));
    } else {
        lemma_samples_len(row, colors, bpc, n);
        let c = tiff_defilter_samples(row, colors, bpc, n);
        assert(c.take(j as int) =~= c);
    }
}

proof fn lemma_samples_len(row: Seq<Seq<u8>>, colors: nat, bpc: usize, n: nat)
    ensures
        tiff_defilter_samples(row, colors, bpc, n).len() == n,
    decreases n,
{
    if n > 0 {
        lemma_samples_len(row, colors, bpc, (n - 1) as nat);
    }
}

proof fn lemma_flatten_prefix(s: Seq<Seq<u8>>, j: int)
    requires
        0 <= j <= s.len(),
    ensures
        flatten_samples(s).take(flatten_samples(s.take(j)).len() as int) == flatten_samples(s.take(j)),
        flatten_samples(s.take(j)).len() <= flatten_samples(s).len(),
    decreases s.len() - j,
{
    if j < s.len() {
        lemma_flatten_prefix(s.drop_last(), j);
        assert(s.drop_last().take(j) =~= s.take(j));
        let a = flatten_samples(s.take(j));
        let b = flatten_samples(s.drop_last());
        let c = flatten_samples(s);
        assert(c.take(b.len() as int) =~= b);
        assert(c.take(a.len() as int) =~= b.take(a.len() as int));
    } else {
        assert(s.take(j) =~= s);
        let c = flatten_samples(s);
        assert(c.take(c.len() as int) =~= c);
    }
}

/// The components of the first `j + 1` samples of a row are a prefix of
/// those of the row.
proof fn lemma_row_components_prefix(encode: bool, row: Seq<Seq<u8>>, parms: PredictorParms, j: nat)
    requires
        j < row.len(),
    ensures
        ({
            let colors = parms.colors.spec_value() as nat;
            let bpc = parms.bits_per_component.spec_value();
            let part = if encode {
                tiff_filter_components(row, colors, bpc, (j + 1) as nat)
            } else {
                flatten_samples(tiff_defilter_samples(row, colors, bpc, (j + 1) as nat))
            };
            &&& part.len() <= tiff_row_components(encode, row, parms).len()
            &&& tiff_row_components(encode, row, parms).take(part.len() as int) == part
        }),
{
    let colors = parms.colors.spec_value() as nat;
    let bpc = parms.bits_per_component.spec_value();
    if encode {
        lemma_filter_components_prefix(row, colors, bpc, (j + 1) as nat, row.len());
    } else {
        lemma_samples_prefix(row, colors, bpc, (j + 1) as nat, row.len());
        lemma_flatten_prefix(tiff_defilter_samples(row, colors, bpc, row.len()), (j + 1) as int);
    }
}

proof fn lemma_next_bits_progress(bytes: Seq<u8>, parms: PredictorParms, loc: int)
    requires
        0 <= loc,
    ensures
        spec_next_bits(bytes, parms, loc).0 matches Ok(Some(_)) ==> loc < spec_next_bits(bytes, parms, loc).1 <= bytes.len() * 8,
        !(spec_next_bits(bytes, parms, loc).0 matches Ok(Some(_))) ==> spec_next_bits(bytes, parms, loc).1 == loc,
{
}

proof fn lemma_read_colors_progress(bytes: Seq<u8>, parms: PredictorParms, loc: int, n: nat)
    requires
        0 <= loc,
    ensures
        read_colors(bytes, parms, loc, n).0 is Ok && n > 0 ==> loc < read_colors(bytes, parms, loc, n).1 <= bytes.len() * 8,
        read_colors(bytes, parms, loc, n).0 is Ok ==> read_colors(bytes, parms, loc, n).0->Ok_0.len() == n,
        loc <= read_colors(bytes, parms, loc, n).1,
    decreases n,
{
    if n > 0 {
        lemma_read_colors_progress(bytes, parms, loc, (n - 1) as nat);
        let l = read_colors(bytes, parms, loc, (n - 1) as nat).1;
        lemma_next_bits_progress(bytes, parms, l);
    }
}

proof fn lemma_read_columns_progress(bytes: Seq<u8>, parms: PredictorParms, loc: int, n: nat)
    requires
        0 <= loc,
    ensures
        read_columns(bytes, parms, loc, n).0 is Ok && n > 0 ==> loc < read_columns(bytes, parms, loc, n).1 <= bytes.len() * 8,
        loc <= read_columns(bytes, parms, loc, n).1,
    decreases n,
{
    if n > 0 {
        lemma_read_columns_progress(bytes, parms, loc, (n - 1) as nat);
        let l = read_columns(bytes, parms, loc, (n - 1) as nat).1;
        lemma_read_colors_progress(bytes, parms, l, parms.colors.spec_value() as nat);
    }
}

proof fn lemma_next_row_progress(bytes: Seq<u8>, parms: PredictorParms, loc: int)
    requires
        0 <= loc <= bytes.len() * 8,
        parms.columns.0 > 0,
    ensures
        spec_next_row(bytes, parms, loc).0 matches Ok(Some(_)) ==> loc < spec_next_row(bytes, parms, loc).1 <= bytes.len() * 8,
{
    lemma_read_columns_progress(bytes, parms, loc, parms.columns.0 as nat);
}

/// A component that cannot be written ends the whole filter with that error.
proof fn lemma_component_error(
    encode: bool,
    bytes: Seq<u8>,
    parms: PredictorParms,
    loc: int,
    st: WriterState,
    srow: Seq<Seq<u8>>,
    j: nat,
    prefix: Seq<u8>,
    part: Seq<u8>,
    i: nat,
    before: WriterState,
    e: TiffError,
)
    requires
        spec_next_row(bytes, parms, loc).0 == Ok::<Option<Seq<Seq<u8>>>, TiffError>(Some(srow)),
        j < srow.len(),
        i < part.len(),
        prefix + part == (if encode {
            tiff_filter_components(srow, parms.colors.spec_value() as nat, parms.bits_per_component.spec_value(), j + 1)
        } else {
            flatten_samples(tiff_defilter_samples(srow, parms.colors.spec_value() as nat, parms.bits_per_component.spec_value(), j + 1))
        }),
        write_all(st, parms, prefix) == Ok::<WriterState, TiffError>(before),
        write_all(before, parms, part.take(i + 1 as int)) == Err::<WriterState, TiffError>(e),
    ensures
        tiff_rows(encode, bytes, parms, loc, st) == Err::<Seq<u8>, TiffError>(e),
{
    let comps = tiff_row_components(encode, srow, parms);
    lemma_write_all_concat(st, parms, prefix, part.take(i + 1 as int));
    assert((prefix + part).take(prefix.len() + i + 1 as int) =~= prefix + part.take(i + 1 as int));
    lemma_row_components_prefix(encode, srow, parms, j);
    lemma_row_error(st, parms, comps, prefix + part, prefix + part.take(i + 1 as int));
}

fn tiff_error(e: TiffError) -> (err: FilterErr)
    ensures
        err.object@ == "Tiff"@,
        err.code == FilterErrorCode::Tiff(e),
{
    FilterErr::new("Tiff", FilterErrorCode::Tiff(e))
}

impl Tiff {
    pub fn new(parms: PredictorParms) -> (tiff: Self)
        ensures
            tiff.parms == parms,
    {
        Self { parms }
    }

    /// Encodes (`encode`) or decodes the rows of `bytes`.
    fn process(&self, bytes: &[u8], encode: bool) -> (r: Result<Vec<u8>, FilterErr>)
        requires
            bytes@.len() * 8 <= usize::MAX,
            self.parms.columns.0 > 0 || bytes@.len() == 0,
        ensures
            match tiff_rows(encode, bytes@, self.parms, 0, (Seq::empty(), 0, 0)) {
                Ok(out) => (r matches Ok(v) && v@ == out),
                Err(e) => (r matches Err(err) && err.object@ == "Tiff"@ && err.code == FilterErrorCode::Tiff(e)),
            },
    {
        let parms = self.parms;
        let bpc = parms.bits_per_component;
        let m = mask(bpc);
        let n_colors = parms.colors.value();
        let mut reader = BitsReader::new(bytes, parms);
        let mut writer = BitsWriter::new(parms);
        let ghost target = tiff_rows(encode, bytes@, parms, 0, (Seq::empty(), 0, 0));
        loop
            invariant
                reader.wf(),
                reader.bytes == bytes,
                reader.parms == parms,
                writer.wf(),
                writer.parms == parms,
                m == component_mask(bpc.spec_value()),
                n_colors == parms.colors.spec_value(),
                bpc == parms.bits_per_component,
                parms.columns.0 > 0 || bytes@.len() == 0,
                tiff_rows(encode, bytes@, parms, reader.location as int, writer.state()) == target,
                target == tiff_rows(encode, bytes@, self.parms, 0, (Seq::empty(), 0, 0)),
                parms == self.parms,
            decreases bytes@.len() * 8 - reader.location,
        {
            let ghost loc = reader.location as int;
            let ghost st = writer.state();
            let row = match reader.next_row() {
                Err(e) => {
                    return Err(tiff_error(e));
                },
                Ok(None) => {
                    return Ok(writer.buffer);
                },
                Ok(Some(row)) => row,
            };
            let ghost srow = spec_next_row(bytes@, parms, loc).0->Ok_0->Some_0;
            let ghost comps = tiff_row_components(encode, srow, parms);
            let mut prev: Vec<u8> = zeros(n_colors);
            let mut j: usize = 0;
            let ghost samples: Seq<Seq<u8>> = Seq::empty();
            assert(comps.take(0) =~= Seq::<u8>::empty());
            while j < row.len()
                invariant
                    j <= row@.len(),
                    row@.len() == srow.len(),
                    forall|k: int| 0 <= k < srow.len() ==> (#[trigger] row@[k])@ == srow[k],
                    writer.wf(),
                    writer.parms == parms,
                    m == component_mask(bpc.spec_value()),
                    n_colors == parms.colors.spec_value(),
                    bpc == parms.bits_per_component,
                    tiff_rows(encode, bytes@, parms, loc, st) == target,
                    target == tiff_rows(encode, bytes@, self.parms, 0, (Seq::empty(), 0, 0)),
                    parms == self.parms,
                    spec_next_row(bytes@, parms, loc).0 == Ok::<Option<Seq<Seq<u8>>>, TiffError>(Some(srow)),
                    comps == tiff_row_components(encode, srow, parms),
                    encode ==> write_all(st, parms, tiff_filter_components(srow, n_colors as nat, bpc.spec_value(), j as nat)) == Ok::<WriterState, TiffError>(writer.state()),
                    encode ==> prev@ == (if j == 0 { Seq::new(n_colors as nat, |i: int| 0u8) } else { srow[j - 1] }),
                    !encode ==> samples == tiff_defilter_samples(srow, n_colors as nat, bpc.spec_value(), j as nat),
                    !encode ==> write_all(st, parms, flatten_samples(samples)) == Ok::<WriterState, TiffError>(writer.state()),
                    !encode ==> prev@ == (if j == 0 { Seq::new(n_colors as nat, |i: int| 0u8) } else { samples.last() }),
                decreases row@.len() - j,
            {
                let colors = &row[j];
                let n = if prev.len() <= colors.len() { prev.len() } else { colors.len() };
                let mut next: Vec<u8> = Vec::new();
                let ghost before = writer.state();
                let ghost part = if encode {
                    tiff_differences(prev@, colors@, bpc.spec_value())
                } else {
                    tiff_sums(prev@, colors@, bpc.spec_value())
                };
                let mut i: usize = 0;
                while i < n
                    invariant
                        i <= n,
                        n <= prev@.len(),
                        n <= colors@.len(),
                        n == part.len(),
                        part == (if encode {
                            tiff_differences(prev@, colors@, bpc.spec_value())
                        } else {
                            tiff_sums(prev@, colors@, bpc.spec_value())
                        }),
                        writer.wf(),
                        writer.parms == parms,
                        m == component_mask(bpc.spec_value()),
                        next@ == part.take(i as int),
                        write_all(before, parms, part.take(i as int)) == Ok::<WriterState, TiffError>(writer.state()),
                        j < srow.len(),
                        colors@ == srow[j as int],
                        tiff_rows(encode, bytes@, parms, loc, st) == target,
                        target == tiff_rows(encode, bytes@, self.parms, 0, (Seq::empty(), 0, 0)),
                        parms == self.parms,
                        spec_next_row(bytes@, parms, loc).0 == Ok::<Option<Seq<Seq<u8>>>, TiffError>(Some(srow)),
                        comps == tiff_row_components(encode, srow, parms),
                        n_colors == parms.colors.spec_value(),
                        bpc == parms.bits_per_component,
                        encode ==> write_all(st, parms, tiff_filter_components(srow, n_colors as nat, bpc.spec_value(), j as nat)) == Ok::<WriterState, TiffError>(before),
                        encode ==> prev@ == (if j == 0 { Seq::new(n_colors as nat, |i: int| 0u8) } else { srow[j - 1] }),
                        !encode ==> samples == tiff_defilter_samples(srow, n_colors as nat, bpc.spec_value(), j as nat),
                        !encode ==> write_all(st, parms, flatten_samples(samples)) == Ok::<WriterState, TiffError>(before),
                        !encode ==> prev@ == (if j == 0 { Seq::new(n_colors as nat, |i: int| 0u8) } else { samples.last() }),
                    decreases n - i,
                {
                    let component = if encode {
                        wrapping_sub(colors[i], prev[i]) & m
                    } else {
                        wrapping_add(colors[i], prev[i]) & m
                    };
                    assert(component == part[i as int]);
                    let ghost s_before = writer.state();
                    proof {
                        lemma_write_all_push(before, parms, part.take(i as int), component);
                        assert(part.take(i + 1) =~= part.take(i as int).push(component));
                    }
                    match writer.write_component(component) {
                        Ok(()) => {},
                        Err(e) => {
                            proof {
                                let prefix = if encode {
                                    tiff_filter_components(srow, n_colors as nat, bpc.spec_value(), j as nat)
                                } else {
                                    flatten_samples(samples)
                                };
                                if encode {
                                    assert(tiff_filter_components(srow, n_colors as nat, bpc.spec_value(), (j + 1) as nat) == prefix + part);
                                } else {
                                    let next_samples = tiff_defilter_samples(srow, n_colors as nat, bpc.spec_value(), (j + 1) as nat);
                                    assert(next_samples == samples.push(part));
                                    assert(samples.push(part).drop_last() =~= samples);
                                    assert(flatten_samples(next_samples) == prefix + part);
                                }
                                lemma_component_error(encode, bytes@, parms, loc, st, srow, j as nat, prefix, part, i as nat, before, e);
                            }
                            return Err(tiff_error(e));
                        },
                    }
                    next.push(component);
                    assert(next@ =~= part.take(i + 1));
                    i = i + 1;
                }
                assert(part.take(n as int) =~= part);
                proof {
                    lemma_write_all_concat(st, parms, if encode { tiff_filter_components(srow, n_colors as nat, bpc.spec_value(), j as nat) } else { flatten_samples(samples) }, part);
                }
                if encode {
                    prev = colors.clone();
                    assert(prev@ == srow[j as int]);
                } else {
                    proof {
                        let old_samples = samples;
                        samples = old_samples.push(part);
                        assert(samples.drop_last() =~= old_samples);
                    }
                    prev = next;
                }
                j = j + 1;
            }
            let ghost written = writer.state();
            writer.flush_row();
            proof {
                lemma_next_row_progress(bytes@, parms, loc);
                if encode {
                    assert(write_all(st, parms, comps) == Ok::<WriterState, TiffError>(written));
                } else {
                    assert(write_all(st, parms, comps) == Ok::<WriterState, TiffError>(written));
                }
            }
        }
    }

    /// REFERENCE: [7.4.4.4 LZW and Flate predictor functions, p41]
    pub fn filter(&self, bytes: &[u8]) -> (r: Result<Vec<u8>, FilterErr>)
        requires
            bytes@.len() * 8 <= usize::MAX,
            self.parms.columns.0 > 0 || bytes@.len() == 0,
        ensures
            match spec_tiff_filter(*self, bytes@) {
                Ok(out) => (r matches Ok(v) && v@ == out),
                Err(e) => (r matches Err(err) && err.object@ == "Tiff"@ && err.code == FilterErrorCode::Tiff(e)),
            },
    {
        self.process(bytes, true)
    }

    /// REFERENCE: [7.4.4.4 LZW and Flate predictor functions, p41]
    pub fn defilter(&self, bytes: &[u8]) -> (r: Result<Vec<u8>, FilterErr>)
        requires
            bytes@.len() * 8 <= usize::MAX,
            self.parms.columns.0 > 0 || bytes@.len() == 0,
        ensures
            match spec_tiff_defilter(*self, bytes@) {
                Ok(out) => (r matches Ok(v) && v@ == out),
                Err(e) => (r matches Err(err) && err.object@ == "Tiff"@ && err.code == FilterErrorCode::Tiff(e)),
            },
    {
        self.process(bytes, false)
    }
}

} // verus!
