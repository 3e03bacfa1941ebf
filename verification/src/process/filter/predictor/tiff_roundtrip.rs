use super::tiff::component_mask;
use super::tiff::flatten_samples;
use super::tiff::read_colors;
use super::tiff::read_columns;
use super::tiff::spec_flush_row;
use super::tiff::spec_next_bits;
use super::tiff::spec_next_colors;
use super::tiff::spec_next_row;
use super::tiff::spec_tiff_defilter;
use super::tiff::spec_tiff_filter;
use super::tiff::spec_write_component;
use super::tiff::tiff_defilter_samples;
use super::tiff::tiff_differences;
use super::tiff::tiff_filter_components;
use super::tiff::tiff_row_components;
use super::tiff::tiff_rows;
use super::tiff::tiff_sums;
use super::tiff::write_all;
use super::tiff::Tiff;
use super::tiff::TiffError;
use super::tiff::WriterState;
use super::tiff_bits::byte_component;
use super::tiff_bits::lemma_next_row_bits;
use super::tiff_bits::lemma_pack_unpack;
use super::tiff_bits::lemma_unpack_pack;
use super::tiff_bits::lemma_write_row_bits;
use super::tiff_bits::narrow;
use super::tiff_bits::pack_row;
use super::tiff_bits::per_byte;
use super::tiff_bits::row_bytes;
use super::tiff_bits::row_padding_zero;
use super::tiff_bits::unpack;
use super::BitsPerComponent;
use super::PredictorParms;
use vstd::prelude::*;

verus! {

/// The bytes of `x` from `a` on, `c` at a time, as `n` samples.
pub open spec fn byte_samples(x: Seq<u8>, a: int, c: int, n: nat) -> Seq<Seq<u8>> {
    Seq::new(n, |t: int| x.subrange(a + t * c, a + (t + 1) * c))
}

/// With whole bytes as components, reading `m` components from the byte `a`
/// reads the bytes there, when there are that many.
proof fn lemma_read_colors_bytes(bytes: Seq<u8>, parms: PredictorParms, a: int, m: nat)
    requires
        parms.bits_per_component == BitsPerComponent::Eight,
        0 <= a <= bytes.len(),
    ensures
        a + m <= bytes.len() ==> read_colors(bytes, parms, 8 * a, m) == (
        Ok::<Seq<u8>, TiffError>(bytes.subrange(a, a + m)), 8 * (a + m)),
        read_colors(bytes, parms, 8 * a, m).0 is Ok ==> a + m <= bytes.len(),
    decreases m,
{
    if m == 0 {
        assert(bytes.subrange(a, a) =~= Seq::<u8>::empty());
    } else {
        lemma_read_colors_bytes(bytes, parms, a, (m - 1) as nat);
        let l = 8 * (a + m - 1);
        assert(l / 8 == a + m - 1 && l % 8 == 0);
        if a + m <= bytes.len() {
            assert(bytes.subrange(a, a + m - 1).push(bytes[a + m - 1]) =~= bytes.subrange(a, a + m));
        }
    }
}

proof fn lemma_mul_steps(a: int, t: int, c: int)
    ensures
        a + t * c + c == a + (t + 1) * c,
        t >= 0 && c >= 0 ==> t * c >= 0,
{
    assert(t * c + c == (t + 1) * c) by (nonlinear_arith);
    assert(t >= 0 && c >= 0 ==> t * c >= 0) by (nonlinear_arith);
}

/// With whole bytes as components, reading `j` samples from the byte `a`
/// reads the bytes there, `c` for each sample, when there are that many.
proof fn lemma_read_columns_bytes(bytes: Seq<u8>, parms: PredictorParms, a: int, j: nat)
    requires
        parms.bits_per_component == BitsPerComponent::Eight,
        0 <= a <= bytes.len(),
    ensures
        ({
            let c = parms.colors.spec_value() as int;
            &&& a + j * c <= bytes.len() ==> read_columns(bytes, parms, 8 * a, j) == (
            Ok::<Seq<Seq<u8>>, TiffError>(byte_samples(bytes, a, c, j)), 8 * (a + j * c))
            &&& read_columns(bytes, parms, 8 * a, j).0 is Ok ==> a + j * c <= bytes.len()
        }),
    decreases j,
{
    let c = parms.colors.spec_value() as int;
    if j == 0 {
        assert(byte_samples(bytes, a, c, 0) =~= Seq::<Seq<u8>>::empty());
    } else {
        lemma_read_columns_bytes(bytes, parms, a, (j - 1) as nat);
        lemma_mul_steps(a, j - 1, c);
        let b = a + (j - 1) * c;
        if b <= bytes.len() {
            lemma_read_colors_bytes(bytes, parms, b, c as nat);
        }
        if a + j * c <= bytes.len() {
            assert(b < bytes.len());
            assert(byte_samples(bytes, a, c, (j - 1) as nat).push(bytes.subrange(b, b + c)) =~= byte_samples(
                bytes,
                a,
                c,
                j,
            ));
        }
    }
}

/// With whole bytes as components, a row is read at the byte `a` when its
/// bytes are there; at the end of the data there is no row.
proof fn lemma_next_row_bytes(bytes: Seq<u8>, parms: PredictorParms, a: int)
    requires
        parms.bits_per_component == BitsPerComponent::Eight,
        parms.columns.0 >= 1,
        0 <= a <= bytes.len(),
    ensures
        ({
            let c = parms.colors.spec_value() as int;
            let n = parms.columns.0 as nat;
            let k = n * c;
            &&& a == bytes.len() ==> spec_next_row(bytes, parms, 8 * a) == (
            Ok::<Option<Seq<Seq<u8>>>, TiffError>(None), 8 * a)
            &&& a < bytes.len() && a + k <= bytes.len() ==> spec_next_row(bytes, parms, 8 * a) == (
            Ok::<Option<Seq<Seq<u8>>>, TiffError>(Some(byte_samples(bytes, a, c, n))), 8 * (a + k))
            &&& a < bytes.len() && spec_next_row(bytes, parms, 8 * a).0 is Ok ==> a + k <= bytes.len()
                && spec_next_row(bytes, parms, 8 * a).0 != Ok::<Option<Seq<Seq<u8>>>, TiffError>(None)
        }),
{
    let c = parms.colors.spec_value() as int;
    let n = parms.columns.0 as nat;
    lemma_read_columns_bytes(bytes, parms, a, n);
    assert((8 * (a + n * c)) % 8 == 0);
}

/// With whole bytes as components, writing components pushes them.
proof fn lemma_write_all_bytes(buf: Seq<u8>, cache: u8, parms: PredictorParms, cs: Seq<u8>)
    requires
        parms.bits_per_component == BitsPerComponent::Eight,
    ensures
        write_all((buf, cache, 0), parms, cs) == Ok::<WriterState, TiffError>((buf + cs, cache, 0)),
    decreases cs.len(),
{
    if cs.len() == 0 {
        assert(buf + cs =~= buf);
    } else {
        lemma_write_all_bytes(buf, cache, parms, cs.drop_last());
        assert((buf + cs.drop_last()).push(cs.last()) =~= buf + cs);
    }
}

/// Writing components keeps what was written before.
proof fn lemma_write_all_extends(state: WriterState, parms: PredictorParms, cs: Seq<u8>)
    ensures
        write_all(state, parms, cs) matches Ok(s2) ==> state.0.len() <= s2.0.len() && s2.0.take(
            state.0.len() as int,
        ) == state.0,
    decreases cs.len(),
{
    if cs.len() > 0 {
        lemma_write_all_extends(state, parms, cs.drop_last());
        if let Ok(s1) = write_all(state, parms, cs.drop_last()) {
            if let Ok(s2) = spec_write_component(s1, parms, cs.last()) {
                assert(s2.0.take(state.0.len() as int) =~= s1.0.take(state.0.len() as int));
            }
        }
    }
}

/// The output of the rows starts with what was written before them.
proof fn lemma_tiff_rows_extends(encode: bool, bytes: Seq<u8>, parms: PredictorParms, loc: int, state: WriterState)
    ensures
        tiff_rows(encode, bytes, parms, loc, state) matches Ok(out) ==> state.0.len() <= out.len() && out.take(
            state.0.len() as int,
        ) == state.0,
    decreases bytes.len() * 8 - loc,
{
    let (r, l) = spec_next_row(bytes, parms, loc);
    if let Ok(Some(row)) = r {
        let cs = tiff_row_components(encode, row, parms);
        lemma_write_all_extends(state, parms, cs);
        if let Ok(written) = write_all(state, parms, cs) {
            let flushed = spec_flush_row(written);
            assert(flushed.0.take(state.0.len() as int) =~= written.0.take(state.0.len() as int));
            if loc < l <= bytes.len() * 8 {
                lemma_tiff_rows_extends(encode, bytes, parms, l, flushed);
                if let Ok(out) = tiff_rows(encode, bytes, parms, l, flushed) {
                    assert(out.take(state.0.len() as int) =~= out.take(flushed.0.len() as int).take(
                        state.0.len() as int,
                    ));
                }
            }
        }
    }
}

/// With whole bytes as components, the sum of a difference and the
/// component before gives the component back.
proof fn lemma_sums_differences(prev: Seq<u8>, x: Seq<u8>)
    requires
        prev.len() == x.len(),
    ensures
        tiff_sums(prev, tiff_differences(prev, x, 8), 8) == x,
{
    assert(forall|v: u8| v & 255u8 == v) by (bit_vector);
    let d = tiff_differences(prev, x, 8);
    assert forall|i: int| 0 <= i < x.len() implies tiff_sums(prev, d, 8)[i] == x[i] by {
        assert(d[i] == ((x[i] - prev[i] + 256) % 256) as u8);
    }
    assert(tiff_sums(prev, d, 8) =~= x);
}

/// The components that the encoder writes for the first `j` samples of a
/// row are, sample by sample, their differences, and the decoder rebuilds
/// those samples from them.
proof fn lemma_tiff_row_roundtrip(row: Seq<Seq<u8>>, c: nat, j: nat)
    requires
        j <= row.len(),
        forall|t: int| 0 <= t < row.len() ==> (#[trigger] row[t]).len() == c,
    ensures
        ({
            let d = tiff_filter_components(row, c, 8, j);
            &&& d.len() == j * c
            &&& tiff_defilter_samples(byte_samples(d, 0, c as int, j), c, 8, j) == row.take(j as int)
        }),
    decreases j,
{
    let d = tiff_filter_components(row, c, 8, j);
    if j == 0 {
        assert(row.take(0) =~= Seq::<Seq<u8>>::empty());
    } else {
        lemma_tiff_row_roundtrip(row, c, (j - 1) as nat);
        let d0 = tiff_filter_components(row, c, 8, (j - 1) as nat);
        let prev = if j == 1 { Seq::new(c, |i: int| 0u8) } else { row[j - 2] };
        let diff = tiff_differences(prev, row[j - 1], 8);
        assert(d == d0 + diff);
        lemma_mul_steps(0, j - 1, c as int);
        let chunks = byte_samples(d, 0, c as int, j);
        let chunks0 = byte_samples(d0, 0, c as int, (j - 1) as nat);
        assert forall|t: int| 0 <= t < j - 1 implies chunks[t] == chunks0[t] by {
            lemma_mul_steps(0, t, c as int);
            assert((t + 1) * c <= (j - 1) * c) by (nonlinear_arith)
                requires
                    t + 1 <= j - 1,
            ;
            assert(chunks[t] =~= chunks0[t]);
        }
        assert(chunks.take(j - 1) =~= chunks0);
        assert(chunks[j - 1] =~= diff);
        let samples0 = tiff_defilter_samples(chunks0, c, 8, (j - 1) as nat);
        super::tiff::lemma_samples_prefix(chunks, c, 8, (j - 1) as nat, j);
        lemma_tiff_defilter_samples_take(chunks, c, (j - 1) as nat);
        lemma_sums_differences(prev, row[j - 1]);
        assert(row.take(j - 1).push(row[j - 1]) =~= row.take(j as int));
    }
}

/// The decoder's samples depend only on the chunks read so far.
proof fn lemma_tiff_defilter_samples_take(chunks: Seq<Seq<u8>>, c: nat, j: nat)
    requires
        j <= chunks.len(),
    ensures
        tiff_defilter_samples(chunks.take(j as int), c, 8, j) == tiff_defilter_samples(chunks, c, 8, j),
    decreases j,
{
    if j > 0 {
        lemma_tiff_defilter_samples_take(chunks, c, (j - 1) as nat);
        lemma_tiff_defilter_samples_take(chunks.take(j as int), c, (j - 1) as nat);
        assert(chunks.take(j as int).take(j - 1) =~= chunks.take(j - 1));
        lemma_tiff_defilter_samples_take(chunks.take(j - 1), c, (j - 1) as nat);
    }
}

/// The components of samples read from the bytes at `a` are those bytes.
proof fn lemma_flatten_byte_samples(x: Seq<u8>, a: int, c: int, j: nat)
    requires
        0 <= a,
        c >= 0,
        a + j * c <= x.len(),
    ensures
        flatten_samples(byte_samples(x, a, c, j)) == x.subrange(a, a + j * c),
    decreases j,
{
    lemma_mul_steps(a, j - 1, c);
    if j == 0 {
        assert(x.subrange(a, a) =~= Seq::<u8>::empty());
    } else {
        assert(a + (j - 1) * c <= a + j * c) by (nonlinear_arith)
            requires
                c >= 0,
                j >= 1,
        ;
        lemma_flatten_byte_samples(x, a, c, (j - 1) as nat);
        let s = byte_samples(x, a, c, j);
        assert(s.drop_last() =~= byte_samples(x, a, c, (j - 1) as nat));
        assert(x.subrange(a, a + (j - 1) * c) + x.subrange(a + (j - 1) * c, a + j * c) =~= x.subrange(a, a + j * c));
    }
}

/// The samples of `n` samples of `c` bytes from `a` have `c` bytes each.
proof fn lemma_byte_samples_len(x: Seq<u8>, a: int, c: int, n: nat)
    requires
        0 <= a,
        c >= 0,
        a + n * c <= x.len(),
    ensures
        forall|t: int| 0 <= t < n ==> (#[trigger] byte_samples(x, a, c, n)[t]).len() == c,
{
    assert forall|t: int| 0 <= t < n implies (#[trigger] byte_samples(x, a, c, n)[t]).len() == c by {
        lemma_mul_steps(a, t, c);
        assert((t + 1) * c <= n * c) by (nonlinear_arith)
            requires
                t + 1 <= n,
                c >= 0,
        ;
    }
}

/// The samples read at `a` from bytes that hold `d` there are those of `d`.
proof fn lemma_byte_samples_shift(x: Seq<u8>, d: Seq<u8>, a: int, c: int, n: nat)
    requires
        0 <= a,
        c >= 0,
        d.len() == n * c,
        a + n * c <= x.len(),
        x.subrange(a, a + n * c) == d,
    ensures
        byte_samples(x, a, c, n) == byte_samples(d, 0, c, n),
{
    assert forall|t: int| 0 <= t < n implies byte_samples(x, a, c, n)[t] =~= byte_samples(d, 0, c, n)[t] by {
        lemma_mul_steps(a, t, c);
        lemma_mul_steps(0, t, c);
        assert((t + 1) * c <= n * c) by (nonlinear_arith)
            requires
                t + 1 <= n,
                c >= 0,
        ;
        assert forall|i: int| 0 <= i < c implies byte_samples(x, a, c, n)[t][i] == byte_samples(d, 0, c, n)[t][i] by {
            assert(x.subrange(a, a + n * c)[t * c + i] == x[a + t * c + i]);
        }
    }
    assert(byte_samples(x, a, c, n) =~= byte_samples(d, 0, c, n));
}

/// The encoder's step over the row at the byte `a`: it writes the row's
/// differences, as many bytes as the row.
proof fn lemma_tiff_filter_row_step(bytes: Seq<u8>, encoded: Seq<u8>, parms: PredictorParms, a: int)
    requires
        parms.bits_per_component == BitsPerComponent::Eight,
        parms.columns.0 >= 1,
        0 <= a < bytes.len(),
        a <= encoded.len(),
        tiff_rows(true, bytes, parms, 8 * a, (encoded.take(a), 0, 0)) == Ok::<Seq<u8>, TiffError>(encoded),
    ensures
        ({
            let c = parms.colors.spec_value() as int;
            let n = parms.columns.0 as nat;
            let k = n * c;
            let row = byte_samples(bytes, a, c, n);
            let diffs = tiff_filter_components(row, c as nat, 8, n);
            &&& k >= 1
            &&& a + k <= bytes.len()
            &&& a + k <= encoded.len()
            &&& diffs.len() == k
            &&& encoded.subrange(a, a + k) == diffs
            &&& tiff_rows(true, bytes, parms, 8 * (a + k), (encoded.take(a + k), 0, 0)) == Ok::<Seq<u8>, TiffError>(
                encoded,
            )
        }),
{
    let c = parms.colors.spec_value() as int;
    let n = parms.columns.0 as nat;
    let k = n * c;
    assert(n * c >= 1) by (nonlinear_arith)
        requires
            n >= 1,
            c >= 1,
    ;
    lemma_next_row_bytes(bytes, parms, a);
    let row = byte_samples(bytes, a, c, n);
    assert(a + k <= bytes.len());
    lemma_byte_samples_len(bytes, a, c, n);
    let diffs = tiff_filter_components(row, c as nat, 8, n);
    assert(tiff_row_components(true, row, parms) == diffs);
    lemma_tiff_row_roundtrip(row, c as nat, n);
    lemma_write_all_bytes(encoded.take(a), 0, parms, diffs);
    let next = encoded.take(a) + diffs;
    assert(spec_flush_row((next, 0u8, 0int)) == (next, 0u8, 0int));
    lemma_tiff_rows_extends(true, bytes, parms, 8 * (a + k), (next, 0, 0));
    assert(tiff_rows(true, bytes, parms, 8 * (a + k), (next, 0, 0)) == Ok::<Seq<u8>, TiffError>(encoded));
    assert(encoded.take(a + k) =~= next);
    assert(encoded.subrange(a, a + k) =~= next.subrange(a, a + k));
    assert(next.subrange(a, a + k) =~= diffs);
}

/// The decoder's step over the row at the byte `a` of the encoding: it
/// rebuilds the row of the data.
proof fn lemma_tiff_defilter_row_step(bytes: Seq<u8>, encoded: Seq<u8>, parms: PredictorParms, a: int)
    requires
        parms.bits_per_component == BitsPerComponent::Eight,
        parms.columns.0 >= 1,
        0 <= a < bytes.len(),
        ({
            let c = parms.colors.spec_value() as int;
            let n = parms.columns.0 as nat;
            let k = n * c;
            let row = byte_samples(bytes, a, c, n);
            let diffs = tiff_filter_components(row, c as nat, 8, n);
            &&& k >= 1
            &&& a + k <= bytes.len()
            &&& a + k <= encoded.len()
            &&& diffs.len() == k
            &&& encoded.subrange(a, a + k) == diffs
        }),
    ensures
        tiff_rows(false, encoded, parms, 8 * a, (bytes.take(a), 0, 0)) == tiff_rows(
            false,
            encoded,
            parms,
            8 * (a + parms.columns.0 * parms.colors.spec_value()),
            (bytes.take(a + parms.columns.0 * parms.colors.spec_value()), 0, 0),
        ),
{
    let c = parms.colors.spec_value() as int;
    let n = parms.columns.0 as nat;
    let k = n * c;
    let row = byte_samples(bytes, a, c, n);
    let diffs = tiff_filter_components(row, c as nat, 8, n);
    lemma_byte_samples_len(bytes, a, c, n);
    lemma_tiff_row_roundtrip(row, c as nat, n);
    lemma_next_row_bytes(encoded, parms, a);
    let read = byte_samples(encoded, a, c, n);
    lemma_byte_samples_shift(encoded, diffs, a, c, n);
    assert(row.take(n as int) =~= row);
    let rebuilt = tiff_row_components(false, read, parms);
    assert(rebuilt == flatten_samples(row));
    lemma_flatten_byte_samples(bytes, a, c, n);
    lemma_write_all_bytes(bytes.take(a), 0, parms, rebuilt);
    assert(bytes.take(a) + rebuilt =~= bytes.take(a + k));
    assert(spec_flush_row((bytes.take(a + k), 0u8, 0int)) == (bytes.take(a + k), 0u8, 0int));
}

/// With whole bytes as components: when the encoder, from the row at the
/// byte `a` on, writes `encoded`, having written its first `a` bytes, the
/// decoder rebuilds the data from that row on.
proof fn lemma_tiff_rows_roundtrip_bytes(bytes: Seq<u8>, encoded: Seq<u8>, parms: PredictorParms, a: int)
    requires
        parms.bits_per_component == BitsPerComponent::Eight,
        parms.columns.0 >= 1,
        0 <= a <= bytes.len(),
        a <= encoded.len(),
        tiff_rows(true, bytes, parms, 8 * a, (encoded.take(a), 0, 0)) == Ok::<Seq<u8>, TiffError>(encoded),
    ensures
        tiff_rows(false, encoded, parms, 8 * a, (bytes.take(a), 0, 0)) == Ok::<Seq<u8>, TiffError>(bytes),
    decreases bytes.len() - a,
{
    if a == bytes.len() {
        lemma_next_row_bytes(bytes, parms, a);
        assert(encoded.take(a) == encoded);
        lemma_next_row_bytes(encoded, parms, a);
        assert(bytes.take(a) =~= bytes);
    } else {
        lemma_tiff_filter_row_step(bytes, encoded, parms, a);
        let k = parms.columns.0 * parms.colors.spec_value();
        lemma_tiff_rows_roundtrip_bytes(bytes, encoded, parms, a + k);
        lemma_tiff_defilter_row_step(bytes, encoded, parms, a);
    }
}

/// REFERENCE: [[TIFF 6.0 Specification] Section 14: Differencing Predictor,
/// p64]: with rows of at least one column, decoding what the TIFF predictor
/// encoded gives the data back.
pub proof fn lemma_tiff_roundtrip(tiff: Tiff, bytes: Seq<u8>)
    requires
        tiff.parms.columns.0 >= 1,
    ensures
        spec_tiff_filter(tiff, bytes) matches Ok(encoded) ==> spec_tiff_defilter(tiff, encoded) == Ok::<
            Seq<u8>,
            TiffError,
        >(bytes),
{
    if let Ok(encoded) = spec_tiff_filter(tiff, bytes) {
        assert(encoded.take(0) =~= Seq::<u8>::empty());
        assert(bytes.take(0) =~= Seq::<u8>::empty());
        if tiff.parms.bits_per_component == BitsPerComponent::Eight {
            lemma_tiff_rows_roundtrip_bytes(bytes, encoded, tiff.parms, 0);
        } else {
            let b = tiff.parms.bits_per_component.spec_value();
            lemma_tiff_rows_roundtrip_bits(bytes, encoded, tiff.parms, b, 0);
        }
    }
}

/// The sum of a difference and the component before gives the component
/// back, for components of `b` bits.
proof fn lemma_sums_differences_width(prev: Seq<u8>, x: Seq<u8>, b: usize)
    requires
        prev.len() == x.len(),
        b == 1 || b == 2 || b == 4 || b == 8,
        forall|i: int| 0 <= i < x.len() ==> x[i] <= component_mask(b) && prev[i] <= component_mask(b),
    ensures
        tiff_sums(prev, tiff_differences(prev, x, b), b) == x,
        forall|i: int| 0 <= i < x.len() ==> (#[trigger] tiff_differences(prev, x, b)[i]) <= component_mask(b),
{
    let d = tiff_differences(prev, x, b);
    assert(forall|v: u8, m: u8| #[trigger] (v & m) <= m) by (bit_vector);
    if b == 8 {
        lemma_sums_differences(prev, x);
    } else {
        assert forall|i: int| 0 <= i < x.len() implies tiff_sums(prev, d, b)[i] == x[i] by {
            let xi = x[i];
            let pi = prev[i];
            let m = component_mask(b);
            assert(d[i] == (((xi - pi + 256) % 256) as u8) & m);
            if b == 1 {
                assert(xi <= 1 && pi <= 1 ==> ((((((((xi - pi + 256) % 256) as u8) & 1u8) + pi) % 256) as u8) & 1u8)
                    == xi) by (bit_vector);
            } else if b == 2 {
                assert(xi <= 3 && pi <= 3 ==> ((((((((xi - pi + 256) % 256) as u8) & 3u8) + pi) % 256) as u8) & 3u8)
                    == xi) by (bit_vector);
            } else {
                assert(xi <= 15 && pi <= 15 ==> ((((((((xi - pi + 256) % 256) as u8) & 15u8) + pi) % 256) as u8)
                    & 15u8) == xi) by (bit_vector);
            }
        }
        assert(tiff_sums(prev, d, b) =~= x);
    }
}

/// The components that the encoder writes for the first `j` samples of a
/// row of components of `b` bits are, sample by sample, their differences,
/// and the decoder rebuilds those samples from them.
proof fn lemma_tiff_row_roundtrip_width(row: Seq<Seq<u8>>, c: nat, j: nat, b: usize)
    requires
        j <= row.len(),
        b == 1 || b == 2 || b == 4 || b == 8,
        forall|t: int| 0 <= t < row.len() ==> (#[trigger] row[t]).len() == c,
        forall|t: int, i: int| 0 <= t < row.len() && 0 <= i < c ==> #[trigger] row[t][i] <= component_mask(b),
    ensures
        ({
            let d = tiff_filter_components(row, c, b, j);
            &&& d.len() == j * c
            &&& forall|i: int| 0 <= i < d.len() ==> #[trigger] d[i] <= component_mask(b)
            &&& tiff_defilter_samples(byte_samples(d, 0, c as int, j), c, b, j) == row.take(j as int)
        }),
    decreases j,
{
    let d = tiff_filter_components(row, c, b, j);
    if j == 0 {
        assert(row.take(0) =~= Seq::<Seq<u8>>::empty());
    } else {
        lemma_tiff_row_roundtrip_width(row, c, (j - 1) as nat, b);
        let d0 = tiff_filter_components(row, c, b, (j - 1) as nat);
        let prev = if j == 1 { Seq::new(c, |i: int| 0u8) } else { row[j - 2] };
        let diff = tiff_differences(prev, row[j - 1], b);
        assert(d == d0 + diff);
        assert(forall|i: int| 0 <= i < prev.len() ==> prev[i] <= component_mask(b));
        lemma_sums_differences_width(prev, row[j - 1], b);
        lemma_mul_steps(0, j - 1, c as int);
        assert forall|i: int| 0 <= i < d.len() implies #[trigger] d[i] <= component_mask(b) by {
            if i >= d0.len() {
                assert(d[i] == diff[i - d0.len()]);
            }
        }
        let chunks = byte_samples(d, 0, c as int, j);
        let chunks0 = byte_samples(d0, 0, c as int, (j - 1) as nat);
        assert forall|t: int| 0 <= t < j - 1 implies chunks[t] == chunks0[t] by {
            lemma_mul_steps(0, t, c as int);
            assert((t + 1) * c <= (j - 1) * c) by (nonlinear_arith)
                requires
                    t + 1 <= j - 1,
            ;
            assert(chunks[t] =~= chunks0[t]);
        }
        assert(chunks.take(j - 1) =~= chunks0);
        assert(chunks[j - 1] =~= diff);
        super::tiff::lemma_samples_prefix(chunks, c, b, (j - 1) as nat, j);
        lemma_tiff_defilter_samples_take_width(chunks, c, (j - 1) as nat, b);
        assert(row.take(j - 1).push(row[j - 1]) =~= row.take(j as int));
    }
}

/// The decoder's samples depend only on the chunks read so far.
proof fn lemma_tiff_defilter_samples_take_width(chunks: Seq<Seq<u8>>, c: nat, j: nat, b: usize)
    requires
        j <= chunks.len(),
    ensures
        tiff_defilter_samples(chunks.take(j as int), c, b, j) == tiff_defilter_samples(chunks, c, b, j),
    decreases j,
{
    if j > 0 {
        lemma_tiff_defilter_samples_take_width(chunks, c, (j - 1) as nat, b);
        lemma_tiff_defilter_samples_take_width(chunks.take(j as int), c, (j - 1) as nat, b);
        assert(chunks.take(j as int).take(j - 1) =~= chunks.take(j - 1));
        lemma_tiff_defilter_samples_take_width(chunks.take(j - 1), c, (j - 1) as nat, b);
    }
}

/// The components read from bytes fit in their width.
proof fn lemma_unpack_in_mask(x: Seq<u8>, a: int, b: usize, k: nat)
    ensures
        forall|i: int| 0 <= i < k ==> #[trigger] unpack(x, a, b, k)[i] <= component_mask(b),
{
    assert(forall|v: u8, m: u8| #[trigger] (v & m) <= m) by (bit_vector);
}

/// The components read at `a` from bytes that hold `e` there are those of
/// `e`.
proof fn lemma_unpack_shift(x: Seq<u8>, e: Seq<u8>, a: int, b: usize, k: nat)
    requires
        0 <= a,
        b == 1 || b == 2 || b == 4,
        e.len() == row_bytes(k, b),
        a + e.len() <= x.len(),
        x.subrange(a, a + e.len()) == e,
    ensures
        unpack(x, a, b, k) == unpack(e, 0, b, k),
{
    let p = per_byte(b) as int;
    assert forall|i: int| 0 <= i < k implies unpack(x, a, b, k)[i] == unpack(e, 0, b, k)[i] by {
        assert(i / p < row_bytes(k, b) && i / p >= 0) by (nonlinear_arith)
            requires
                0 <= i < k,
                p >= 1,
                row_bytes(k, b) == (if k as int % p == 0 { k as int / p } else { k as int / p + 1 }),
        ;
        assert(x.subrange(a, a + e.len())[i / p] == x[a + i / p]);
    }
    assert(unpack(x, a, b, k) =~= unpack(e, 0, b, k));
}

/// The encoder's step over the row at the byte `a`, with components of
/// fewer bits than a byte: it writes the row's differences, packed in as
/// many bytes as the row.
#[verifier::rlimit(100)]
proof fn lemma_tiff_filter_row_step_bits(bytes: Seq<u8>, encoded: Seq<u8>, parms: PredictorParms, b: usize, a: int)
    requires
        narrow(parms, b),
        parms.columns.0 >= 1,
        0 <= a < bytes.len(),
        a <= encoded.len(),
        tiff_rows(true, bytes, parms, 8 * a, (encoded.take(a), 0, 0)) == Ok::<Seq<u8>, TiffError>(encoded),
    ensures
        ({
            let c = parms.colors.spec_value() as int;
            let n = parms.columns.0 as nat;
            let k = (n * c) as nat;
            let rb = row_bytes(k, b) as int;
            let u = unpack(bytes, a, b, k);
            let row = byte_samples(u, 0, c, n);
            let diffs = tiff_filter_components(row, c as nat, b, n);
            &&& rb >= 1
            &&& a + rb <= bytes.len()
            &&& row_padding_zero(bytes, a, k, b)
            &&& a + rb <= encoded.len()
            &&& diffs.len() == k
            &&& forall|i: int| 0 <= i < k ==> #[trigger] diffs[i] <= component_mask(b)
            &&& tiff_defilter_samples(byte_samples(diffs, 0, c, n), c as nat, b, n) == row
            &&& encoded.subrange(a, a + rb) == pack_row(diffs, b)
            &&& tiff_rows(true, bytes, parms, 8 * (a + rb), (encoded.take(a + rb), 0, 0)) == Ok::<Seq<u8>, TiffError>(
                encoded,
            )
        }),
{
    let c = parms.colors.spec_value() as int;
    let n = parms.columns.0 as nat;
    let k = (n * c) as nat;
    assert(n * c >= 1) by (nonlinear_arith)
        requires
            n >= 1,
            c >= 1,
    ;
    let rb = row_bytes(k, b) as int;
    assert(rb >= 1);
    lemma_next_row_bits(bytes, parms, b, a);
    let u = unpack(bytes, a, b, k);
    let row = byte_samples(u, 0, c, n);
    lemma_unpack_in_mask(bytes, a, b, k);
    lemma_byte_samples_len(u, 0, c, n);
    assert forall|t: int, i: int| 0 <= t < row.len() && 0 <= i < c implies #[trigger] row[t][i] <= component_mask(b) by {
        lemma_mul_steps(0, t, c);
        assert((t + 1) * c <= n * c) by (nonlinear_arith)
            requires
                t + 1 <= n,
                c >= 0,
        ;
        assert(row[t][i] == u[t * c + i]);
    }
    let diffs = tiff_filter_components(row, c as nat, b, n);
    assert(tiff_row_components(true, row, parms) == diffs);
    lemma_tiff_row_roundtrip_width(row, c as nat, n, b);
    assert(row.take(n as int) =~= row);
    lemma_write_row_bits(encoded.take(a), parms, b, diffs);
    lemma_unpack_pack(diffs, b);
    let next = encoded.take(a) + pack_row(diffs, b);
    lemma_tiff_rows_extends(true, bytes, parms, 8 * (a + rb), (next, 0, 0));
    assert(tiff_rows(true, bytes, parms, 8 * (a + rb), (next, 0, 0)) == Ok::<Seq<u8>, TiffError>(encoded));
    assert(encoded.take(a + rb) =~= next);
    assert(encoded.subrange(a, a + rb) =~= next.subrange(a, a + rb));
    assert(next.subrange(a, a + rb) =~= pack_row(diffs, b));
}

/// The decoder's step over the row at the byte `a` of the encoding, with
/// components of fewer bits than a byte: it rebuilds the row of the data.
#[verifier::rlimit(100)]
proof fn lemma_tiff_defilter_row_step_bits(bytes: Seq<u8>, encoded: Seq<u8>, parms: PredictorParms, b: usize, a: int)
    requires
        narrow(parms, b),
        parms.columns.0 >= 1,
        0 <= a < bytes.len(),
        ({
            let c = parms.colors.spec_value() as int;
            let n = parms.columns.0 as nat;
            let k = (n * c) as nat;
            let rb = row_bytes(k, b) as int;
            let u = unpack(bytes, a, b, k);
            let row = byte_samples(u, 0, c, n);
            let diffs = tiff_filter_components(row, c as nat, b, n);
            &&& rb >= 1
            &&& a + rb <= bytes.len()
            &&& row_padding_zero(bytes, a, k, b)
            &&& a + rb <= encoded.len()
            &&& diffs.len() == k
            &&& forall|i: int| 0 <= i < k ==> #[trigger] diffs[i] <= component_mask(b)
            &&& tiff_defilter_samples(byte_samples(diffs, 0, c, n), c as nat, b, n) == row
            &&& encoded.subrange(a, a + rb) == pack_row(diffs, b)
        }),
    ensures
        tiff_rows(false, encoded, parms, 8 * a, (bytes.take(a), 0, 0)) == tiff_rows(
            false,
            encoded,
            parms,
            8 * (a + row_bytes((parms.columns.0 * parms.colors.spec_value()) as nat, b)),
            (bytes.take(a + row_bytes((parms.columns.0 * parms.colors.spec_value()) as nat, b)), 0, 0),
        ),
{
    let c = parms.colors.spec_value() as int;
    let n = parms.columns.0 as nat;
    let k = (n * c) as nat;
    let rb = row_bytes(k, b) as int;
    let u = unpack(bytes, a, b, k);
    let row = byte_samples(u, 0, c, n);
    let diffs = tiff_filter_components(row, c as nat, b, n);
    lemma_unpack_pack(diffs, b);
    let e = pack_row(diffs, b);
    lemma_unpack_shift(encoded, e, a, b, k);
    assert(row_padding_zero(encoded, a, k, b)) by {
        let p = per_byte(b) as int;
        if k as int % p != 0 {
            assert(k as int / p < rb);
            assert(encoded.subrange(a, a + rb)[k as int / p] == encoded[a + k as int / p]);
        }
    }
    lemma_next_row_bits(encoded, parms, b, a);
    let read = byte_samples(unpack(encoded, a, b, k), 0, c, n);
    assert(read == byte_samples(diffs, 0, c, n));
    let rebuilt = tiff_row_components(false, read, parms);
    assert(rebuilt == flatten_samples(row));
    assert(n * c == k);
    lemma_flatten_byte_samples(u, 0, c, n);
    assert(u.subrange(0, k as int) =~= u);
    lemma_unpack_in_mask(bytes, a, b, k);
    lemma_write_row_bits(bytes.take(a), parms, b, u);
    lemma_pack_unpack(bytes, a, b, k);
    assert(bytes.take(a) + bytes.subrange(a, a + rb) =~= bytes.take(a + rb));
}

/// With components of fewer bits than a byte: when the encoder, from the
/// row at the byte `a` on, writes `encoded`, having written its first `a`
/// bytes, the decoder rebuilds the data from that row on.
proof fn lemma_tiff_rows_roundtrip_bits(bytes: Seq<u8>, encoded: Seq<u8>, parms: PredictorParms, b: usize, a: int)
    requires
        narrow(parms, b),
        parms.columns.0 >= 1,
        0 <= a <= bytes.len(),
        a <= encoded.len(),
        tiff_rows(true, bytes, parms, 8 * a, (encoded.take(a), 0, 0)) == Ok::<Seq<u8>, TiffError>(encoded),
    ensures
        tiff_rows(false, encoded, parms, 8 * a, (bytes.take(a), 0, 0)) == Ok::<Seq<u8>, TiffError>(bytes),
    decreases bytes.len() - a,
{
    if a == bytes.len() {
        lemma_next_row_bits(bytes, parms, b, a);
        assert(encoded.take(a) == encoded);
        lemma_next_row_bits(encoded, parms, b, a);
        assert(bytes.take(a) =~= bytes);
    } else {
        lemma_tiff_filter_row_step_bits(bytes, encoded, parms, b, a);
        let rb = row_bytes((parms.columns.0 * parms.colors.spec_value()) as nat, b) as int;
        lemma_tiff_rows_roundtrip_bits(bytes, encoded, parms, b, a + rb);
        lemma_tiff_defilter_row_step_bits(bytes, encoded, parms, b, a);
    }
}

} // verus!
