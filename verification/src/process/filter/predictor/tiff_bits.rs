use super::tiff::component_mask;
use super::tiff::low_bits;
use super::tiff::read_colors;
use super::tiff::read_columns;
use super::tiff::spec_next_bits;
use super::tiff::spec_next_colors;
use super::tiff_roundtrip::byte_samples;
use super::tiff::spec_next_row;
use super::tiff::spec_flush_row;
use super::tiff::spec_write_component;
use super::tiff::write_all;
use super::tiff::TiffError;
use super::tiff::WriterState;
use super::BitsPerComponent;
use super::PredictorParms;
use vstd::prelude::*;

verus! {

/// The `t`th component of `b` bits of the byte `v`, the most significant
/// first, as the reader takes it.
pub open spec fn byte_component(v: u8, t: int, b: usize) -> u8 {
    (v >> ((8 - (t + 1) * b) as u8)) & component_mask(b)
}

/// The number of components of `b` bits in a byte.
pub open spec fn per_byte(b: usize) -> nat {
    if b == 1 {
        8
    } else if b == 2 {
        4
    } else if b == 4 {
        2
    } else {
        1
    }
}

/// The components of `b` bits of the byte `v`.
pub open spec fn byte_components(v: u8, b: usize) -> Seq<u8> {
    Seq::new(per_byte(b), |t: int| byte_component(v, t, b))
}

/// The cache of the writer after the `q` components of `c` from `s`: each
/// shifts the bits before it up by `b`.
pub open spec fn fold_bits(c: Seq<u8>, s: int, q: nat, b: usize) -> u8
    decreases q,
{
    if q == 0 {
        0
    } else {
        (fold_bits(c, s, (q - 1) as nat, b) << (b as u8)) | c[s + q - 1]
    }
}

proof fn lemma_bits_4(c0: u8, c1: u8, v: u8)
    by (bit_vector)
    requires
        c0 <= 15,
        c1 <= 15,
    ensures
        ((((0u8 << 4u8) | c0) << 4u8) | c1) >> 4u8 & 15u8 == c0,
        ((((0u8 << 4u8) | c0) << 4u8) | c1) >> 0u8 & 15u8 == c1,
        (((0u8 << 4u8) | ((v >> 4u8) & 15u8)) << 4u8) | ((v >> 0u8) & 15u8) == v,
{
}

proof fn lemma_bits_2(c0: u8, c1: u8, c2: u8, c3: u8, v: u8)
    by (bit_vector)
    requires
        c0 <= 3,
        c1 <= 3,
        c2 <= 3,
        c3 <= 3,
    ensures
        ({
            let w = ((((((((0u8 << 2u8) | c0) << 2u8) | c1) << 2u8) | c2) << 2u8) | c3);
            &&& (w >> 6u8) & 3u8 == c0
            &&& (w >> 4u8) & 3u8 == c1
            &&& (w >> 2u8) & 3u8 == c2
            &&& (w >> 0u8) & 3u8 == c3
        }),
        ((((((((0u8 << 2u8) | ((v >> 6u8) & 3u8)) << 2u8) | ((v >> 4u8) & 3u8)) << 2u8) | ((v >> 2u8) & 3u8)) << 2u8)
            | ((v >> 0u8) & 3u8)) == v,
{
}

proof fn lemma_bits_1(c0: u8, c1: u8, c2: u8, c3: u8, c4: u8, c5: u8, c6: u8, c7: u8, v: u8)
    by (bit_vector)
    requires
        c0 <= 1,
        c1 <= 1,
        c2 <= 1,
        c3 <= 1,
        c4 <= 1,
        c5 <= 1,
        c6 <= 1,
        c7 <= 1,
    ensures
        ({
            let w = ((((((((((((((((0u8 << 1u8) | c0) << 1u8) | c1) << 1u8) | c2) << 1u8) | c3) << 1u8) | c4) << 1u8)
                | c5) << 1u8) | c6) << 1u8) | c7);
            &&& (w >> 7u8) & 1u8 == c0
            &&& (w >> 6u8) & 1u8 == c1
            &&& (w >> 5u8) & 1u8 == c2
            &&& (w >> 4u8) & 1u8 == c3
            &&& (w >> 3u8) & 1u8 == c4
            &&& (w >> 2u8) & 1u8 == c5
            &&& (w >> 1u8) & 1u8 == c6
            &&& (w >> 0u8) & 1u8 == c7
        }),
        ((((((((((((((((0u8 << 1u8) | ((v >> 7u8) & 1u8)) << 1u8) | ((v >> 6u8) & 1u8)) << 1u8) | ((v >> 5u8) & 1u8))
            << 1u8) | ((v >> 4u8) & 1u8)) << 1u8) | ((v >> 3u8) & 1u8)) << 1u8) | ((v >> 2u8) & 1u8)) << 1u8) | ((v
            >> 1u8) & 1u8)) << 1u8) | ((v >> 0u8) & 1u8)) == v,
{
}

/// A full byte of components written one after the other reads back as
/// those components, and a byte is written back from its components.
pub proof fn lemma_full_byte(c: Seq<u8>, s: int, b: usize, v: u8)
    requires
        b == 1 || b == 2 || b == 4,
        0 <= s,
        s + per_byte(b) <= c.len(),
        forall|i: int| s <= i < s + per_byte(b) ==> c[i] <= component_mask(b),
    ensures
        forall|t: int| 0 <= t < per_byte(b) ==> byte_component(fold_bits(c, s, per_byte(b), b), t, b) == c[s + t],
        fold_bits(byte_components(v, b), 0, per_byte(b), b) == v,
{
    reveal_with_fuel(fold_bits, 9);
    let d = byte_components(v, b);
    if b == 4 {
        lemma_bits_4(c[s], c[s + 1], v);
        assert(d[0] == (v >> 4u8) & 15u8 && d[1] == (v >> 0u8) & 15u8);
    } else if b == 2 {
        lemma_bits_2(c[s], c[s + 1], c[s + 2], c[s + 3], v);
        assert(d[0] == (v >> 6u8) & 3u8 && d[1] == (v >> 4u8) & 3u8 && d[2] == (v >> 2u8) & 3u8 && d[3] == (v >> 0u8) & 3u8);
    } else {
        lemma_bits_1(c[s], c[s + 1], c[s + 2], c[s + 3], c[s + 4], c[s + 5], c[s + 6], c[s + 7], v);
        assert(d[0] == (v >> 7u8) & 1u8 && d[1] == (v >> 6u8) & 1u8 && d[2] == (v >> 5u8) & 1u8 && d[3] == (v >> 4u8) & 1u8);
        assert(d[4] == (v >> 3u8) & 1u8 && d[5] == (v >> 2u8) & 1u8 && d[6] == (v >> 1u8) & 1u8 && d[7] == (v >> 0u8) & 1u8);
    }
}

/// The cache depends only on the components that it holds.
proof fn lemma_fold_bits_same(c: Seq<u8>, s: int, d: Seq<u8>, e: int, q: nat, b: usize)
    requires
        0 <= s,
        0 <= e,
        s + q <= c.len(),
        e + q <= d.len(),
        c.subrange(s, s + q) == d.subrange(e, e + q),
    ensures
        fold_bits(c, s, q, b) == fold_bits(d, e, q, b),
    decreases q,
{
    if q > 0 {
        assert(c.subrange(s, s + q - 1) == c.subrange(s, s + q).take(q - 1));
        assert(d.subrange(e, e + q - 1) == d.subrange(e, e + q).take(q - 1));
        lemma_fold_bits_same(c, s, d, e, (q - 1) as nat, b);
        let k = q - 1;
        assert(c.subrange(s, s + q)[k] == c[s + k]);
        assert(d.subrange(e, e + q)[k] == d[e + k]);
        assert(c[s + k] == d[e + k]);
    }
}

proof fn lemma_shl_shl(x: u8, k: u8, b: u8)
    by (bit_vector)
    requires
        k + b < 8,
    ensures
        ((x << k) << b) | 0u8 == x << ((k + b) as u8),
{
}

proof fn lemma_shl_zero(x: u8)
    by (bit_vector)
    ensures
        x << 0u8 == x,
{
}

/// Zero components after a cache shift it up.
proof fn lemma_fold_bits_zeros(c: Seq<u8>, s: int, q: nat, m: nat, b: usize)
    requires
        b == 1 || b == 2 || b == 4,
        (q + m) * b < 8 + b,
        q >= 1,
        (q + m) * b <= 8,
        forall|i: int| s + q <= i < s + q + m ==> c[i] == 0,
    ensures
        fold_bits(c, s, q + m, b) == fold_bits(c, s, q, b) << ((m * b) as u8),
    decreases m,
{
    if m == 0 {
        lemma_shl_zero(fold_bits(c, s, q, b));
    } else {
        lemma_fold_bits_zeros(c, s, q, (m - 1) as nat, b);
        assert(c[s + (q + m) - 1] == 0);
        assert((m - 1) * b + b == m * b) by (nonlinear_arith);
        assert(q * b >= b) by (nonlinear_arith)
            requires
                q >= 1,
                b >= 1,
        ;
        assert((q + m) * b == q * b + m * b) by (nonlinear_arith);
        lemma_shl_shl(fold_bits(c, s, q, b), ((m - 1) * b) as u8, b as u8);
    }
}

proof fn lemma_shl_low_bits(x: u8, k: u8)
    by (bit_vector)
    requires
        k < 8,
    ensures
        (x << k) & (((1u16 << (k as u16)) - 1) as u8) == 0,
{
}

proof fn lemma_low_bits_components(v: u8, k: u8, sh: u8, w: u8)
    by (bit_vector)
    requires
        1 <= w <= 4,
        sh + w <= k,
        k < 8,
        v & (((1u16 << (k as u16)) - 1) as u8) == 0,
    ensures
        (v >> sh) & (((1u16 << (w as u16)) - 1) as u8) == 0,
{
}

proof fn lemma_component_mask_bits(b: usize)
    requires
        b == 1 || b == 2 || b == 4,
    ensures
        component_mask(b) == (((1u16 << (b as u16)) - 1) as u8),
{
    assert(((1u16 << 1u16) - 1) as u8 == 1u8) by (bit_vector);
    assert(((1u16 << 2u16) - 1) as u8 == 3u8) by (bit_vector);
    assert(((1u16 << 4u16) - 1) as u8 == 15u8) by (bit_vector);
}

/// The last byte of a row, of `q` components padded with zero bits, reads
/// back as those components, and its padding bits are zero.
pub proof fn lemma_partial_byte(c: Seq<u8>, s: int, q: nat, b: usize)
    requires
        b == 1 || b == 2 || b == 4,
        1 <= q < per_byte(b),
        0 <= s,
        s + q <= c.len(),
        forall|i: int| s <= i < s + q ==> c[i] <= component_mask(b),
    ensures
        ({
            let v = fold_bits(c, s, q, b) << ((8 - q * b) as u8);
            &&& forall|t: int| 0 <= t < q ==> byte_component(v, t, b) == c[s + t]
            &&& low_bits(v, 8 - q * b) == 0
        }),
{
    let p = per_byte(b);
    assert(q * b < 8) by (nonlinear_arith)
        requires
            (b == 1 && q < 8) || (b == 2 && q < 4) || (b == 4 && q < 2),
    ;
    assert(p * b == 8);
    let padded = Seq::new(p, |t: int| if t < q { c[s + t] } else { 0u8 });
    assert(c.subrange(s, s + q) =~= padded.subrange(0, q as int));
    lemma_fold_bits_same(c, s, padded, 0, q, b);
    assert((q + (p - q)) * b == 8) by (nonlinear_arith)
        requires
            p * b == 8,
    ;
    assert(((p - q) * b) == 8 - q * b) by (nonlinear_arith)
        requires
            p * b == 8,
    ;
    lemma_fold_bits_zeros(padded, 0, q, (p - q) as nat, b);
    assert(q + (p - q) == p);
    lemma_full_byte(padded, 0, b, 0);
    let v = fold_bits(c, s, q, b) << ((8 - q * b) as u8);
    assert(fold_bits(padded, 0, p, b) == v);
    assert forall|t: int| 0 <= t < q implies byte_component(v, t, b) == c[s + t] by {
        assert(padded[t] == c[s + t]);
    }
    lemma_shl_low_bits(fold_bits(c, s, q, b), (8 - q * b) as u8);
}

/// A byte whose bits after its first `q` components are zero is written
/// back from those components.
pub proof fn lemma_partial_byte_components(v: u8, q: nat, b: usize)
    requires
        b == 1 || b == 2 || b == 4,
        1 <= q < per_byte(b),
        low_bits(v, 8 - q * b) == 0,
    ensures
        fold_bits(byte_components(v, b), 0, q, b) << ((8 - q * b) as u8) == v,
{
    let p = per_byte(b);
    let d = byte_components(v, b);
    assert(q * b < 8) by (nonlinear_arith)
        requires
            (b == 1 && q < 8) || (b == 2 && q < 4) || (b == 4 && q < 2),
    ;
    assert(p * b == 8);
    lemma_component_mask_bits(b);
    assert forall|t: int| q <= t < p implies d[t] == 0 by {
        assert((t + 1) * b <= 8 && q * b <= t * b) by (nonlinear_arith)
            requires
                q <= t < p,
                p * b == 8,
                b >= 1,
        ;
        lemma_low_bits_components(v, (8 - q * b) as u8, (8 - (t + 1) * b) as u8, b as u8);
    }
    assert(((p - q) * b) == 8 - q * b) by (nonlinear_arith)
        requires
            p * b == 8,
    ;
    assert((q + (p - q)) * b == 8) by (nonlinear_arith)
        requires
            p * b == 8,
    ;
    lemma_fold_bits_zeros(d, 0, q, (p - q) as nat, b);
    assert(q + (p - q) == p);
    lemma_components_in_mask(v, b);
    lemma_full_byte(d, 0, b, v);
}

/// The components of a byte fit in their width.
pub proof fn lemma_components_in_mask(v: u8, b: usize)
    ensures
        forall|t: int| 0 <= t < per_byte(b) ==> (#[trigger] byte_components(v, b)[t]) <= component_mask(b),
{
    assert(forall|x: u8, m: u8| #[trigger] (x & m) <= m) by (bit_vector);
}

/// The full bytes that the writer writes for the first `n` groups of
/// components of `c`.
pub open spec fn full_bytes(c: Seq<u8>, b: usize, n: nat) -> Seq<u8> {
    Seq::new(n, |j: int| fold_bits(c, j * per_byte(b), per_byte(b), b))
}

/// The bytes that the writer writes for the components `c` of a row: the
/// full bytes, then the last components padded with zero bits.
pub open spec fn pack_row(c: Seq<u8>, b: usize) -> Seq<u8> {
    let p = per_byte(b);
    let full = full_bytes(c, b, c.len() / p);
    let q = c.len() % p;
    if q == 0 {
        full
    } else {
        full.push(fold_bits(c, ((c.len() / p) * p) as int, q, b) << ((8 - q * b) as u8))
    }
}

/// The width of components of `b` bits, from the parameters.
pub open spec fn narrow(parms: PredictorParms, b: usize) -> bool {
    &&& b == parms.bits_per_component.spec_value()
    &&& b == 1 || b == 2 || b == 4
}

proof fn lemma_div_mod_step(k: int, p: int)
    requires
        k >= 1,
        p >= 1,
    ensures
        (k - 1) % p < p - 1 ==> k / p == (k - 1) / p && k % p == (k - 1) % p + 1,
        (k - 1) % p == p - 1 ==> k / p == (k - 1) / p + 1 && k % p == 0,
{
    let q = (k - 1) / p;
    let r = (k - 1) % p;
    assert(k - 1 == q * p + r && 0 <= r < p) by (nonlinear_arith)
        requires
            p >= 1,
            q == (k - 1) / p,
            r == (k - 1) % p,
    ;
    if r < p - 1 {
        assert(k / p == q && k % p == r + 1) by (nonlinear_arith)
            requires
                k == q * p + r + 1,
                0 <= r + 1 < p,
        ;
    } else {
        assert((q + 1) * p == q * p + p) by (nonlinear_arith);
        assert(k / p == q + 1 && k % p == 0) by (nonlinear_arith)
            requires
                k == (q + 1) * p,
                p >= 1,
        ;
    }
}

/// The writer after the first `k` components of `c`, from a byte boundary.
proof fn lemma_write_all_bits(buf: Seq<u8>, parms: PredictorParms, b: usize, c: Seq<u8>, k: nat)
    requires
        narrow(parms, b),
        k <= c.len(),
        forall|i: int| 0 <= i < c.len() ==> c[i] <= component_mask(b),
    ensures
        ({
            let p = per_byte(b);
            write_all((buf, 0, 0), parms, c.take(k as int)) == Ok::<WriterState, TiffError>(
                (
                    buf + full_bytes(c, b, k / p),
                    fold_bits(c, ((k / p) * p) as int, k % p, b),
                    ((k % p) * b) as int,
                ),
            )
        }),
    decreases k,
{
    let p = per_byte(b) as int;
    assert(p * b == 8);
    if k == 0 {
        assert(c.take(0) =~= Seq::<u8>::empty());
        assert(buf + full_bytes(c, b, 0) =~= buf);
    } else {
        lemma_write_all_bits(buf, parms, b, c, (k - 1) as nat);
        assert(c.take(k as int).drop_last() =~= c.take(k - 1));
        lemma_div_mod_step(k as int, p);
        let r = ((k - 1) % p) as nat;
        let s = ((k - 1) / p) * p;
        assert(r * b + b <= 8) by (nonlinear_arith)
            requires
                r < p,
                p * b == 8,
        ;
        assert(s + r == k - 1) by (nonlinear_arith)
            requires
                s == ((k - 1) / p) * p,
                r == (k - 1) % p,
                p >= 1,
        ;
        let nc = fold_bits(c, s, r + 1, b);
        assert(nc == (fold_bits(c, s, r, b) << (b as u8)) | c[k - 1]);
        let prev_buf = buf + full_bytes(c, b, ((k - 1) / p) as nat);
        let prev_state: WriterState = (prev_buf, fold_bits(c, s, r, b), (r * b) as int);
        assert(write_all((buf, 0, 0), parms, c.take(k - 1)) == Ok::<WriterState, TiffError>(prev_state));
        assert(c.take(k as int).last() == c[k - 1]);
        assert(c[k - 1] <= component_mask(b));
        assert(b != 8);
        if r == p - 1 {
            assert(r * b + b == 8) by (nonlinear_arith)
                requires
                    r == p - 1,
                    p * b == 8,
            ;
            assert(spec_write_component(prev_state, parms, c[k - 1]) == Ok::<WriterState, TiffError>(
                (prev_buf.push(nc), 0u8, 0int),
            ));
            assert(full_bytes(c, b, ((k - 1) / p) as nat).push(nc) =~= full_bytes(c, b, (k as int / p) as nat));
            assert(prev_buf.push(nc) =~= buf + full_bytes(c, b, (k as int / p) as nat));
            assert(k as int % p == 0);
            assert(fold_bits(c, ((k as int / p) * p), (k as int % p) as nat, b) == 0u8);
        } else {
            assert(r * b + b < 8) by (nonlinear_arith)
                requires
                    r < p - 1,
                    p * b == 8,
            ;
            assert(spec_write_component(prev_state, parms, c[k - 1]) == Ok::<WriterState, TiffError>(
                (prev_buf, nc, (r * b + b) as int),
            ));
            assert((k as int / p) * p == s);
            assert(k as int % p == r + 1);
            assert((r + 1) * b == r * b + b) by (nonlinear_arith);
        }
    }
}

/// A row of components written from a byte boundary and flushed: the
/// packed bytes, and the writer back at a byte boundary.
pub proof fn lemma_write_row_bits(buf: Seq<u8>, parms: PredictorParms, b: usize, c: Seq<u8>)
    requires
        narrow(parms, b),
        forall|i: int| 0 <= i < c.len() ==> c[i] <= component_mask(b),
    ensures
        write_all((buf, 0, 0), parms, c) matches Ok(written) && spec_flush_row(written) == (buf + pack_row(c, b), 0u8, 0int),
{
    let p = per_byte(b);
    lemma_write_all_bits(buf, parms, b, c, c.len());
    assert(c.take(c.len() as int) =~= c);
    let q = c.len() % p;
    if q != 0 {
        assert(q * b > 0) by (nonlinear_arith)
            requires
                q >= 1,
                b >= 1,
        ;
        assert(buf + full_bytes(c, b, c.len() / p).push(fold_bits(c, ((c.len() / p) * p) as int, q, b) << ((8 - q * b) as u8))
            =~= (buf + full_bytes(c, b, c.len() / p)).push(fold_bits(c, ((c.len() / p) * p) as int, q, b) << ((8 - q
            * b) as u8)));
    } else {
        assert(q * b == 0);
    }
}

/// The first `k` components of `b` bits of the bytes of `x` from `a` on.
pub open spec fn unpack(x: Seq<u8>, a: int, b: usize, k: nat) -> Seq<u8> {
    Seq::new(k, |i: int| byte_component(x[a + i / (per_byte(b) as int)], i % (per_byte(b) as int), b))
}

/// The number of bytes of a row of `k` components of `b` bits.
pub open spec fn row_bytes(k: nat, b: usize) -> nat {
    let p = per_byte(b);
    if k % p == 0 {
        k / p
    } else {
        k / p + 1
    }
}

proof fn lemma_bit_position(a: int, j: int, b: int, p: int)
    requires
        p * b == 8,
        b >= 1,
        j >= 0,
    ensures
        (8 * a + j * b) / 8 == a + j / p,
        (8 * a + j * b) % 8 == (j % p) * b,
        (j % p) * b + b <= 8,
{
    let q = j / p;
    let r = j % p;
    assert(p >= 1) by (nonlinear_arith)
        requires
            p * b == 8,
            b >= 1,
    ;
    assert(j == p * q + r && 0 <= r < p) by (nonlinear_arith)
        requires
            p >= 1,
            q == j / p,
            r == j % p,
    ;
    assert(j * b == 8 * q + r * b) by (nonlinear_arith)
        requires
            j == p * q + r,
            p * b == 8,
    ;
    assert(0 <= r * b && r * b + b <= 8) by (nonlinear_arith)
        requires
            0 <= r < p,
            p * b == 8,
            b >= 1,
    ;
    assert((8 * a + j * b) / 8 == a + q && (8 * a + j * b) % 8 == r * b) by (nonlinear_arith)
        requires
            8 * a + j * b == 8 * (a + q) + r * b,
            0 <= r * b < 8,
    ;
}

/// Reading components of `b` bits: the `m` components from the `i`th, when
/// their bytes are there.
proof fn lemma_read_colors_bits(bytes: Seq<u8>, parms: PredictorParms, b: usize, a: int, i: int, m: nat)
    requires
        narrow(parms, b),
        0 <= a,
        0 <= i,
    ensures
        8 * a + (i + m) * b <= 8 * bytes.len() ==> read_colors(bytes, parms, 8 * a + i * b, m) == (
        Ok::<Seq<u8>, TiffError>(unpack(bytes, a, b, (i + m) as nat).subrange(i, i + m)), 8 * a + (i + m) * b),
        read_colors(bytes, parms, 8 * a + i * b, m).0 is Ok && m > 0 ==> 8 * a + (i + m) * b <= 8 * bytes.len(),
    decreases m,
{
    let p = per_byte(b) as int;
    assert(p * b == 8);
    if m == 0 {
        assert(unpack(bytes, a, b, i as nat).subrange(i, i) =~= Seq::<u8>::empty());
    } else {
        lemma_read_colors_bits(bytes, parms, b, a, i, (m - 1) as nat);
        let j = i + m - 1;
        assert(8 * a + (i + m - 1) * b + b == 8 * a + (i + m) * b) by (nonlinear_arith);
        assert(8 * a + (i + m - 1) * b == 8 * a + j * b);
        lemma_bit_position(a, j, b as int, p);
        assert(j / p >= 0) by (nonlinear_arith)
            requires
                j >= 0,
                p >= 1,
        ;
        let loc = 8 * a + j * b;
        if 8 * a + (i + m) * b <= 8 * bytes.len() {
            assert(a + j / p < bytes.len()) by (nonlinear_arith)
                requires
                    8 * a + j * b + b <= 8 * bytes.len(),
                    (8 * a + j * b) / 8 == a + j / p,
                    (8 * a + j * b) % 8 + b <= 8,
                    b >= 1,
            ;
            assert(8 * a + (i + m - 1) * b <= 8 * bytes.len());
            let u = unpack(bytes, a, b, (i + m) as nat);
            let u0 = unpack(bytes, a, b, (i + m - 1) as nat);
            assert(spec_next_bits(bytes, parms, loc) == (Ok::<Option<u8>, TiffError>(Some(u[j])), loc + b));
            assert(u0.subrange(i, i + m - 1).push(u[j]) =~= u.subrange(i, i + m));
        } else {
            assert(a + j / p >= bytes.len()) by (nonlinear_arith)
                requires
                    8 * a + j * b + b > 8 * bytes.len(),
                    (8 * a + j * b) / 8 == a + j / p,
                    (8 * a + j * b) % 8 + b <= 8,
                    b >= 1,
            ;
        }
    }
}

/// Reading `j` samples of components of `b` bits from the byte `a`, when
/// their bytes are there.
#[verifier::rlimit(40)]
proof fn lemma_read_columns_bits(bytes: Seq<u8>, parms: PredictorParms, b: usize, a: int, j: nat)
    requires
        narrow(parms, b),
        0 <= a,
        8 * a + j * (parms.colors.spec_value() as int) * b <= 8 * bytes.len(),
    ensures
        ({
            let c = parms.colors.spec_value() as int;
            read_columns(bytes, parms, 8 * a, j) == (
            Ok::<Seq<Seq<u8>>, TiffError>(byte_samples(unpack(bytes, a, b, (j * c) as nat), 0, c, j)), 8 * a + j
                * c * b)
        }),
    decreases j,
{
    let c = parms.colors.spec_value() as int;
    assert(c >= 1);
    if j == 0 {
        assert(byte_samples(unpack(bytes, a, b, 0), 0, c, 0) =~= Seq::<Seq<u8>>::empty());
    } else {
        let t = j - 1;
        assert(t * c >= 0) by (nonlinear_arith)
            requires
                t >= 0,
                c >= 1,
        ;
        assert((t * c + c) * b == j * c * b && t * c * b == (t * c) * b && 8 * a + t * c * b + c * b == 8 * a + j * c * b)
            by (nonlinear_arith)
            requires
                t == j - 1,
        ;
        assert(c * b >= 1) by (nonlinear_arith)
            requires
                c >= 1,
                b >= 1,
        ;
        lemma_read_columns_bits(bytes, parms, b, a, t as nat);
        let loc = 8 * a + t * c * b;
        lemma_read_colors_bits(bytes, parms, b, a, t * c, c as nat);
        assert(8 * a + (t * c) * b == loc);
        assert(loc != bytes.len() * 8);
        let u = unpack(bytes, a, b, (j * c) as nat);
        let u0 = unpack(bytes, a, b, (t * c) as nat);
        let u1 = unpack(bytes, a, b, (t * c + c) as nat);
        assert(t * c + c == j * c) by (nonlinear_arith)
            requires
                t == j - 1,
        ;
        assert(u1 == u);
        let rows0 = byte_samples(u0, 0, c, t as nat);
        let rows = byte_samples(u, 0, c, j);
        assert forall|k: int| 0 <= k < t implies rows0[k] =~= rows[k] by {
            assert((k + 1) * c <= t * c && k * c >= 0) by (nonlinear_arith)
                requires
                    0 <= k < t,
                    c >= 1,
            ;
            assert(k * c + c == (k + 1) * c) by (nonlinear_arith);
        }
        assert(rows[t as int] =~= u.subrange(t * c, t * c + c)) by {
            assert(t * c + c == (t + 1) * c) by (nonlinear_arith);
        }
        assert(rows0.push(u.subrange(t * c, t * c + c)) =~= rows);
        assert(spec_next_colors(bytes, parms, loc) == (Ok::<Option<Seq<u8>>, TiffError>(
            Some(u.subrange(t * c, t * c + c)),
        ), loc + c * b));
        assert(read_columns(bytes, parms, 8 * a, t as nat) == (Ok::<Seq<Seq<u8>>, TiffError>(rows0), loc));
    }
}

/// Reading samples succeeds only when their bytes are there.
proof fn lemma_read_columns_bits_bound(bytes: Seq<u8>, parms: PredictorParms, b: usize, a: int, j: nat)
    requires
        narrow(parms, b),
        0 <= a,
    ensures
        read_columns(bytes, parms, 8 * a, j).0 is Ok && j > 0 ==> 8 * a + j * (parms.colors.spec_value() as int) * b
            <= 8 * bytes.len(),
    decreases j,
{
    let c = parms.colors.spec_value() as int;
    if j > 0 {
        let t = j - 1;
        lemma_read_columns_bits_bound(bytes, parms, b, a, t as nat);
        assert(t * c >= 0) by (nonlinear_arith)
            requires
                t >= 0,
                c >= 1,
        ;
        assert((t * c + c) * b == j * c * b && t * c * b == (t * c) * b && 8 * a + t * c * b + c * b == 8 * a + j * c * b)
            by (nonlinear_arith)
            requires
                t == j - 1,
        ;
        if read_columns(bytes, parms, 8 * a, t as nat).0 is Ok {
            let loc = read_columns(bytes, parms, 8 * a, t as nat).1;
            if t > 0 {
                lemma_read_columns_bits(bytes, parms, b, a, t as nat);
            }
            assert(loc == 8 * a + t * c * b);
            lemma_read_colors_bits(bytes, parms, b, a, t * c, c as nat);
        }
    }
}

/// The padding bits of the last byte of a row of `k` components at the
/// byte `a` are zero, when the row does not end on a byte boundary.
pub open spec fn row_padding_zero(x: Seq<u8>, a: int, k: nat, b: usize) -> bool {
    let p = per_byte(b);
    k % p != 0 ==> low_bits(x[a + (k / p) as int], 8 - (k % p) * b) == 0
}

/// Reading a row of components of `b` bits at the byte `a`: its samples,
/// and the location after its last byte, when its bytes are there and its
/// padding bits are zero.
pub proof fn lemma_next_row_bits(bytes: Seq<u8>, parms: PredictorParms, b: usize, a: int)
    requires
        narrow(parms, b),
        parms.columns.0 >= 1,
        0 <= a <= bytes.len(),
    ensures
        ({
            let c = parms.colors.spec_value() as int;
            let n = parms.columns.0 as nat;
            let k = (n * c) as nat;
            let rb = row_bytes(k, b) as int;
            let row = byte_samples(unpack(bytes, a, b, k), 0, c, n);
            &&& a == bytes.len() ==> spec_next_row(bytes, parms, 8 * a) == (
            Ok::<Option<Seq<Seq<u8>>>, TiffError>(None), 8 * a)
            &&& a < bytes.len() && a + rb <= bytes.len() && row_padding_zero(bytes, a, k, b) ==> spec_next_row(
                bytes,
                parms,
                8 * a,
            ) == (Ok::<Option<Seq<Seq<u8>>>, TiffError>(Some(row)), 8 * (a + rb))
            &&& a < bytes.len() && spec_next_row(bytes, parms, 8 * a).0 is Ok ==> a + rb <= bytes.len()
                && row_padding_zero(bytes, a, k, b) && spec_next_row(bytes, parms, 8 * a).0 != Ok::<
                Option<Seq<Seq<u8>>>,
                TiffError,
            >(None)
        }),
{
    let c = parms.colors.spec_value() as int;
    let n = parms.columns.0 as nat;
    let k = (n * c) as nat;
    let p = per_byte(b) as int;
    assert(p * b == 8);
    assert(n * c >= 1) by (nonlinear_arith)
        requires
            n >= 1,
            c >= 1,
    ;
    lemma_read_columns_bits_bound(bytes, parms, b, a, n);
    if 8 * a + n * c * b <= 8 * bytes.len() {
        lemma_read_columns_bits(bytes, parms, b, a, n);
    }
    assert(n * c * b == k * b);
    lemma_bit_position(a, k as int, b as int, p);
    let l = 8 * a + k * b;
    let q = k as int % p;
    assert(k * b == 8 * (k as int / p) + q * b) by (nonlinear_arith)
        requires
            l == 8 * a + k * b,
            l / 8 == a + k as int / p,
            l % 8 == q * b,
    ;
    if q == 0 {
        assert(row_bytes(k, b) == k as int / p);
        assert(l == 8 * (a + k as int / p));
        assert(l % 8 == 0);
    } else {
        assert(row_bytes(k, b) == k as int / p + 1);
        assert(1 <= q * b < 8) by (nonlinear_arith)
            requires
                1 <= q < p,
                p * b == 8,
                b >= 1,
        ;
        assert(l + (8 - l % 8) == 8 * (a + k as int / p + 1));
    }
}

proof fn lemma_div_mod_unique(j: int, t: int, p: int)
    requires
        p >= 1,
        0 <= t < p,
    ensures
        (j * p + t) / p == j,
        (j * p + t) % p == t,
{
    vstd::arithmetic::div_mod::lemma_fundamental_div_mod_converse(j * p + t, p, j, t);
}

/// Unpacking what the writer packed gives the components back, and the
/// padding bits of the last byte are zero.
pub proof fn lemma_unpack_pack(d: Seq<u8>, b: usize)
    requires
        b == 1 || b == 2 || b == 4,
        forall|i: int| 0 <= i < d.len() ==> d[i] <= component_mask(b),
    ensures
        pack_row(d, b).len() == row_bytes(d.len(), b),
        unpack(pack_row(d, b), 0, b, d.len()) == d,
        row_padding_zero(pack_row(d, b), 0, d.len(), b),
{
    let p = per_byte(b) as int;
    let e = pack_row(d, b);
    let m = d.len() as int / p;
    let q = d.len() as int % p;
    assert(d.len() == m * p + q && 0 <= q < p) by (nonlinear_arith)
        requires
            p >= 1,
            m == d.len() as int / p,
            q == d.len() as int % p,
    ;
    assert forall|i: int| 0 <= i < d.len() implies unpack(e, 0, b, d.len())[i] == d[i] by {
        let j = i / p;
        let t = i % p;
        assert(i == j * p + t && 0 <= t < p) by (nonlinear_arith)
            requires
                p >= 1,
                j == i / p,
                t == i % p,
        ;
        assert(0 <= j <= m) by (nonlinear_arith)
            requires
                i == j * p + t,
                0 <= t < p,
                0 <= i < d.len(),
                d.len() == m * p + q,
                0 <= q < p,
        ;
        if j < m {
            assert(j * p + p <= d.len()) by (nonlinear_arith)
                requires
                    j < m,
                    d.len() == m * p + q,
                    q >= 0,
                    p >= 1,
            ;
            assert(j * p >= 0) by (nonlinear_arith)
                requires
                    j >= 0,
                    p >= 1,
            ;
            lemma_full_byte(d, j * p, b, 0);
            assert(e[j] == fold_bits(d, j * p, per_byte(b), b));
        } else {
            assert(t < q);
            lemma_partial_byte(d, j * p, q as nat, b);
            assert(e[j] == fold_bits(d, j * p, q as nat, b) << ((8 - q * b) as u8));
        }
    }
    assert(unpack(e, 0, b, d.len()) =~= d);
    if q != 0 {
        lemma_partial_byte(d, m * p, q as nat, b);
    }
}

/// Packing the components of a row of bytes, whose padding bits are zero,
/// gives the bytes back.
pub proof fn lemma_pack_unpack(x: Seq<u8>, a: int, b: usize, k: nat)
    requires
        b == 1 || b == 2 || b == 4,
        0 <= a,
        a + row_bytes(k, b) <= x.len(),
        row_padding_zero(x, a, k, b),
    ensures
        pack_row(unpack(x, a, b, k), b) == x.subrange(a, a + row_bytes(k, b)),
{
    let p = per_byte(b) as int;
    let u = unpack(x, a, b, k);
    let m = k as int / p;
    let q = k as int % p;
    assert(k == m * p + q && 0 <= q < p) by (nonlinear_arith)
        requires
            p >= 1,
            m == k as int / p,
            q == k as int % p,
    ;
    let e = pack_row(u, b);
    assert forall|j: int| 0 <= j < m implies e[j] == x[a + j] by {
        assert(j * p + p <= k && j * p >= 0) by (nonlinear_arith)
            requires
                0 <= j < m,
                k == m * p + q,
                q >= 0,
                p >= 1,
        ;
        let v = x[a + j];
        assert forall|t: int| 0 <= t < p implies u.subrange(j * p, j * p + p)[t] == byte_components(v, b)[t] by {
            lemma_div_mod_unique(j, t, p);
        }
        assert(u.subrange(j * p, j * p + p) =~= byte_components(v, b).subrange(0, p));
        lemma_fold_bits_same(u, j * p, byte_components(v, b), 0, p as nat, b);
        lemma_components_in_mask(v, b);
        lemma_full_byte(byte_components(v, b), 0, b, v);
    }
    if q != 0 {
        let v = x[a + m];
        assert(m * p >= 0) by (nonlinear_arith)
            requires
                m >= 0,
                p >= 1,
        ;
        assert forall|t: int| 0 <= t < q implies u.subrange(m * p, m * p + q)[t] == byte_components(v, b)[t] by {
            lemma_div_mod_unique(m, t, p);
        }
        assert(u.subrange(m * p, m * p + q) =~= byte_components(v, b).subrange(0, q));
        lemma_fold_bits_same(u, m * p, byte_components(v, b), 0, q as nat, b);
        lemma_partial_byte_components(v, q as nat, b);
        assert(e[m] == v);
    }
    assert(e =~= x.subrange(a, a + row_bytes(k, b)));
}

} // verus!
