use super::error::FilterErr;
use super::error::FilterErrorCode;
use super::predictor::predictor_defilter_allowed;
use super::predictor::predictor_filter_allowed;
use super::error::filter_outcome;
use super::predictor::predictor_object;
use super::predictor::spec_predictor;
use super::predictor::Predictor;
use super::filtering::ascii_bytes;
use crate::parse::bytes_eq;
use super::predictor::get_integer_parameter;
use super::predictor::integer_parameter;
use super::predictor::not_an_integer;
use super::predictor::spec_predictor_new;
use super::predictor::unsupported_parameter;
use crate::object::direct::dictionary::Dictionary;
use crate::object::direct::DirectValue;
use crate::DECODED_LIMIT;
use vstd::arithmetic::div_mod::lemma_div_multiples_vanish_fancy;
use vstd::arithmetic::div_mod::lemma_fundamental_div_mod;
use vstd::arithmetic::div_mod::lemma_mod_mod;
use vstd::arithmetic::div_mod::lemma_mod_multiples_vanish;
use vstd::arithmetic::power2::lemma2_to64;
use vstd::arithmetic::power2::lemma_pow2_adds;
use vstd::arithmetic::power2::lemma_pow2_pos;
use vstd::arithmetic::power2::pow2;
use vstd::bits::lemma_u16_low_bits_mask_is_mod;
use vstd::bits::lemma_u16_shl_is_mul;
use vstd::bits::lemma_u16_shr_is_div;
use vstd::bits::low_bits_mask;
use vstd::prelude::*;

verus! {

pub const CLEAR_CODE: u16 = 256;
pub const EOD_CODE: u16 = 257;
pub const FIRST_CODE: u16 = 258;
/// The number of codes of the largest code size, 12 bits.
pub const MAX_CODES: u16 = 4096;

#[derive(Debug, PartialEq, Eq, Structural, Clone, Copy)]
pub enum LzwErrorCode {
    ByteAfterEod(u8),
    CodeAfterEod(u16),
    OutOfBounds { code: u16, len: u16 },
    LeftoverBits(u16),
    TooLarge(usize, usize),
    FullTable,
}

/// The width of the codes, from 9 to 12 bits.
#[derive(Debug, PartialEq, Eq, Structural, Clone, Copy)]
pub enum CodeSize {
    Nine,
    Ten,
    Eleven,
    Twelve,
}

impl CodeSize {
    pub open spec fn spec_value(self) -> nat {
        match self {
            CodeSize::Nine => 9,
            CodeSize::Ten => 10,
            CodeSize::Eleven => 11,
            CodeSize::Twelve => 12,
        }
    }

    /// The number of codes of this width, 2 to the power of the width.
    pub open spec fn spec_limit(self) -> int {
        match self {
            CodeSize::Nine => 512,
            CodeSize::Ten => 1024,
            CodeSize::Eleven => 2048,
            CodeSize::Twelve => 4096,
        }
    }

    /// The next width, which stays at 12 bits.
    pub open spec fn spec_increment(self) -> CodeSize {
        match self {
            CodeSize::Nine => CodeSize::Ten,
            CodeSize::Ten => CodeSize::Eleven,
            CodeSize::Eleven => CodeSize::Twelve,
            CodeSize::Twelve => CodeSize::Twelve,
        }
    }

    pub fn value(&self) -> (v: usize)
        ensures
            v == self.spec_value(),
    {
        match self {
            CodeSize::Nine => 9,
            CodeSize::Ten => 10,
            CodeSize::Eleven => 11,
            CodeSize::Twelve => 12,
        }
    }

    pub fn limit(&self) -> (v: u16)
        ensures
            v == self.spec_limit(),
    {
        match self {
            CodeSize::Nine => 512,
            CodeSize::Ten => 1024,
            CodeSize::Eleven => 2048,
            CodeSize::Twelve => 4096,
        }
    }

    pub fn increment(&mut self)
        ensures
            *final(self) == old(self).spec_increment(),
    {
        match self {
            CodeSize::Nine => *self = CodeSize::Ten,
            CodeSize::Ten => *self = CodeSize::Eleven,
            CodeSize::Eleven => *self = CodeSize::Twelve,
            CodeSize::Twelve => {},
        }
    }
}

/// REFERENCE: [Table 8 — Optional parameters for LZWDecode and FlateDecode
/// filters, p40]: whether the code width grows one code early.
#[derive(Debug, PartialEq, Eq, Structural, Clone, Copy)]
pub struct EarlyChange(pub bool);

impl EarlyChange {
    pub fn new(value: bool) -> (early_change: Self)
        ensures
            early_change.0 == value,
    {
        Self(value)
    }
}

impl EarlyChange {
    pub open spec fn spec_try_from(value: DirectValue) -> Result<EarlyChange, FilterErr> {
        match integer_parameter(value) {
            Some(0) => Ok(EarlyChange(false)),
            Some(1) => Ok(EarlyChange(true)),
            Some(v) => Err(unsupported_parameter("EarlyChange", v)),
            None => Err(not_an_integer("EarlyChange", value)),
        }
    }

    /// Whether the code width grows early, as `value` gives it.
    pub fn try_from(value: &DirectValue) -> (r: Result<Self, FilterErr>)
        ensures
            r == Self::spec_try_from(*value),
    {
        match get_integer_parameter(value) {
            Some(0) => Ok(EarlyChange(false)),
            Some(1) => Ok(EarlyChange(true)),
            Some(v) => Err(FilterErr::new("EarlyChange", FilterErrorCode::UnsupportedParameter(v))),
            None => Err(FilterErr::new("EarlyChange", FilterErrorCode::ValueType("Integer", value.span()))),
        }
    }
}

/// The key of the early change parameter.
pub const KEY_EARLY_CHANGE: [u8; 11] = [69, 97, 114, 108, 121, 67, 104, 97, 110, 103, 101];

impl Default for EarlyChange {
    fn default() -> (early_change: Self)
        ensures
            early_change.0,
    {
        Self(true)
    }
}

/// REFERENCE: [7.4.4 LZWDecode and FlateDecode filters, p38]: the LZW
/// (Lempel-Ziv-Welch) adaptive compression filter, after a predictor.
#[derive(Debug, PartialEq, Eq, Structural, Clone, Copy)]
pub struct Lzw {
    pub predictor: Predictor,
    pub early_change: EarlyChange,
}

/// What the LZW filter gives for `bytes`: the predictor, then the codes.
pub open spec fn spec_lzw_filter(lzw: Lzw, bytes: Seq<u8>) -> Result<Seq<u8>, FilterErrorCode> {
    match spec_predictor(lzw.predictor, true, bytes) {
        Ok(predicted) => Ok(spec_lzw_encode(lzw.early_change.0, predicted)),
        Err(e) => Err(e),
    }
}

/// What the LZW filter decodes from `bytes`: the codes, then the predictor.
pub open spec fn spec_lzw_defilter(lzw: Lzw, bytes: Seq<u8>) -> Result<Seq<u8>, FilterErrorCode> {
    match spec_lzw_decode(lzw.early_change.0, bytes) {
        Ok(decoded) => spec_predictor(lzw.predictor, false, decoded),
        Err(e) => Err(FilterErrorCode::Lzw(e)),
    }
}

/// The name that the errors of the LZW filter carry.
pub open spec fn lzw_object(lzw: Lzw, bytes: Seq<u8>) -> Seq<char> {
    match spec_lzw_decode(lzw.early_change.0, bytes) {
        Ok(_) => predictor_object(lzw.predictor),
        Err(_) => "Lzw"@,
    }
}

/// The LZW filter that the decode parameters `parms` describe.
pub open spec fn spec_lzw_new(parms: Option<Dictionary>) -> Result<Lzw, FilterErr> {
    match parms {
        None => Ok(Lzw { predictor: Predictor::NoPredictor, early_change: EarlyChange(true) }),
        Some(d) => match spec_predictor_new(d) {
            Err(e) => Err(e),
            Ok(predictor) => match d.spec_get(KEY_EARLY_CHANGE@) {
                None => Ok(Lzw { predictor, early_change: EarlyChange(true) }),
                Some(v) => match EarlyChange::spec_try_from(v) {
                    Ok(early_change) => Ok(Lzw { predictor, early_change }),
                    Err(e) => Err(e),
                },
            },
        },
    }
}

/// REFERENCE: [Table 8 — Optional parameters for LZWDecode and FlateDecode
/// filters, p40]: `EarlyChange` defaults to 1: with no decode parameters, or
/// with decode parameters that have no `EarlyChange` entry, the code width
/// grows one code early; an entry of 0 or 1 says whether it does.
pub proof fn lemma_lzw_early_change(d: Dictionary)
    ensures
        spec_lzw_new(None) matches Ok(l) && l.early_change.0 && l.predictor == Predictor::NoPredictor,
        forall|l: Lzw|
            d.spec_get(ascii_bytes("EarlyChange"@)) is None && spec_lzw_new(Some(d)) == Ok::<Lzw, FilterErr>(l)
                ==> l.early_change.0,
        forall|v: DirectValue, l: Lzw|
            d.spec_get(ascii_bytes("EarlyChange"@)) == Some(v) && integer_parameter(v) == Some(0i128) && spec_lzw_new(
                Some(d),
            ) == Ok::<Lzw, FilterErr>(l) ==> !l.early_change.0,
        forall|v: DirectValue, l: Lzw|
            d.spec_get(ascii_bytes("EarlyChange"@)) == Some(v) && integer_parameter(v) == Some(1i128) && spec_lzw_new(
                Some(d),
            ) == Ok::<Lzw, FilterErr>(l) ==> l.early_change.0,
{
    reveal_strlit("EarlyChange");
    assert(ascii_bytes("EarlyChange"@) =~= KEY_EARLY_CHANGE@);
}

impl Lzw {
    /// The filter that the decode parameters `parms` describe.
    pub fn new(parms: Option<&Dictionary>) -> (r: Result<Self, FilterErr>)
        ensures
            r == spec_lzw_new(match parms {
                Some(d) => Some(*d),
                None => None,
            }),
    {
        match parms {
            None => Ok(Lzw::default_lzw()),
            Some(d) => {
                let predictor = Predictor::new(d)?;
                let early_change = match d.opt_get(&KEY_EARLY_CHANGE) {
                    Some(v) => EarlyChange::try_from(v)?,
                    None => EarlyChange::default(),
                };
                Ok(Lzw { predictor, early_change })
            },
        }
    }

    /// The filter with no predictor, whose code width grows early.
    pub fn default_lzw() -> (lzw: Self)
        ensures
            lzw.predictor == Predictor::NoPredictor,
            lzw.early_change.0,
    {
        Lzw { predictor: Predictor::NoPredictor, early_change: EarlyChange(true) }
    }

    /// REFERENCE: [7.4.4.2 Details of LZW encoding, p38-40]
    pub fn filter(&self, bytes: &[u8]) -> (r: Result<Vec<u8>, FilterErr>)
        requires
            predictor_filter_allowed(self.predictor, bytes@),
        ensures
            filter_outcome(spec_lzw_filter(*self, bytes@), predictor_object(self.predictor), r),
    {
        let predicted = self.predictor.filter(bytes)?;
        Ok(lzw_encode(self.early_change.0, predicted.as_slice()))
    }

    /// Decodes the codes, then reverses the predictor where it can decode
    /// what came out without a panic: `None` where it cannot.
    pub fn checked_defilter(&self, bytes: &[u8]) -> (r: Option<Result<Vec<u8>, FilterErr>>)
        ensures
            match spec_lzw_decode(self.early_change.0, bytes@) {
                Ok(out) => if predictor_defilter_allowed(self.predictor, out) {
                    r matches Some(x) && filter_outcome(spec_lzw_defilter(*self, bytes@), lzw_object(*self, bytes@), x)
                } else {
                    r is None
                },
                Err(_) => (r matches Some(x) && filter_outcome(spec_lzw_defilter(*self, bytes@), lzw_object(*self, bytes@), x)),
            },
    {
        match lzw_decode(self.early_change.0, bytes) {
            Ok(decoded) => {
                if self.predictor.can_defilter(decoded.as_slice()) {
                    Some(self.defilter(bytes))
                } else {
                    None
                }
            },
            Err(_) => Some(self.defilter(bytes)),
        }
    }

    pub fn defilter(&self, bytes: &[u8]) -> (r: Result<Vec<u8>, FilterErr>)
        requires
            forall|out: Seq<u8>| spec_lzw_decode(self.early_change.0, bytes@) == Ok::<Seq<u8>, LzwErrorCode>(out)
                ==> predictor_defilter_allowed(self.predictor, out),
        ensures
            filter_outcome(spec_lzw_defilter(*self, bytes@), lzw_object(*self, bytes@), r),
    {
        match lzw_decode(self.early_change.0, bytes) {
            Ok(decoded) => self.predictor.defilter(decoded.as_slice()),
            Err(e) => Err(FilterErr::new("Lzw", FilterErrorCode::Lzw(e))),
        }
    }
}

/// The state of the decoder between two bytes.
pub struct DefilterState {
    /// The strings of the codes from `FIRST_CODE` on.
    pub table: Seq<Seq<u8>>,
    /// The next code to be assigned.
    pub len: int,
    pub code_size: CodeSize,
    /// Whether the end-of-data code was read.
    pub eod: bool,
    /// The last byte or bytes read, whose low `leftover_bits` bits start the next code.
    pub prev_byte: u16,
    pub leftover_bits: nat,
}

pub open spec fn initial_defilter_state() -> DefilterState {
    DefilterState {
        table: Seq::empty(),
        len: FIRST_CODE as int,
        code_size: CodeSize::Nine,
        eod: false,
        prev_byte: 0,
        leftover_bits: 0,
    }
}

/// The code of `size` bits made of the low `leftover` bits of `prev`
/// followed by the high bits of `byte`.
pub open spec fn next_code(prev: u16, leftover: nat, byte: u8, size: nat) -> int {
    (prev as int % pow2(leftover) as int) * pow2((size - leftover) as nat) as int + byte as int / pow2(
        (8 + leftover - size) as nat,
    ) as int
}

/// The decoder reads `byte`, the `i`th of `n`: it either keeps it for the
/// next code or completes a code and writes that code's string after `out`.
pub open spec fn defilter_step(
    early: bool,
    st: DefilterState,
    out: Seq<u8>,
    byte: u8,
    i: int,
    n: int,
) -> Result<(DefilterState, Seq<u8>), LzwErrorCode> {
    if st.eod {
        Err(LzwErrorCode::ByteAfterEod(byte))
    } else {
        let cs = if early && st.len == st.code_size.spec_limit() {
            st.code_size.spec_increment()
        } else {
            st.code_size
        };
        if cs.spec_value() > 8 + st.leftover_bits {
            Ok(
                (
                    DefilterState {
                        code_size: cs,
                        prev_byte: ((st.prev_byte as int * 256 + byte as int) % 65536) as u16,
                        leftover_bits: st.leftover_bits + 8,
                        ..st
                    },
                    out,
                ),
            )
        } else {
            let code = next_code(st.prev_byte, st.leftover_bits, byte, cs.spec_value());
            let cs2 = if !early && st.len == cs.spec_limit() {
                cs.spec_increment()
            } else {
                cs
            };
            let st2 = DefilterState {
                code_size: cs2,
                prev_byte: byte as u16,
                leftover_bits: (8 + st.leftover_bits - cs.spec_value()) as nat,
                ..st
            };
            if code == CLEAR_CODE {
                Ok((DefilterState { table: Seq::empty(), len: FIRST_CODE as int, code_size: CodeSize::Nine, ..st2 }, out))
            } else if code == EOD_CODE {
                Ok((DefilterState { eod: true, ..st2 }, out))
            } else if st.len > MAX_CODES {
                Err(LzwErrorCode::FullTable)
            } else if code >= st.len {
                Err(LzwErrorCode::OutOfBounds { code: code as u16, len: st.len as u16 })
            } else {
                let first = if code < CLEAR_CODE {
                    code as u8
                } else {
                    st.table[code - FIRST_CODE][0]
                };
                let table = if st.table.len() > 0 {
                    st.table.update(st.table.len() - 1, st.table.last().push(first))
                } else {
                    st.table
                };
                let output = if code < CLEAR_CODE {
                    seq![code as u8]
                } else {
                    table[code - FIRST_CODE]
                };
                let out2 = out + output;
                if out2.len() > DECODED_LIMIT {
                    Err(LzwErrorCode::TooLarge(i as usize, n as usize))
                } else {
                    Ok((DefilterState { table: table.push(output), len: st.len + 1, ..st2 }, out2))
                }
            }
        }
    }
}

/// The decoder after the first `k` bytes of `bytes`.
pub open spec fn defilter_fold(early: bool, bytes: Seq<u8>, k: nat) -> Result<(DefilterState, Seq<u8>), LzwErrorCode>
    decreases k,
{
    if k == 0 {
        Ok((initial_defilter_state(), Seq::empty()))
    } else {
        match defilter_fold(early, bytes, (k - 1) as nat) {
            Err(e) => Err(e),
            Ok((st, out)) => defilter_step(early, st, out, bytes[k - 1], k - 1, bytes.len() as int),
        }
    }
}

/// REFERENCE: [7.4.4.2 Details of LZW encoding, p38-40]: the bytes that the
/// codes of `bytes` stand for. After the last byte, the bits that no code
/// took must be zero.
pub open spec fn spec_lzw_decode(early: bool, bytes: Seq<u8>) -> Result<Seq<u8>, LzwErrorCode> {
    match defilter_fold(early, bytes, bytes.len()) {
        Err(e) => Err(e),
        Ok((st, out)) => {
            let rest = st.prev_byte as int % pow2(st.leftover_bits) as int;
            if rest != 0 {
                if st.eod {
                    Err(LzwErrorCode::CodeAfterEod(rest as u16))
                } else {
                    Err(LzwErrorCode::LeftoverBits(rest as u16))
                }
            } else {
                Ok(out)
            }
        }
    }
}

/// The decoder of the LZW filter.
pub struct LzwDefilter {
    pub table: Vec<Vec<u8>>,
    pub len: u16,
    pub code_size: CodeSize,
    pub eod: bool,
    pub prev_byte: u16,
    pub leftover_bits: usize,
}

impl LzwDefilter {
    pub open spec fn state(&self) -> DefilterState {
        DefilterState {
            table: self.table@.map_values(|entry: Vec<u8>| entry@),
            len: self.len as int,
            code_size: self.code_size,
            eod: self.eod,
            prev_byte: self.prev_byte,
            leftover_bits: self.leftover_bits as nat,
        }
    }

    pub open spec fn wf(&self) -> bool {
        defilter_state_wf(self.state())
    }

    pub fn new() -> (defilter: Self)
        ensures
            defilter.state() == initial_defilter_state(),
            defilter.wf(),
    {
        let d = LzwDefilter {
            table: Vec::new(),
            len: FIRST_CODE,
            code_size: CodeSize::Nine,
            eod: false,
            prev_byte: 0,
            leftover_bits: 0,
        };
        assert(d.state().table =~= Seq::<Seq<u8>>::empty());
        d
    }

    /// Completes a code with `byte`, whose high bits follow the low
    /// `leftover_bits` bits of the previous byte.
    pub fn get_code(&mut self, byte: u8) -> (code: u16)
        requires
            old(self).leftover_bits <= 11,
            old(self).leftover_bits < old(self).code_size.spec_value() <= 8 + old(self).leftover_bits,
        ensures
            code == next_code(old(self).prev_byte, old(self).leftover_bits as nat, byte, old(self).code_size.spec_value()),
            code < old(self).code_size.spec_limit(),
            final(self).leftover_bits == 8 + old(self).leftover_bits - old(self).code_size.spec_value(),
            final(self).prev_byte == byte as u16,
            final(self).table == old(self).table,
            final(self).len == old(self).len,
            final(self).code_size == old(self).code_size,
            final(self).eod == old(self).eod,
    {
        let cs = self.code_size.value();
        let lb = self.leftover_bits;
        let new_leftover_bits = 8 + lb - cs;
        proof {
            lemma2_to64();
            lemma_u16_shl_is_mul(1u16, lb as u16);
        }
        let mask: u16 = (1u16 << (lb as u16)) - 1;
        let low: u16 = self.prev_byte & mask;
        let high: u16 = low << ((cs - lb) as u16);
        let rest: u16 = (byte as u16) >> (new_leftover_bits as u16);
        proof {
            lemma2_to64();
            lemma_pow2_pos(lb as nat);
            lemma_pow2_pos((cs - lb) as nat);
            lemma_pow2_pos(new_leftover_bits as nat);
            lemma_u16_shl_is_mul(1u16, lb as u16);
            assert(mask == low_bits_mask(lb as nat) as u16);
            lemma_u16_low_bits_mask_is_mod(self.prev_byte, lb as nat);
            assert(low < pow2(lb as nat));
            lemma_pow2_adds(lb as nat, (cs - lb) as nat);
            assert(low * pow2((cs - lb) as nat) < pow2(lb as nat) * pow2((cs - lb) as nat)) by (nonlinear_arith)
                requires
                    low < pow2(lb as nat),
                    pow2((cs - lb) as nat) > 0,
            ;
            lemma_u16_shl_is_mul(low, (cs - lb) as u16);
            lemma_u16_shr_is_div(byte as u16, new_leftover_bits as u16);
            lemma_pow2_adds((8 - new_leftover_bits) as nat, new_leftover_bits as nat);
            assert(rest < pow2((cs - lb) as nat)) by (nonlinear_arith)
                requires
                    rest == byte as int / pow2(new_leftover_bits as nat) as int,
                    byte < 256,
                    256 == pow2((cs - lb) as nat) * pow2(new_leftover_bits as nat),
                    pow2(new_leftover_bits as nat) > 0,
            ;
            lemma_u16_shl_is_mul(1u16, (cs - lb) as u16);
            lemma_or_is_add(low, (cs - lb) as u16, rest);
            assert(low * pow2((cs - lb) as nat) + rest < pow2(lb as nat) * pow2((cs - lb) as nat)) by (nonlinear_arith)
                requires
                    low < pow2(lb as nat),
                    rest < pow2((cs - lb) as nat),
            ;
            assert(pow2(cs as nat) == self.code_size.spec_limit());
        }
        let code = high | rest;
        self.leftover_bits = new_leftover_bits;
        self.prev_byte = byte as u16;
        code
    }

    /// Adds the string `output` for the next code.
    pub fn update_table(&mut self, output: Vec<u8>)
        requires
            old(self).len < u16::MAX,
        ensures
            final(self).table@ == old(self).table@.push(output),
            final(self).len == old(self).len + 1,
            final(self).code_size == old(self).code_size,
            final(self).eod == old(self).eod,
            final(self).prev_byte == old(self).prev_byte,
            final(self).leftover_bits == old(self).leftover_bits,
    {
        self.table.push(output);
        self.len = self.len + 1;
    }
}

/// Once the decoder fails, it fails with the same error whatever follows.
proof fn lemma_defilter_error_persists(early: bool, bytes: Seq<u8>, k: nat, n: nat)
    requires
        k <= n,
        defilter_fold(early, bytes, k) is Err,
    ensures
        defilter_fold(early, bytes, n) == defilter_fold(early, bytes, k),
    decreases n - k,
{
    if n > k {
        lemma_defilter_error_persists(early, bytes, k, (n - 1) as nat);
    }
}

/// Decodes the LZW codes of `bytes`, the code width growing one code early
/// when `early` holds.
pub fn lzw_decode(early: bool, bytes: &[u8]) -> (r: Result<Vec<u8>, LzwErrorCode>)
    ensures
        match spec_lzw_decode(early, bytes@) {
            Ok(out) => (r matches Ok(v) && v@ == out),
            Err(e) => r == Err::<Vec<u8>, LzwErrorCode>(e),
        },
{
    let mut d = LzwDefilter::new();
    let mut out: Vec<u8> = Vec::new();
    let mut i: usize = 0;
    while i < bytes.len()
        invariant
            i <= bytes@.len(),
            d.wf(),
            defilter_fold(early, bytes@, i as nat) == Ok::<(DefilterState, Seq<u8>), LzwErrorCode>((d.state(), out@)),
            out@.len() <= DECODED_LIMIT,
        decreases bytes@.len() - i,
    {
        let byte = bytes[i];
        let ghost st = d.state();
        let ghost prev_out = out@;
        assert(bytes@[(i + 1) - 1] == byte);
        if d.eod {
            proof {
                lemma_defilter_error_persists(early, bytes@, (i + 1) as nat, bytes@.len());
            }
            return Err(LzwErrorCode::ByteAfterEod(byte));
        }
        if early && d.len == d.code_size.limit() {
            d.code_size.increment();
        }
        if d.code_size.value() > 8 + d.leftover_bits {
            let shifted: u16 = d.prev_byte << 8u16;
            let prev: u16 = shifted | (byte as u16);
            let p0 = d.prev_byte;
            assert(prev == ((p0 as int * 256 + byte as int) % 65536) as u16) by (bit_vector)
                requires
                    shifted == p0 << 8u16,
                    prev == shifted | (byte as u16),
            ;
            d.prev_byte = prev;
            d.leftover_bits = d.leftover_bits + 8;
            assert(d.state().table =~= st.table);
            i = i + 1;
            continue;
        }
        let code = d.get_code(byte);
        if !early && d.len == d.code_size.limit() {
            d.code_size.increment();
        }
        if code == CLEAR_CODE {
            d.table = Vec::new();
            d.len = FIRST_CODE;
            d.code_size = CodeSize::Nine;
            assert(d.state().table =~= Seq::<Seq<u8>>::empty());
            i = i + 1;
            continue;
        }
        if code == EOD_CODE {
            d.eod = true;
            assert(d.state().table =~= st.table);
            i = i + 1;
            continue;
        }
        if d.len > MAX_CODES {
            proof {
                lemma_defilter_error_persists(early, bytes@, (i + 1) as nat, bytes@.len());
            }
            return Err(LzwErrorCode::FullTable);
        }
        if code >= d.len {
            proof {
                lemma_defilter_error_persists(early, bytes@, (i + 1) as nat, bytes@.len());
            }
            return Err(LzwErrorCode::OutOfBounds { code, len: d.len });
        }
        assert(d.state().table =~= st.table);
        let first = if code < CLEAR_CODE {
            code as u8
        } else {
            assert(st.table[code - FIRST_CODE].len() > 0);
            assert(d.table@[code - FIRST_CODE]@ == st.table[code - FIRST_CODE]);
            d.table[(code - FIRST_CODE) as usize][0]
        };
        let ghost table1 = if st.table.len() > 0 {
            st.table.update(st.table.len() - 1, st.table.last().push(first))
        } else {
            st.table
        };
        if d.table.len() > 0 {
            let mut last = d.table.pop().unwrap();
            last.push(first);
            d.table.push(last);
        }
        assert(d.table@.map_values(|entry: Vec<u8>| entry@) =~= table1);
        let output = if code < CLEAR_CODE {
            vec![code as u8]
        } else {
            assert(d.table@[code - FIRST_CODE]@ == table1[code - FIRST_CODE]);
            super::predictor::bytes_to_vec(d.table[(code - FIRST_CODE) as usize].as_slice())
        };
        assert(output@ == (if code < CLEAR_CODE { seq![code as u8] } else { table1[code - FIRST_CODE] }));
        assert(output@.len() <= st.table.len() + 2);
        super::extend_bytes(&mut out, output.as_slice());
        let ghost out_entry = output@;
        d.update_table(output);
        assert(d.state().table =~= table1.push(out_entry));
        if out.len() > DECODED_LIMIT {
            proof {
                lemma_defilter_error_persists(early, bytes@, (i + 1) as nat, bytes@.len());
            }
            return Err(LzwErrorCode::TooLarge(i, bytes.len()));
        }
        assert(defilter_state_wf(d.state())) by {
            assert forall|k: int| 0 <= k < d.state().table.len() implies 0 < #[trigger] d.state().table[k].len() <= d.state().table.len() + 1 by {
                if k < st.table.len() - 1 {
                    assert(d.state().table[k] == st.table[k]);
                }
            }
        }
        i = i + 1;
    }
    assert(bytes@.len() == i);
    let lb = d.leftover_bits;
    proof {
        lemma2_to64();
        lemma_u16_shl_is_mul(1u16, lb as u16);
    }
    let mask: u16 = (1u16 << (lb as u16)) - 1;
    let rest = d.prev_byte & mask;
    proof {
        assert(mask == low_bits_mask(lb as nat) as u16);
        lemma_u16_low_bits_mask_is_mod(d.prev_byte, lb as nat);
    }
    if rest != 0 {
        if d.eod {
            return Err(LzwErrorCode::CodeAfterEod(rest));
        }
        return Err(LzwErrorCode::LeftoverBits(rest));
    }
    Ok(out)
}

/// The state of the encoder between two bytes.
pub struct FilterState {
    /// The strings of the codes from `FIRST_CODE` on.
    pub table: Seq<Seq<u8>>,
    /// The next code to be assigned.
    pub len: int,
    /// The string read since the last code was written.
    pub seq: Seq<u8>,
    /// The code of `seq`.
    pub code: int,
    pub code_size: CodeSize,
    /// The bytes written so far.
    pub out: Seq<u8>,
    /// The bits of the last codes that do not fill a byte yet.
    pub leftover_bits: nat,
    pub leftover_code: int,
}

/// The big-endian bytes of the first `n - n % 8` of the `n` bits of `v`.
pub open spec fn pack_bits(v: int, n: nat) -> Seq<u8>
    decreases n,
{
    if n < 8 {
        Seq::empty()
    } else {
        seq![((v / pow2((n - 8) as nat) as int) % 256) as u8] + pack_bits(
            v % pow2((n - 8) as nat) as int,
            (n - 8) as nat,
        )
    }
}

/// Writes `code` with the current code width after the bits written so far.
pub open spec fn filter_emit(st: FilterState, code: int) -> FilterState {
    let cs = st.code_size.spec_value();
    let n = st.leftover_bits + cs;
    let v = st.leftover_code * pow2(cs) + code;
    FilterState {
        out: st.out + pack_bits(v, n),
        leftover_bits: n % 8,
        leftover_code: v % pow2(n % 8) as int,
        ..st
    }
}

/// The index of the last entry of `table` among its first `k` that is `s`.
pub open spec fn find_entry_in(table: Seq<Seq<u8>>, s: Seq<u8>, k: int) -> Option<int>
    decreases k,
{
    if k <= 0 {
        None
    } else if table[k - 1] == s {
        Some(k - 1)
    } else {
        find_entry_in(table, s, k - 1)
    }
}

/// A found entry is one of the first `k` and holds `s`.
proof fn lemma_find_entry_in(table: Seq<Seq<u8>>, s: Seq<u8>, k: int)
    ensures
        find_entry_in(table, s, k) matches Some(j) ==> 0 <= j < k && table[j] == s,
    decreases k,
{
    if k > 0 {
        lemma_find_entry_in(table, s, k - 1);
    }
}

/// Records the string read for the next code, or restarts the table once
/// the codes are used up.
pub open spec fn filter_update_table(early: bool, st: FilterState) -> FilterState {
    if early && st.len + 1 == MAX_CODES {
        FilterState { table: Seq::empty(), len: st.len + 1, ..st }
    } else if st.len == MAX_CODES {
        let written = filter_emit(st, CLEAR_CODE as int);
        FilterState { table: Seq::empty(), len: FIRST_CODE as int, code_size: CodeSize::Nine, ..written }
    } else {
        FilterState { table: st.table.push(st.seq), len: st.len + 1, ..st }
    }
}

/// The encoder reads `byte`: it extends the string read while the table
/// holds it, and otherwise writes the string's code and starts a new string.
pub open spec fn filter_step(early: bool, st: FilterState, byte: u8) -> FilterState {
    let seq = st.seq.push(byte);
    if seq.len() == 1 {
        FilterState { seq, code: byte as int, ..st }
    } else {
        match find_entry_in(st.table, seq, st.table.len() as int) {
            Some(k) => FilterState { seq, code: FIRST_CODE + k, ..st },
            None => {
                let cs = if early && st.len == st.code_size.spec_limit() {
                    st.code_size.spec_increment()
                } else {
                    st.code_size
                };
                let written = filter_emit(FilterState { code_size: cs, ..st }, st.code);
                let cs2 = if !early && st.len == cs.spec_limit() {
                    cs.spec_increment()
                } else {
                    cs
                };
                let updated = filter_update_table(early, FilterState { code_size: cs2, seq, ..written });
                FilterState { seq: seq![byte], code: byte as int, ..updated }
            },
        }
    }
}

pub open spec fn initial_filter_state() -> FilterState {
    FilterState {
        table: Seq::empty(),
        len: FIRST_CODE as int,
        seq: Seq::empty(),
        code: CLEAR_CODE as int,
        code_size: CodeSize::Nine,
        out: Seq::empty(),
        leftover_bits: 0,
        leftover_code: 0,
    }
}

/// The encoder after the clear code and the first `k` bytes of `bytes`.
pub open spec fn filter_fold(early: bool, bytes: Seq<u8>, k: nat) -> FilterState
    decreases k,
{
    if k == 0 {
        filter_emit(initial_filter_state(), CLEAR_CODE as int)
    } else {
        filter_step(early, filter_fold(early, bytes, (k - 1) as nat), bytes[k - 1])
    }
}

/// The encoder after it writes the code of the string read last. The width
/// grows as after any other code; the decoder, which records one more string
/// on reading that code, reads the next code with the width for one more
/// entry.
pub open spec fn filter_emit_last(early: bool, st: FilterState) -> FilterState {
    let cs = if early && st.len == st.code_size.spec_limit() {
        st.code_size.spec_increment()
    } else {
        st.code_size
    };
    let written = filter_emit(FilterState { code_size: cs, ..st }, st.code);
    let cs2 = if !early && st.len == cs.spec_limit() {
        cs.spec_increment()
    } else {
        cs
    };
    let cs3 = if early && st.len + 1 == cs2.spec_limit() {
        cs2.spec_increment()
    } else {
        cs2
    };
    FilterState { code_size: cs3, ..written }
}

/// REFERENCE: [7.4.4.2 Details of LZW encoding, p38-40]: the clear code,
/// the codes of the strings of `bytes`, and the end-of-data code, each in
/// the width that the decoder reads it in, the last byte padded with zero
/// bits.
pub open spec fn spec_lzw_encode(early: bool, bytes: Seq<u8>) -> Seq<u8> {
    let st = filter_fold(early, bytes, bytes.len());
    let st1 = if st.seq.len() > 0 {
        filter_emit_last(early, st)
    } else {
        st
    };
    let st2 = filter_emit(st1, EOD_CODE as int);
    if st2.leftover_bits > 0 {
        st2.out.push((st2.leftover_code * pow2((8 - st2.leftover_bits) as nat)) as u8)
    } else {
        st2.out
    }
}

/// The invariant of the encoder's state.
pub open spec fn filter_state_wf(st: FilterState) -> bool {
    &&& FIRST_CODE <= st.len <= st.code_size.spec_limit()
    &&& st.table.len() + FIRST_CODE <= st.len
    &&& st.seq.len() > 0 ==> 0 <= st.code < st.len
    &&& st.leftover_bits < 8
    &&& 0 <= st.leftover_code < pow2(st.leftover_bits)
}

/// The encoder of the LZW filter.
pub struct LzwFilter {
    pub table: Vec<Vec<u8>>,
    pub len: u16,
    pub seq: Vec<u8>,
    pub code_size: CodeSize,
    pub leftover_bits: usize,
    pub leftover_code: u16,
}

impl LzwFilter {
    /// The state of the encoder, with the code `code` of its string and
    /// the bytes `out` written so far.
    pub open spec fn state(&self, code: u16, out: Seq<u8>) -> FilterState {
        FilterState {
            table: self.table@.map_values(|entry: Vec<u8>| entry@),
            len: self.len as int,
            seq: self.seq@,
            code: code as int,
            code_size: self.code_size,
            out,
            leftover_bits: self.leftover_bits as nat,
            leftover_code: self.leftover_code as int,
        }
    }

    pub fn new() -> (filter: Self)
        ensures
            filter.state(CLEAR_CODE, Seq::empty()) == initial_filter_state(),
    {
        let f = LzwFilter {
            table: Vec::new(),
            len: FIRST_CODE,
            seq: Vec::new(),
            code_size: CodeSize::Nine,
            leftover_bits: 0,
            leftover_code: 0,
        };
        assert(f.state(CLEAR_CODE, Seq::empty()).table =~= Seq::<Seq<u8>>::empty());
        f
    }

    /// Writes `code` in `code_size` bits after the bits already written.
    pub fn output_code(&mut self, code: u16, filtered: &mut Vec<u8>)
        requires
            old(self).leftover_bits < 8,
            old(self).leftover_code < pow2(old(self).leftover_bits as nat),
            code < old(self).code_size.spec_limit(),
        ensures
            final(self).state(code, final(filtered)@) == filter_emit(old(self).state(code, old(filtered)@), code as int),
            final(self).leftover_bits < 8,
            final(self).leftover_code < pow2(final(self).leftover_bits as nat),
    {
        let ghost st = self.state(code, filtered@);
        let cs = self.code_size.value();
        let lb = self.leftover_bits;
        let lcode = self.leftover_code;
        let ghost n: nat = (lb + cs) as nat;
        let ghost v: int = lcode * pow2(cs as nat) + code;
        let mut nlb: usize = cs - 8 + lb;
        proof {
            lemma2_to64();
            lemma_emit_first(lcode as int, lb as nat, code as int, cs as nat);
            lemma_u16_shl_is_mul(lcode, (8 - lb) as u16);
            lemma_u16_shr_is_div(code, nlb as u16);
            lemma_u16_shl_is_mul(1u16, (8 - lb) as u16);
            lemma_or_is_add(lcode, (8 - lb) as u16, code >> (nlb as u16));
            lemma_u16_shl_is_mul(1u16, nlb as u16);
            lemma_u16_low_bits_mask_is_mod(code, nlb as nat);
        }
        let first: u16 = (lcode << ((8 - lb) as u16)) | (code >> (nlb as u16));
        filtered.push(first as u8);
        let mut rest: u16 = code & ((1u16 << (nlb as u16)) - 1);
        proof {
            assert(((1u16 << (nlb as u16)) - 1) as u16 == low_bits_mask(nlb as nat) as u16);
            lemma_pow2_pos(nlb as nat);
        }
        while nlb >= 8
            invariant
                nlb <= 11,
                nlb % 8 == n % 8,
                rest < pow2(nlb as nat),
                rest == v % pow2(nlb as nat) as int,
                filtered@ + pack_bits(rest as int, nlb as nat) == st.out + pack_bits(v, n),
                v >= 0,
            decreases nlb,
        {
            proof {
                lemma2_to64();
                lemma_pack_step(rest as int, nlb as nat, v);
                lemma_u16_shr_is_div(rest, (nlb - 8) as u16);
                lemma_u16_shl_is_mul(1u16, (nlb - 8) as u16);
                lemma_u16_low_bits_mask_is_mod(rest, (nlb - 8) as nat);
            }
            let byte = (rest >> ((nlb - 8) as u16)) as u8;
            filtered.push(byte);
            nlb = nlb - 8;
            rest = rest & ((1u16 << (nlb as u16)) - 1);
            proof {
                assert(((1u16 << (nlb as u16)) - 1) as u16 == low_bits_mask(nlb as nat) as u16);
            }
        }
        proof {
            assert(pack_bits(rest as int, nlb as nat) =~= Seq::<u8>::empty());
            assert(filtered@ =~= st.out + pack_bits(v, n));
        }
        self.leftover_bits = nlb;
        self.leftover_code = rest;
    }
    /// Records the string read for the next code, or restarts the table
    /// once the codes are used up, writing the clear code.
    pub fn update_table(&mut self, early_change: EarlyChange, code: u16, filtered: &mut Vec<u8>)
        requires
            filter_state_wf(old(self).state(code, old(filtered)@)),
            old(self).seq@.len() > 0,
        ensures
            final(self).state(code, final(filtered)@) == filter_update_table(early_change.0, old(self).state(code, old(filtered)@)),
    {
        let ghost st = self.state(code, filtered@);
        if early_change.0 && self.len + 1 == MAX_CODES {
            self.table = Vec::new();
            self.len = self.len + 1;
            assert(self.state(code, filtered@).table =~= Seq::<Seq<u8>>::empty());
        } else if self.len == MAX_CODES {
            self.output_code(CLEAR_CODE, filtered);
            self.table = Vec::new();
            self.len = FIRST_CODE;
            self.code_size = CodeSize::Nine;
            assert(self.state(code, filtered@).table =~= Seq::<Seq<u8>>::empty());
        } else {
            let entry = super::predictor::bytes_to_vec(self.seq.as_slice());
            self.table.push(entry);
            self.len = self.len + 1;
            assert(self.state(code, filtered@).table =~= st.table.push(st.seq));
        }
    }
}

/// The index of the last entry of `table` that holds `s`.
pub fn find_entry(table: &Vec<Vec<u8>>, s: &[u8]) -> (r: Option<usize>)
    ensures
        match find_entry_in(table@.map_values(|entry: Vec<u8>| entry@), s@, table@.len() as int) {
            Some(k) => r == Some(k as usize),
            None => r is None,
        },
{
    let ghost view = table@.map_values(|entry: Vec<u8>| entry@);
    let mut k: usize = table.len();
    while k > 0
        invariant
            k <= table@.len(),
            view == table@.map_values(|entry: Vec<u8>| entry@),
            find_entry_in(view, s@, table@.len() as int) == find_entry_in(view, s@, k as int),
        decreases k,
    {
        k = k - 1;
        if bytes_eq(table[k].as_slice(), s) {
            assert(view[k as int] == table@[k as int]@);
            return Some(k);
        }
    }
    None
}

/// Encodes `bytes` with LZW codes, the code width growing one code early
/// when `early` holds.
#[verifier::rlimit(40)]
pub fn lzw_encode(early: bool, bytes: &[u8]) -> (r: Vec<u8>)
    ensures
        r@ == spec_lzw_encode(early, bytes@),
{
    let mut f = LzwFilter::new();
    let mut filtered: Vec<u8> = Vec::new();
    let mut code: u16 = CLEAR_CODE;
    proof {
        lemma2_to64();
    }
    f.output_code(CLEAR_CODE, &mut filtered);
    let mut i: usize = 0;
    while i < bytes.len()
        invariant
            i <= bytes@.len(),
            f.state(code, filtered@) == filter_fold(early, bytes@, i as nat),
            filter_state_wf(f.state(code, filtered@)),
            f.seq@.len() == 0 ==> i == 0,
        decreases bytes@.len() - i,
    {
        let byte = bytes[i];
        let ghost st = f.state(code, filtered@);
        assert(bytes@[(i + 1) - 1] == byte);
        f.seq.push(byte);
        if f.seq.len() == 1 {
            code = byte as u16;
            i = i + 1;
            continue;
        }
        assert(f.state(code, filtered@).table == st.table);
        proof {
            lemma_find_entry_in(st.table, f.seq@, st.table.len() as int);
        }
        match find_entry(&f.table, f.seq.as_slice()) {
            Some(k) => {
                code = FIRST_CODE + k as u16;
                i = i + 1;
                continue;
            },
            None => {},
        }
        let ghost seq = st.seq.push(byte);
        assert(f.seq@ == seq);
        if early && f.len == f.code_size.limit() {
            f.code_size.increment();
        }
        let ghost cs = f.code_size;
        assert(f.state(code, filtered@) == FilterState { seq, ..FilterState { code_size: cs, ..st } });
        f.output_code(code, &mut filtered);
        let ghost written = filter_emit(FilterState { code_size: cs, ..st }, st.code);
        assert(f.state(code, filtered@) == FilterState { seq, ..written });
        if !early && f.len == f.code_size.limit() {
            f.code_size.increment();
        }
        assert(f.state(code, filtered@) == FilterState { code_size: f.code_size, seq, ..written });
        let ghost cs2 = f.code_size;
        f.update_table(EarlyChange(early), code, &mut filtered);
        let ghost updated = filter_update_table(early, FilterState { code_size: cs2, seq, ..written });
        f.seq = vec![byte];
        assert(f.seq@ =~= seq![byte]);
        code = byte as u16;
        assert(f.state(code, filtered@) == FilterState { seq: seq![byte], code: byte as int, ..updated });
        assert(f.state(code, filtered@) == filter_step(early, st, byte));
        i = i + 1;
    }
    if f.seq.len() > 0 {
        let ghost st = f.state(code, filtered@);
        if early && f.len == f.code_size.limit() {
            f.code_size.increment();
        }
        let ghost cs = f.code_size;
        f.output_code(code, &mut filtered);
        if !early && f.len == f.code_size.limit() {
            f.code_size.increment();
        }
        if early && f.len + 1 == f.code_size.limit() {
            f.code_size.increment();
        }
        assert(f.state(code, filtered@) == filter_emit_last(early, st));
    }
    f.output_code(EOD_CODE, &mut filtered);
    if f.leftover_bits > 0 {
        let lb = f.leftover_bits;
        proof {
            lemma2_to64();
            lemma_pow2_adds(lb as nat, (8 - lb) as nat);
            lemma_pow2_pos((8 - lb) as nat);
            assert(f.leftover_code * pow2((8 - lb) as nat) < 256) by (nonlinear_arith)
                requires
                    f.leftover_code < pow2(lb as nat),
                    pow2(lb as nat) * pow2((8 - lb) as nat) == 256,
                    pow2((8 - lb) as nat) > 0,
            ;
            lemma_u16_shl_is_mul(f.leftover_code, (8 - lb) as u16);
        }
        filtered.push((f.leftover_code << ((8 - lb) as u16)) as u8);
    }
    filtered
}

/// The first byte that a code writes, and the bits that it leaves.
proof fn lemma_emit_first(lcode: int, lb: nat, code: int, cs: nat)
    requires
        lb < 8,
        9 <= cs <= 12,
        0 <= lcode < pow2(lb),
        0 <= code < pow2(cs),
    ensures
        ({
            let nlb = (cs - 8 + lb) as nat;
            let v = lcode * pow2(cs) + code;
            let first = lcode * pow2((8 - lb) as nat) + code / (pow2(nlb) as int);
            &&& pack_bits(v, lb + cs) == seq![(first % 256) as u8] + pack_bits(code % (pow2(nlb) as int), nlb)
            &&& first < 256
            &&& v % (pow2(nlb) as int) == code % (pow2(nlb) as int)
            &&& code / (pow2(nlb) as int) < pow2((8 - lb) as nat)
            &&& lcode * pow2((8 - lb) as nat) <= u16::MAX
        }),
{
    let nlb = (cs - 8 + lb) as nat;
    let p = pow2(nlb) as int;
    let q = pow2((8 - lb) as nat) as int;
    let v = lcode * pow2(cs) + code;
    lemma2_to64();
    lemma_pow2_pos(nlb);
    lemma_pow2_pos((8 - lb) as nat);
    lemma_pow2_adds(nlb, (8 - lb) as nat);
    lemma_pow2_adds(lb, (8 - lb) as nat);
    assert(pow2(cs) == p * q);
    assert(pow2(lb) * q == 256);
    lemma_fundamental_div_mod(code, p);
    let x = lcode * q + code / p;
    assert(v == p * x + code % p) by (nonlinear_arith)
        requires
            v == lcode * (p * q) + code,
            code == p * (code / p) + code % p,
            x == lcode * q + code / p,
    ;
    lemma_div_multiples_vanish_fancy(x, code % p, p);
    assert(v % p == code % p) by {
        lemma_mod_multiples_vanish(lcode * q, code, p);
        assert(p * (lcode * q) + code == v) by (nonlinear_arith)
            requires
                v == lcode * (p * q) + code,
        ;
    }
    assert(code / p < q) by (nonlinear_arith)
        requires
            0 <= code < p * q,
            p > 0,
    ;
    assert(x < 256) by (nonlinear_arith)
        requires
            x == lcode * q + code / p,
            0 <= lcode < pow2(lb),
            code / p < q,
            pow2(lb) * q == 256,
    ;
    assert(lcode * q <= 255) by (nonlinear_arith)
        requires
            0 <= lcode < pow2(lb),
            pow2(lb) * q == 256,
            q > 0,
    ;
    assert(0 <= code / p) by (nonlinear_arith)
        requires
            0 <= code,
            p > 0,
    ;
    assert(0 <= lcode * q) by (nonlinear_arith)
        requires
            0 <= lcode,
            q > 0,
    ;
    assert((lb + cs - 8) as nat == nlb);
}

/// One byte of the bits: the top 8 of the `n` bits of `rest`.
proof fn lemma_pack_step(rest: int, n: nat, v: int)
    requires
        8 <= n <= 11,
        0 <= rest < pow2(n),
        rest == v % (pow2(n) as int),
        v >= 0,
    ensures
        pack_bits(rest, n) == seq![(rest / (pow2((n - 8) as nat) as int)) as u8] + pack_bits(rest % (pow2((n - 8) as nat) as int), (n - 8) as nat),
        rest / (pow2((n - 8) as nat) as int) < 256,
        rest % (pow2((n - 8) as nat) as int) == v % (pow2((n - 8) as nat) as int),
{
    let d = pow2((n - 8) as nat) as int;
    lemma2_to64();
    lemma_pow2_pos((n - 8) as nat);
    lemma_pow2_adds((n - 8) as nat, 8);
    assert(pow2(n) == d * 256);
    assert(rest / d < 256) by (nonlinear_arith)
        requires
            0 <= rest < d * 256,
            d > 0,
    ;
    assert(0 <= rest / d) by (nonlinear_arith)
        requires
            0 <= rest,
            d > 0,
    ;
    lemma_mod_mod(v, d, 256);
}

/// The bits of `hi` shifted above `m` bits and those of `lo`, which fit in
/// `m` bits, do not overlap.
proof fn lemma_or_is_add(hi: u16, m: u16, lo: u16)
    requires
        m < 16,
        lo < (1u16 << m),
        hi * pow2(m as nat) <= u16::MAX,
    ensures
        (hi << m) | lo == (hi << m) + lo,
{
    assert(lo < (1u16 << m) ==> (hi << m) & lo == 0) by (bit_vector)
        requires
            m < 16,
    ;
    assert((hi << m) & lo == 0 ==> (hi << m) | lo == (hi << m) + lo) by (bit_vector);
}

/// The invariant of the decoder's state.
pub open spec fn defilter_state_wf(st: DefilterState) -> bool {
    &&& st.len == FIRST_CODE + st.table.len()
    &&& st.len <= MAX_CODES + 1
    &&& forall|k: int| 0 <= k < st.table.len() ==> 0 < #[trigger] st.table[k].len() <= st.table.len() + 1
    &&& st.leftover_bits <= 11
    &&& st.leftover_bits < st.code_size.spec_value()
}

} // verus!
