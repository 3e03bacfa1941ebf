use super::error::FilterErr;
use super::error::FilterErrorCode;
use super::error::is_filter_err;
use crate::parse::character_set::is_white_space;
use crate::parse::character_set::spec_is_white_space;
use crate::parse::num::hex_val;
use crate::parse::num::spec_hex_val;
use vstd::prelude::*;

verus! {

#[derive(Debug, PartialEq, Eq, Structural, Clone, Copy)]
pub enum AHxErrorCode {
    /// An invalid ASCII hexadecimal digit.
    InvalidHexDigit(char),
    /// A character after the EOD marker.
    AfterEod(char),
}

/// REFERENCE: [7.4.2 ASCIIHexDecode filter, p37]
/// The ASCII hexadecimal filter.
#[derive(Debug, PartialEq, Eq, Structural, Clone, Copy)]
pub struct AHx;

/// The state of the decoder: whether the EOD marker `>` was seen, and the
/// first digit of a pair still waiting for the second one.
pub type AHxState = (bool, Option<u8>);

/// One step of the decoder: white space is ignored, `>` ends the data, and
/// each pair of digits writes a byte.
pub open spec fn ahx_step(state: AHxState, byte: u8) -> Result<(AHxState, Seq<u8>), AHxErrorCode> {
    let (eod, prev) = state;
    if spec_is_white_space(byte) {
        Ok((state, Seq::empty()))
    } else if eod {
        Err(AHxErrorCode::AfterEod(byte as char))
    } else if byte == 62 {
        Ok(((true, prev), Seq::empty()))
    } else {
        match prev {
            Some(high) => match (spec_hex_val(high), spec_hex_val(byte)) {
                (Some(h), Some(l)) => Ok(((false, None), seq![(h * 16 + l) as u8])),
                (None, _) => Err(AHxErrorCode::InvalidHexDigit(high as char)),
                (_, None) => Err(AHxErrorCode::InvalidHexDigit(byte as char)),
            },
            None => Ok(((false, Some(byte)), Seq::empty())),
        }
    }
}

/// The state and output of the decoder after the bytes of `s`.
pub open spec fn ahx_fold(s: Seq<u8>) -> Result<(AHxState, Seq<u8>), AHxErrorCode>
    decreases s.len(),
{
    if s.len() == 0 {
        Ok(((false, None), Seq::empty()))
    } else {
        match ahx_fold(s.drop_last()) {
            Err(code) => Err(code),
            Ok((state, out)) => match ahx_step(state, s.last()) {
                Err(code) => Err(code),
                Ok((next, more)) => Ok((next, out + more)),
            },
        }
    }
}

/// REFERENCE: [7.4.2 ASCIIHexDecode filter, p37]: a final odd digit is read
/// as if followed by 0; a final byte that is no digit is an invalid digit.
pub open spec fn spec_ahx_decode(s: Seq<u8>) -> Result<Seq<u8>, AHxErrorCode> {
    match ahx_fold(s) {
        Err(code) => Err(code),
        Ok(((_, Some(last)), out)) => match spec_hex_val(last) {
            Some(h) => Ok(out.push((h * 16) as u8)),
            None => Err(AHxErrorCode::InvalidHexDigit(last as char)),
        },
        Ok(((_, None), out)) => Ok(out),
    }
}

/// The upper-case hexadecimal digit of `n` (for `n < 16`).
pub open spec fn hex_digit_upper(n: u8) -> u8 {
    if n < 10 {
        (48 + n) as u8
    } else {
        (55 + n) as u8
    }
}

/// Each byte written as two upper-case hexadecimal digits.
pub open spec fn spec_ahx_encode(s: Seq<u8>) -> Seq<u8>
    decreases s.len(),
{
    if s.len() == 0 {
        Seq::empty()
    } else {
        spec_ahx_encode(s.drop_last()) + seq![hex_digit_upper(s.last() / 16), hex_digit_upper(s.last() % 16)]
    }
}


proof fn lemma_ahx_error_persists(s: Seq<u8>, i: int)
    requires
        0 <= i <= s.len(),
        ahx_fold(s.take(i)) is Err,
    ensures
        ahx_fold(s) == ahx_fold(s.take(i)),
    decreases s.len() - i,
{
    if i < s.len() {
        assert(s.take(i + 1).drop_last() =~= s.take(i));
        lemma_ahx_error_persists(s, i + 1);
    } else {
        assert(s.take(i) =~= s);
    }
}

fn ahx_error(code: AHxErrorCode) -> (err: FilterErr)
    ensures
        err.object@ == "AHx"@,
        err.code == FilterErrorCode::AHx(code),
{
    FilterErr::new("AHx", FilterErrorCode::AHx(code))
}

fn hex_digit(n: u8) -> (digit: u8)
    requires
        n < 16,
    ensures
        digit == hex_digit_upper(n),
{
    if n < 10 {
        48 + n
    } else {
        55 + n
    }
}

impl AHx {
    /// Writes each byte as two upper-case hexadecimal digits.
    pub fn filter(&self, bytes: &[u8]) -> (r: Result<Vec<u8>, FilterErr>)
        ensures
            r matches Ok(v) && v@ == spec_ahx_encode(bytes@),
    {
        let mut encoded: Vec<u8> = Vec::new();
        let mut i: usize = 0;
        assert(bytes@.take(0) =~= Seq::<u8>::empty());
        while i < bytes.len()
            invariant
                i <= bytes@.len(),
                encoded@ == spec_ahx_encode(bytes@.take(i as int)),
            decreases bytes@.len() - i,
        {
            let byte = bytes[i];
            assert(bytes@.take(i + 1).drop_last() =~= bytes@.take(i as int));
            let ghost old = encoded@;
            encoded.push(hex_digit(byte / 16));
            encoded.push(hex_digit(byte % 16));
            assert(encoded@ =~= old + seq![hex_digit_upper(byte / 16), hex_digit_upper(byte % 16)]);
            i = i + 1;
        }
        assert(bytes@.take(bytes@.len() as int) =~= bytes@);
        Ok(encoded)
    }

    /// REFERENCE: [7.4.2 ASCIIHexDecode filter, p37]
    pub fn defilter(&self, bytes: &[u8]) -> (r: Result<Vec<u8>, FilterErr>)
        ensures
            match spec_ahx_decode(bytes@) {
                Ok(decoded) => (r matches Ok(v) && v@ == decoded),
                Err(code) => (r matches Err(e) && is_filter_err(e, "AHx"@, FilterErrorCode::AHx(code))),
            },
    {
        let mut defiltered: Vec<u8> = Vec::new();
        let mut eod = false;
        let mut prev: Option<u8> = None;
        let mut i: usize = 0;
        assert(bytes@.take(0) =~= Seq::<u8>::empty());
        while i < bytes.len()
            invariant
                i <= bytes@.len(),
                ahx_fold(bytes@.take(i as int)) == Ok::<(AHxState, Seq<u8>), AHxErrorCode>(
                    ((eod, prev), defiltered@),
                ),
            decreases bytes@.len() - i,
        {
            let byte = bytes[i];
            assert(bytes@.take(i + 1).drop_last() =~= bytes@.take(i as int));
            let ghost old = defiltered@;
            assert(old + Seq::<u8>::empty() =~= old);
            if is_white_space(byte) {
            } else if eod {
                proof {
                    lemma_ahx_error_persists(bytes@, i + 1);
                }
                return Err(ahx_error(AHxErrorCode::AfterEod(byte as char)));
            } else if byte == 62 {
                eod = true;
            } else {
                match prev {
                    Some(high) => {
                        let h = hex_val(high);
                        let l = hex_val(byte);
                        match (h, l) {
                            (Some(h), Some(l)) => {
                                defiltered.push(h * 16 + l);
                                assert(defiltered@ =~= old + seq![(h * 16 + l) as u8]);
                                prev = None;
                            },
                            (None, _) => {
                                proof {
                                    lemma_ahx_error_persists(bytes@, i + 1);
                                }
                                return Err(ahx_error(AHxErrorCode::InvalidHexDigit(high as char)));
                            },
                            (_, None) => {
                                proof {
                                    lemma_ahx_error_persists(bytes@, i + 1);
                                }
                                return Err(ahx_error(AHxErrorCode::InvalidHexDigit(byte as char)));
                            },
                        }
                    },
                    None => {
                        prev = Some(byte);
                    },
                }
            }
            i = i + 1;
        }
        assert(bytes@.take(bytes@.len() as int) =~= bytes@);
        match prev {
            Some(last) => match hex_val(last) {
                Some(h) => {
                    defiltered.push(h * 16);
                    Ok(defiltered)
                },
                None => Err(ahx_error(AHxErrorCode::InvalidHexDigit(last as char))),
            },
            None => Ok(defiltered),
        }
    }
}

proof fn lemma_hex_digit_upper_value(n: u8)
    requires
        n < 16,
    ensures
        spec_hex_val(hex_digit_upper(n)) == Some(n),
        !spec_is_white_space(hex_digit_upper(n)),
        hex_digit_upper(n) != 62,
{
}

proof fn lemma_ahx_fold_encode(s: Seq<u8>)
    ensures
        ahx_fold(spec_ahx_encode(s)) == Ok::<(AHxState, Seq<u8>), AHxErrorCode>(((false, None), s)),
    decreases s.len(),
{
    if s.len() > 0 {
        let prefix = s.drop_last();
        let b = s.last();
        lemma_ahx_fold_encode(prefix);
        let high = hex_digit_upper(b / 16);
        let low = hex_digit_upper(b % 16);
        lemma_hex_digit_upper_value(b / 16);
        lemma_hex_digit_upper_value(b % 16);
        let e = spec_ahx_encode(s);
        let ep = spec_ahx_encode(prefix);
        let mid = ep + seq![high];
        assert(e == ep + seq![high, low]);
        assert(e.drop_last() =~= mid);
        assert(mid.drop_last() =~= ep);
        assert(e.last() == low);
        assert(mid.last() == high);
        assert(prefix + Seq::<u8>::empty() =~= prefix);
        assert(ahx_step((false, None), high) == Ok::<(AHxState, Seq<u8>), AHxErrorCode>(((false, Some(high)), Seq::empty())));
        assert(ahx_fold(mid) == Ok::<(AHxState, Seq<u8>), AHxErrorCode>(((false, Some(high)), prefix)));
        assert(((b / 16) * 16 + b % 16) as u8 == b);
        assert(ahx_step((false, Some(high)), low) == Ok::<(AHxState, Seq<u8>), AHxErrorCode>(((false, None), seq![b])));
        assert(prefix + seq![b] =~= s);
        assert(ahx_fold(e) == Ok::<(AHxState, Seq<u8>), AHxErrorCode>(((false, None), prefix + seq![b])));
    } else {
        assert(s =~= Seq::<u8>::empty());
    }
}

/// Decoding what the filter wrote gives back the bytes it was given.
pub proof fn lemma_ahx_roundtrip(s: Seq<u8>)
    ensures
        spec_ahx_decode(spec_ahx_encode(s)) == Ok::<Seq<u8>, AHxErrorCode>(s),
{
    lemma_ahx_fold_encode(s);
}

/// REFERENCE: [7.4.2 ASCIIHexDecode filter, p37]: after what the filter
/// writes for any bytes, two more hexadecimal digits decode to the byte whose
/// high and low halves they write, and a single one to the byte whose high
/// half it writes.
pub proof fn lemma_ahx_digit_pair(x: Seq<u8>, h: u8, l: u8, hv: u8, lv: u8)
    requires
        spec_hex_val(h) == Some(hv),
        spec_hex_val(l) == Some(lv),
    ensures
        spec_ahx_decode(spec_ahx_encode(x) + seq![h, l]) == Ok::<Seq<u8>, AHxErrorCode>(x.push((hv * 16 + lv) as u8)),
        spec_ahx_decode(spec_ahx_encode(x).push(h)) == Ok::<Seq<u8>, AHxErrorCode>(x.push((hv * 16) as u8)),
{
    lemma_ahx_fold_encode(x);
    let e = spec_ahx_encode(x);
    assert(!spec_is_white_space(h) && h != 62 && !spec_is_white_space(l) && l != 62) by {
        reveal_ws_digits(h);
        reveal_ws_digits(l);
    }
    let e1 = e.push(h);
    assert(e1.drop_last() =~= e);
    assert(x + Seq::<u8>::empty() =~= x);
    assert(ahx_fold(e1) == Ok::<(AHxState, Seq<u8>), AHxErrorCode>(((false, Some(h)), x)));
    let e2 = e1.push(l);
    assert(e2.drop_last() =~= e1);
    assert(e + seq![h, l] =~= e2);
    assert(x + seq![(hv * 16 + lv) as u8] =~= x.push((hv * 16 + lv) as u8));
}

/// A hexadecimal digit is no white space and no `>`.
proof fn reveal_ws_digits(b: u8)
    requires
        spec_hex_val(b) is Some,
    ensures
        !spec_is_white_space(b),
        b != 62,
{
}

} // verus!
