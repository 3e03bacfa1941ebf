use crate::parse::character_set::run_end;
use crate::parse::character_set::scan_while;
use crate::parse::character_set::ByteClass;
use crate::parse::error::recoverable;
use crate::parse::error::ParseErr;
use crate::parse::error::ParseError;
use crate::parse::error::ParseErrorCode;
use crate::parse::num::hex_val;
use crate::parse::num::spec_hex_val;
use crate::parse::ErrorKind;
use crate::parse::Span;
use crate::process::escape::error::EscapeErr;
use crate::process::escape::error::EscapeErrorCode;
use crate::parse::bytes_eq;
use vstd::std_specs::cmp::PartialEqSpecImpl;
use vstd::prelude::*;
use vstd::slice::slice_subrange;

verus! {

/// REFERENCE: [7.3.5 Name objects, p27-28]. The value holds the bytes after
/// the solidus, with their `#` escape sequences unresolved.
#[derive(Debug, Clone, Copy)]
pub struct Name<'buffer> {
    pub value: &'buffer [u8],
    pub span: Span,
}

/// What the escape resolution of a name has seen of the current sequence.
#[derive(Debug, PartialEq, Eq, Structural, Clone, Copy)]
pub enum PrevByte {
    NumberSign,
    FirstHexDigit(u8),
    Other,
}

/// One step of the resolution of `#` escape sequences in a name: the next
/// state and the bytes that the byte adds to the output, or an error.
pub open spec fn name_escape_step(prev: PrevByte, byte: u8) -> Result<(PrevByte, Seq<u8>), EscapeErrorCode> {
    match prev {
        PrevByte::Other => if byte == 35 {
            Ok((PrevByte::NumberSign, Seq::empty()))
        } else {
            Ok((PrevByte::Other, seq![byte]))
        },
        PrevByte::NumberSign => match spec_hex_val(byte) {
            Some(digit) => Ok((PrevByte::FirstHexDigit(digit), Seq::empty())),
            None => Err(EscapeErrorCode::InvalidHexDigit(byte as char)),
        },
        PrevByte::FirstHexDigit(high) => match spec_hex_val(byte) {
            Some(low) => Ok((PrevByte::Other, seq![(high * 16 + low) as u8])),
            None => Err(EscapeErrorCode::IncompleteHexCode(high, byte as char)),
        },
    }
}

/// The state and output after resolving the escape sequences of `s`.
pub open spec fn name_escape_fold(s: Seq<u8>) -> Result<(PrevByte, Seq<u8>), EscapeErrorCode>
    decreases s.len(),
{
    if s.len() == 0 {
        Ok((PrevByte::Other, Seq::empty()))
    } else {
        match name_escape_fold(s.drop_last()) {
            Err(code) => Err(code),
            Ok((prev, out)) => match name_escape_step(prev, s.last()) {
                Err(code) => Err(code),
                Ok((next, more)) => Ok((next, out + more)),
            },
        }
    }
}

/// REFERENCE: [7.3.5 Name objects, p28]: each `#` followed by two
/// hexadecimal digits stands for the byte that they write.
pub open spec fn spec_name_escape(s: Seq<u8>) -> Result<Seq<u8>, EscapeErrorCode> {
    match name_escape_fold(s) {
        Err(code) => Err(code),
        Ok((PrevByte::Other, out)) => Ok(out),
        Ok((PrevByte::NumberSign, _)) => Err(EscapeErrorCode::TraillingNumberSign),
        Ok((PrevByte::FirstHexDigit(digit), _)) => Err(EscapeErrorCode::TraillingHexDigit(digit)),
    }
}

/// The outcome of reading a name at `offset`: `/` and the printable regular
/// characters that follow it.
pub open spec fn name_outcome(s: Seq<u8>, offset: int, r: Result<Name, ParseErr>) -> bool {
    if offset < s.len() && s[offset] == 47 {
        r matches Ok(name) && {
            let end = run_end(s, offset + 1, ByteClass::PrintableRegular);
            &&& name.value@ == s.subrange(offset + 1, end)
            &&& name.span == Span { start: offset as usize, end: end as usize }
        }
    } else {
        recoverable(r, s.skip(offset), "Name"@, ParseErrorCode::NotFound(ErrorKind::Char))
    }
}

impl<'buffer> Name<'buffer> {
    pub fn new(value: &'buffer [u8], span: Span) -> (name: Self)
        ensures
            name.value == value,
            name.span == span,
    {
        Self { value, span }
    }

    /// Parses a solidus and the printable regular characters that follow it.
    pub fn parse(buffer: &'buffer [u8], offset: usize) -> (r: Result<Self, ParseErr<'buffer>>)
        requires
            offset <= buffer@.len(),
        ensures
            r matches Ok(name) ==> name.span.start == offset && offset < name.span.end <= buffer@.len(),
            name_outcome(buffer@, offset as int, r),
            offset < buffer@.len() && buffer@[offset as int] == 47 ==> (r matches Ok(name) && {
                let end = run_end(buffer@, offset + 1, ByteClass::PrintableRegular);
                &&& name.value@ == buffer@.subrange(offset + 1, end)
                &&& name.span == Span { start: offset, end: end as usize }
            }),
            !(offset < buffer@.len() && buffer@[offset as int] == 47) ==> recoverable(
                r,
                buffer@.skip(offset as int),
                "Name"@,
                ParseErrorCode::NotFound(ErrorKind::Char),
            ),
    {
        if offset < buffer.len() && buffer[offset] == 47 {
            let end = scan_while(buffer, offset + 1, ByteClass::PrintableRegular);
            proof {
                crate::parse::character_set::lemma_run_end_bounds(buffer@, offset + 1, ByteClass::PrintableRegular);
            }
            Ok(Self { value: slice_subrange(buffer, offset + 1, end), span: Span::new(offset, end - offset) })
        } else {
            Err(
                ParseErr::Recoverable(
                    ParseError::new(
                        slice_subrange(buffer, offset, buffer.len()),
                        "Name",
                        ParseErrorCode::NotFound(ErrorKind::Char),
                    ),
                ),
            )
        }
    }

    pub fn span(&self) -> (span: Span)
        ensures
            span == self.span,
    {
        self.span
    }

    /// Resolves the `#` escape sequences of the name.
    pub fn escape(&self) -> (r: Result<Vec<u8>, EscapeErr<'buffer>>)
        ensures
            match spec_name_escape(self.value@) {
                Ok(escaped) => (r matches Ok(v) && v@ == escaped),
                Err(code) => (r matches Err(e) && e.buffer == self.value && e.code == code),
            },
    {
        let value = self.value;
        let mut escaped: Vec<u8> = Vec::new();
        let mut prev = PrevByte::Other;
        let mut i: usize = 0;
        assert(value@.take(0) =~= Seq::<u8>::empty());
        while i < value.len()
            invariant
                i <= value@.len(),
                value == self.value,
                name_escape_fold(value@.take(i as int)) == Ok::<(PrevByte, Seq<u8>), EscapeErrorCode>((prev, escaped@)),
                prev matches PrevByte::FirstHexDigit(d) ==> d < 16,
            decreases value@.len() - i,
        {
            let byte = value[i];
            let ghost old_escaped = escaped@;
            assert(old_escaped + Seq::<u8>::empty() =~= old_escaped);
            assert(value@.take(i + 1).drop_last() =~= value@.take(i as int));
            match prev {
                PrevByte::Other => {
                    if byte == 35 {
                        prev = PrevByte::NumberSign;
                    } else {
                        escaped.push(byte);
                        assert(escaped@ =~= old_escaped + seq![byte]);
                    }
                },
                PrevByte::NumberSign => {
                    match hex_val(byte) {
                        Some(digit) => {
                            prev = PrevByte::FirstHexDigit(digit);
                        },
                        None => {
                            proof {
                                lemma_name_escape_error_persists(value@, i as int + 1);
                            }
                            return Err(EscapeErr::new(value, EscapeErrorCode::InvalidHexDigit(byte as char)));
                        },
                    }
                },
                PrevByte::FirstHexDigit(high) => {
                    match hex_val(byte) {
                        Some(low) => {
                            escaped.push(high * 16 + low);
                            assert(escaped@ =~= old_escaped + seq![(high * 16 + low) as u8]);
                            prev = PrevByte::Other;
                        },
                        None => {
                            proof {
                                lemma_name_escape_error_persists(value@, i as int + 1);
                            }
                            return Err(
                                EscapeErr::new(
                                    value,
                                    EscapeErrorCode::IncompleteHexCode(high, byte as char),
                                ),
                            );
                        },
                    }
                },
            }
            i = i + 1;
        }
        assert(value@.take(value@.len() as int) =~= value@);
        match prev {
            PrevByte::NumberSign => Err(EscapeErr::new(value, EscapeErrorCode::TraillingNumberSign)),
            PrevByte::FirstHexDigit(digit) => Err(
                EscapeErr::new(value, EscapeErrorCode::TraillingHexDigit(digit)),
            ),
            PrevByte::Other => Ok(escaped),
        }
    }
}

/// Once the resolution of a prefix fails, that of the whole name fails in
/// the same way.
proof fn lemma_name_escape_error_persists(s: Seq<u8>, i: int)
    requires
        0 <= i <= s.len(),
        name_escape_fold(s.take(i)) is Err,
    ensures
        name_escape_fold(s) == name_escape_fold(s.take(i)),
    decreases s.len() - i,
{
    if i < s.len() {
        assert(s.take(i + 1).drop_last() =~= s.take(i));
        lemma_name_escape_error_persists(s, i + 1);
    } else {
        assert(s.take(i) =~= s);
    }
}

impl<'buffer> PartialEq for Name<'buffer> {
    fn eq(&self, other: &Self) -> (r: bool) {
        match (self.escape(), other.escape()) {
            (Ok(a), Ok(b)) => bytes_eq(a.as_slice(), b.as_slice()) && self.span == other.span,
            _ => false,
        }
    }
}

impl<'buffer> PartialEqSpecImpl for Name<'buffer> {
    open spec fn obeys_eq_spec() -> bool {
        true
    }

    open spec fn eq_spec(&self, other: &Self) -> bool {
        match (spec_name_escape(self.value@), spec_name_escape(other.value@)) {
            (Ok(a), Ok(b)) => a == b && self.span == other.span,
            _ => false,
        }
    }
}

/// The bytes of `s` hold no number sign: no escape sequence of a name.
pub open spec fn plain_name_text(s: Seq<u8>) -> bool {
    forall|i: int| 0 <= i < s.len() ==> #[trigger] s[i] != 35
}

/// Bytes with no number sign, read after a finished sequence, are kept.
proof fn lemma_name_fold_plain(p: Seq<u8>, out: Seq<u8>, t: Seq<u8>)
    requires
        name_escape_fold(p) == Ok::<(PrevByte, Seq<u8>), EscapeErrorCode>((PrevByte::Other, out)),
        plain_name_text(t),
    ensures
        name_escape_fold(p + t) == Ok::<(PrevByte, Seq<u8>), EscapeErrorCode>((PrevByte::Other, out + t)),
    decreases t.len(),
{
    if t.len() == 0 {
        assert(p + t =~= p);
        assert(out + t =~= out);
    } else {
        let u = t.drop_last();
        assert(plain_name_text(u)) by {
            assert forall|i: int| 0 <= i < u.len() implies #[trigger] u[i] != 35 by {
                assert(u[i] == t[i]);
            }
        }
        lemma_name_fold_plain(p, out, u);
        assert((p + t).drop_last() =~= p + u);
        assert((p + t).last() == t[t.len() - 1]);
        assert(out + u + seq![t[t.len() - 1]] =~= out + t);
    }
}

/// REFERENCE: [7.3.5 Name objects, p28]: text with no number sign stands
/// for itself, and `#` followed by two hexadecimal digits, between such
/// texts, stands for the byte whose high and low halves the digits write.
pub proof fn lemma_name_escape_sequence(s1: Seq<u8>, s2: Seq<u8>, h: u8, l: u8, hv: u8, lv: u8)
    requires
        plain_name_text(s1),
        plain_name_text(s2),
        spec_hex_val(h) == Some(hv),
        spec_hex_val(l) == Some(lv),
    ensures
        spec_name_escape(s1) == Ok::<Seq<u8>, EscapeErrorCode>(s1),
        spec_name_escape(s1 + seq![35u8, h, l] + s2) == Ok::<Seq<u8>, EscapeErrorCode>(
            s1 + seq![(hv * 16 + lv) as u8] + s2,
        ),
{
    let empty = Seq::<u8>::empty();
    assert(name_escape_fold(empty) == Ok::<(PrevByte, Seq<u8>), EscapeErrorCode>((PrevByte::Other, empty)));
    lemma_name_fold_plain(empty, empty, s1);
    assert(empty + s1 =~= s1);
    let w = s1.push(35u8);
    assert(w.drop_last() =~= s1);
    assert(s1 + Seq::<u8>::empty() =~= s1);
    let w1 = w.push(h);
    assert(w1.drop_last() =~= w);
    let w2 = w1.push(l);
    assert(w2.drop_last() =~= w1);
    let b = (hv * 16 + lv) as u8;
    assert(name_escape_fold(w) == Ok::<(PrevByte, Seq<u8>), EscapeErrorCode>((PrevByte::NumberSign, s1)));
    assert(name_escape_fold(w1) == Ok::<(PrevByte, Seq<u8>), EscapeErrorCode>((PrevByte::FirstHexDigit(hv), s1)));
    assert(name_escape_fold(w2) == Ok::<(PrevByte, Seq<u8>), EscapeErrorCode>((PrevByte::Other, s1 + seq![b])));
    lemma_name_fold_plain(w2, s1 + seq![b], s2);
    assert(s1 + seq![35u8, h, l] + s2 =~= w2 + s2);
}

} // verus!
