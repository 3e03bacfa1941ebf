use super::error::is_filter_err;
use super::error::FilterErr;
use super::error::FilterErrorCode;
use crate::parse::character_set::is_white_space;
use crate::parse::character_set::spec_is_white_space;
use vstd::prelude::*;

verus! {

/// A group of up to `N` bytes being collected, and how many it holds.
#[derive(Debug, PartialEq, Eq, Clone, Copy)]
pub struct Bytes<const N: usize> {
    pub data: [u8; N],
    pub pos: usize,
}

impl<const N: usize> Default for Bytes<N> {
    fn default() -> (bytes: Self)
        ensures
            bytes.pos == 0,
            bytes.data@ == Seq::new(N as nat, |i: int| 0u8),
    {
        Self::new()
    }
}

impl<const N: usize> Bytes<N> {
    pub fn new() -> (bytes: Self)
        ensures
            bytes.pos == 0,
            bytes.data@ == Seq::new(N as nat, |i: int| 0u8),
    {
        let bytes = Self { data: [0u8; N], pos: 0 };
        assert(bytes.data@ =~= Seq::new(N as nat, |i: int| 0u8));
        bytes
    }

    /// Adds `byte` to the group. When the group is already full, it is handed
    /// back, and a new group starts with `byte`.
    pub fn push(&mut self, byte: u8) -> (full: Option<[u8; N]>)
        requires
            0 < N,
            old(self).pos <= N,
        ensures
            final(self).pos <= N,
            old(self).pos < N ==> full is None && final(self).pos == old(self).pos + 1
                && final(self).data@ == old(self).data@.update(old(self).pos as int, byte),
            old(self).pos == N ==> full == Some(old(self).data) && final(self).pos == 1
                && final(self).data@ == Seq::new(N as nat, |i: int| if i == 0 { byte } else { 0u8 }),
    {
        if self.pos < N {
            self.data[self.pos] = byte;
            self.pos = self.pos + 1;
            None
        } else {
            let data = self.data;
            let mut fresh = [0u8; N];
            fresh[0] = byte;
            self.data = fresh;
            self.pos = 1;
            assert(self.data@ =~= Seq::new(N as nat, |i: int| if i == 0 { byte } else { 0u8 }));
            Some(data)
        }
    }
}

#[derive(Debug, PartialEq, Eq, Clone, Copy)]
pub enum A85ErrorCode {
    InvalidBase85Digit(char),
    AfterEod(char),
    ValueTooLarge(Bytes<5>),
    ZInMiddle(Bytes<5>),
    FinalPartialGroup(Bytes<5>),
    CorruptEod(char),
}

/// REFERENCE: [7.4.3 ASCII85Decode filter, p37-39]
/// The ASCII base-85 filter.
#[derive(Debug, PartialEq, Eq, Structural, Clone, Copy)]
pub struct A85;

/// The value that base-85 digits (`!` for 0 to `u` for 84) write, most
/// significant first.
pub open spec fn base85_value(s: Seq<u8>) -> nat
    decreases s.len(),
{
    if s.len() == 0 {
        0
    } else {
        base85_value(s.drop_last()) * 85 + (s.last() - 33) as nat
    }
}

/// The four bytes of a 32-bit value, most significant first.
pub open spec fn be_bytes(v: nat) -> Seq<u8> {
    seq![
        (v / 0x100_0000 % 256) as u8,
        (v / 0x1_0000 % 256) as u8,
        (v / 0x100 % 256) as u8,
        (v % 256) as u8,
    ]
}

/// A group of the decoder as a sequence of its five slots, and how many of
/// them are filled.
pub type A85Group = (Seq<u8>, nat);

/// The errors of the decoder, with groups given by their slots and fill.
pub enum A85Error {
    InvalidBase85Digit(char),
    AfterEod(char),
    ValueTooLarge(A85Group),
    ZInMiddle(A85Group),
    FinalPartialGroup(A85Group),
    CorruptEod(char),
}

/// The code reports the error `e`.
pub open spec fn a85_code_is(code: A85ErrorCode, e: A85Error) -> bool {
    match (code, e) {
        (A85ErrorCode::InvalidBase85Digit(c), A85Error::InvalidBase85Digit(d)) => c == d,
        (A85ErrorCode::AfterEod(c), A85Error::AfterEod(d)) => c == d,
        (A85ErrorCode::CorruptEod(c), A85Error::CorruptEod(d)) => c == d,
        (A85ErrorCode::ValueTooLarge(b), A85Error::ValueTooLarge(g)) => b.data@ == g.0 && b.pos == g.1,
        (A85ErrorCode::ZInMiddle(b), A85Error::ZInMiddle(g)) => b.data@ == g.0 && b.pos == g.1,
        (A85ErrorCode::FinalPartialGroup(b), A85Error::FinalPartialGroup(g)) => b.data@ == g.0 && b.pos
            == g.1,
        _ => false,
    }
}

/// `err` is the filter error that reports `e`.
pub open spec fn a85_err_is(err: FilterErr, e: A85Error) -> bool {
    err.object@ == "A85"@ && (err.code matches FilterErrorCode::A85(code) && a85_code_is(code, e))
}

/// The state of the decoder: the current group, and whether `~` and the
/// EOD marker `~>` were seen.
pub type A85State = (A85Group, bool, bool);

/// The group of the decoder before any digit: no slot filled.
pub open spec fn empty_group() -> Seq<u8> {
    seq![0u8, 0u8, 0u8, 0u8, 0u8]
}

/// A new group that holds `byte`.
pub open spec fn fresh_group(byte: u8) -> Seq<u8> {
    seq![byte, 0u8, 0u8, 0u8, 0u8]
}

/// One step of the decoder. A group of five digits is decoded as soon as it
/// is full, where its value fits in 32 bits; a group whose value does not is
/// held, and the digit after it is an error that carries the new group that
/// the digit starts. `z` stands for four zero bytes between groups.
pub open spec fn a85_step(state: A85State, byte: u8) -> Result<(A85State, Seq<u8>), A85Error> {
    let (group, tilde, eod) = state;
    let (data, pos) = group;
    if spec_is_white_space(byte) {
        Ok((state, Seq::empty()))
    } else if eod {
        Err(A85Error::AfterEod(byte as char))
    } else if tilde {
        if byte == 62 {
            Ok(((group, tilde, true), Seq::empty()))
        } else {
            Err(A85Error::CorruptEod(byte as char))
        }
    } else if byte == 126 {
        Ok(((group, true, eod), Seq::empty()))
    } else if byte == 122 {
        if pos == 0 {
            Ok((state, seq![0u8, 0u8, 0u8, 0u8]))
        } else {
            Err(A85Error::ZInMiddle(group))
        }
    } else if !(33 <= byte <= 117) {
        Err(A85Error::InvalidBase85Digit(byte as char))
    } else if pos >= 5 {
        Err(A85Error::ValueTooLarge((fresh_group(byte), 1)))
    } else {
        let full = data.update(pos as int, byte);
        if pos + 1 < 5 {
            Ok((((full, pos + 1), tilde, eod), Seq::empty()))
        } else if base85_value(full) > u32::MAX {
            Ok((((full, 5), tilde, eod), Seq::empty()))
        } else {
            Ok((((empty_group(), 0), tilde, eod), be_bytes(base85_value(full))))
        }
    }
}

/// The state and output of the decoder after the bytes of `s`.
pub open spec fn a85_fold(s: Seq<u8>) -> Result<(A85State, Seq<u8>), A85Error>
    decreases s.len(),
{
    if s.len() == 0 {
        Ok((((empty_group(), 0), false, false), Seq::empty()))
    } else {
        match a85_fold(s.drop_last()) {
            Err(e) => Err(e),
            Ok((state, out)) => match a85_step(state, s.last()) {
                Err(e) => Err(e),
                Ok((next, more)) => Ok((next, out + more)),
            },
        }
    }
}

/// REFERENCE: [7.4.3 ASCII85Decode filter, p38]: a final partial group of
/// `n` digits is padded with `u` digits and gives its first `n - 1` bytes.
pub open spec fn spec_a85_decode(s: Seq<u8>) -> Result<Seq<u8>, A85Error> {
    match a85_fold(s) {
        Err(e) => Err(e),
        Ok((((data, pos), _, _), out)) => if pos == 0 {
            Ok(out)
        } else if pos == 1 {
            Err(A85Error::FinalPartialGroup((data, pos)))
        } else {
            let value = base85_value(data.take(pos as int) + Seq::new((5 - pos) as nat, |i: int| 117u8));
            if value > u32::MAX {
                Err(A85Error::ValueTooLarge((data, pos)))
            } else {
                Ok(out + be_bytes(value).take(pos - 1))
            }
        }
    }
}

/// The five base-85 digits of a 32-bit value, most significant first.
pub open spec fn base85_digits(v: nat) -> Seq<u8> {
    seq![
        (v / 52200625 % 85 + 33) as u8,
        (v / 614125 % 85 + 33) as u8,
        (v / 7225 % 85 + 33) as u8,
        (v / 85 % 85 + 33) as u8,
        (v % 85 + 33) as u8,
    ]
}

/// The value of four bytes, most significant first.
pub open spec fn be_value(g: Seq<u8>) -> nat {
    g[0] as nat * 0x100_0000 + g[1] as nat * 0x1_0000 + g[2] as nat * 0x100 + g[3] as nat
}

/// The number of complete groups of four bytes that the encoder writes
/// before the end of the data: all of them but the last group, which is
/// written at the end whether or not it is complete.
pub open spec fn a85_flushed_groups(n: nat) -> nat {
    if n == 0 {
        0
    } else {
        ((n - 1) / 4) as nat
    }
}

/// The encoding of the first `m` groups of four bytes: `z` for a zero group,
/// five digits otherwise.
pub open spec fn a85_encode_groups(x: Seq<u8>, m: nat) -> Seq<u8>
    decreases m,
{
    if m == 0 {
        Seq::empty()
    } else {
        let v = be_value(x.subrange(4 * (m - 1), 4 * m as int));
        a85_encode_groups(x, (m - 1) as nat) + if v == 0 {
            seq![122u8]
        } else {
            base85_digits(v)
        }
    }
}

/// REFERENCE: [7.4.3 ASCII85Decode filter, p37-38]: the groups, then the
/// last group of `p` bytes padded with zeros and written as its first `p + 1`
/// digits, then the EOD marker `~>`.
pub open spec fn spec_a85_encode(x: Seq<u8>) -> Seq<u8> {
    let m = a85_flushed_groups(x.len());
    let last = if x.len() == 0 {
        Seq::empty()
    } else {
        let p = x.len() - 4 * m;
        let padded = x.skip(4 * m as int) + Seq::new((4 - p) as nat, |i: int| 0u8);
        base85_digits(be_value(padded)).take(p + 1)
    };
    a85_encode_groups(x, m) + last + seq![126u8, 62u8]
}

proof fn lemma_a85_error_persists(s: Seq<u8>, i: int)
    requires
        0 <= i <= s.len(),
        a85_fold(s.take(i)) is Err,
    ensures
        a85_fold(s) == a85_fold(s.take(i)),
    decreases s.len() - i,
{
    if i < s.len() {
        assert(s.take(i + 1).drop_last() =~= s.take(i));
        lemma_a85_error_persists(s, i + 1);
    } else {
        assert(s.take(i) =~= s);
    }
}

/// The value of a group of five base-85 digits, if it fits in 32 bits.
fn group_value(digits: &[u8]) -> (value: Option<u32>)
    requires
        digits@.len() == 5,
        forall|i: int| 0 <= i < 5 ==> 33 <= #[trigger] digits@[i] <= 117,
    ensures
        base85_value(digits@) <= u32::MAX ==> value == Some(base85_value(digits@) as u32),
        base85_value(digits@) > u32::MAX ==> value is None,
{
    let mut value: Option<u32> = Some(0);
    let mut i: usize = 0;
    assert(digits@.take(0) =~= Seq::<u8>::empty());
    while i < 5
        invariant
            i <= 5,
            digits@.len() == 5,
            forall|i: int| 0 <= i < 5 ==> 33 <= #[trigger] digits@[i] <= 117,
            value matches Some(v) ==> v == base85_value(digits@.take(i as int)),
            value is None ==> base85_value(digits@.take(i as int)) > u32::MAX,
        decreases 5 - i,
    {
        let digit = digits[i] - 33;
        assert(digits@.take(i + 1).drop_last() =~= digits@.take(i as int));
        value = match value {
            Some(v) => match v.checked_mul(85) {
                Some(m) => m.checked_add(digit as u32),
                None => None,
            },
            None => None,
        };
        i = i + 1;
    }
    assert(digits@.take(5) =~= digits@);
    value
}

fn a85_error(code: A85ErrorCode) -> (err: FilterErr)
    ensures
        is_filter_err(err, "A85"@, FilterErrorCode::A85(code)),
{
    FilterErr::new("A85", FilterErrorCode::A85(code))
}

fn push_be_bytes(out: &mut Vec<u8>, value: u32, count: usize)
    requires
        count <= 4,
    ensures
        final(out)@ == old(out)@ + be_bytes(value as nat).take(count as int),
{
    let bytes: [u8; 4] = [
        (value / 0x100_0000 % 256) as u8,
        (value / 0x1_0000 % 256) as u8,
        (value / 0x100 % 256) as u8,
        (value % 256) as u8,
    ];
    let ghost start = out@;
    let mut i: usize = 0;
    while i < count
        invariant
            i <= count <= 4,
            bytes@ == be_bytes(value as nat),
            out@ == start + be_bytes(value as nat).take(i as int),
        decreases count - i,
    {
        out.push(bytes[i]);
        assert(be_bytes(value as nat).take(i + 1) =~= be_bytes(value as nat).take(i as int).push(
            bytes@[i as int],
        ));
        i = i + 1;
    }
}

fn push_base85_digits(out: &mut Vec<u8>, value: u32, count: usize)
    requires
        count <= 5,
    ensures
        final(out)@ == old(out)@ + base85_digits(value as nat).take(count as int),
{
    let digits: [u8; 5] = [
        (value / 52200625 % 85 + 33) as u8,
        (value / 614125 % 85 + 33) as u8,
        (value / 7225 % 85 + 33) as u8,
        (value / 85 % 85 + 33) as u8,
        (value % 85 + 33) as u8,
    ];
    let ghost start = out@;
    let mut i: usize = 0;
    while i < count
        invariant
            i <= count <= 5,
            digits@ == base85_digits(value as nat),
            out@ == start + base85_digits(value as nat).take(i as int),
        decreases count - i,
    {
        out.push(digits[i]);
        assert(base85_digits(value as nat).take(i + 1) =~= base85_digits(value as nat).take(
            i as int,
        ).push(digits@[i as int]));
        i = i + 1;
    }
}

fn group_be_value(data: &[u8; 4]) -> (value: u32)
    ensures
        value == be_value(data@),
{
    (data[0] as u32) * 0x100_0000 + (data[1] as u32) * 0x1_0000 + (data[2] as u32) * 0x100 + (
    data[3] as u32)
}

impl A85 {
    /// REFERENCE: [7.4.3 ASCII85Decode filter, p37-38]
    pub fn filter(&self, bytes: &[u8]) -> (r: Result<Vec<u8>, FilterErr>)
        ensures
            r matches Ok(v) && v@ == spec_a85_encode(bytes@),
    {
        let mut encoded: Vec<u8> = Vec::new();
        let mut prev = Bytes::<4>::new();
        let mut i: usize = 0;
        while i < bytes.len()
            invariant
                i <= bytes@.len(),
                prev.pos <= 4,
                prev.data@.len() == 4,
                i == 0 ==> prev.pos == 0,
                i > 0 ==> prev.pos == i - 4 * a85_flushed_groups(i as nat) && 1 <= prev.pos,
                forall|j: int| 0 <= j < prev.pos ==> #[trigger] prev.data@[j] == bytes@[i - prev.pos + j],
                forall|j: int| prev.pos <= j < 4 ==> #[trigger] prev.data@[j] == 0u8,
                encoded@ == a85_encode_groups(bytes@, a85_flushed_groups(i as nat)),
            decreases bytes@.len() - i,
        {
            let byte = bytes[i];
            let ghost m = a85_flushed_groups(i as nat);
            match prev.push(byte) {
                None => {
                    assert(a85_flushed_groups((i + 1) as nat) == m);
                },
                Some(data) => {
                    let value = group_be_value(&data);
                    assert(a85_flushed_groups((i + 1) as nat) == m + 1);
                    assert(data@ =~= bytes@.subrange(4 * m as int, 4 * (m + 1) as int));
                    let ghost old = encoded@;
                    if value == 0 {
                        encoded.push(122);
                        assert(encoded@ =~= old + seq![122u8]);
                    } else {
                        push_base85_digits(&mut encoded, value, 5);
                        assert(base85_digits(value as nat).take(5) =~= base85_digits(value as nat));
                    }
                },
            }
            i = i + 1;
        }
        let ghost m = a85_flushed_groups(bytes@.len());
        let ghost body = encoded@;
        if prev.pos != 0 {
            let value = group_be_value(&prev.data);
            proof {
                let p = bytes@.len() - 4 * m;
                assert(prev.data@ =~= bytes@.skip(4 * m as int) + Seq::new((4 - p) as nat, |i: int| 0u8));
            }
            push_base85_digits(&mut encoded, value, prev.pos + 1);
        } else {
            assert(bytes@.len() == 0);
            assert(body + Seq::<u8>::empty() =~= body);
        }
        let ghost before_eod = encoded@;
        encoded.push(126);
        encoded.push(62);
        assert(encoded@ =~= before_eod + seq![126u8, 62u8]);
        Ok(encoded)
    }

    /// REFERENCE: [7.4.3 ASCII85Decode filter, p37-39]
    pub fn defilter(&self, bytes: &[u8]) -> (r: Result<Vec<u8>, FilterErr>)
        ensures
            match spec_a85_decode(bytes@) {
                Ok(decoded) => (r matches Ok(v) && v@ == decoded),
                Err(e) => (r matches Err(err) && a85_err_is(err, e)),
            },
    {
        let mut defiltered: Vec<u8> = Vec::new();
        let mut prev = Bytes::<5>::new();
        let mut tilde = false;
        let mut eod = false;
        let mut i: usize = 0;
        assert(bytes@.take(0) =~= Seq::<u8>::empty());
        assert(prev.data@ =~= empty_group());
        while i < bytes.len()
            invariant
                i <= bytes@.len(),
                prev.pos <= 5,
                prev.pos == 5 ==> base85_value(prev.data@) > u32::MAX,
                prev.data@.len() == 5,
                forall|j: int| 0 <= j < prev.pos ==> 33 <= #[trigger] prev.data@[j] <= 117,
                a85_fold(bytes@.take(i as int)) == Ok::<(A85State, Seq<u8>), A85Error>(
                    (((prev.data@, prev.pos as nat), tilde, eod), defiltered@),
                ),
            decreases bytes@.len() - i,
        {
            let byte = bytes[i];
            assert(bytes@.take(i + 1).drop_last() =~= bytes@.take(i as int));
            let ghost old = defiltered@;
            assert(old + Seq::<u8>::empty() =~= old);
            if is_white_space(byte) {
            } else if eod {
                proof {
                    lemma_a85_error_persists(bytes@, i + 1);
                }
                return Err(a85_error(A85ErrorCode::AfterEod(byte as char)));
            } else if tilde {
                if byte == 62 {
                    eod = true;
                } else {
                    proof {
                        lemma_a85_error_persists(bytes@, i + 1);
                    }
                    return Err(a85_error(A85ErrorCode::CorruptEod(byte as char)));
                }
            } else if byte == 126 {
                tilde = true;
            } else if byte == 122 {
                if prev.pos == 0 {
                    defiltered.push(0);
                    defiltered.push(0);
                    defiltered.push(0);
                    defiltered.push(0);
                    assert(defiltered@ =~= old + seq![0u8, 0u8, 0u8, 0u8]);
                } else {
                    proof {
                        lemma_a85_error_persists(bytes@, i + 1);
                    }
                    return Err(a85_error(A85ErrorCode::ZInMiddle(prev)));
                }
            } else if !(33 <= byte && byte <= 117) {
                proof {
                    lemma_a85_error_persists(bytes@, i + 1);
                }
                return Err(a85_error(A85ErrorCode::InvalidBase85Digit(byte as char)));
            } else {
                match prev.push(byte) {
                    Some(_) => {
                        assert(prev.data@ =~= fresh_group(byte));
                        proof {
                            lemma_a85_error_persists(bytes@, i + 1);
                        }
                        return Err(a85_error(A85ErrorCode::ValueTooLarge(prev)));
                    },
                    None => {},
                }
                if prev.pos == 5 {
                    match group_value(&prev.data) {
                        Some(value) => {
                            push_be_bytes(&mut defiltered, value, 4);
                            assert(be_bytes(value as nat).take(4) =~= be_bytes(value as nat));
                            prev = Bytes::new();
                            assert(prev.data@ =~= empty_group());
                        },
                        None => {},
                    }
                }
            }
            i = i + 1;
        }
        assert(bytes@.take(bytes@.len() as int) =~= bytes@);
        if prev.pos != 0 {
            if prev.pos == 1 {
                return Err(a85_error(A85ErrorCode::FinalPartialGroup(prev)));
            }
            let mut padded: [u8; 5] = [117u8; 5];
            let mut j: usize = 0;
            while j < prev.pos
                invariant
                    j <= prev.pos <= 5,
                    prev.data@.len() == 5,
                    padded@.len() == 5,
                    forall|k: int| 0 <= k < j ==> padded@[k] == prev.data@[k],
                    forall|k: int| j <= k < 5 ==> padded@[k] == 117u8,
                decreases prev.pos - j,
            {
                padded[j] = prev.data[j];
                j = j + 1;
            }
            assert(padded@ =~= prev.data@.take(prev.pos as int) + Seq::new(
                (5 - prev.pos) as nat,
                |i: int| 117u8,
            ));
            match group_value(&padded) {
                Some(value) => {
                    push_be_bytes(&mut defiltered, value, prev.pos - 1);
                },
                None => {
                    return Err(a85_error(A85ErrorCode::ValueTooLarge(prev)));
                },
            }
        }
        Ok(defiltered)
    }
}

} // verus!
