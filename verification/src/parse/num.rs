use vstd::arithmetic::div_mod::lemma_add_mod_noop;
use vstd::arithmetic::div_mod::lemma_mul_mod_noop_left;
use vstd::prelude::*;

verus! {

/// The byte is an ASCII decimal digit.
pub open spec fn is_digit(byte: u8) -> bool {
    48 <= byte <= 57
}

/// Every byte of `s` is an ASCII decimal digit.
pub open spec fn all_digits(s: Seq<u8>) -> bool {
    forall|i: int| 0 <= i < s.len() ==> is_digit(#[trigger] s[i])
}

/// The number that the decimal digits of `s` write (0 for no digits).
pub open spec fn decimal_value(s: Seq<u8>) -> nat
    decreases s.len(),
{
    if s.len() == 0 {
        0
    } else {
        decimal_value(s.drop_last()) * 10 + (s.last() - 48) as nat
    }
}

/// What an unsigned decimal reading of `s` gives when the result must not
/// exceed `max`: the value, if `s` holds only digits and the value fits.
pub open spec fn spec_ascii_to_unsigned(s: Seq<u8>, max: nat) -> Option<nat> {
    if all_digits(s) && decimal_value(s) <= max {
        Some(decimal_value(s))
    } else {
        None
    }
}

/// The sign and the digits of an optionally signed decimal number.
pub open spec fn split_sign(s: Seq<u8>) -> (bool, Seq<u8>) {
    if s.len() > 0 && s[0] == 45 {
        (true, s.skip(1))
    } else if s.len() > 0 && s[0] == 43 {
        (false, s.skip(1))
    } else {
        (false, s)
    }
}

/// The value that the optionally signed decimal number `s` writes, if `s`
/// has that form (a lone sign writes 0).
pub open spec fn signed_decimal_value(s: Seq<u8>) -> Option<int> {
    let (negative, digits) = split_sign(s);
    if all_digits(digits) {
        Some(if negative { -decimal_value(digits) } else { decimal_value(digits) as int })
    } else {
        None
    }
}

/// The number that the bytes of `s` write in base 256, most significant first.
pub open spec fn big_endian_value(s: Seq<u8>) -> nat
    decreases s.len(),
{
    if s.len() == 0 {
        0
    } else {
        big_endian_value(s.drop_last()) * 256 + s.last() as nat
    }
}

/// The value of a hexadecimal digit, in either case.
pub open spec fn spec_hex_val(byte: u8) -> Option<u8> {
    if 48 <= byte <= 57 {
        Some((byte - 48) as u8)
    } else if 65 <= byte <= 70 {
        Some((byte - 55) as u8)
    } else if 97 <= byte <= 102 {
        Some((byte - 87) as u8)
    } else {
        None
    }
}

proof fn lemma_take_next(s: Seq<u8>, i: int)
    requires
        0 <= i < s.len(),
    ensures
        s.take(i + 1).drop_last() == s.take(i),
        s.take(i + 1).last() == s[i],
{
    assert(s.take(i + 1).drop_last() =~= s.take(i));
}

proof fn lemma_all_digits_take(s: Seq<u8>, i: int)
    requires
        0 <= i < s.len(),
        all_digits(s.take(i)),
        is_digit(s[i]),
    ensures
        all_digits(s.take(i + 1)),
{
    assert forall|j: int| 0 <= j < i + 1 implies is_digit(#[trigger] s.take(i + 1)[j]) by {
        if j < i {
            assert(s.take(i + 1)[j] == s.take(i)[j]);
        }
    }
}

proof fn lemma_not_all_digits(s: Seq<u8>, i: int)
    requires
        0 <= i < s.len(),
        !is_digit(s[i]),
    ensures
        !all_digits(s),
{
}

/// Reads `bytes` as an unsigned decimal number of type `u64`.
pub fn ascii_to_u64(bytes: &[u8]) -> (number: Option<u64>)
    ensures
        number matches Some(n) ==> spec_ascii_to_unsigned(bytes@, u64::MAX as nat) == Some(
            n as nat,
        ),
        number is None ==> spec_ascii_to_unsigned(bytes@, u64::MAX as nat) is None,
{
    let mut number: Option<u64> = Some(0);
    let mut i: usize = 0;
    assert(bytes@.take(0) =~= Seq::<u8>::empty());
    while i < bytes.len()
        invariant
            i <= bytes.len(),
            all_digits(bytes@.take(i as int)),
            number matches Some(n) ==> n == decimal_value(bytes@.take(i as int)),
            number is None ==> decimal_value(bytes@.take(i as int)) > u64::MAX,
        decreases bytes.len() - i,
    {
        let byte = bytes[i];
        proof {
            lemma_take_next(bytes@, i as int);
        }
        if 48 <= byte && byte <= 57 {
            let digit: u8 = byte - 48;
            number = match number {
                Some(n) => match n.checked_mul(10) {
                    Some(m) => m.checked_add(digit as u64),
                    None => None,
                },
                None => None,
            };
            proof {
                lemma_all_digits_take(bytes@, i as int);
            }
        } else {
            proof {
                lemma_not_all_digits(bytes@, i as int);
            }
            return None;
        }
        i = i + 1;
    }
    assert(bytes@.take(bytes@.len() as int) =~= bytes@);
    number
}

/// Reads `bytes` as an unsigned decimal number of type `u16`.
pub fn ascii_to_u16(bytes: &[u8]) -> (number: Option<u16>)
    ensures
        number matches Some(n) ==> spec_ascii_to_unsigned(bytes@, u16::MAX as nat) == Some(
            n as nat,
        ),
        number is None ==> spec_ascii_to_unsigned(bytes@, u16::MAX as nat) is None,
{
    let mut number: Option<u16> = Some(0);
    let mut i: usize = 0;
    assert(bytes@.take(0) =~= Seq::<u8>::empty());
    while i < bytes.len()
        invariant
            i <= bytes.len(),
            all_digits(bytes@.take(i as int)),
            number matches Some(n) ==> n == decimal_value(bytes@.take(i as int)),
            number is None ==> decimal_value(bytes@.take(i as int)) > u16::MAX,
        decreases bytes.len() - i,
    {
        let byte = bytes[i];
        proof {
            lemma_take_next(bytes@, i as int);
        }
        if 48 <= byte && byte <= 57 {
            let digit: u8 = byte - 48;
            number = match number {
                Some(n) => match n.checked_mul(10) {
                    Some(m) => m.checked_add(digit as u16),
                    None => None,
                },
                None => None,
            };
            proof {
                lemma_all_digits_take(bytes@, i as int);
            }
        } else {
            proof {
                lemma_not_all_digits(bytes@, i as int);
            }
            return None;
        }
        i = i + 1;
    }
    assert(bytes@.take(bytes@.len() as int) =~= bytes@);
    number
}

/// Reads `bytes` as an optionally signed decimal number of type `i128`.
pub fn ascii_to_i128(bytes: &[u8]) -> (number: Option<i128>)
    ensures
        number matches Some(n) ==> signed_decimal_value(bytes@) == Some(n as int),
        number is None ==> match signed_decimal_value(bytes@) {
            Some(v) => v < i128::MIN || v > i128::MAX,
            None => true,
        },
{
    let negative: bool = bytes.len() > 0 && bytes[0] == 45;
    let signed: bool = bytes.len() > 0 && (bytes[0] == 45 || bytes[0] == 43);
    let start: usize = if signed { 1 } else { 0 };
    let ghost digits = bytes@.skip(start as int);
    assert(split_sign(bytes@) == (negative, digits));
    let mut number: Option<i128> = Some(0);
    let mut i: usize = start;
    assert(digits.take(0) =~= Seq::<u8>::empty());
    while i < bytes.len()
        invariant
            start <= i <= bytes.len(),
            digits == bytes@.skip(start as int),
            all_digits(digits.take(i - start)),
            number matches Some(n) ==> n == (if negative {
                -decimal_value(digits.take(i - start))
            } else {
                decimal_value(digits.take(i - start)) as int
            }),
            split_sign(bytes@) == (negative, digits),
            number is None ==> (if negative {
                decimal_value(digits.take(i - start)) > 0x8000_0000_0000_0000_0000_0000_0000_0000
            } else {
                decimal_value(digits.take(i - start)) > i128::MAX
            }),
        decreases bytes.len() - i,
    {
        let byte = bytes[i];
        proof {
            assert(digits[i - start] == byte);
            lemma_take_next(digits, i - start);
        }
        if 48 <= byte && byte <= 57 {
            let digit: u8 = byte - 48;
            if negative {
                number = match number {
                    Some(n) => match n.checked_mul(10) {
                        Some(m) => m.checked_sub(digit as i128),
                        None => None,
                    },
                    None => None,
                };
            } else {
                number = match number {
                    Some(n) => match n.checked_mul(10) {
                        Some(m) => m.checked_add(digit as i128),
                        None => None,
                    },
                    None => None,
                };
            }
            proof {
                lemma_all_digits_take(digits, i - start);
            }
        } else {
            proof {
                lemma_not_all_digits(digits, i - start);
            }
            return None;
        }
        i = i + 1;
    }
    assert(digits.take(digits.len() as int) =~= digits);
    number
}

proof fn lemma_shift_in_byte(n: u64, b: u8, x: nat)
    requires
        n == x % 0x1_0000_0000_0000_0000,
    ensures
        (n << 8u64) + (b as u64) <= u64::MAX,
        ((n << 8u64) + (b as u64)) as nat == (x * 256 + b as nat) % 0x1_0000_0000_0000_0000,
{
    let m: int = 0x1_0000_0000_0000_0000;
    assert(n << 8u64 <= 0xffff_ffff_ffff_ff00u64) by (bit_vector);
    assert((n << 8u64) == (n * 256) % 0x1_0000_0000_0000_0000) by (bit_vector);
    assert((n << 8u64) % 256 == 0) by (bit_vector);
    lemma_mul_mod_noop_left(x as int, 256, m);
    lemma_add_mod_noop(x as int * 256, b as int, m);
    lemma_add_mod_noop((n as int) * 256, b as int, m);
    assert(((n as int) * 256) % m == (x as int * 256) % m);
    assert((b as int) % m == b as int);
    assert(((n << 8u64) as int + b as int) < m);
}

/// Reads `bytes` as a big-endian unsigned number, keeping its low 64 bits.
pub fn bytes_to_u64(bytes: &[u8]) -> (number: Option<u64>)
    ensures
        number == Some((big_endian_value(bytes@) % 0x1_0000_0000_0000_0000) as u64),
{
    let mut number: u64 = 0;
    let mut i: usize = 0;
    assert(bytes@.take(0) =~= Seq::<u8>::empty());
    while i < bytes.len()
        invariant
            i <= bytes.len(),
            number as nat == big_endian_value(bytes@.take(i as int)) % 0x1_0000_0000_0000_0000,
        decreases bytes.len() - i,
    {
        let byte = bytes[i];
        proof {
            lemma_take_next(bytes@, i as int);
            lemma_shift_in_byte(number, byte, big_endian_value(bytes@.take(i as int)));
        }
        number = (number << 8u64) + (byte as u64);
        i = i + 1;
    }
    assert(bytes@.take(bytes@.len() as int) =~= bytes@);
    Some(number)
}

/// The value of the hexadecimal digit `byte`.
pub fn hex_val(byte: u8) -> (value: Option<u8>)
    ensures
        value == spec_hex_val(byte),
{
    if 48 <= byte && byte <= 57 {
        Some(byte - 48)
    } else if 65 <= byte && byte <= 70 {
        Some(byte - 55)
    } else if 97 <= byte && byte <= 102 {
        Some(byte - 87)
    } else {
        None
    }
}

/// A decimal number read as its integer part, which carries the sign, and
/// the digits of its fraction: `integer ± fraction / 10^fraction_digits`,
/// the fraction subtracted when `negative`.
#[derive(Debug, PartialEq, Eq, Structural, Clone, Copy)]
pub struct Decimal {
    pub negative: bool,
    pub integer: i64,
    pub fraction: u64,
    pub fraction_digits: u64,
}

/// The reading of a decimal number so far: the integer part (`None` once
/// it overflows), the fraction and its number of digits, whether the point
/// was read, whether fraction digits stopped being read because they
/// overflowed, and whether a byte that is neither a digit nor the first
/// point was read.
pub struct DecimalState {
    pub integer: Option<int>,
    pub fraction: nat,
    pub fraction_digits: nat,
    pub decimal: bool,
    pub stopped: bool,
    pub invalid: bool,
}

/// Reads `byte`; digits of the integer part accumulate away from zero in
/// the direction of the sign, and fraction digits that would overflow a
/// `u64` end the reading.
pub open spec fn decimal_step(negative: bool, st: DecimalState, byte: u8) -> DecimalState {
    if st.stopped || st.invalid {
        st
    } else if is_digit(byte) {
        let digit = (byte - 48) as int;
        if st.decimal {
            if st.fraction * 10 + digit <= u64::MAX {
                DecimalState {
                    fraction: (st.fraction * 10 + digit) as nat,
                    fraction_digits: st.fraction_digits + 1,
                    ..st
                }
            } else {
                DecimalState { stopped: true, ..st }
            }
        } else {
            let integer = match st.integer {
                Some(i) => {
                    let next = if negative { i * 10 - digit } else { i * 10 + digit };
                    if i64::MIN <= next <= i64::MAX {
                        Some(next)
                    } else {
                        None
                    }
                },
                None => None,
            };
            DecimalState { integer, ..st }
        }
    } else if byte == 46 && !st.decimal {
        DecimalState { decimal: true, ..st }
    } else {
        DecimalState { invalid: true, ..st }
    }
}

/// The reading after the first `k` bytes of `digits`.
pub open spec fn decimal_fold(negative: bool, digits: Seq<u8>, k: nat) -> DecimalState
    decreases k,
{
    if k == 0 {
        DecimalState {
            integer: Some(0),
            fraction: 0,
            fraction_digits: 0,
            decimal: false,
            stopped: false,
            invalid: false,
        }
    } else {
        decimal_step(negative, decimal_fold(negative, digits, (k - 1) as nat), digits[k - 1])
    }
}

/// The decimal number that `s` writes: an optional sign, digits and at
/// most one point. `None` when a byte does not fit that form, or when the
/// integer part overflows an `i64`.
pub open spec fn spec_ascii_to_decimal(s: Seq<u8>) -> Option<Decimal> {
    let (negative, digits) = split_sign(s);
    let st = decimal_fold(negative, digits, digits.len());
    if st.invalid {
        None
    } else {
        match st.integer {
            Some(i) => Some(
                Decimal {
                    negative,
                    integer: i as i64,
                    fraction: st.fraction as u64,
                    fraction_digits: st.fraction_digits as u64,
                },
            ),
            None => None,
        }
    }
}

/// Reads `bytes` as a decimal number.
pub fn ascii_to_decimal(bytes: &[u8]) -> (r: Option<Decimal>)
    ensures
        r == spec_ascii_to_decimal(bytes@),
{
    let negative: bool = bytes.len() > 0 && bytes[0] == 45;
    let signed: bool = bytes.len() > 0 && (bytes[0] == 45 || bytes[0] == 43);
    let start: usize = if signed { 1 } else { 0 };
    let ghost digits = bytes@.skip(start as int);
    assert(split_sign(bytes@) == (negative, digits));
    let mut integer: Option<i64> = Some(0);
    let mut fraction: u64 = 0;
    let mut fraction_digits: u64 = 0;
    let mut decimal = false;
    let mut i: usize = start;
    while i < bytes.len()
        invariant
            start <= i <= bytes@.len(),
            digits == bytes@.skip(start as int),
            split_sign(bytes@) == (negative, digits),
            ({
                let st = decimal_fold(negative, digits, (i - start) as nat);
                &&& !st.stopped
                &&& !st.invalid
                &&& st.fraction == fraction
                &&& st.fraction_digits == fraction_digits
                &&& st.fraction_digits <= i - start
                &&& st.decimal == decimal
                &&& match st.integer {
                    Some(v) => i64::MIN <= v <= i64::MAX && integer == Some(v as i64) && (negative ==> v <= 0)
                        && (!negative ==> v >= 0),
                    None => integer is None,
                }
            }),
        decreases bytes@.len() - i,
    {
        let byte = bytes[i];
        assert(digits[(i - start + 1) - 1] == byte);
        if 48 <= byte && byte <= 57 {
            let digit: u8 = byte - 48;
            if decimal {
                if fraction <= (u64::MAX - digit as u64) / 10 {
                    fraction = fraction * 10 + digit as u64;
                    fraction_digits = fraction_digits + 1;
                } else {
                    proof {
                        lemma_decimal_stopped(negative, digits, (i - start + 1) as nat, digits.len());
                    }
                    return match integer {
                        Some(v) => Some(Decimal { negative, integer: v, fraction, fraction_digits }),
                        None => None,
                    };
                }
            } else {
                integer = match integer {
                    Some(v) => if negative {
                        match v.checked_mul(10) {
                            Some(m) => m.checked_sub(digit as i64),
                            None => None,
                        }
                    } else {
                        match v.checked_mul(10) {
                            Some(m) => m.checked_add(digit as i64),
                            None => None,
                        }
                    },
                    None => None,
                };
            }
        } else if byte == 46 && !decimal {
            decimal = true;
        } else {
            proof {
                lemma_decimal_stopped(negative, digits, (i - start + 1) as nat, digits.len());
            }
            return None;
        }
        i = i + 1;
    }
    match integer {
        Some(v) => Some(Decimal { negative, integer: v, fraction, fraction_digits }),
        None => None,
    }
}

/// Once the reading stops or meets an invalid byte, the rest is ignored.
proof fn lemma_decimal_stopped(negative: bool, digits: Seq<u8>, k: nat, n: nat)
    requires
        k <= n,
        decimal_fold(negative, digits, k).stopped || decimal_fold(negative, digits, k).invalid,
    ensures
        decimal_fold(negative, digits, n) == decimal_fold(negative, digits, k),
    decreases n - k,
{
    if n > k {
        lemma_decimal_stopped(negative, digits, k, (n - 1) as nat);
    }
}

/// The hexadecimal digits and their values: `0` to `9` are 0 to 9, and `A`
/// to `F` and `a` to `f` are 10 to 15; no other byte is a digit.
pub proof fn lemma_hex_digit_values(b: u8, v: u8)
    ensures
        spec_hex_val(b) == Some(v) <==> ((48 <= b <= 57 && v == b - 48) || (65 <= b <= 70 && v == b - 55) || (97
            <= b <= 102 && v == b - 87)),
{
}

} // verus!
