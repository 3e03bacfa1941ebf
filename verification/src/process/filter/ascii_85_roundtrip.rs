use super::ascii_85::a85_encode_groups;
use super::ascii_85::a85_flushed_groups;
use super::ascii_85::a85_fold;
use super::ascii_85::a85_step;
use super::ascii_85::base85_digits;
use super::ascii_85::base85_value;
use super::ascii_85::be_bytes;
use super::ascii_85::be_value;
use super::ascii_85::empty_group;
use super::ascii_85::spec_a85_decode;
use super::ascii_85::spec_a85_encode;
use super::ascii_85::A85Error;
use vstd::prelude::*;

verus! {

/// The five digits of a value below 85 to the fifth read back as that value.
proof fn lemma_base85_digits_value(v: nat)
    requires
        v < 4437053125,
    ensures
        base85_value(base85_digits(v)) == v,
{
    let a = v / 85;
    let b = a / 85;
    let c = b / 85;
    let d = c / 85;
    assert(v / 7225 == b) by {
        vstd::arithmetic::div_mod::lemma_div_denominator(v as int, 85, 85);
    }
    assert(v / 614125 == c) by {
        vstd::arithmetic::div_mod::lemma_div_denominator(v as int, 7225, 85);
    }
    assert(v / 52200625 == d) by {
        vstd::arithmetic::div_mod::lemma_div_denominator(v as int, 614125, 85);
    }
    assert(d < 85);
    let digits = base85_digits(v);
    reveal_with_fuel(base85_value, 6);
    assert(digits.take(1).drop_last() =~= Seq::<u8>::empty());
    assert(digits.take(2).drop_last() =~= digits.take(1));
    assert(digits.take(3).drop_last() =~= digits.take(2));
    assert(digits.take(4).drop_last() =~= digits.take(3));
    assert(digits.drop_last() =~= digits.take(4));
    assert(base85_value(digits.take(1)) == d);
    assert(base85_value(digits.take(2)) == d * 85 + c % 85);
    assert(base85_value(digits.take(3)) == (d * 85 + c % 85) * 85 + b % 85);
    assert(base85_value(digits.take(4)) == ((d * 85 + c % 85) * 85 + b % 85) * 85 + a % 85);
}

/// The bytes of the value of four bytes are those bytes.
proof fn lemma_be_bytes_value(g: Seq<u8>)
    requires
        g.len() == 4,
    ensures
        be_bytes(be_value(g)) == g,
        be_value(g) <= 0xffff_ffff,
{
    let v = be_value(g);
    assert(v / 0x100_0000 == g[0] as nat);
    assert(v / 0x1_0000 % 256 == g[1] as nat);
    assert(v / 0x100 % 256 == g[2] as nat);
    assert(v % 256 == g[3] as nat);
    assert(be_bytes(v) =~= g);
}

/// The first `k` of the five digits of a value read back as the value
/// divided by 85 for each digit left out.
proof fn lemma_base85_prefix_values(v: nat)
    requires
        v < 4437053125,
    ensures
        base85_value(base85_digits(v).take(1)) == v / 52200625,
        base85_value(base85_digits(v).take(2)) == v / 614125,
        base85_value(base85_digits(v).take(3)) == v / 7225,
        base85_value(base85_digits(v).take(4)) == v / 85,
{
    let a = v / 85;
    let b = a / 85;
    let c = b / 85;
    let d = c / 85;
    assert(v / 7225 == b) by {
        vstd::arithmetic::div_mod::lemma_div_denominator(v as int, 85, 85);
    }
    assert(v / 614125 == c) by {
        vstd::arithmetic::div_mod::lemma_div_denominator(v as int, 7225, 85);
    }
    assert(v / 52200625 == d) by {
        vstd::arithmetic::div_mod::lemma_div_denominator(v as int, 614125, 85);
    }
    let digits = base85_digits(v);
    reveal_with_fuel(base85_value, 2);
    assert(digits.take(1).drop_last() =~= Seq::<u8>::empty());
    assert(digits.take(2).drop_last() =~= digits.take(1));
    assert(digits.take(3).drop_last() =~= digits.take(2));
    assert(digits.take(4).drop_last() =~= digits.take(3));
}

/// Appending `u` digits, the largest, to digits.
proof fn lemma_base85_pad(t: Seq<u8>, n: nat)
    requires
        1 <= n <= 3,
    ensures
        n == 1 ==> base85_value(t + Seq::new(n, |i: int| 117u8)) == base85_value(t) * 85 + 84,
        n == 2 ==> base85_value(t + Seq::new(n, |i: int| 117u8)) == base85_value(t) * 7225 + 7224,
        n == 3 ==> base85_value(t + Seq::new(n, |i: int| 117u8)) == base85_value(t) * 614125 + 614124,
{
    let u1 = t.push(117u8);
    let u2 = u1.push(117u8);
    let u3 = u2.push(117u8);
    assert(u1.drop_last() =~= t);
    assert(u2.drop_last() =~= u1);
    assert(u3.drop_last() =~= u2);
    let x = base85_value(t);
    assert(base85_value(u1) == x * 85 + 84);
    assert(base85_value(u2) == base85_value(u1) * 85 + 84);
    assert(base85_value(u3) == base85_value(u2) * 85 + 84);
    assert(base85_value(u2) == x * 7225 + 7224);
    assert(base85_value(u3) == x * 614125 + 614124);
    if n == 1 {
        assert(t + Seq::new(n, |i: int| 117u8) =~= u1);
    } else if n == 2 {
        assert(t + Seq::new(n, |i: int| 117u8) =~= u2);
    } else {
        assert(t + Seq::new(n, |i: int| 117u8) =~= u3);
    }
}

/// The bytes of a value within `2^(8 * (4 - p))` above a value whose
/// last `4 - p` bytes are zero start with that value's first `p` bytes.
proof fn lemma_be_bytes_near(g: Seq<u8>, w: nat)
    requires
        1 <= g.len() <= 3,
        ({
            let v = be_value(g + Seq::new((4 - g.len()) as nat, |i: int| 0u8));
            &&& g.len() == 1 ==> v <= w < v + 0x100_0000
            &&& g.len() == 2 ==> v <= w < v + 0x1_0000
            &&& g.len() == 3 ==> v <= w < v + 0x100
        }),
    ensures
        w <= 0xffff_ffff,
        be_bytes(w).take(g.len() as int) == g,
{
    let padded = g + Seq::new((4 - g.len()) as nat, |i: int| 0u8);
    if g.len() == 1 {
        assert(padded[1] == 0 && padded[2] == 0 && padded[3] == 0);
        assert(w / 0x100_0000 == g[0]);
        assert(be_bytes(w).take(1) =~= g);
    } else if g.len() == 2 {
        assert(padded[2] == 0 && padded[3] == 0);
        assert(w / 0x1_0000 == g[0] * 256 + g[1]);
        assert(w / 0x100_0000 == g[0]) by {
            vstd::arithmetic::div_mod::lemma_div_denominator(w as int, 0x1_0000, 0x100);
        }
        assert(be_bytes(w).take(2) =~= g);
    } else {
        assert(padded[3] == 0);
        assert(w / 0x100 == g[0] * 0x1_0000 + g[1] * 0x100 + g[2]);
        assert(w / 0x1_0000 == g[0] * 256 + g[1]) by {
            vstd::arithmetic::div_mod::lemma_div_denominator(w as int, 0x100, 0x100);
        }
        assert(w / 0x100_0000 == g[0]) by {
            vstd::arithmetic::div_mod::lemma_div_denominator(w as int, 0x1_0000, 0x100);
        }
        assert(be_bytes(w).take(3) =~= g);
    }
}

/// A final partial group of one to three bytes, padded with zero bytes and
/// written as its first digits, reads back, padded with `u` digits, as a
/// value whose first bytes are the group.
proof fn lemma_a85_partial_group(g: Seq<u8>)
    requires
        1 <= g.len() <= 3,
    ensures
        ({
            let v = be_value(g + Seq::new((4 - g.len()) as nat, |i: int| 0u8));
            let w = base85_value(
                base85_digits(v).take(g.len() + 1 as int) + Seq::new((4 - g.len()) as nat, |i: int| 117u8),
            );
            w <= 0xffff_ffff && be_bytes(w).take(g.len() as int) == g
        }),
{
    let p = g.len();
    let v = be_value(g + Seq::new((4 - p) as nat, |i: int| 0u8));
    let t = base85_digits(v).take(p + 1 as int);
    let w = base85_value(t + Seq::new((4 - p) as nat, |i: int| 117u8));
    lemma_base85_prefix_values(v);
    lemma_base85_pad(t, (4 - p) as nat);
    if p == 1 {
        assert(w == v / 614125 * 614125 + 614124);
    } else if p == 2 {
        assert(w == v / 7225 * 7225 + 7224);
    } else {
        assert(w == v / 85 * 85 + 84);
    }
    lemma_be_bytes_near(g, w);
}

/// The decoder after one more byte.
proof fn lemma_a85_fold_push(s: Seq<u8>, b: u8)
    ensures
        a85_fold(s.push(b)) == (match a85_fold(s) {
            Err(e) => Err(e),
            Ok((state, out)) => match a85_step(state, b) {
                Err(e) => Err(e),
                Ok((next, more)) => Ok((next, out + more)),
            },
        }),
{
    assert(s.push(b).drop_last() =~= s);
}

/// The bytes that the encoder writes as base-85 digits.
pub open spec fn is_base85_digit(b: u8) -> bool {
    33 <= b <= 117
}

proof fn lemma_base85_digits_are_digits(v: nat)
    ensures
        forall|i: int| 0 <= i < 5 ==> is_base85_digit(#[trigger] base85_digits(v)[i]),
{
}

/// Digits that fit in the current group are stored after its filled slots.
proof fn lemma_a85_push_digits(s: Seq<u8>, data: Seq<u8>, pos: nat, out: Seq<u8>, t: Seq<u8>)
    requires
        a85_fold(s) == Ok::<_, A85Error>((((data, pos), false, false), out)),
        data.len() == 5,
        pos + t.len() <= 4,
        forall|i: int| 0 <= i < t.len() ==> is_base85_digit(#[trigger] t[i]),
    ensures
        a85_fold(s + t) matches Ok((((d, p), tilde, eod), o)) && d.len() == 5 && p == pos + t.len() && !tilde
            && !eod && o == out && d.take(pos as int) == data.take(pos as int) && d.subrange(pos as int, p as int)
            == t,
    decreases t.len(),
{
    if t.len() == 0 {
        assert(s + t =~= s);
        assert(data.subrange(pos as int, pos as int) =~= t);
    } else {
        let t0 = t.drop_last();
        lemma_a85_push_digits(s, data, pos, out, t0);
        assert(s + t =~= (s + t0).push(t.last()));
        lemma_a85_fold_push(s + t0, t.last());
        let (((d, p), _, _), _) = a85_fold(s + t0)->Ok_0;
        let d2 = d.update(p as int, t.last());
        assert(d2.take(pos as int) =~= d.take(pos as int));
        assert forall|k: int| 0 <= k < t.len() implies d2.subrange(pos as int, p + 1 as int)[k] == t[k] by {
            if k < t0.len() {
                assert(d.subrange(pos as int, p as int)[k] == t0[k]);
            }
        }
        assert(d2.subrange(pos as int, p + 1 as int) =~= t);
    }
}

/// Five digits after the groups read fill a group, which is decoded.
proof fn lemma_a85_five_digits(prefix: Seq<u8>, out: Seq<u8>, t: Seq<u8>)
    requires
        a85_fold(prefix) == Ok::<_, A85Error>((((empty_group(), 0nat), false, false), out)),
        t.len() == 5,
        forall|i: int| 0 <= i < 5 ==> is_base85_digit(#[trigger] t[i]),
        base85_value(t) <= u32::MAX,
    ensures
        a85_fold(prefix + t) == Ok::<_, A85Error>((((empty_group(), 0nat), false, false), out + be_bytes(base85_value(t)))),
{
    let t4 = t.take(4);
    assert forall|i: int| 0 <= i < t4.len() implies is_base85_digit(#[trigger] t4[i]) by {
        assert(t4[i] == t[i]);
    }
    lemma_a85_push_digits(prefix, empty_group(), 0, out, t4);
    assert(prefix + t =~= (prefix + t4).push(t[4]));
    lemma_a85_fold_push(prefix + t4, t[4]);
    let (((d, p), _, _), _) = a85_fold(prefix + t4)->Ok_0;
    assert forall|i: int| 0 <= i < 4 implies d[i] == t[i] by {
        assert(d.subrange(0, 4)[i] == t4[i]);
    }
    assert(d.update(4, t[4]) =~= t);
}

/// The `i`th group of four bytes of `x`, counting from zero.
pub open spec fn a85_group(x: Seq<u8>, i: int) -> Seq<u8> {
    x.subrange(4 * i, 4 * i + 4)
}

/// The decoder after the first `j` groups: the groups are decoded, and the
/// current group is empty.
pub open spec fn a85_groups_read(x: Seq<u8>, j: nat, state: super::ascii_85::A85State, out: Seq<u8>) -> bool {
    let ((data, pos), tilde, eod) = state;
    &&& !tilde && !eod
    &&& data == empty_group()
    &&& pos == 0
    &&& out == x.take(4 * j as int)
}

proof fn lemma_be_value_zero(g: Seq<u8>)
    requires
        g.len() == 4,
        be_value(g) == 0,
    ensures
        g =~= seq![0u8, 0u8, 0u8, 0u8],
{
}

/// After the groups before the `j`th, the `j`th group, of zero bytes, is
/// written as `z`.
proof fn lemma_a85_read_zero_group(x: Seq<u8>, j: nat)
    requires
        1 <= j <= a85_flushed_groups(x.len()),
        be_value(a85_group(x, j - 1)) == 0,
        a85_fold(a85_encode_groups(x, (j - 1) as nat)) matches Ok((state, out)) && a85_groups_read(
            x,
            (j - 1) as nat,
            state,
            out,
        ),
    ensures
        a85_fold(a85_encode_groups(x, j)) matches Ok((state, out)) && a85_groups_read(x, j, state, out),
{
    let prefix = a85_encode_groups(x, (j - 1) as nat);
    let g = a85_group(x, j - 1);
    assert(x.subrange(4 * (j - 1), 4 * j as int) == g);
    assert(a85_encode_groups(x, j) == prefix.push(122u8));
    lemma_a85_fold_push(prefix, 122u8);
    lemma_be_value_zero(g);
    assert(x.take(4 * (j - 1)) + seq![0u8, 0u8, 0u8, 0u8] =~= x.take(4 * j as int));
}

/// After the groups before the `j`th, the `j`th group, not all zero, is
/// written as five digits.
proof fn lemma_a85_read_digit_group(x: Seq<u8>, j: nat)
    requires
        1 <= j <= a85_flushed_groups(x.len()),
        be_value(a85_group(x, j - 1)) != 0,
        a85_fold(a85_encode_groups(x, (j - 1) as nat)) matches Ok((state, out)) && a85_groups_read(
            x,
            (j - 1) as nat,
            state,
            out,
        ),
    ensures
        a85_fold(a85_encode_groups(x, j)) matches Ok((state, out)) && a85_groups_read(x, j, state, out),
{
    let prefix = a85_encode_groups(x, (j - 1) as nat);
    let (state, out) = a85_fold(prefix)->Ok_0;
    let g = a85_group(x, j - 1);
    let v = be_value(g);
    assert(x.subrange(4 * (j - 1), 4 * j as int) == g);
    assert(a85_encode_groups(x, j) == prefix + base85_digits(v));
    lemma_base85_digits_are_digits(v);
    lemma_be_bytes_value(g);
    lemma_base85_digits_value(v);
    lemma_a85_five_digits(prefix, out, base85_digits(v));
    assert(x.take(4 * (j - 1)) + g =~= x.take(4 * j as int));
}

/// Decoding the encoding of the first `j` groups.
proof fn lemma_a85_read_groups(x: Seq<u8>, j: nat)
    requires
        j <= a85_flushed_groups(x.len()),
    ensures
        a85_fold(a85_encode_groups(x, j)) matches Ok((state, out)) && a85_groups_read(x, j, state, out),
    decreases j,
{
    if j == 0 {
        assert(x.take(0) =~= Seq::<u8>::empty());
    } else {
        lemma_a85_read_groups(x, (j - 1) as nat);
        if be_value(a85_group(x, j - 1)) == 0 {
            lemma_a85_read_zero_group(x, j);
        } else {
            lemma_a85_read_digit_group(x, j);
        }
    }
}

/// The digits of the last group, written after the other groups: a group of
/// four bytes is decoded, and fewer fill the decoder's group.
proof fn lemma_a85_read_last(x: Seq<u8>)
    requires
        x.len() > 0,
    ensures
        ({
            let m = a85_flushed_groups(x.len());
            let p = x.len() - 4 * m;
            let v = be_value(x.skip(4 * m as int) + Seq::new((4 - p) as nat, |i: int| 0u8));
            let last = base85_digits(v).take(p + 1);
            &&& 1 <= p <= 4
            &&& p < 4 ==> (a85_fold(a85_encode_groups(x, m) + last) matches Ok((((data, pos), tilde, eod), out))
                && !tilde && !eod && data.len() == 5 && pos == p + 1 && data.take(p + 1) == last && out == x.take(
                4 * m as int,
            ))
            &&& p == 4 ==> a85_fold(a85_encode_groups(x, m) + last) == Ok::<_, A85Error>(
                (((empty_group(), 0nat), false, false), x),
            )
        }),
{
    let m = a85_flushed_groups(x.len());
    let p = x.len() - 4 * m;
    let g = x.skip(4 * m as int);
    let v = be_value(g + Seq::new((4 - p) as nat, |i: int| 0u8));
    let last = base85_digits(v).take(p + 1);
    lemma_base85_digits_are_digits(v);
    lemma_a85_read_groups(x, m);
    let prefix = a85_encode_groups(x, m);
    let (state, out) = a85_fold(prefix)->Ok_0;
    if p == 4 {
        assert(g + Seq::new((4 - p) as nat, |i: int| 0u8) =~= g);
        assert(last =~= base85_digits(v));
        lemma_be_bytes_value(g);
        lemma_base85_digits_value(v);
        lemma_a85_five_digits(prefix, out, last);
        assert(x.take(4 * m as int) + g =~= x);
    } else {
        assert forall|i: int| 0 <= i < last.len() implies is_base85_digit(#[trigger] last[i]) by {
            assert(last[i] == base85_digits(v)[i]);
        }
        lemma_a85_push_digits(prefix, empty_group(), 0, out, last);
        let (((d, q), _, _), _) = a85_fold(prefix + last)->Ok_0;
        assert(d.subrange(0, p + 1) =~= d.take(p + 1));
    }
}

/// The EOD marker `~>` ends the data and leaves the group as it is.
proof fn lemma_a85_read_eod(body: Seq<u8>, data: Seq<u8>, pos: nat, out: Seq<u8>)
    requires
        a85_fold(body) == Ok::<_, A85Error>((((data, pos), false, false), out)),
    ensures
        a85_fold(body.push(126u8).push(62u8)) == Ok::<_, A85Error>((((data, pos), true, true), out)),
{
    lemma_a85_fold_push(body, 126u8);
    lemma_a85_fold_push(body.push(126u8), 62u8);
    assert(out + Seq::<u8>::empty() =~= out);
}

/// The value of the last group, read back, gives the last bytes.
proof fn lemma_a85_last_value(g: Seq<u8>, data: Seq<u8>)
    requires
        1 <= g.len() <= 3,
        data.len() == 5,
        data.take(g.len() + 1 as int) == base85_digits(be_value(g + Seq::new((4 - g.len()) as nat, |i: int| 0u8))).take(
            g.len() + 1 as int,
        ),
    ensures
        ({
            let pos = g.len() + 1;
            let value = base85_value(data.take(pos as int) + Seq::new((5 - pos) as nat, |i: int| 117u8));
            value <= 0xffff_ffff && be_bytes(value).take(pos - 1) == g
        }),
{
    lemma_a85_partial_group(g);
}

/// REFERENCE: [7.4.3 ASCII85Decode filter, p37-39]: decoding what the
/// filter encoded gives the data back.
pub proof fn lemma_a85_roundtrip(x: Seq<u8>)
    ensures
        spec_a85_decode(spec_a85_encode(x)) == Ok::<Seq<u8>, A85Error>(x),
{
    let encoded = spec_a85_encode(x);
    let m = a85_flushed_groups(x.len());
    if x.len() == 0 {
        assert(encoded =~= Seq::<u8>::empty().push(126u8).push(62u8));
        assert(a85_fold(Seq::<u8>::empty()) == Ok::<_, A85Error>(
            (((empty_group(), 0nat), false, false), Seq::<u8>::empty()),
        ));
        lemma_a85_read_eod(Seq::<u8>::empty(), empty_group(), 0, Seq::<u8>::empty());
        assert(x =~= Seq::<u8>::empty());
    } else {
        lemma_a85_read_last(x);
        let p = x.len() - 4 * m;
        let g = x.skip(4 * m as int);
        let v = be_value(g + Seq::new((4 - p) as nat, |i: int| 0u8));
        let last = base85_digits(v).take(p + 1);
        let body = a85_encode_groups(x, m) + last;
        assert(encoded =~= body.push(126u8).push(62u8));
        let (((data, pos), _, _), out) = a85_fold(body)->Ok_0;
        lemma_a85_read_eod(body, data, pos, out);
        if p < 4 {
            lemma_a85_last_value(g, data);
            assert(x.take(4 * m as int) + g =~= x);
        }
    }
}

} // verus!
