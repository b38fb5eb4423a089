use vstd::prelude::*;
use vstd::arithmetic::div_mod::lemma_fundamental_div_mod;
use crate::display::{decimal_digits, decimal_text, hex_digits, hex_char, hex4_text, superscript_digit, superscript_text};

verus! {

/// `c` is one of the ASCII digits `0` to `9`.
pub open spec fn is_ascii_digit(c: char) -> bool {
    '0' <= c && c <= '9'
}

/// The number that the ASCII decimal digits of `s` write, most significant
/// first.
pub open spec fn read_decimal(s: Seq<char>) -> int
    decreases s.len(),
{
    if s.len() == 0 {
        0
    } else {
        read_decimal(s.drop_last()) * 10 + ((s.last() as u32) as int - 0x30)
    }
}

/// The value of a superscript decimal digit, or `None` for any other
/// character.
pub open spec fn superscript_value(c: char) -> Option<int> {
    if c == '⁰' {
        Some(0)
    } else if c == '¹' {
        Some(1)
    } else if c == '²' {
        Some(2)
    } else if c == '³' {
        Some(3)
    } else if c == '⁴' {
        Some(4)
    } else if c == '⁵' {
        Some(5)
    } else if c == '⁶' {
        Some(6)
    } else if c == '⁷' {
        Some(7)
    } else if c == '⁸' {
        Some(8)
    } else if c == '⁹' {
        Some(9)
    } else {
        None
    }
}

/// The number that the superscript decimal digits of `s` write, most
/// significant first.
pub open spec fn read_superscript(s: Seq<char>) -> int
    decreases s.len(),
{
    if s.len() == 0 {
        0
    } else {
        read_superscript(s.drop_last()) * 10 + superscript_value(s.last()).unwrap()
    }
}

/// The value of an upper-case hexadecimal digit, or `None` for any other
/// character.
pub open spec fn hex_value(c: char) -> Option<int> {
    if '0' <= c && c <= '9' {
        Some((c as u32) as int - 0x30)
    } else if 'A' <= c && c <= 'F' {
        Some((c as u32) as int - 0x41 + 10)
    } else {
        None
    }
}

/// The number that the upper-case hexadecimal digits of `s` write, most
/// significant first.
pub open spec fn read_hex(s: Seq<char>) -> int
    decreases s.len(),
{
    if s.len() == 0 {
        0
    } else {
        read_hex(s.drop_last()) * 16 + hex_value(s.last()).unwrap()
    }
}

/// The decimal text of `n` is nonempty, made of ASCII digits, reads back as
/// `n`, and starts with `0` only when it is `0`.
pub proof fn lemma_decimal_text_reads_back(n: nat)
    ensures
        decimal_text(n).len() >= 1,
        forall|i: int| 0 <= i < decimal_text(n).len() ==> is_ascii_digit(#[trigger] decimal_text(n)[i]),
        read_decimal(decimal_text(n)) == n,
        n > 0 ==> decimal_text(n)[0] != '0',
        n == 0 ==> decimal_text(n) == seq!['0'],
    decreases n,
{
    let t = decimal_text(n);
    if n < 10 {
        assert(decimal_digits(n) == seq![n]);
        assert(t =~= seq![((n + 0x30) as u32) as char]);
        assert(t.drop_last() =~= Seq::<char>::empty());
        assert(((((n + 0x30) as u32) as char) as u32) as int == n + 0x30);
        assert(read_decimal(t.drop_last()) == 0);
        assert(read_decimal(t) == n);
        if n == 0 {
            assert(t =~= seq!['0']);
        }
    } else {
        lemma_decimal_text_reads_back(n / 10);
        let d = n % 10;
        let c = ((d + 0x30) as u32) as char;
        assert(decimal_digits(n) == decimal_digits(n / 10).push(d));
        assert(t =~= decimal_text(n / 10).push(c));
        assert(t.drop_last() =~= decimal_text(n / 10));
        assert((c as u32) as int == d + 0x30);
        assert(t[0] == decimal_text(n / 10)[0]);
        assert forall|i: int| 0 <= i < t.len() implies is_ascii_digit(#[trigger] t[i]) by {
            if i < t.len() - 1 {
                assert(t[i] == decimal_text(n / 10)[i]);
            }
        }
        assert(read_decimal(t) == (n / 10) * 10 + d);
        lemma_fundamental_div_mod(n as int, 10);
    }
}

/// Distinct numbers have distinct decimal texts.
pub proof fn lemma_decimal_text_injective(a: nat, b: nat)
    requires
        decimal_text(a) == decimal_text(b),
    ensures
        a == b,
{
    lemma_decimal_text_reads_back(a);
    lemma_decimal_text_reads_back(b);
}

/// The superscript text of `n` is nonempty, made of superscript digits,
/// reads back as `n`, and starts with `⁰` only when it is `⁰`.
pub proof fn lemma_superscript_text_reads_back(n: nat)
    ensures
        superscript_text(n).len() >= 1,
        forall|i: int| 0 <= i < superscript_text(n).len() ==> (#[trigger] superscript_value(superscript_text(n)[i])) is Some,
        read_superscript(superscript_text(n)) == n,
        n > 0 ==> superscript_text(n)[0] != '⁰',
    decreases n,
{
    let t = superscript_text(n);
    if n < 10 {
        assert(decimal_digits(n) == seq![n]);
        assert(t =~= seq![superscript_digit(n)]);
        assert(t.drop_last() =~= Seq::<char>::empty());
        assert(read_superscript(t.drop_last()) == 0);
        assert(superscript_value(superscript_digit(n)) == Some(n as int));
    } else {
        lemma_superscript_text_reads_back(n / 10);
        let d = n % 10;
        assert(decimal_digits(n) == decimal_digits(n / 10).push(d));
        assert(t =~= superscript_text(n / 10).push(superscript_digit(d)));
        assert(t.drop_last() =~= superscript_text(n / 10));
        assert(t[0] == superscript_text(n / 10)[0]);
        assert forall|i: int| 0 <= i < t.len() implies (#[trigger] superscript_value(t[i])) is Some by {
            if i < t.len() - 1 {
                assert(t[i] == superscript_text(n / 10)[i]);
            }
        }
        assert(read_superscript(t) == (n / 10) * 10 + d);
        lemma_fundamental_div_mod(n as int, 10);
    }
}

/// Distinct numbers have distinct superscript texts.
pub proof fn lemma_superscript_text_injective(a: nat, b: nat)
    requires
        superscript_text(a) == superscript_text(b),
    ensures
        a == b,
{
    lemma_superscript_text_reads_back(a);
    lemma_superscript_text_reads_back(b);
}

proof fn lemma_hex_digits_read_back(n: nat)
    ensures
        hex_text(n).len() >= 1,
        forall|i: int| 0 <= i < hex_text(n).len()
            ==> (#[trigger] hex_value(hex_text(n)[i])) is Some,
        read_hex(hex_text(n)) == n,
        n > 0 ==> hex_text(n)[0] != '0',
    decreases n,
{
    let t = hex_text(n);
    if n < 16 {
        assert(hex_digits(n) == seq![n]);
        assert(t =~= seq![hex_char(n)]);
        assert(t.drop_last() =~= Seq::<char>::empty());
        assert(hex_value(hex_char(n)) == Some(n as int));
        assert(read_hex(t.drop_last()) == 0);
    } else {
        lemma_hex_digits_read_back(n / 16);
        let d = n % 16;
        let t0 = hex_text(n / 16);
        assert(hex_digits(n) == hex_digits(n / 16).push(d));
        assert(t =~= t0.push(hex_char(d)));
        assert(t.drop_last() =~= t0);
        assert(hex_value(hex_char(d)) == Some(d as int));
        assert(t[0] == t0[0]);
        assert forall|i: int| 0 <= i < t.len() implies (#[trigger] hex_value(t[i])) is Some by {
            if i < t.len() - 1 {
                assert(t[i] == t0[i]);
            }
        }
        assert(read_hex(t) == (n / 16) * 16 + d);
        lemma_fundamental_div_mod(n as int, 16);
    }
}

proof fn lemma_read_hex_zeros(z: nat, t: Seq<char>)
    ensures
        read_hex(Seq::new(z, |i: int| '0') + t) == read_hex(t) + read_hex(Seq::new(z, |i: int| '0')) * pow16(t.len()),
        read_hex(Seq::new(z, |i: int| '0')) == 0,
    decreases t.len(), z,
{
    let zs = Seq::new(z, |i: int| '0');
    if t.len() == 0 {
        assert(zs + t =~= zs);
        lemma_read_hex_all_zero(z);
    } else {
        lemma_read_hex_zeros(z, t.drop_last());
        assert((zs + t).drop_last() =~= zs + t.drop_last());
        assert((zs + t).last() == t.last());
        lemma_read_hex_all_zero(z);
    }
}

proof fn lemma_read_hex_all_zero(z: nat)
    ensures
        read_hex(Seq::new(z, |i: int| '0')) == 0,
    decreases z,
{
    if z > 0 {
        let zs = Seq::new(z, |i: int| '0');
        assert(zs.drop_last() =~= Seq::new((z - 1) as nat, |i: int| '0'));
        lemma_read_hex_all_zero((z - 1) as nat);
        assert(hex_value(zs.last()) == Some(0int));
    }
}

/// The upper-case hexadecimal digits of `n`, most significant first.
pub open spec fn hex_text(n: nat) -> Seq<char> {
    hex_digits(n).map_values(|d: nat| hex_char(d))
}

/// 16 to the power `k`.
pub open spec fn pow16(k: nat) -> int
    decreases k,
{
    if k == 0 {
        1
    } else {
        16 * pow16((k - 1) as nat)
    }
}

/// The four-digit hexadecimal text of `n` has at least four upper-case
/// hexadecimal digits, reads back as `n`, and has more than four only when
/// `n` needs them, with no leading `0` then.
pub proof fn lemma_hex4_text_reads_back(n: nat)
    ensures
        hex4_text(n).len() >= 4,
        forall|i: int| 0 <= i < hex4_text(n).len() ==> (#[trigger] hex_value(hex4_text(n)[i])) is Some,
        read_hex(hex4_text(n)) == n,
        hex4_text(n).len() > 4 ==> hex4_text(n)[0] != '0',
{
    lemma_hex_digits_read_back(n);
    let digits = hex_text(n);
    assert(hex_digits(n).map_values(|d: nat| hex_char(d)) =~= digits);
    if digits.len() < 4 {
        let z = (4 - digits.len()) as nat;
        let zs = Seq::new(z, |i: int| '0');
        lemma_read_hex_zeros(z, digits);
        let t = zs + digits;
        assert(hex4_text(n) == t);
        assert forall|i: int| 0 <= i < t.len() implies (#[trigger] hex_value(t[i])) is Some by {
            if i < z {
                assert(t[i] == '0');
            } else {
                assert(t[i] == digits[i - z]);
            }
        }
    } else {
        assert(hex4_text(n) == digits);
        if digits.len() > 4 {
            assert(n > 0) by {
                if n == 0 {
                    assert(hex_digits(0) == seq![0nat]);
                }
            }
        }
    }
}

/// Distinct numbers have distinct four-digit hexadecimal texts.
pub proof fn lemma_hex4_text_injective(a: nat, b: nat)
    requires
        hex4_text(a) == hex4_text(b),
    ensures
        a == b,
{
    lemma_hex4_text_reads_back(a);
    lemma_hex4_text_reads_back(b);
}

/// A decimal number followed by text that does not start with a digit can be
/// read off uniquely: the number and the text after it are determined.
pub proof fn lemma_decimal_then_text(a: nat, b: nat, sa: Seq<char>, sb: Seq<char>)
    requires
        decimal_text(a) + sa == decimal_text(b) + sb,
        sa.len() > 0 ==> !is_ascii_digit(sa[0]),
        sb.len() > 0 ==> !is_ascii_digit(sb[0]),
    ensures
        a == b,
        sa == sb,
{
    lemma_decimal_text_reads_back(a);
    lemma_decimal_text_reads_back(b);
    let da = decimal_text(a);
    let db = decimal_text(b);
    let x = da + sa;
    if da.len() < db.len() {
        let k = da.len() as int;
        assert(x[k] == sa[0]);
        assert(x[k] == db[k]);
        assert(is_ascii_digit(db[k]));
    } else if db.len() < da.len() {
        let k = db.len() as int;
        assert(x[k] == da[k]);
        assert(x[k] == sb[0]);
        assert(is_ascii_digit(da[k]));
    } else {
        assert(da =~= x.take(da.len() as int));
        assert(db =~= x.take(da.len() as int));
        lemma_decimal_text_injective(a, b);
        assert(sa =~= x.skip(da.len() as int));
        assert(sb =~= x.skip(da.len() as int));
    }
}

} // verus!
