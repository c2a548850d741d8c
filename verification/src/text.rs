//! Numbers as text.
use vstd::prelude::*;
use vstd::string::*;

verus! {

/// The character for digit `d` of a base up to sixteen, in upper case.
pub open spec fn digit_char(d: nat) -> char {
    if d < 10 {
        (48 + d) as char
    } else {
        (55 + d) as char
    }
}

/// `n` in decimal, without leading zeros.
pub open spec fn decimal(n: nat) -> Seq<char>
    decreases n,
{
    if n < 10 {
        seq![digit_char(n)]
    } else {
        decimal(n / 10).push(digit_char(n % 10))
    }
}

/// `n` in upper-case hexadecimal, four digits wide.
pub open spec fn hex4(n: u16) -> Seq<char> {
    seq![
        digit_char((n / 4096) as nat),
        digit_char((n / 256 % 16) as nat),
        digit_char((n / 16 % 16) as nat),
        digit_char((n % 16) as nat),
    ]
}

/// The text of a number and that of the number with one decimal digit more: the digit is appended.
/// A single digit is its character.
pub proof fn decimal_of_one_more_digit(n: nat, d: nat)
    requires
        d < 10,
    ensures
        decimal(d) == seq![(48 + d) as char],
        n > 0 ==> decimal(10 * n + d) == decimal(n).push((48 + d) as char),
{
    assert((10 * n + d) / 10 == n && (10 * n + d) % 10 == d);
}

/// Four hexadecimal characters, `0` to `9` and `A` to `F`, whose values, each weighing sixteen
/// times the next, add up to the number.
pub proof fn hex4_spells(n: u16)
    ensures
        hex4(n).len() == 4,
        forall|i: int|
            #![trigger hex4(n)[i]]
            0 <= i < 4 ==> (48 <= hex4(n)[i] as int <= 57 || 65 <= hex4(n)[i] as int <= 70),
        ({
            let value = |i: int|
                if hex4(n)[i] as int <= 57 {
                    hex4(n)[i] as int - 48
                } else {
                    hex4(n)[i] as int - 55
                };
            n == value(0) * 4096 + value(1) * 256 + value(2) * 16 + value(3)
        }),
{
    let (a, b, c, d) = (n / 4096, n / 256 % 16, n / 16 % 16, n % 16);
    assert(n == a * 4096 + b * 256 + c * 16 + d && a < 16 && b < 16 && c < 16 && d < 16)
        by (bit_vector)
        requires
            a == n / 4096,
            b == n / 256 % 16,
            c == n / 16 % 16,
            d == n % 16,
    ;
    let s = hex4(n);
    assert(s[0] == digit_char(a as nat));
    assert(s[1] == digit_char(b as nat));
    assert(s[2] == digit_char(c as nat));
    assert(s[3] == digit_char(d as nat));
}

/// The text of one digit.
fn digit_text(d: u8) -> (s: &'static str)
    requires
        d < 16,
    ensures
        s@ == seq![digit_char(d as nat)],
{
    proof {
        reveal_strlit("0");
        reveal_strlit("1");
        reveal_strlit("2");
        reveal_strlit("3");
        reveal_strlit("4");
        reveal_strlit("5");
        reveal_strlit("6");
        reveal_strlit("7");
        reveal_strlit("8");
        reveal_strlit("9");
        reveal_strlit("A");
        reveal_strlit("B");
        reveal_strlit("C");
        reveal_strlit("D");
        reveal_strlit("E");
        reveal_strlit("F");
    }
    match d {
        0 => "0",
        1 => "1",
        2 => "2",
        3 => "3",
        4 => "4",
        5 => "5",
        6 => "6",
        7 => "7",
        8 => "8",
        9 => "9",
        10 => "A",
        11 => "B",
        12 => "C",
        13 => "D",
        14 => "E",
        _ => "F",
    }
}

/// Append `n` in decimal to `out`.
pub(crate) fn append_decimal(out: &mut String, n: usize)
    ensures
        final(out)@ == old(out)@ + decimal(n as nat),
    decreases n,
{
    if n >= 10 {
        append_decimal(out, n / 10);
    }
    out.append(digit_text((n % 10) as u8));
    proof {
        if n >= 10 {
            assert(out@ =~= old(out)@ + decimal((n / 10) as nat).push(digit_char((n % 10) as nat)));
        }
    }
}

/// Append `n` in upper-case hexadecimal, four digits wide, to `out`.
pub(crate) fn append_hex4(out: &mut String, n: u16)
    ensures
        final(out)@ == old(out)@ + hex4(n),
{
    out.append(digit_text((n / 4096) as u8));
    out.append(digit_text((n / 256 % 16) as u8));
    out.append(digit_text((n / 16 % 16) as u8));
    out.append(digit_text((n % 16) as u8));
    assert(out@ =~= old(out)@ + hex4(n));
}

} // verus!
