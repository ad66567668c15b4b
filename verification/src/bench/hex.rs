//! Numbers in hexadecimal notation.
use vstd::prelude::*;

use crate::text::push_char;

verus! {

/// The digit for a value below sixteen.
pub open spec fn hex_digit(n: nat) -> char {
    if n < 10 {
        (48 + n) as u8 as char
    } else {
        (87 + n) as u8 as char
    }
}

/// A number in hexadecimal notation.
pub open spec fn hex(n: nat) -> Seq<char>
    decreases n,
{
    if n < 16 {
        seq![hex_digit(n)]
    } else {
        hex(n / 16).push(hex_digit(n % 16))
    }
}

/// A number in hexadecimal notation with at least `width` digits.
pub open spec fn padded_hex(n: nat, width: nat) -> Seq<char> {
    if hex(n).len() >= width {
        hex(n)
    } else {
        Seq::new((width - hex(n).len()) as nat, |i: int| '0') + hex(n)
    }
}

fn digit_of(n: u8) -> (c: char)
    requires
        n < 16,
    ensures
        c == hex_digit(n as nat),
{
    if n < 10 {
        (48 + n) as char
    } else {
        (87 + n) as char
    }
}

fn hex_chars(n: u128) -> (chars: Vec<char>)
    ensures
        chars@ == hex(n as nat).reverse(),
{
    let mut chars: Vec<char> = Vec::new();
    let mut rest: u128 = n;
    while rest >= 16
        invariant
            hex(n as nat) == hex(rest as nat) + chars@.reverse(),
        decreases rest,
    {
        let ghost before = chars@;
        let c = digit_of((rest % 16) as u8);
        chars.push(c);
        assert(chars@.reverse() =~= seq![c] + before.reverse());
        assert(hex(rest as nat) == hex((rest / 16) as nat).push(c));
        assert(hex(rest as nat) + before.reverse() =~= hex((rest / 16) as nat)
            + chars@.reverse());
        rest = rest / 16;
    }
    let ghost before = chars@;
    let c = digit_of(rest as u8);
    chars.push(c);
    assert(chars@.reverse() =~= seq![c] + before.reverse());
    assert(chars@.reverse() =~= hex(n as nat));
    assert(chars@ =~= hex(n as nat).reverse());
    chars
}

/// A number in hexadecimal notation behind its prefix, with at least `width`
/// digits.
pub fn hex_text(n: u128, width: usize) -> (text: String)
    ensures
        text@ == "0x"@ + padded_hex(n as nat, width as nat),
{
    let chars = hex_chars(n);
    let ghost digits = hex(n as nat);
    let ghost front = "0x"@;
    let mut text = "0x".to_owned();
    assert(digits.len() == chars@.len());
    let mut len: usize = chars.len();
    assert(text@ =~= front + Seq::new(0, |i: int| '0'));
    while len < width
        invariant
            chars@.len() <= len,
            chars@.len() >= width ==> len == chars@.len(),
            chars@.len() < width ==> len <= width,
            text@ == front + Seq::new((len - chars@.len()) as nat, |i: int| '0'),
        decreases width - len,
    {
        push_char(&mut text, '0');
        len = len + 1;
        assert(text@ =~= front + Seq::new((len - chars@.len()) as nat, |i: int| '0'));
    }
    let ghost prefix = text@;
    let mut i: usize = chars.len();
    assert(text@ =~= prefix + digits.take(0));
    while i > 0
        invariant
            i <= chars@.len(),
            digits.len() == chars@.len(),
            chars@ == digits.reverse(),
            text@ == prefix + digits.take(chars@.len() - i),
        decreases i,
    {
        i = i - 1;
        let ghost k = chars@.len() - 1 - i;
        push_char(&mut text, chars[i]);
        assert(digits[k] == chars@[i as int]);
        assert(digits.take(k + 1) =~= digits.take(k).push(digits[k]));
        assert(text@ =~= prefix + digits.take(chars@.len() - i));
    }
    assert(digits.take(chars@.len() as int) =~= digits);
    assert(text@ =~= front + padded_hex(n as nat, width as nat));
    text
}

/// The digits are those from 0 to 9 and the letters from a to f, in this order.
pub proof fn law_hex_digits(n: nat)
    requires
        n < 16,
    ensures
        hex_digit(n) == seq![
            '0', '1', '2', '3', '4', '5', '6', '7', '8', '9', 'a', 'b', 'c', 'd', 'e', 'f',
        ][n as int],
{
}

/// A number is written from its highest digit on, without zeros before it:
/// another digit behind a number stands for sixteen times the number and itself.
pub proof fn law_hex_is_positional(n: nat, d: nat)
    requires
        d < 16,
    ensures
        n > 0 ==> hex(16 * n + d) == hex(n).push(hex_digit(d)),
        hex(d) == seq![hex_digit(d)],
        hex(n).len() > 0,
        n > 0 ==> hex(n)[0] != '0',
    decreases n,
{
    if n > 0 {
        assert((16 * n + d) / 16 == n && (16 * n + d) % 16 == d) by (nonlinear_arith)
            requires
                d < 16,
        ;
    }
    if n >= 16 {
        law_hex_is_positional(n / 16, d);
    } else if n > 0 {
        law_hex_digits(n);
    }
}

/// Padding puts zeros before a number that is too short, and changes no other.
pub proof fn law_padding_puts_zeros_first(n: nat, width: nat, i: int)
    ensures
        padded_hex(n, width).len() == (if hex(n).len() < width {
            width
        } else {
            hex(n).len()
        }),
        padded_hex(n, width).skip(padded_hex(n, width).len() - hex(n).len()) == hex(n),
        0 <= i < padded_hex(n, width).len() - hex(n).len() ==> padded_hex(n, width)[i] == '0',
{
    assert(padded_hex(n, width).skip(padded_hex(n, width).len() - hex(n).len()) =~= hex(n));
}

} // verus!
