//! Synthesized labels: the token that stands for a counter value.
use crate::text::push_char;
use vstd::prelude::*;

verus! {

/// The decimal digit for `d`, which is below ten.
pub open spec fn digit_char(d: nat) -> char {
    if d == 0 {
        '0'
    } else if d == 1 {
        '1'
    } else if d == 2 {
        '2'
    } else if d == 3 {
        '3'
    } else if d == 4 {
        '4'
    } else if d == 5 {
        '5'
    } else if d == 6 {
        '6'
    } else if d == 7 {
        '7'
    } else if d == 8 {
        '8'
    } else {
        '9'
    }
}

/// The value of a decimal digit; zero for any other character.
pub open spec fn digit_value(c: char) -> nat {
    if c == '1' {
        1
    } else if c == '2' {
        2
    } else if c == '3' {
        3
    } else if c == '4' {
        4
    } else if c == '5' {
        5
    } else if c == '6' {
        6
    } else if c == '7' {
        7
    } else if c == '8' {
        8
    } else if c == '9' {
        9
    } else {
        0
    }
}

/// `n` in decimal, with zeros in front up to `width` digits.
pub open spec fn padded_decimal(n: nat, width: nat) -> Seq<char>
    decreases n, width,
{
    if n < 10 && width <= 1 {
        seq![digit_char(n)]
    } else {
        padded_decimal(
            n / 10,
            if width > 0 {
                (width - 1) as nat
            } else {
                0
            },
        ).push(digit_char(n % 10))
    }
}

/// The number that a string of decimal digits stands for.
pub open spec fn decimal_value(digits: Seq<char>) -> nat
    decreases digits.len(),
{
    if digits.len() == 0 {
        0
    } else {
        decimal_value(digits.drop_last()) * 10 + digit_value(digits.last())
    }
}

/// The synthesized label for a counter value: `a` and the value in decimal,
/// zero-padded to ten digits.
pub open spec fn label_token(counter: nat) -> Seq<char> {
    seq!['a'] + padded_decimal(counter, 10)
}

/// Reading back the padded decimal of `n` gives `n`.
pub proof fn lemma_decimal_value(n: nat, width: nat)
    ensures
        decimal_value(padded_decimal(n, width)) == n,
        padded_decimal(n, width).len() >= 1,
    decreases n, width,
{
    if n < 10 && width <= 1 {
        let s = seq![digit_char(n)];
        assert(s.drop_last() =~= Seq::<char>::empty());
        assert(decimal_value(s.drop_last()) == 0);
        assert(s.last() == digit_char(n));
    } else {
        let w = if width > 0 {
            (width - 1) as nat
        } else {
            0
        };
        let front = padded_decimal(n / 10, w);
        lemma_decimal_value(n / 10, w);
        let s = front.push(digit_char(n % 10));
        assert(s.drop_last() =~= front);
        assert(s.last() == digit_char(n % 10));
    }
}

/// Distinct counter values have distinct tokens.
pub proof fn lemma_label_token_injective(a: nat, b: nat)
    requires
        label_token(a) == label_token(b),
    ensures
        a == b,
{
    let da = padded_decimal(a, 10);
    let db = padded_decimal(b, 10);
    assert(label_token(a).subrange(1, label_token(a).len() as int) =~= da);
    assert(label_token(b).subrange(1, label_token(b).len() as int) =~= db);
    lemma_decimal_value(a, 10);
    lemma_decimal_value(b, 10);
}

/// The decimal digit for `d`.
fn digit(d: u64) -> (c: char)
    requires
        d < 10,
    ensures
        c == digit_char(d as nat),
{
    if d == 0 {
        '0'
    } else if d == 1 {
        '1'
    } else if d == 2 {
        '2'
    } else if d == 3 {
        '3'
    } else if d == 4 {
        '4'
    } else if d == 5 {
        '5'
    } else if d == 6 {
        '6'
    } else if d == 7 {
        '7'
    } else if d == 8 {
        '8'
    } else {
        '9'
    }
}

/// Appends `n` in decimal, zero-padded to `width` digits.
fn push_padded(s: &mut String, n: u64, width: usize)
    ensures
        final(s)@ == old(s)@ + padded_decimal(n as nat, width as nat),
    decreases n, width,
{
    if n < 10 && width <= 1 {
        push_char(s, digit(n));
        assert(s@ =~= old(s)@ + padded_decimal(n as nat, width as nat));
    } else {
        let w: usize = if width > 0 {
            width - 1
        } else {
            0
        };
        push_padded(s, n / 10, w);
        push_char(s, digit(n % 10));
        assert(s@ =~= old(s)@ + padded_decimal(n as nat, width as nat));
    }
}

/// The label that is synthesized for a counter value: `a0000000000` for 0,
/// `a0000000123` for 123; a value of more than ten digits is written in full.
pub fn generate_label(counter: u64) -> (label: String)
    ensures
        label@ == label_token(counter as nat),
{
    let mut s = String::new();
    push_char(&mut s, 'a');
    push_padded(&mut s, counter, 10);
    assert(s@ =~= label_token(counter as nat));
    s
}

} // verus!
