//! Digits of a number in a base, and their spelling as text.

use vstd::prelude::*;

verus! {

/// The character that spells digit `d` (0 to 15), hexadecimal digits in lower case.
pub open spec fn digit_char(d: int) -> char {
    if d < 10 {
        (48 + d) as char
    } else {
        (87 + d) as char
    }
}

/// The digits of `v` in base `b`, most significant first, without leading zeros.
pub open spec fn min_digits(v: nat, b: nat) -> Seq<int>
    decreases v,
    via min_digits_decreases
{
    if b < 2 || v < b {
        seq![v as int]
    } else {
        min_digits(v / b, b).push((v % b) as int)
    }
}

#[via_fn]
proof fn min_digits_decreases(v: nat, b: nat) {
    if !(b < 2 || v < b) {
        vstd::arithmetic::div_mod::lemma_div_decreases(v as int, b as int);
    }
}

/// The lowest `w` digits of `v` in base `b`, most significant first, padded with zeros.
pub open spec fn fixed_digits(v: nat, b: nat, w: nat) -> Seq<int>
    decreases w,
{
    if w == 0 {
        seq![]
    } else {
        fixed_digits(v / b, b, (w - 1) as nat).push((v % b) as int)
    }
}

pub open spec fn spell(ds: Seq<int>) -> Seq<char> {
    ds.map_values(|d: int| digit_char(d))
}

/// Decimal spelling of `v`.
pub open spec fn dec_text(v: nat) -> Seq<char> {
    spell(min_digits(v, 10))
}

/// Lower-case hexadecimal spelling of `v`, without leading zeros.
pub open spec fn hex_text(v: nat) -> Seq<char> {
    spell(min_digits(v, 16))
}

/// `v` as exactly `w` binary digits.
pub open spec fn bin_text(v: nat, w: nat) -> Seq<char> {
    spell(fixed_digits(v, 2, w))
}

/// `v` as exactly `w` lower-case hexadecimal digits.
pub open spec fn hex_fixed_text(v: nat, w: nat) -> Seq<char> {
    spell(fixed_digits(v, 16, w))
}

/// Relies on String::push: appends one character to the string.
#[verifier::external_body]
pub(crate) fn push_char(s: &mut String, c: char)
    ensures
        final(s)@ == old(s)@.push(c),
{
    s.push(c)
}

proof fn lemma_spell_push(ds: Seq<int>, d: int)
    ensures
        spell(ds.push(d)) == spell(ds).push(digit_char(d)),
{
    assert(spell(ds.push(d)) =~= spell(ds).push(digit_char(d)));
}

fn digit_char_exec(d: u8) -> (c: char)
    requires
        d < 16,
    ensures
        c == digit_char(d as int),
{
    if d < 10 {
        (48u8 + d) as char
    } else {
        (87u8 + d) as char
    }
}

/// Appends the digits of `v` in base `b` without leading zeros.
pub fn push_min_digits(out: &mut String, v: u128, b: u128)
    requires
        2 <= b <= 16,
    ensures
        final(out)@ == old(out)@ + spell(min_digits(v as nat, b as nat)),
    decreases v,
{
    if v >= b {
        proof {
            vstd::arithmetic::div_mod::lemma_div_decreases(v as int, b as int);
        }
        push_min_digits(out, v / b, b);
        proof {
            lemma_spell_push(min_digits((v / b) as nat, b as nat), (v % b) as int);
        }
    }
    push_char(out, digit_char_exec((v % b) as u8));
    proof {
        if v < b {
            vstd::arithmetic::div_mod::lemma_small_mod(v as nat, b as nat);
            assert(spell(min_digits(v as nat, b as nat)) =~= seq![digit_char((v % b) as int)]);
        }
    }
    assert(final(out)@ =~= old(out)@ + spell(min_digits(v as nat, b as nat)));
}

/// Appends the lowest `w` digits of `v` in base `b`, padded with zeros.
pub fn push_fixed_digits(out: &mut String, v: u128, b: u128, w: u32)
    requires
        2 <= b <= 16,
    ensures
        final(out)@ == old(out)@ + spell(fixed_digits(v as nat, b as nat, w as nat)),
    decreases w,
{
    if w == 0 {
        assert(spell(fixed_digits(v as nat, b as nat, 0)) =~= seq![]);
        assert(out@ =~= old(out)@ + spell(fixed_digits(v as nat, b as nat, w as nat)));
        return;
    }
    push_fixed_digits(out, v / b, b, w - 1);
    push_char(out, digit_char_exec((v % b) as u8));
    proof {
        lemma_spell_push(fixed_digits((v / b) as nat, b as nat, (w - 1) as nat), (v % b) as int);
    }
    assert(final(out)@ =~= old(out)@ + spell(fixed_digits(v as nat, b as nat, w as nat)));
}

} // verus!
