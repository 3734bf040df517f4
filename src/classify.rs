//! Deciding which kind of address text an input is.

use vstd::prelude::*;
use crate::parse::{copy_range, ipv4_value, parse_ipv4, parse_u128, split, split_chars, u128_value, views, chars_of};
use crate::parse_v6::{ipv6_value, parse_ipv6};

verus! {

/// The kind of text handed to the translator.
#[derive(Debug, Clone, Copy, PartialEq, Eq, Structural)]
pub enum IpTranslationType {
    Ipv4,
    Ipv6,
    Ipv4Mask,
    Ipv6Mask,
    Ipv4Range,
    Ipv6Range,
    Ipv4Num,
    Ipv6Num,
    UnknownIp,
}

/// Characters with the Unicode `White_Space` property.
pub open spec fn is_white_space(c: char) -> bool {
    ('\u{9}' <= c <= '\u{d}') || c == ' ' || c == '\u{85}' || c == '\u{a0}' || c == '\u{1680}'
        || ('\u{2000}' <= c <= '\u{200a}') || c == '\u{2028}' || c == '\u{2029}' || c == '\u{202f}'
        || c == '\u{205f}' || c == '\u{3000}'
}

pub open spec fn trim_start(s: Seq<char>) -> Seq<char>
    decreases s.len(),
{
    if s.len() > 0 && is_white_space(s[0]) {
        trim_start(s.drop_first())
    } else {
        s
    }
}

pub open spec fn trim_end(s: Seq<char>) -> Seq<char>
    decreases s.len(),
{
    if s.len() > 0 && is_white_space(s.last()) {
        trim_end(s.drop_last())
    } else {
        s
    }
}

/// `s` without white space at either end.
pub open spec fn trimmed(s: Seq<char>) -> Seq<char> {
    trim_end(trim_start(s))
}

/// The range kind of `s`, when it is two addresses of one family joined by
/// `-`, the first strictly below the second.
pub open spec fn range_kind(s: Seq<char>) -> Option<IpTranslationType> {
    let p = split(s, '-');
    if p.len() != 2 {
        None
    } else {
        let a = trimmed(p[0]);
        let b = trimmed(p[1]);
        if ipv4_value(a) is Some && ipv4_value(b) is Some && ipv4_value(a)->0 < ipv4_value(b)->0 {
            Some(IpTranslationType::Ipv4Range)
        } else if ipv6_value(a) is Some && ipv6_value(b) is Some && ipv6_value(a)->0 < ipv6_value(
            b,
        )->0 {
            Some(IpTranslationType::Ipv6Range)
        } else {
            None
        }
    }
}

/// Whether `t` is a prefix length no greater than `max`.
pub open spec fn prefix_at_most(t: Seq<char>, max: int) -> bool {
    u128_value(t) is Some && u128_value(t)->0 <= max
}

/// The CIDR kind of `s`, when it is an address and a prefix length joined by `/`.
pub open spec fn cidr_kind(s: Seq<char>) -> Option<IpTranslationType> {
    let p = split(s, '/');
    if p.len() != 2 {
        None
    } else if ipv4_value(p[0]) is Some && prefix_at_most(p[1], 32) {
        Some(IpTranslationType::Ipv4Mask)
    } else if ipv6_value(p[0]) is Some && prefix_at_most(p[1], 128) {
        Some(IpTranslationType::Ipv6Mask)
    } else {
        None
    }
}

/// The kind of `input`: the first rule that matches its trimmed text, in the
/// order range, CIDR, IPv4 address, IPv6 address, number.
pub open spec fn classification(input: Seq<char>) -> IpTranslationType {
    let s = trimmed(input);
    if range_kind(s) is Some {
        range_kind(s)->0
    } else if cidr_kind(s) is Some {
        cidr_kind(s)->0
    } else if ipv4_value(s) is Some {
        IpTranslationType::Ipv4
    } else if ipv6_value(s) is Some {
        IpTranslationType::Ipv6
    } else if u128_value(s) is Some {
        if u128_value(s)->0 <= u32::MAX {
            IpTranslationType::Ipv4Num
        } else {
            IpTranslationType::Ipv6Num
        }
    } else {
        IpTranslationType::UnknownIp
    }
}

pub fn is_white_space_exec(c: char) -> (r: bool)
    ensures
        r == is_white_space(c),
{
    ('\u{9}' <= c && c <= '\u{d}') || c == ' ' || c == '\u{85}' || c == '\u{a0}' || c == '\u{1680}'
        || ('\u{2000}' <= c && c <= '\u{200a}') || c == '\u{2028}' || c == '\u{2029}' || c
        == '\u{202f}' || c == '\u{205f}' || c == '\u{3000}'
}

/// Copies `s` without white space at either end.
pub fn trim_chars(s: &[char]) -> (r: Vec<char>)
    ensures
        r@ == trimmed(s@),
{
    let mut a: usize = 0;
    assert(s@.skip(0) =~= s@);
    while a < s.len() && is_white_space_exec(s[a])
        invariant
            a <= s@.len(),
            trim_start(s@) == trim_start(s@.skip(a as int)),
        decreases s.len() - a,
    {
        assert(s@.skip(a as int).drop_first() =~= s@.skip(a + 1));
        a += 1;
    }
    assert(trim_start(s@) == s@.skip(a as int)) by {
        assert(a < s@.len() ==> s@.skip(a as int)[0] == s@[a as int]);
    }
    let mut b: usize = s.len();
    while b > a && is_white_space_exec(s[b - 1])
        invariant
            a <= b <= s@.len(),
            trim_end(s@.skip(a as int)) == trim_end(s@.subrange(a as int, b as int)),
        decreases b,
    {
        assert(s@.subrange(a as int, b as int).drop_last() =~= s@.subrange(a as int, b - 1));
        b -= 1;
    }
    assert(s@.skip(a as int) =~= s@.subrange(a as int, s@.len() as int));
    let r = copy_range(s, a, b);
    assert(trim_end(r@) == r@) by {
        if r@.len() > 0 {
            assert(r@.last() == s@[b - 1]);
        }
    }
    r
}

/// Tells which range kind `s` is, if any.
fn range_kind_exec(s: &[char]) -> (r: Option<IpTranslationType>)
    ensures
        r == range_kind(s@),
{
    let p = split_chars(s, '-');
    assert(views(p@).len() == p@.len());
    if p.len() != 2 {
        return None;
    }
    assert(views(p@)[0] == p@[0]@ && views(p@)[1] == p@[1]@);
    let a = trim_chars(p[0].as_slice());
    let b = trim_chars(p[1].as_slice());
    match (parse_ipv4(a.as_slice()), parse_ipv4(b.as_slice())) {
        (Some(x), Some(y)) => {
            if x < y {
                return Some(IpTranslationType::Ipv4Range);
            }
        },
        _ => {},
    }
    match (parse_ipv6(a.as_slice()), parse_ipv6(b.as_slice())) {
        (Some(x), Some(y)) => {
            if x < y {
                return Some(IpTranslationType::Ipv6Range);
            }
        },
        _ => {},
    }
    None
}

/// Tells which CIDR kind `s` is, if any.
fn cidr_kind_exec(s: &[char]) -> (r: Option<IpTranslationType>)
    ensures
        r == cidr_kind(s@),
{
    let p = split_chars(s, '/');
    assert(views(p@).len() == p@.len());
    if p.len() != 2 {
        return None;
    }
    assert(views(p@)[0] == p@[0]@ && views(p@)[1] == p@[1]@);
    let prefix = parse_u128(p[1].as_slice());
    if let Some(_) = parse_ipv4(p[0].as_slice()) {
        if let Some(m) = prefix {
            if m <= 32 {
                return Some(IpTranslationType::Ipv4Mask);
            }
        }
    }
    if let Some(_) = parse_ipv6(p[0].as_slice()) {
        if let Some(m) = prefix {
            if m <= 128 {
                return Some(IpTranslationType::Ipv6Mask);
            }
        }
    }
    None
}

/// Classifies the characters of an input.
pub fn classify_chars(input: &[char]) -> (r: IpTranslationType)
    ensures
        r == classification(input@),
{
    let s = trim_chars(input);
    if let Some(k) = range_kind_exec(s.as_slice()) {
        return k;
    }
    if let Some(k) = cidr_kind_exec(s.as_slice()) {
        return k;
    }
    if let Some(_) = parse_ipv4(s.as_slice()) {
        return IpTranslationType::Ipv4;
    }
    if let Some(_) = parse_ipv6(s.as_slice()) {
        return IpTranslationType::Ipv6;
    }
    if let Some(n) = parse_u128(s.as_slice()) {
        if n <= 0xffff_ffffu128 {
            return IpTranslationType::Ipv4Num;
        } else {
            return IpTranslationType::Ipv6Num;
        }
    }
    IpTranslationType::UnknownIp
}

impl IpTranslationType {
    /// Classifies a free-form address text.
    pub fn from_str(input: &str) -> (r: Self)
        ensures
            r == classification(input@),
    {
        let chars = chars_of(input);
        classify_chars(chars.as_slice())
    }
}

} // verus!
