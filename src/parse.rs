//! Reading text: splitting at a separator, unsigned decimal numbers and
//! dotted-decimal IPv4 addresses.

use vstd::prelude::*;

verus! {

/// `s` cut at every occurrence of `c`; an empty text gives one empty part.
pub open spec fn split(s: Seq<char>, c: char) -> Seq<Seq<char>>
    decreases s.len(),
{
    if s.len() == 0 {
        seq![seq![]]
    } else {
        let p = split(s.drop_last(), c);
        if s.last() == c {
            p.push(seq![])
        } else {
            p.drop_last().push(p.last().push(s.last()))
        }
    }
}

pub open spec fn views(v: Seq<Vec<char>>) -> Seq<Seq<char>> {
    v.map_values(|x: Vec<char>| x@)
}

pub open spec fn is_dec_digit(c: char) -> bool {
    '0' <= c <= '9'
}

pub open spec fn is_hex_digit(c: char) -> bool {
    is_dec_digit(c) || ('a' <= c <= 'f') || ('A' <= c <= 'F')
}

/// Whether `c` is a digit of base `b` (10 or 16; letters in either case).
pub open spec fn is_digit_of(c: char, b: int) -> bool {
    if b == 16 {
        is_hex_digit(c)
    } else {
        is_dec_digit(c)
    }
}

pub open spec fn digit_value(c: char) -> int {
    if is_dec_digit(c) {
        c as int - 48
    } else if 'a' <= c <= 'f' {
        c as int - 87
    } else {
        c as int - 55
    }
}

pub open spec fn all_digits(s: Seq<char>, b: int) -> bool {
    forall|i: int| 0 <= i < s.len() ==> is_digit_of(#[trigger] s[i], b)
}

/// The number that the digits `s` spell in base `b`.
pub open spec fn digits_value(s: Seq<char>, b: int) -> int
    decreases s.len(),
{
    if s.len() == 0 {
        0
    } else {
        digits_value(s.drop_last(), b) * b + digit_value(s.last())
    }
}

/// An unsigned decimal number: an optional `+` and one or more digits.
pub open spec fn unsigned_value(s: Seq<char>) -> Option<int> {
    let t = if s.len() > 0 && s[0] == '+' {
        s.drop_first()
    } else {
        s
    };
    if t.len() > 0 && all_digits(t, 10) {
        Some(digits_value(t, 10))
    } else {
        None
    }
}

/// An unsigned decimal number that fits in `u128`.
pub open spec fn u128_value(s: Seq<char>) -> Option<u128> {
    match unsigned_value(s) {
        Some(v) => if v <= u128::MAX {
            Some(v as u128)
        } else {
            None
        },
        None => None,
    }
}

/// One octet of a dotted-decimal IPv4 address: one to three decimal digits,
/// no leading zero, at most 255.
pub open spec fn dec_octet(t: Seq<char>) -> Option<int> {
    if 1 <= t.len() <= 3 && all_digits(t, 10) && !(t.len() > 1 && t[0] == '0')
        && digits_value(t, 10) <= 255 {
        Some(digits_value(t, 10))
    } else {
        None
    }
}

/// The value of a dotted-decimal IPv4 address.
pub open spec fn ipv4_value(s: Seq<char>) -> Option<u32> {
    let p = split(s, '.');
    if p.len() == 4 && dec_octet(p[0]) is Some && dec_octet(p[1]) is Some
        && dec_octet(p[2]) is Some && dec_octet(p[3]) is Some {
        Some((((dec_octet(p[0])->0 * 256 + dec_octet(p[1])->0) * 256 + dec_octet(p[2])->0) * 256
            + dec_octet(p[3])->0) as u32)
    } else {
        None
    }
}

pub proof fn lemma_split_len(s: Seq<char>, c: char)
    ensures
        split(s, c).len() >= 1,
    decreases s.len(),
{
    if s.len() > 0 {
        lemma_split_len(s.drop_last(), c);
    }
}

/// Copies the characters of a string.
pub fn chars_of(s: &str) -> (r: Vec<char>)
    ensures
        r@ == s@,
{
    let n = s.unicode_len();
    let mut r: Vec<char> = Vec::new();
    let mut i: usize = 0;
    while i < n
        invariant
            n == s@.len(),
            i <= n,
            r@ == s@.take(i as int),
        decreases n - i,
    {
        r.push(s.get_char(i));
        i += 1;
        assert(r@ =~= s@.take(i as int));
    }
    assert(r@ =~= s@);
    r
}

/// Copies `s[a..b]`.
pub fn copy_range(s: &[char], a: usize, b: usize) -> (r: Vec<char>)
    requires
        a <= b <= s@.len(),
    ensures
        r@ == s@.subrange(a as int, b as int),
{
    let mut r: Vec<char> = Vec::new();
    let mut i: usize = a;
    while i < b
        invariant
            a <= i <= b <= s@.len(),
            r@ == s@.subrange(a as int, i as int),
        decreases b - i,
    {
        r.push(s[i]);
        i += 1;
        assert(r@ =~= s@.subrange(a as int, i as int));
    }
    r
}

/// Cuts `s` at every occurrence of `c`.
pub fn split_chars(s: &[char], c: char) -> (r: Vec<Vec<char>>)
    ensures
        views(r@) == split(s@, c),
{
    let mut parts: Vec<Vec<char>> = Vec::new();
    let mut cur: Vec<char> = Vec::new();
    let mut i: usize = 0;
    assert(split(s@.take(0), c) =~= seq![seq![]]) by {
        assert(s@.take(0).len() == 0);
    }
    assert(views(parts@).push(cur@) =~= seq![seq![]]);
    while i < s.len()
        invariant
            i <= s@.len(),
            views(parts@).push(cur@) == split(s@.take(i as int), c),
        decreases s.len() - i,
    {
        let ghost before = s@.take(i as int);
        proof {
            assert(s@.take(i + 1).drop_last() =~= before);
            lemma_split_len(before, c);
        }
        let x = s[i];
        if x == c {
            parts.push(cur);
            cur = Vec::new();
        } else {
            cur.push(x);
        }
        i += 1;
        assert(views(parts@).push(cur@) =~= split(s@.take(i as int), c));
    }
    parts.push(cur);
    assert(s@.take(s@.len() as int) =~= s@);
    assert(views(parts@) =~= split(s@, c));
    parts
}

fn is_digit_of_exec(c: char, b: u128) -> (r: bool)
    ensures
        r == is_digit_of(c, b as int),
{
    if b == 16 {
        ('0' <= c && c <= '9') || ('a' <= c && c <= 'f') || ('A' <= c && c <= 'F')
    } else {
        '0' <= c && c <= '9'
    }
}

fn digit_value_exec(c: char) -> (r: u128)
    requires
        is_hex_digit(c),
    ensures
        r == digit_value(c),
        r < 16,
{
    if '0' <= c && c <= '9' {
        (c as u32 - 48) as u128
    } else if 'a' <= c && c <= 'f' {
        (c as u32 - 87) as u128
    } else {
        (c as u32 - 55) as u128
    }
}

/// The number spelled by the digits `t` in base `b`, when every character is
/// such a digit and the number fits in `u128`.
pub fn digits_value_exec(t: &[char], b: u128) -> (r: Option<u128>)
    requires
        b == 10 || b == 16,
    ensures
        r == (if all_digits(t@, b as int) && digits_value(t@, b as int) <= u128::MAX {
            Some(digits_value(t@, b as int) as u128)
        } else {
            None::<u128>
        }),
        all_digits(t@, b as int) ==> digits_value(t@, b as int) >= 0,
{
    let mut acc: u128 = 0;
    let mut over = false;
    let mut i: usize = 0;
    while i < t.len()
        invariant
            i <= t@.len(),
            b == 10 || b == 16,
            all_digits(t@.take(i as int), b as int),
            over ==> digits_value(t@.take(i as int), b as int) > u128::MAX,
            !over ==> acc == digits_value(t@.take(i as int), b as int),
        decreases t.len() - i,
    {
        let c = t[i];
        if !is_digit_of_exec(c, b) {
            assert(!all_digits(t@, b as int)) by {
                assert(!is_digit_of(t@[i as int], b as int));
            }
            return None;
        }
        let d = digit_value_exec(c);
        let ghost prev = digits_value(t@.take(i as int), b as int);
        proof {
            assert(t@.take(i + 1).drop_last() =~= t@.take(i as int));
            assert(digits_value(t@.take(i + 1), b as int) == prev * b + d);
            assert(prev >= 0) by {
                lemma_digits_value_nonneg(t@.take(i as int), b as int);
            }
            assert(prev * b + d >= prev) by (nonlinear_arith)
                requires prev >= 0, b >= 10, d >= 0;
        }
        if !over {
            match acc.checked_mul(b) {
                Some(m) => match m.checked_add(d) {
                    Some(v) => {
                        acc = v;
                    },
                    None => {
                        over = true;
                    },
                },
                None => {
                    proof {
                        assert(prev * b + d >= prev * b) by (nonlinear_arith)
                            requires d >= 0;
                    }
                    over = true;
                },
            }
        }
        i += 1;
        assert(all_digits(t@.take(i as int), b as int)) by {
            assert forall|j: int| 0 <= j < i implies is_digit_of(#[trigger] t@.take(i as int)[j], b as int) by {
                if j < i - 1 {
                    assert(t@.take(i as int)[j] == t@.take(i - 1)[j]);
                }
            }
        }
    }
    assert(t@.take(t@.len() as int) =~= t@);
    proof {
        lemma_digits_value_nonneg(t@, b as int);
    }
    if over {
        None
    } else {
        Some(acc)
    }
}

proof fn lemma_digits_value_nonneg(s: Seq<char>, b: int)
    requires
        b >= 2,
        all_digits(s, b),
    ensures
        digits_value(s, b) >= 0,
    decreases s.len(),
{
    if s.len() > 0 {
        assert(all_digits(s.drop_last(), b)) by {
            assert forall|j: int| 0 <= j < s.len() - 1 implies is_digit_of(#[trigger] s.drop_last()[j], b) by {
                assert(s.drop_last()[j] == s[j]);
            }
        }
        lemma_digits_value_nonneg(s.drop_last(), b);
        assert(is_digit_of(s[s.len() - 1], b));
        let p = digits_value(s.drop_last(), b);
        assert(p * b >= 0) by (nonlinear_arith)
            requires p >= 0, b >= 2;
    }
}

/// Reads an unsigned decimal number (an optional `+`, then digits) that fits in `u128`.
pub fn parse_u128(s: &[char]) -> (r: Option<u128>)
    ensures
        r == u128_value(s@),
{
    let t: Vec<char> = if s.len() > 0 && s[0] == '+' {
        copy_range(s, 1, s.len())
    } else {
        copy_range(s, 0, s.len())
    };
    proof {
        if s@.len() > 0 && s@[0] == '+' {
            assert(t@ =~= s@.drop_first());
        } else {
            assert(t@ =~= s@);
        }
    }
    if t.len() == 0 {
        return None;
    }
    digits_value_exec(t.as_slice(), 10)
}

/// Reads one octet of a dotted-decimal IPv4 address.
pub fn parse_dec_octet(t: &[char]) -> (r: Option<u8>)
    ensures
        r matches Some(v) ==> dec_octet(t@) == Some(v as int),
        r is None ==> dec_octet(t@) is None,
{
    if t.len() < 1 || t.len() > 3 || (t.len() > 1 && t[0] == '0') {
        return None;
    }
    let value = digits_value_exec(t, 10);
    match value {
        Some(v) => if v <= 255 {
            Some(v as u8)
        } else {
            None
        },
        None => None,
    }
}

/// Reads a dotted-decimal IPv4 address: four octets separated by `.`.
pub fn parse_ipv4(s: &[char]) -> (r: Option<u32>)
    ensures
        r == ipv4_value(s@),
{
    let parts = split_chars(s, '.');
    proof {
        assert(views(parts@).len() == parts@.len());
    }
    if parts.len() != 4 {
        return None;
    }
    proof {
        assert(views(parts@)[0] == parts@[0]@);
        assert(views(parts@)[1] == parts@[1]@);
        assert(views(parts@)[2] == parts@[2]@);
        assert(views(parts@)[3] == parts@[3]@);
    }
    let a = match parse_dec_octet(parts[0].as_slice()) {
        Some(v) => v,
        None => return None,
    };
    let b = match parse_dec_octet(parts[1].as_slice()) {
        Some(v) => v,
        None => return None,
    };
    let c = match parse_dec_octet(parts[2].as_slice()) {
        Some(v) => v,
        None => return None,
    };
    let d = match parse_dec_octet(parts[3].as_slice()) {
        Some(v) => v,
        None => return None,
    };
    Some(((a as u32 * 256 + b as u32) * 256 + c as u32) * 256 + d as u32)
}

} // verus!
