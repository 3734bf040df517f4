//! Properties that relate classification, reading and writing of addresses.

use vstd::prelude::*;
use crate::digits::{dec_text, digit_char, fixed_digits};
use crate::format::{ipv4_text, octets};
use crate::parse::{
    all_digits, dec_octet, digit_value, digits_value, ipv4_value, is_dec_digit, is_hex_digit, split,
    u128_value,
};
use crate::parse_v6::{all_groups, first_double_colon, group_list, hex_group, ipv6_value};
use crate::classify::{
    classification, cidr_kind, is_white_space, range_kind, trimmed, IpTranslationType,
};
use crate::translate::{translation, v4_single_view};

verus! {

/// Every character of `s` is `c` or satisfies `p` when every part does.
proof fn lemma_split_chars(s: Seq<char>, c: char, p: spec_fn(char) -> bool)
    requires
        forall|i: int, j: int|
            0 <= i < split(s, c).len() && 0 <= j < split(s, c)[i].len() ==> #[trigger] p(
                split(s, c)[i][j],
            ),
    ensures
        forall|k: int| 0 <= k < s.len() ==> s[k] == c || #[trigger] p(s[k]),
    decreases s.len(),
{
    if s.len() > 0 {
        let q = split(s.drop_last(), c);
        crate::parse::lemma_split_len(s.drop_last(), c);
        let x = s.last();
        if x == c {
            assert forall|i: int, j: int|
                0 <= i < q.len() && 0 <= j < q[i].len() implies #[trigger] p(q[i][j]) by {
                assert(split(s, c)[i] == q[i]);
            }
        } else {
            let w = q.last().push(x);
            assert(split(s, c)[q.len() - 1] == w);
            assert(p(x)) by {
                assert(w[w.len() - 1] == x);
            }
            assert forall|i: int, j: int|
                0 <= i < q.len() && 0 <= j < q[i].len() implies #[trigger] p(q[i][j]) by {
                if i < q.len() - 1 {
                    assert(split(s, c)[i] == q[i]);
                } else {
                    assert(q[i][j] == w[j]);
                }
            }
        }
        lemma_split_chars(s.drop_last(), c, p);
        assert forall|k: int| 0 <= k < s.len() implies s[k] == c || #[trigger] p(s[k]) by {
            if k < s.len() - 1 {
                assert(s[k] == s.drop_last()[k]);
            }
        }
    }
}

/// A text without `c` is a single part.
pub proof fn lemma_split_none(s: Seq<char>, c: char)
    requires
        forall|k: int| 0 <= k < s.len() ==> s[k] != c,
    ensures
        split(s, c) == seq![s],
    decreases s.len(),
{
    if s.len() > 0 {
        lemma_split_none(s.drop_last(), c);
        let q = split(s.drop_last(), c);
        assert(q.drop_last() =~= seq![]);
        assert(q.last() == s.drop_last());
        assert(s.drop_last().push(s.last()) =~= s);
        assert(split(s, c) =~= seq![s]);
    } else {
        assert(s =~= seq![]);
    }
}

/// Cutting at a separator splits the parts of both sides.
pub proof fn lemma_split_concat(x: Seq<char>, c: char, y: Seq<char>)
    ensures
        split(x + seq![c] + y, c) == split(x, c) + split(y, c),
    decreases y.len(),
{
    crate::parse::lemma_split_len(x, c);
    crate::parse::lemma_split_len(y, c);
    if y.len() == 0 {
        assert(x + seq![c] + y =~= x.push(c));
        assert((x + seq![c] + y).drop_last() =~= x);
        assert(split(x, c).push(seq![]) =~= split(x, c) + seq![seq![]]);
    } else {
        let s = x + seq![c] + y;
        lemma_split_concat(x, c, y.drop_last());
        assert(s.drop_last() =~= x + seq![c] + y.drop_last());
        assert(y.drop_last().len() < y.len());
        let a = split(x, c);
        let b = split(y.drop_last(), c);
        crate::parse::lemma_split_len(y.drop_last(), c);
        if y.last() == c {
            assert((a + b).push(seq![]) =~= a + b.push(seq![]));
        } else {
            assert((a + b).drop_last().push((a + b).last().push(y.last())) =~= a + b.drop_last().push(
                b.last().push(y.last()),
            ));
        }
    }
}

proof fn lemma_digit_char_value(d: int)
    requires
        0 <= d < 10,
    ensures
        is_dec_digit(digit_char(d)),
        digit_value(digit_char(d)) == d,
{
}

/// The decimal spelling of `v` reads back as `v`.
proof fn lemma_dec_text_value(v: nat)
    ensures
        all_digits(dec_text(v), 10),
        digits_value(dec_text(v), 10) == v,
        dec_text(v).len() >= 1,
        v >= 1 ==> dec_text(v)[0] != '0',
        v < 10 ==> dec_text(v).len() == 1,
        v < 100 ==> dec_text(v).len() <= 2,
        v < 1000 ==> dec_text(v).len() <= 3,
    decreases v,
{
    if v < 10 {
        lemma_digit_char_value(v as int);
        assert(dec_text(v) =~= seq![digit_char(v as int)]);
        assert(dec_text(v).drop_last() =~= seq![]);
        assert(digits_value(dec_text(v).drop_last(), 10) == 0);
    } else {
        vstd::arithmetic::div_mod::lemma_div_decreases(v as int, 10);
        lemma_dec_text_value(v / 10);
        let t = dec_text(v / 10);
        let d = (v % 10) as int;
        lemma_digit_char_value(d);
        assert(dec_text(v) =~= t.push(digit_char(d)));
        assert(dec_text(v).drop_last() =~= t);
        vstd::arithmetic::div_mod::lemma_fundamental_div_mod(v as int, 10);
        assert(digits_value(dec_text(v), 10) == digits_value(t, 10) * 10 + d);
        assert forall|i: int| 0 <= i < dec_text(v).len() implies crate::parse::is_digit_of(
            #[trigger] dec_text(v)[i],
            10,
        ) by {
            if i < t.len() {
                assert(dec_text(v)[i] == t[i]);
            }
        }
        assert(dec_text(v)[0] == t[0]);
    }
}

/// The characters of a decimal spelling are digits.
proof fn lemma_dec_text_chars(v: nat)
    ensures
        forall|k: int| 0 <= k < dec_text(v).len() ==> is_dec_digit(#[trigger] dec_text(v)[k]),
{
    lemma_dec_text_value(v);
    assert forall|k: int| 0 <= k < dec_text(v).len() implies is_dec_digit(
        #[trigger] dec_text(v)[k],
    ) by {
        assert(crate::parse::is_digit_of(dec_text(v)[k], 10));
    }
}

/// An octet spelled in decimal reads back as the same octet.
proof fn lemma_octet_round_trip(o: int)
    requires
        0 <= o < 256,
    ensures
        dec_octet(dec_text(o as nat)) == Some(o),
{
    lemma_dec_text_value(o as nat);
}

/// The four octets of `w` put back together give `w`.
proof fn lemma_octets_value(w: u32)
    ensures
        0 <= octets(w)[0] < 256 && 0 <= octets(w)[1] < 256 && 0 <= octets(w)[2] < 256 && 0
            <= octets(w)[3] < 256,
        ((octets(w)[0] * 256 + octets(w)[1]) * 256 + octets(w)[2]) * 256 + octets(w)[3] == w,
{
    let v = w as nat;
    reveal_with_fuel(fixed_digits, 5);
    let a = v / 256;
    let b = a / 256;
    let c = b / 256;
    assert(octets(w) == seq![(c % 256) as int, (b % 256) as int, (a % 256) as int, (v % 256) as int])
        by {
        assert(fixed_digits(v, 256, 4) =~= seq![
            (c % 256) as int,
            (b % 256) as int,
            (a % 256) as int,
            (v % 256) as int,
        ]);
    }
    vstd::arithmetic::div_mod::lemma_fundamental_div_mod(v as int, 256);
    vstd::arithmetic::div_mod::lemma_fundamental_div_mod(a as int, 256);
    vstd::arithmetic::div_mod::lemma_fundamental_div_mod(b as int, 256);
    assert(c < 256) by (nonlinear_arith)
        requires v < 0x1_0000_0000, a == v / 256, b == a / 256, c == b / 256;
    assert(c % 256 == c) by (nonlinear_arith)
        requires c < 256;
}

/// The dotted-decimal text of an address reads back as the same address.
pub proof fn lemma_ipv4_text_round_trip(w: u32)
    ensures
        ipv4_value(ipv4_text(w)) == Some(w),
{
    let o = octets(w);
    lemma_octets_value(w);
    let t0 = dec_text(o[0] as nat);
    let t1 = dec_text(o[1] as nat);
    let t2 = dec_text(o[2] as nat);
    let t3 = dec_text(o[3] as nat);
    lemma_dec_text_chars(o[0] as nat);
    lemma_dec_text_chars(o[1] as nat);
    lemma_dec_text_chars(o[2] as nat);
    lemma_dec_text_chars(o[3] as nat);
    lemma_split_none(t0, '.');
    lemma_split_none(t1, '.');
    lemma_split_none(t2, '.');
    lemma_split_none(t3, '.');
    lemma_split_concat(t2, '.', t3);
    lemma_split_concat(t1, '.', t2 + seq!['.'] + t3);
    lemma_split_concat(t0, '.', t1 + seq!['.'] + t2 + seq!['.'] + t3);
    assert(ipv4_text(w) =~= t0 + seq!['.'] + (t1 + seq!['.'] + (t2 + seq!['.'] + t3)));
    assert(t1 + seq!['.'] + (t2 + seq!['.'] + t3) =~= t1 + seq!['.'] + t2 + seq!['.'] + t3);
    assert(split(ipv4_text(w), '.') =~= seq![t0, t1, t2, t3]);
    lemma_octet_round_trip(o[0]);
    lemma_octet_round_trip(o[1]);
    lemma_octet_round_trip(o[2]);
    lemma_octet_round_trip(o[3]);
}

/// The characters of a dotted-decimal address are digits and dots.
pub proof fn lemma_ipv4_chars(s: Seq<char>)
    requires
        ipv4_value(s) is Some,
    ensures
        s.len() > 0,
        forall|k: int| 0 <= k < s.len() ==> s[k] == '.' || is_dec_digit(#[trigger] s[k]),
{
    let ps = split(s, '.');
    let p = |ch: char| is_dec_digit(ch);
    assert forall|i: int, j: int| 0 <= i < ps.len() && 0 <= j < ps[i].len() implies #[trigger] p(
        ps[i][j],
    ) by {
        assert(dec_octet(ps[i]) is Some);
        assert(crate::parse::is_digit_of(ps[i][j], 10));
    }
    lemma_split_chars(s, '.', p);
    assert forall|k: int| 0 <= k < s.len() implies s[k] == '.' || is_dec_digit(#[trigger] s[k]) by {
        assert(s[k] == '.' || p(s[k]));
    }
    if s.len() == 0 {
        assert(split(s, '.').len() == 1);
    }
}

/// A text that begins and ends with no white space is its own trimmed text.
proof fn lemma_trimmed_id(s: Seq<char>)
    requires
        s.len() > 0 ==> !is_white_space(s[0]) && !is_white_space(s.last()),
    ensures
        trimmed(s) == s,
{
}

/// A text without `::` has none from any position on.
proof fn lemma_no_double_colon(s: Seq<char>, i: int)
    requires
        forall|k: int| 0 <= k < s.len() ==> s[k] != ':',
        0 <= i,
    ensures
        first_double_colon(s, i) < 0,
    decreases s.len() - i,
{
    if i + 1 < s.len() {
        lemma_no_double_colon(s, i + 1);
    }
}

/// A text without `:` is no IPv6 address.
proof fn lemma_no_colon_not_ipv6(s: Seq<char>)
    requires
        forall|k: int| 0 <= k < s.len() ==> s[k] != ':',
    ensures
        ipv6_value(s) is None,
{
    lemma_no_double_colon(s, 0);
    lemma_split_none(s, ':');
    assert(split(s, ':').drop_last() =~= Seq::<Seq<char>>::empty());
    if group_list(s) is Some {
        assert(group_list(s)->0.len() <= 2);
    }
}

/// Text of the digits and dots of an IPv4 address has no character in
/// `-`, `/`, `:` or white space.
proof fn lemma_plain_chars(s: Seq<char>)
    requires
        forall|k: int| 0 <= k < s.len() ==> s[k] == '.' || is_dec_digit(#[trigger] s[k]),
    ensures
        split(s, '-') == seq![s],
        split(s, '/') == seq![s],
        ipv6_value(s) is None,
        s.len() > 0 ==> !is_white_space(s[0]) && !is_white_space(s.last()),
{
    lemma_split_none(s, '-');
    lemma_split_none(s, '/');
    lemma_no_colon_not_ipv6(s);
    if s.len() > 0 {
        assert(s[0] == '.' || is_dec_digit(s[0]));
        assert(s[s.len() - 1] == '.' || is_dec_digit(s[s.len() - 1]));
    }
}

/// A dotted-decimal address is classified as an IPv4 address.
pub proof fn lemma_ipv4_classified(s: Seq<char>)
    requires
        ipv4_value(s) is Some,
    ensures
        classification(s) == IpTranslationType::Ipv4,
{
    lemma_ipv4_chars(s);
    lemma_plain_chars(s);
    lemma_trimmed_id(s);
    assert(range_kind(s) is None);
    assert(cidr_kind(s) is None);
}

/// The decimal spelling of a number is classified as a number, and reads back as it.
pub proof fn lemma_number_classified(v: u128)
    ensures
        u128_value(dec_text(v as nat)) == Some(v),
        classification(dec_text(v as nat)) == (if v <= u32::MAX {
            IpTranslationType::Ipv4Num
        } else {
            IpTranslationType::Ipv6Num
        }),
{
    let t = dec_text(v as nat);
    lemma_dec_text_value(v as nat);
    lemma_dec_text_chars(v as nat);
    lemma_plain_chars(t);
    lemma_trimmed_id(t);
    lemma_split_none(t, '.');
    assert(ipv4_value(t) is None);
    assert(range_kind(t) is None);
    assert(cidr_kind(t) is None);
    assert(t[0] != '+');
}

/// Neighbours of an IPv4 address: for an address with value `v`, the
/// previous address reads as `v - 1` and the next as `v + 1`; there is no
/// previous address below the lowest one and no next one above the highest.
pub proof fn law_ipv4_neighbours(s: Seq<char>)
    requires
        ipv4_value(s) is Some,
    ensures
        translation(s) is Some,
        ({
            let v = ipv4_value(s)->0;
            let t = translation(s)->0;
            &&& v > 0 ==> ipv4_value(t.prev_address) == Some((v - 1) as u32)
            &&& v == 0 ==> t.prev_address.len() == 0
            &&& v < u32::MAX ==> ipv4_value(t.next_address) == Some((v + 1) as u32)
            &&& v == u32::MAX ==> t.next_address.len() == 0
        }),
{
    let v = ipv4_value(s)->0;
    lemma_ipv4_classified(s);
    assert(translation(s) == Some(v4_single_view(v, "IPv4"@, "0:0:0:0:0:ffff:"@)));
    if v > 0 {
        lemma_ipv4_text_round_trip((v - 1) as u32);
    }
    if v < u32::MAX {
        lemma_ipv4_text_round_trip((v + 1) as u32);
    }
}

/// Parts joined again by the separator they were cut at.
spec fn join(ps: Seq<Seq<char>>, c: char) -> Seq<char>
    decreases ps.len(),
{
    if ps.len() == 0 {
        seq![]
    } else if ps.len() == 1 {
        ps[0]
    } else {
        join(ps.drop_last(), c) + seq![c] + ps.last()
    }
}

/// Joining the parts of a text gives the text back.
proof fn lemma_split_join(s: Seq<char>, c: char)
    ensures
        join(split(s, c), c) == s,
    decreases s.len(),
{
    if s.len() == 0 {
        assert(s =~= seq![]);
    } else {
        let p = split(s.drop_last(), c);
        crate::parse::lemma_split_len(s.drop_last(), c);
        lemma_split_join(s.drop_last(), c);
        let x = s.last();
        if x == c {
            assert(p.push(seq![]).drop_last() =~= p);
            assert(join(p.push(seq![]), c) =~= s);
        } else {
            let q = p.drop_last().push(p.last().push(x));
            assert(q.drop_last() =~= p.drop_last());
            if p.len() == 1 {
                assert(join(q, c) =~= s);
            } else {
                assert(join(q, c) =~= (join(p.drop_last(), c) + seq![c] + p.last()).push(x));
                assert(join(q, c) =~= s);
            }
        }
    }
}

/// Decimal digits without a leading zero are the spelling of their value.
proof fn lemma_canonical_dec(p: Seq<char>)
    requires
        p.len() >= 1,
        all_digits(p, 10),
        !(p.len() > 1 && p[0] == '0'),
    ensures
        dec_text(digits_value(p, 10) as nat) == p,
        digits_value(p, 10) >= 0,
        p[0] != '0' ==> digits_value(p, 10) >= 1,
    decreases p.len(),
{
    assert(crate::parse::is_digit_of(p[p.len() - 1], 10));
    let d = digit_value(p.last());
    if p.len() == 1 {
        assert(p.drop_last() =~= seq![]);
        assert(digits_value(p.drop_last(), 10) == 0);
        assert(digits_value(p, 10) == d);
        assert(dec_text(d as nat) =~= seq![digit_char(d)]);
        assert(p =~= seq![p[0]]);
    } else {
        let q = p.drop_last();
        assert(all_digits(q, 10)) by {
            assert forall|j: int| 0 <= j < q.len() implies crate::parse::is_digit_of(
                #[trigger] q[j],
                10,
            ) by {
                assert(q[j] == p[j]);
            }
        }
        assert(q[0] == p[0]);
        lemma_canonical_dec(q);
        let vq = digits_value(q, 10);
        let v = digits_value(p, 10);
        assert(v == vq * 10 + d);
        vstd::arithmetic::div_mod::lemma_fundamental_div_mod_converse(v, 10, vq, d);
        assert(v >= 10);
        assert(dec_text(v as nat) =~= dec_text(vq as nat).push(digit_char(d)));
        assert(p =~= q.push(p.last()));
    }
}

/// Four octets put together give an address whose octets they are.
proof fn lemma_octets_unique(o0: int, o1: int, o2: int, o3: int)
    requires
        0 <= o0 < 256,
        0 <= o1 < 256,
        0 <= o2 < 256,
        0 <= o3 < 256,
    ensures
        octets((((o0 * 256 + o1) * 256 + o2) * 256 + o3) as u32) == seq![o0, o1, o2, o3],
{
    let w = (((o0 * 256 + o1) * 256 + o2) * 256 + o3) as u32;
    let v = w as nat;
    reveal_with_fuel(fixed_digits, 5);
    let a = v / 256;
    let b = a / 256;
    let c = b / 256;
    vstd::arithmetic::div_mod::lemma_fundamental_div_mod_converse(v as int, 256, (o0 * 256 + o1) * 256 + o2, o3);
    vstd::arithmetic::div_mod::lemma_fundamental_div_mod_converse(a as int, 256, o0 * 256 + o1, o2);
    vstd::arithmetic::div_mod::lemma_fundamental_div_mod_converse(b as int, 256, o0, o1);
    vstd::arithmetic::div_mod::lemma_small_mod(c, 256);
    assert(fixed_digits(v, 256, 4) =~= seq![o0, o1, o2, o3]);
}

/// A dotted-decimal address is the text of its own value.
pub proof fn lemma_ipv4_canonical(s: Seq<char>)
    requires
        ipv4_value(s) is Some,
    ensures
        ipv4_text(ipv4_value(s)->0) == s,
{
    let ps = split(s, '.');
    lemma_split_join(s, '.');
    let o0 = dec_octet(ps[0])->0;
    let o1 = dec_octet(ps[1])->0;
    let o2 = dec_octet(ps[2])->0;
    let o3 = dec_octet(ps[3])->0;
    lemma_canonical_dec(ps[0]);
    lemma_canonical_dec(ps[1]);
    lemma_canonical_dec(ps[2]);
    lemma_canonical_dec(ps[3]);
    lemma_octets_unique(o0, o1, o2, o3);
    reveal_with_fuel(join, 5);
    assert(ps.drop_last().drop_last().drop_last() =~= seq![ps[0]]);
    assert(ps.drop_last().drop_last().last() == ps[1]);
    assert(ps.drop_last().last() == ps[2]);
    assert(s =~= ipv4_text(ipv4_value(s)->0));
}

/// Translating the integer value of an IPv4 address back gives the address.
pub proof fn law_ipv4_number_round_trip(s: Seq<char>)
    requires
        ipv4_value(s) is Some,
    ensures
        translation(s) is Some,
        translation(translation(s)->0.int_value) is Some,
        translation(translation(s)->0.int_value)->0.com_address == s,
{
    let v = ipv4_value(s)->0;
    lemma_ipv4_classified(s);
    lemma_number_classified(v as u128);
    assert(dec_text(v as nat) == dec_text((v as u128) as nat));
    lemma_ipv4_canonical(s);
}

pub open spec fn ipv6_char(ch: char) -> bool {
    is_hex_digit(ch) || ch == '.'
}

/// Parts that are groups, or an embedded IPv4 address last, are spelled with
/// hexadecimal digits and dots.
proof fn lemma_group_list_chars(t: Seq<char>)
    requires
        group_list(t) is Some || all_groups(split(t, ':')),
    ensures
        forall|k: int| 0 <= k < t.len() ==> t[k] == ':' || #[trigger] ipv6_char(t[k]),
{
    let ps = split(t, ':');
    let p = |ch: char| ipv6_char(ch);
    crate::parse::lemma_split_len(t, ':');
    if !all_groups(ps) {
        lemma_ipv4_chars(ps.last());
    }
    assert forall|i: int, j: int| 0 <= i < ps.len() && 0 <= j < ps[i].len() implies #[trigger] p(
        ps[i][j],
    ) by {
        if all_groups(ps) || i < ps.len() - 1 {
            if !all_groups(ps) {
                assert(ps.drop_last()[i] == ps[i]);
                assert(hex_group(ps.drop_last()[i]) is Some);
            }
            assert(hex_group(ps[i]) is Some);
            assert(crate::parse::is_digit_of(ps[i][j], 16));
        } else {
            assert(ps[i] == ps.last());
        }
    }
    lemma_split_chars(t, ':', p);
    assert forall|k: int| 0 <= k < t.len() implies t[k] == ':' || #[trigger] ipv6_char(t[k]) by {
        assert(t[k] == ':' || p(t[k]));
    }
}

proof fn lemma_first_double_colon(s: Seq<char>, i: int)
    requires
        0 <= i,
    ensures
        first_double_colon(s, i) >= 0 ==> ({
            let r = first_double_colon(s, i);
            &&& i <= r
            &&& r + 1 < s.len()
            &&& s[r] == ':'
            &&& s[r + 1] == ':'
        }),
    decreases s.len() - i,
{
    if i + 1 < s.len() {
        lemma_first_double_colon(s, i + 1);
    }
}

/// A textual IPv6 address is spelled with hexadecimal digits, dots and
/// colons, and holds at least one colon.
proof fn lemma_ipv6_chars(s: Seq<char>)
    requires
        ipv6_value(s) is Some,
    ensures
        forall|k: int| 0 <= k < s.len() ==> s[k] == ':' || #[trigger] ipv6_char(s[k]),
        exists|k: int| 0 <= k < s.len() && s[k] == ':',
{
    let k = first_double_colon(s, 0);
    if k < 0 {
        lemma_group_list_chars(s);
    } else {
        lemma_first_double_colon(s, 0);
        let h = s.take(k);
        let t = s.skip(k + 2);
        if h.len() > 0 {
            lemma_group_list_chars(h);
        }
        if t.len() > 0 {
            lemma_group_list_chars(t);
        }
        assert forall|j: int| 0 <= j < s.len() implies s[j] == ':' || #[trigger] ipv6_char(s[j]) by {
            if j < k {
                assert(s[j] == h[j]);
            } else if j > k + 1 {
                assert(s[j] == t[j - k - 2]);
            }
        }
    }
    if !(exists|k: int| 0 <= k < s.len() && s[k] == ':') {
        lemma_no_colon_not_ipv6(s);
    }
}

/// A textual IPv6 address is classified as an IPv6 address.
pub proof fn lemma_ipv6_classified(s: Seq<char>)
    requires
        ipv6_value(s) is Some,
    ensures
        classification(s) == IpTranslationType::Ipv6,
{
    lemma_ipv6_chars(s);
    let j = choose|j: int| 0 <= j < s.len() && s[j] == ':';
    if ipv4_value(s) is Some {
        lemma_ipv4_chars(s);
        assert(s[j] == '.' || is_dec_digit(s[j]));
    }
    assert(s.len() > 0);
    assert(s[0] == ':' || ipv6_char(s[0]));
    assert(s[s.len() - 1] == ':' || ipv6_char(s[s.len() - 1]));
    lemma_trimmed_id(s);
    assert forall|k: int| 0 <= k < s.len() implies s[k] != '-' && s[k] != '/' by {
        assert(s[k] == ':' || ipv6_char(s[k]));
    }
    lemma_split_none(s, '-');
    lemma_split_none(s, '/');
    assert(range_kind(s) is None);
    assert(cidr_kind(s) is None);
}

/// Neighbours of an IPv6 address: for an address with value `v`, the
/// previous address reads as `v - 1` and the next as `v + 1`; there is no
/// previous address below the lowest one and no next one above the highest.
pub proof fn law_ipv6_neighbours(s: Seq<char>)
    requires
        ipv6_value(s) is Some,
    ensures
        translation(s) is Some,
        ({
            let v = ipv6_value(s)->0;
            let t = translation(s)->0;
            &&& v > 0 ==> ipv6_value(t.prev_address) == Some((v - 1) as u128)
            &&& v == 0 ==> t.prev_address.len() == 0
            &&& v < u128::MAX ==> ipv6_value(t.next_address) == Some((v + 1) as u128)
            &&& v == u128::MAX ==> t.next_address.len() == 0
        }),
{
    let v = ipv6_value(s)->0;
    lemma_ipv6_classified(s);
    if v > 0 {
        crate::laws_v6::lemma_ipv6_text_round_trip((v - 1) as u128);
    }
    if v < u128::MAX {
        crate::laws_v6::lemma_ipv6_text_round_trip((v + 1) as u128);
    }
}

/// Translating the integer value of an IPv6 address above the IPv4 range
/// back gives the address in the same canonical text.
pub proof fn law_ipv6_number_round_trip(s: Seq<char>)
    requires
        ipv6_value(s) is Some,
        ipv6_value(s)->0 > u32::MAX,
    ensures
        translation(s) is Some,
        translation(translation(s)->0.int_value) is Some,
        translation(translation(s)->0.int_value)->0.com_address == translation(s)->0.com_address,
{
    lemma_ipv6_classified(s);
    lemma_number_classified(ipv6_value(s)->0);
}

/// The text of a range of two IPv4 addresses, `a-b`.
pub open spec fn ipv4_range_text(a: u32, b: u32) -> Seq<char> {
    ipv4_text(a) + seq!['-'] + ipv4_text(b)
}

proof fn lemma_range_text_facts(a: u32, b: u32)
    ensures
        ipv4_value(ipv4_text(a)) == Some(a),
        ipv4_value(ipv4_text(b)) == Some(b),
        trimmed(ipv4_text(a)) == ipv4_text(a),
        trimmed(ipv4_text(b)) == ipv4_text(b),
        ipv6_value(ipv4_text(a)) is None,
        ipv6_value(ipv4_text(b)) is None,
        trimmed(ipv4_range_text(a, b)) == ipv4_range_text(a, b),
        split(ipv4_range_text(a, b), '-') == seq![ipv4_text(a), ipv4_text(b)],
        split(ipv4_range_text(a, b), '/') == seq![ipv4_range_text(a, b)],
        ipv6_value(ipv4_range_text(a, b)) is None,
        ipv4_value(ipv4_range_text(a, b)) is None,
        u128_value(ipv4_range_text(a, b)) is None,
{
    let x = ipv4_text(a);
    let y = ipv4_text(b);
    let w = ipv4_range_text(a, b);
    lemma_ipv4_text_round_trip(a);
    lemma_ipv4_text_round_trip(b);
    lemma_ipv4_chars(x);
    lemma_ipv4_chars(y);
    lemma_plain_chars(x);
    lemma_plain_chars(y);
    lemma_trimmed_id(x);
    lemma_trimmed_id(y);
    assert(w[0] == x[0]);
    assert(w[w.len() - 1] == y[y.len() - 1]);
    lemma_trimmed_id(w);
    lemma_split_concat(x, '-', y);
    assert(seq![x] + seq![y] =~= seq![x, y]);
    assert forall|k: int| 0 <= k < w.len() implies w[k] == '-' || w[k] == '.' || is_dec_digit(
        #[trigger] w[k],
    ) by {
        if k < x.len() {
            assert(w[k] == x[k]);
        } else if k > x.len() {
            assert(w[k] == y[k - x.len() - 1]);
        }
    }
    lemma_split_none(w, '/');
    lemma_no_colon_not_ipv6(w);
    assert(w[x.len() as int] == '-');
    if ipv4_value(w) is Some {
        lemma_ipv4_chars(w);
        assert(w[x.len() as int] == '.' || is_dec_digit(w[x.len() as int]));
    }
    assert(w[0] != '+');
    assert(!crate::parse::is_digit_of(w[x.len() as int], 10));
}

/// Ranges of IPv4 addresses: with the lower address first the text is
/// classified and translated as a range; with the higher address first it
/// is of no known kind, and translating it fails.
#[verifier::rlimit(40)]
pub proof fn law_ipv4_range_order(a: u32, b: u32)
    requires
        a < b,
    ensures
        classification(ipv4_range_text(a, b)) == IpTranslationType::Ipv4Range,
        translation(ipv4_range_text(a, b)) is Some,
        translation(ipv4_range_text(a, b))->0.network == ipv4_text(a),
        translation(ipv4_range_text(a, b))->0.broadcast == ipv4_text(b),
        classification(ipv4_range_text(b, a)) == IpTranslationType::UnknownIp,
        translation(ipv4_range_text(b, a)) is None,
{
    lemma_range_text_facts(a, b);
    lemma_range_text_facts(b, a);
    assert(range_kind(ipv4_range_text(b, a)) is None);
    assert(cidr_kind(ipv4_range_text(b, a)) is None);
}

/// The text of a range of two IPv6 addresses, `a-b`.
pub open spec fn ipv6_range_text(a: u128, b: u128) -> Seq<char> {
    crate::format::ipv6_text(a) + seq!['-'] + crate::format::ipv6_text(b)
}

proof fn lemma_ipv6_range_text_facts(a: u128, b: u128)
    ensures
        ipv6_value(crate::format::ipv6_text(a)) == Some(a),
        ipv6_value(crate::format::ipv6_text(b)) == Some(b),
        ipv4_value(crate::format::ipv6_text(a)) is None,
        trimmed(crate::format::ipv6_text(a)) == crate::format::ipv6_text(a),
        trimmed(crate::format::ipv6_text(b)) == crate::format::ipv6_text(b),
        trimmed(ipv6_range_text(a, b)) == ipv6_range_text(a, b),
        split(ipv6_range_text(a, b), '-') == seq![
            crate::format::ipv6_text(a),
            crate::format::ipv6_text(b),
        ],
        split(ipv6_range_text(a, b), '/') == seq![ipv6_range_text(a, b)],
        ipv6_value(ipv6_range_text(a, b)) is None,
        ipv4_value(ipv6_range_text(a, b)) is None,
        u128_value(ipv6_range_text(a, b)) is None,
{
    let x = crate::format::ipv6_text(a);
    let y = crate::format::ipv6_text(b);
    let w = ipv6_range_text(a, b);
    crate::laws_v6::lemma_ipv6_text_round_trip(a);
    crate::laws_v6::lemma_ipv6_text_round_trip(b);
    lemma_ipv6_classified(x);
    lemma_ipv6_chars(x);
    lemma_ipv6_chars(y);
    let j = choose|j: int| 0 <= j < x.len() && x[j] == ':';
    if ipv4_value(x) is Some {
        lemma_ipv4_chars(x);
        assert(x[j] == '.' || is_dec_digit(x[j]));
    }
    assert(x[0] == ':' || ipv6_char(x[0]));
    assert(x[x.len() - 1] == ':' || ipv6_char(x[x.len() - 1]));
    assert(y[0] == ':' || ipv6_char(y[0]));
    assert(y[y.len() - 1] == ':' || ipv6_char(y[y.len() - 1]));
    lemma_trimmed_id(x);
    lemma_trimmed_id(y);
    assert(w[0] == x[0]);
    assert(w[w.len() - 1] == y[y.len() - 1]);
    lemma_trimmed_id(w);
    assert forall|k: int| 0 <= k < x.len() implies x[k] != '-' by {
        assert(x[k] == ':' || ipv6_char(x[k]));
    }
    assert forall|k: int| 0 <= k < y.len() implies y[k] != '-' by {
        assert(y[k] == ':' || ipv6_char(y[k]));
    }
    lemma_split_none(x, '-');
    lemma_split_none(y, '-');
    lemma_split_concat(x, '-', y);
    assert(seq![x] + seq![y] =~= seq![x, y]);
    assert forall|k: int| 0 <= k < w.len() implies w[k] != '/' by {
        if k < x.len() {
            assert(w[k] == x[k]);
            assert(x[k] == ':' || ipv6_char(x[k]));
        } else if k > x.len() {
            assert(w[k] == y[k - x.len() - 1]);
            assert(y[k - x.len() - 1] == ':' || ipv6_char(y[k - x.len() - 1]));
        }
    }
    lemma_split_none(w, '/');
    let m = x.len() as int;
    assert(w[m] == '-');
    if ipv6_value(w) is Some {
        lemma_ipv6_chars(w);
        assert(w[m] == ':' || ipv6_char(w[m]));
    }
    if ipv4_value(w) is Some {
        lemma_ipv4_chars(w);
        assert(w[m] == '.' || is_dec_digit(w[m]));
    }
    assert(!crate::parse::is_digit_of(w[m], 10));
    if w[0] == '+' {
        assert(ipv6_char(x[0]) || x[0] == ':');
    }
}

/// Ranges of IPv6 addresses: with the lower address first the text is
/// classified and translated as a range; with the higher address first it
/// is of no known kind, and translating it fails.
#[verifier::rlimit(40)]
pub proof fn law_ipv6_range_order(a: u128, b: u128)
    requires
        a < b,
    ensures
        classification(ipv6_range_text(a, b)) == IpTranslationType::Ipv6Range,
        translation(ipv6_range_text(a, b)) is Some,
        classification(ipv6_range_text(b, a)) == IpTranslationType::UnknownIp,
        translation(ipv6_range_text(b, a)) is None,
{
    lemma_ipv6_range_text_facts(a, b);
    lemma_ipv6_range_text_facts(b, a);
    assert(range_kind(ipv6_range_text(b, a)) is None);
    assert(cidr_kind(ipv6_range_text(b, a)) is None);
}

} // verus!
