//! Writing addresses as text: dotted decimal, canonical and expanded IPv6,
//! and binary layouts.

use vstd::prelude::*;
use crate::digits::{
    bin_text, dec_text, fixed_digits, hex_fixed_text, hex_text, push_char, push_fixed_digits,
    push_min_digits,
};

verus! {

/// The four octets of an IPv4 address, most significant first.
pub open spec fn octets(v: u32) -> Seq<int> {
    fixed_digits(v as nat, 256, 4)
}

/// The eight 16-bit groups of an IPv6 address, most significant first.
pub open spec fn segments(v: u128) -> Seq<int> {
    fixed_digits(v as nat, 65536, 8)
}

/// Dotted-decimal form of an IPv4 address.
pub open spec fn ipv4_text(v: u32) -> Seq<char> {
    let o = octets(v);
    dec_text(o[0] as nat) + seq!['.'] + dec_text(o[1] as nat) + seq!['.'] + dec_text(o[2] as nat)
        + seq!['.'] + dec_text(o[3] as nat)
}

/// An IPv4 address as four groups of eight bits joined by `.`.
pub open spec fn ipv4_binary(v: u32) -> Seq<char> {
    let o = octets(v);
    bin_text(o[0] as nat, 8) + seq!['.'] + bin_text(o[1] as nat, 8) + seq!['.'] + bin_text(
        o[2] as nat,
        8,
    ) + seq!['.'] + bin_text(o[3] as nat, 8)
}

/// Each group as four hexadecimal digits, joined by `:`.
pub open spec fn ipv6_expanded(v: u128) -> Seq<char> {
    let g = segments(v);
    hex_fixed_text(g[0] as nat, 4) + seq![':'] + hex_fixed_text(g[1] as nat, 4) + seq![':']
        + hex_fixed_text(g[2] as nat, 4) + seq![':'] + hex_fixed_text(g[3] as nat, 4) + seq![':']
        + hex_fixed_text(g[4] as nat, 4) + seq![':'] + hex_fixed_text(g[5] as nat, 4) + seq![':']
        + hex_fixed_text(g[6] as nat, 4) + seq![':'] + hex_fixed_text(g[7] as nat, 4)
}

/// Each group as sixteen bits; the first four groups and the last four are
/// joined by `:`, and the two halves by a line break.
pub open spec fn ipv6_binary(v: u128) -> Seq<char> {
    let g = segments(v);
    bin_text(g[0] as nat, 16) + seq![':'] + bin_text(g[1] as nat, 16) + seq![':'] + bin_text(
        g[2] as nat,
        16,
    ) + seq![':'] + bin_text(g[3] as nat, 16) + seq!['\n'] + bin_text(g[4] as nat, 16) + seq![':']
        + bin_text(g[5] as nat, 16) + seq![':'] + bin_text(g[6] as nat, 16) + seq![':'] + bin_text(
        g[7] as nat,
        16,
    )
}

/// Groups in short hexadecimal, joined by `:`.
pub open spec fn join_hex(g: Seq<int>) -> Seq<char>
    decreases g.len(),
{
    if g.len() == 0 {
        seq![]
    } else if g.len() == 1 {
        hex_text(g[0] as nat)
    } else {
        join_hex(g.drop_last()) + seq![':'] + hex_text(g.last() as nat)
    }
}

/// How many zero groups follow one another from position `i` on.
pub open spec fn zero_run(g: Seq<int>, i: int) -> int
    decreases g.len() - i,
{
    if i < 0 || i >= g.len() || g[i] != 0 {
        0
    } else {
        1 + zero_run(g, i + 1)
    }
}

/// Start and length of the longest run of zero groups from position `i` on,
/// the earliest among equally long ones; length 0 when there is none.
pub open spec fn longest_zero_run(g: Seq<int>, i: int) -> (int, int)
    decreases g.len() - i,
{
    if i < 0 || i >= g.len() {
        (0, 0)
    } else {
        let rest = longest_zero_run(g, i + 1);
        if zero_run(g, i) > 0 && zero_run(g, i) >= rest.1 {
            (i, zero_run(g, i))
        } else {
            rest
        }
    }
}

/// Whether an IPv6 address is an IPv4-mapped one (`::ffff:a.b.c.d`).
pub open spec fn is_v4_mapped(g: Seq<int>) -> bool {
    g[0] == 0 && g[1] == 0 && g[2] == 0 && g[3] == 0 && g[4] == 0 && g[5] == 0xffff
}

/// Canonical text of an IPv6 address: an IPv4-mapped address as
/// `::ffff:a.b.c.d`; otherwise groups in short hexadecimal with the earliest
/// longest run of two or more zero groups written as `::`.
pub open spec fn ipv6_text(v: u128) -> Seq<char> {
    let g = segments(v);
    if is_v4_mapped(g) {
        seq![':', ':', 'f', 'f', 'f', 'f', ':'] + ipv4_text((v % 0x1_0000_0000) as u32)
    } else {
        let run = longest_zero_run(g, 0);
        if run.1 > 1 {
            join_hex(g.take(run.0)) + seq![':', ':'] + join_hex(g.skip(run.0 + run.1))
        } else {
            join_hex(g)
        }
    }
}

pub open spec fn nums(s: Seq<u128>) -> Seq<int> {
    s.map_values(|x: u128| x as int)
}

/// The lowest `w` digits of `v` in base `b`.
fn fixed_digit_vec(v: u128, b: u128, w: u32) -> (r: Vec<u128>)
    requires
        2 <= b,
    ensures
        nums(r@) == fixed_digits(v as nat, b as nat, w as nat),
        r@.len() == w,
        forall|i: int| 0 <= i < w ==> r@[i] < b,
    decreases w,
{
    if w == 0 {
        assert(nums(Seq::<u128>::empty()) =~= fixed_digits(v as nat, b as nat, 0));
        return Vec::new();
    }
    let mut r = fixed_digit_vec(v / b, b, w - 1);
    let ghost before = r@;
    r.push(v % b);
    assert(nums(r@) =~= nums(before).push((v % b) as int));
    r
}

fn push_str_lit(out: &mut String, t: &str)
    ensures
        final(out)@ == old(out)@ + t@,
{
    out.append(t);
}

/// Appends the dotted-decimal form of `v`.
pub fn push_ipv4(out: &mut String, v: u32)
    ensures
        final(out)@ == old(out)@ + ipv4_text(v),
{
    let o = fixed_digit_vec(v as u128, 256, 4);
    let ghost start = out@;
    push_min_digits(out, o[0], 10);
    push_char(out, '.');
    push_min_digits(out, o[1], 10);
    push_char(out, '.');
    push_min_digits(out, o[2], 10);
    push_char(out, '.');
    push_min_digits(out, o[3], 10);
    assert(final(out)@ =~= start + ipv4_text(v));
}

pub fn ipv4_to_string(v: u32) -> (r: String)
    ensures
        r@ == ipv4_text(v),
{
    let mut s = String::new();
    push_ipv4(&mut s, v);
    assert(s@ =~= ipv4_text(v));
    s
}

/// Appends `v` as four groups of eight bits.
pub fn push_ipv4_binary(out: &mut String, v: u32)
    ensures
        final(out)@ == old(out)@ + ipv4_binary(v),
{
    let o = fixed_digit_vec(v as u128, 256, 4);
    let ghost start = out@;
    push_fixed_digits(out, o[0], 2, 8);
    push_char(out, '.');
    push_fixed_digits(out, o[1], 2, 8);
    push_char(out, '.');
    push_fixed_digits(out, o[2], 2, 8);
    push_char(out, '.');
    push_fixed_digits(out, o[3], 2, 8);
    assert(final(out)@ =~= start + ipv4_binary(v));
}

pub fn ipv4_binary_string(v: u32) -> (r: String)
    ensures
        r@ == ipv4_binary(v),
{
    let mut s = String::new();
    push_ipv4_binary(&mut s, v);
    assert(s@ =~= ipv4_binary(v));
    s
}

pub fn ipv6_expanded_string(v: u128) -> (r: String)
    ensures
        r@ == ipv6_expanded(v),
{
    let g = fixed_digit_vec(v, 65536, 8);
    let mut s = String::new();
    let mut i: usize = 0;
    while i < 8
        invariant
            i <= 8,
            g@.len() == 8,
            nums(g@) == segments(v),
            i > 0 ==> s@ == expanded_prefix(v, i as int),
            i == 0 ==> s@.len() == 0,
        decreases 8 - i,
    {
        if i > 0 {
            push_char(&mut s, ':');
        }
        push_fixed_digits(&mut s, g[i], 16, 4);
        proof {
            assert(nums(g@)[i as int] == g@[i as int] as int);
            if i == 0 {
                assert(s@ =~= expanded_prefix(v, 1));
            }
        }
        i += 1;
    }
    assert(expanded_prefix(v, 8) == ipv6_expanded(v)) by {
        reveal_with_fuel(expanded_prefix, 8);
    }
    s
}

spec fn expanded_prefix(v: u128, n: int) -> Seq<char>
    decreases n,
{
    if n <= 1 {
        hex_fixed_text(segments(v)[0] as nat, 4)
    } else {
        expanded_prefix(v, n - 1) + seq![':'] + hex_fixed_text(segments(v)[n - 1] as nat, 4)
    }
}

pub fn ipv6_binary_string(v: u128) -> (r: String)
    ensures
        r@ == ipv6_binary(v),
{
    let g = fixed_digit_vec(v, 65536, 8);
    let mut s = String::new();
    let mut i: usize = 0;
    while i < 8
        invariant
            i <= 8,
            g@.len() == 8,
            nums(g@) == segments(v),
            i > 0 ==> s@ == binary_prefix(v, i as int),
            i == 0 ==> s@.len() == 0,
        decreases 8 - i,
    {
        if i == 4 {
            push_char(&mut s, '\n');
        } else if i > 0 {
            push_char(&mut s, ':');
        }
        push_fixed_digits(&mut s, g[i], 2, 16);
        proof {
            assert(nums(g@)[i as int] == g@[i as int] as int);
            if i == 0 {
                assert(s@ =~= binary_prefix(v, 1));
            }
        }
        i += 1;
    }
    assert(binary_prefix(v, 8) == ipv6_binary(v)) by {
        reveal_with_fuel(binary_prefix, 8);
    }
    s
}

spec fn binary_prefix(v: u128, n: int) -> Seq<char>
    decreases n,
{
    if n <= 1 {
        bin_text(segments(v)[0] as nat, 16)
    } else {
        binary_prefix(v, n - 1) + seq![if n == 5 { '\n' } else { ':' }] + bin_text(
            segments(v)[n - 1] as nat,
            16,
        )
    }
}

/// Appends groups `lo..hi` of `g` in short hexadecimal, joined by `:`.
fn push_join_hex(out: &mut String, g: &Vec<u128>, lo: usize, hi: usize)
    requires
        lo <= hi <= g@.len(),
    ensures
        final(out)@ == old(out)@ + join_hex(nums(g@).subrange(lo as int, hi as int)),
{
    let ghost start = out@;
    let mut i: usize = lo;
    assert(join_hex(nums(g@).subrange(lo as int, lo as int)) =~= seq![]);
    assert(out@ =~= start + join_hex(nums(g@).subrange(lo as int, lo as int)));
    while i < hi
        invariant
            lo <= i <= hi <= g@.len(),
            out@ == start + join_hex(nums(g@).subrange(lo as int, i as int)),
        decreases hi - i,
    {
        let ghost sq = nums(g@).subrange(lo as int, i + 1);
        if i > lo {
            push_char(out, ':');
        }
        push_min_digits(out, g[i], 16);
        proof {
            assert(sq.drop_last() =~= nums(g@).subrange(lo as int, i as int));
            assert(sq.last() == g@[i as int] as int);
            if i == lo {
                assert(sq.len() == 1);
                assert(sq[0] == g@[i as int] as int);
            }
        }
        i += 1;
        assert(out@ =~= start + join_hex(nums(g@).subrange(lo as int, i as int)));
    }
}

/// Finds the earliest longest run of zero groups.
fn find_longest_zero_run(g: &Vec<u128>) -> (r: (usize, usize))
    requires
        g@.len() == 8,
    ensures
        r.0 == longest_zero_run(nums(g@), 0).0,
        r.1 == longest_zero_run(nums(g@), 0).1,
        r.0 + r.1 <= 8,
{
    let ghost ng = nums(g@);
    let mut best_start: usize = 0;
    let mut best_len: usize = 0;
    let mut cur: usize = 0;
    let mut i: usize = 8;
    while i > 0
        invariant
            i <= 8,
            g@.len() == 8,
            ng == nums(g@),
            cur == zero_run(ng, i as int),
            cur <= 8 - i,
            best_start == longest_zero_run(ng, i as int).0,
            best_len == longest_zero_run(ng, i as int).1,
            best_start + best_len <= 8,
        decreases i,
    {
        i -= 1;
        assert(ng[i as int] == g@[i as int] as int);
        if g[i] == 0 {
            cur += 1;
        } else {
            cur = 0;
        }
        if cur > 0 && cur >= best_len {
            best_start = i;
            best_len = cur;
        }
    }
    (best_start, best_len)
}

/// Canonical text of an IPv6 address.
pub fn ipv6_to_string(v: u128) -> (r: String)
    ensures
        r@ == ipv6_text(v),
{
    let g = fixed_digit_vec(v, 65536, 8);
    let ghost ng = nums(g@);
    assert(forall|j: int| 0 <= j < 8 ==> ng[j] == g@[j] as int);
    let mut s = String::new();
    if g[0] == 0 && g[1] == 0 && g[2] == 0 && g[3] == 0 && g[4] == 0 && g[5] == 0xffff {
        push_str_lit(&mut s, "::ffff:");
        proof {
            reveal_strlit("::ffff:");
        }
        push_ipv4(&mut s, (v % 0x1_0000_0000) as u32);
        assert(s@ =~= ipv6_text(v));
    } else {
        let (start, len) = find_longest_zero_run(&g);
        if len > 1 {
            push_join_hex(&mut s, &g, 0, start);
            push_char(&mut s, ':');
            push_char(&mut s, ':');
            push_join_hex(&mut s, &g, start + len, 8);
            assert(ng.take(start as int) =~= ng.subrange(0, start as int));
            assert(ng.skip((start + len) as int) =~= ng.subrange((start + len) as int, 8));
            assert(s@ =~= ipv6_text(v));
        } else {
            push_join_hex(&mut s, &g, 0, 8);
            assert(ng =~= ng.subrange(0, 8));
            assert(s@ =~= ipv6_text(v));
        }
    }
    s
}

} // verus!
