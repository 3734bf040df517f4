//! The canonical text of an IPv6 address reads back as the same address.

use vstd::prelude::*;
use crate::digits::{digit_char, fixed_digits, hex_text};
use crate::format::{ipv4_text, ipv6_text, is_v4_mapped, join_hex, segments};
use crate::parse::{all_digits, digit_value, digits_value, is_hex_digit, split};
use crate::parse_v6::{
    all_groups, first_double_colon, group_list, group_values, groups_value, head_list, hex_group,
    ipv6_groups, ipv6_value, tail_list, v4_halves,
};
use crate::format::{longest_zero_run, zero_run};
use crate::laws::{lemma_ipv4_chars, lemma_ipv4_text_round_trip, lemma_split_concat, lemma_split_none};

verus! {

proof fn lemma_hex_char_value(d: int)
    requires
        0 <= d < 16,
    ensures
        is_hex_digit(digit_char(d)),
        digit_value(digit_char(d)) == d,
{
}

/// The short hexadecimal spelling of a 16-bit group reads back as the group.
proof fn lemma_hex_text_value(v: nat)
    ensures
        all_digits(hex_text(v), 16),
        digits_value(hex_text(v), 16) == v,
        hex_text(v).len() >= 1,
        v < 16 ==> hex_text(v).len() == 1,
        v < 256 ==> hex_text(v).len() <= 2,
        v < 4096 ==> hex_text(v).len() <= 3,
        v < 65536 ==> hex_text(v).len() <= 4,
    decreases v,
{
    if v < 16 {
        lemma_hex_char_value(v as int);
        assert(hex_text(v) =~= seq![digit_char(v as int)]);
        assert(hex_text(v).drop_last() =~= seq![]);
        assert(digits_value(hex_text(v).drop_last(), 16) == 0);
    } else {
        vstd::arithmetic::div_mod::lemma_div_decreases(v as int, 16);
        lemma_hex_text_value(v / 16);
        let t = hex_text(v / 16);
        let d = (v % 16) as int;
        lemma_hex_char_value(d);
        assert(hex_text(v) =~= t.push(digit_char(d)));
        assert(hex_text(v).drop_last() =~= t);
        vstd::arithmetic::div_mod::lemma_fundamental_div_mod(v as int, 16);
        assert(digits_value(hex_text(v), 16) == digits_value(t, 16) * 16 + d);
        assert forall|i: int| 0 <= i < hex_text(v).len() implies crate::parse::is_digit_of(
            #[trigger] hex_text(v)[i],
            16,
        ) by {
            if i < t.len() {
                assert(hex_text(v)[i] == t[i]);
            }
        }
    }
}

proof fn lemma_hex_group_round_trip(x: int)
    requires
        0 <= x < 65536,
    ensures
        hex_group(hex_text(x as nat)) == Some(x),
        forall|k: int| 0 <= k < hex_text(x as nat).len() ==> is_hex_digit(#[trigger] hex_text(x as nat)[k]),
{
    lemma_hex_text_value(x as nat);
    assert forall|k: int| 0 <= k < hex_text(x as nat).len() implies is_hex_digit(
        #[trigger] hex_text(x as nat)[k],
    ) by {
        assert(crate::parse::is_digit_of(hex_text(x as nat)[k], 16));
    }
}

/// The eight groups of `w` put back together give `w`.
pub proof fn lemma_segments_value(w: u128)
    ensures
        segments(w).len() == 8,
        forall|i: int| 0 <= i < 8 ==> 0 <= #[trigger] segments(w)[i] < 65536,
        groups_value(segments(w)) == w,
{
    let v0 = w as int;
    let v1 = v0 / 65536;
    let v2 = v1 / 65536;
    let v3 = v2 / 65536;
    let v4 = v3 / 65536;
    let v5 = v4 / 65536;
    let v6 = v5 / 65536;
    let v7 = v6 / 65536;
    reveal_with_fuel(fixed_digits, 9);
    assert(segments(w) =~= seq![
        v7 % 65536,
        v6 % 65536,
        v5 % 65536,
        v4 % 65536,
        v3 % 65536,
        v2 % 65536,
        v1 % 65536,
        v0 % 65536,
    ]);
    vstd::arithmetic::div_mod::lemma_fundamental_div_mod(v0, 65536);
    vstd::arithmetic::div_mod::lemma_fundamental_div_mod(v1, 65536);
    vstd::arithmetic::div_mod::lemma_fundamental_div_mod(v2, 65536);
    vstd::arithmetic::div_mod::lemma_fundamental_div_mod(v3, 65536);
    vstd::arithmetic::div_mod::lemma_fundamental_div_mod(v4, 65536);
    vstd::arithmetic::div_mod::lemma_fundamental_div_mod(v5, 65536);
    vstd::arithmetic::div_mod::lemma_fundamental_div_mod(v6, 65536);
    vstd::arithmetic::div_mod::lemma_fundamental_div_mod(v7, 65536);
    vstd::arithmetic::div_mod::lemma_mod_bound(v0, 65536);
    vstd::arithmetic::div_mod::lemma_mod_bound(v1, 65536);
    vstd::arithmetic::div_mod::lemma_mod_bound(v2, 65536);
    vstd::arithmetic::div_mod::lemma_mod_bound(v3, 65536);
    vstd::arithmetic::div_mod::lemma_mod_bound(v4, 65536);
    vstd::arithmetic::div_mod::lemma_mod_bound(v5, 65536);
    vstd::arithmetic::div_mod::lemma_mod_bound(v6, 65536);
    vstd::arithmetic::div_mod::lemma_mod_bound(v7, 65536);
    assert(v7 < 65536);
    vstd::arithmetic::div_mod::lemma_small_mod(v7 as nat, 65536);
}

/// No two colons stand next to each other in `s`.
pub open spec fn no_double_colon(s: Seq<char>) -> bool {
    forall|i: int| 0 <= i < s.len() - 1 ==> !(s[i] == ':' && #[trigger] s[i + 1] == ':')
}

pub open spec fn hex_parts(g: Seq<int>) -> Seq<Seq<char>> {
    g.map_values(|x: int| hex_text(x as nat))
}

pub open spec fn valid_groups(g: Seq<int>) -> bool {
    forall|i: int| 0 <= i < g.len() ==> 0 <= #[trigger] g[i] < 65536
}

/// What joining groups in short hexadecimal gives: its parts are the groups,
/// it starts and ends with a digit and holds no `::`.
proof fn lemma_join_hex(g: Seq<int>)
    requires
        g.len() >= 1,
        valid_groups(g),
    ensures
        split(join_hex(g), ':') == hex_parts(g),
        join_hex(g).len() > 0,
        is_hex_digit(join_hex(g)[0]),
        is_hex_digit(join_hex(g).last()),
        forall|k: int| 0 <= k < join_hex(g).len() ==> join_hex(g)[k] == ':' || is_hex_digit(
            #[trigger] join_hex(g)[k],
        ),
        no_double_colon(join_hex(g)),
    decreases g.len(),
{
    let h = hex_text(g.last() as nat);
    lemma_hex_group_round_trip(g.last());
    lemma_hex_text_value(g.last() as nat);
    assert forall|k: int| 0 <= k < h.len() implies h[k] != ':' by {
        assert(is_hex_digit(h[k]));
    }
    lemma_split_none(h, ':');
    if g.len() == 1 {
        assert(hex_parts(g) =~= seq![h]);
        assert(join_hex(g) == h);
    } else {
        let d = g.drop_last();
        assert(valid_groups(d)) by {
            assert forall|i: int| 0 <= i < d.len() implies 0 <= #[trigger] d[i] < 65536 by {
                assert(d[i] == g[i]);
            }
        }
        lemma_join_hex(d);
        let a = join_hex(d);
        let s = join_hex(g);
        assert(s == a + seq![':'] + h);
        lemma_split_concat(a, ':', h);
        assert(hex_parts(g) =~= hex_parts(d) + seq![h]);
        assert(s[0] == a[0]);
        assert(s.last() == h.last());
        assert forall|k: int| 0 <= k < s.len() implies s[k] == ':' || is_hex_digit(
            #[trigger] s[k],
        ) by {
            if k < a.len() {
                assert(s[k] == a[k]);
            } else if k > a.len() {
                assert(s[k] == h[k - a.len() - 1]);
            }
        }
        assert forall|i: int| 0 <= i < s.len() - 1 implies !(s[i] == ':' && #[trigger] s[i + 1]
            == ':') by {
            if i < a.len() - 1 {
                assert(s[i] == a[i] && s[i + 1] == a[i + 1]);
            } else if i == a.len() - 1 {
                assert(s[i] == a.last());
            } else if i == a.len() {
                assert(s[i + 1] == h[0]);
            } else {
                assert(s[i + 1] == h[i + 1 - a.len() - 1]);
            }
        }
    }
}

/// Hexadecimal parts of groups read back as the groups.
proof fn lemma_hex_parts_groups(g: Seq<int>)
    requires
        valid_groups(g),
    ensures
        all_groups(hex_parts(g)),
        group_values(hex_parts(g)) == g,
{
    assert forall|i: int| 0 <= i < hex_parts(g).len() implies (#[trigger] hex_group(
        hex_parts(g)[i],
    )) is Some by {
        lemma_hex_group_round_trip(g[i]);
    }
    assert forall|i: int| 0 <= i < g.len() implies #[trigger] group_values(hex_parts(g))[i]
        == g[i] by {
        lemma_hex_group_round_trip(g[i]);
    }
    assert(group_values(hex_parts(g)) =~= g);
}

/// Without `::` in `s`, there is none from any position on.
proof fn lemma_first_double_colon_none(s: Seq<char>, i: int)
    requires
        no_double_colon(s),
        0 <= i,
    ensures
        first_double_colon(s, i) < 0,
    decreases s.len() - i,
{
    if i + 1 < s.len() {
        assert(!(s[i] == ':' && s[i + 1] == ':'));
        lemma_first_double_colon_none(s, i + 1);
    }
}

/// The first `::` in `a + "::" + b` is the one after `a` when `a` holds
/// none and does not end in a colon.
proof fn lemma_first_double_colon_at(a: Seq<char>, b: Seq<char>, i: int)
    requires
        no_double_colon(a),
        a.len() > 0 ==> a.last() != ':',
        0 <= i <= a.len(),
    ensures
        first_double_colon(a + seq![':', ':'] + b, i) == a.len(),
    decreases a.len() - i,
{
    let s = a + seq![':', ':'] + b;
    if i < a.len() {
        if i < a.len() - 1 {
            assert(s[i] == a[i] && s[i + 1] == a[i + 1]);
            assert(!(a[i] == ':' && a[i + 1] == ':'));
        } else {
            assert(s[i] == a.last());
        }
        lemma_first_double_colon_at(a, b, i + 1);
    } else {
        assert(s[i] == ':' && s[i + 1] == ':');
    }
}

/// A run of zero groups lies within the sequence and holds only zeros.
proof fn lemma_zero_run(g: Seq<int>, i: int)
    requires
        0 <= i,
    ensures
        zero_run(g, i) >= 0,
        zero_run(g, i) > 0 ==> i + zero_run(g, i) <= g.len(),
        forall|j: int| i <= j < i + zero_run(g, i) ==> g[j] == 0,
    decreases g.len() - i,
{
    if i < g.len() && g[i] == 0 {
        lemma_zero_run(g, i + 1);
    }
}

/// The longest run is a run of zeros within the sequence.
proof fn lemma_longest_zero_run(g: Seq<int>, i: int)
    requires
        0 <= i,
    ensures
        longest_zero_run(g, i).1 >= 0,
        longest_zero_run(g, i).1 > 0 ==> 0 <= longest_zero_run(g, i).0 && longest_zero_run(g, i).0
            + longest_zero_run(g, i).1 <= g.len(),
        forall|j: int|
            longest_zero_run(g, i).0 <= j < longest_zero_run(g, i).0 + longest_zero_run(g, i).1
                ==> g[j] == 0,
    decreases g.len() - i,
{
    if i < g.len() {
        lemma_longest_zero_run(g, i + 1);
        lemma_zero_run(g, i);
    }
}

proof fn lemma_join_groups(g: Seq<int>)
    requires
        valid_groups(g),
    ensures
        g.len() == 0 ==> join_hex(g).len() == 0,
        g.len() > 0 ==> join_hex(g).len() > 0 && join_hex(g).last() != ':',
        no_double_colon(join_hex(g)),
        head_list(join_hex(g)) == Some(g),
        tail_list(join_hex(g)) == Some(g),
{
    if g.len() > 0 {
        lemma_join_hex(g);
        lemma_hex_parts_groups(g);
    }
}

/// The canonical text of an IPv4-mapped address reads back as the address.
proof fn lemma_mapped_round_trip(w: u128)
    requires
        is_v4_mapped(segments(w)),
    ensures
        ipv6_groups(ipv6_text(w)) == Some(segments(w)),
{
    let g = segments(w);
    lemma_segments_value(w);
    let x = (w % 0x1_0000_0000) as u32;
    vstd::arithmetic::div_mod::lemma_fundamental_div_mod_converse(
        w as int,
        0x1_0000_0000,
        0xffff,
        g[6] * 65536 + g[7],
    );
    vstd::arithmetic::div_mod::lemma_fundamental_div_mod_converse(x as int, 65536, g[6], g[7]);
    let i = ipv4_text(x);
    let f = seq!['f', 'f', 'f', 'f'];
    let t = ipv6_text(w);
    assert(t == seq![':', ':', 'f', 'f', 'f', 'f', ':'] + i);
    assert(first_double_colon(t, 0) == 0);
    assert(t.take(0) =~= seq![]);
    let tail = t.skip(2);
    assert(tail =~= f + seq![':'] + i);
    lemma_ipv4_text_round_trip(x);
    lemma_ipv4_chars(i);
    assert forall|k: int| 0 <= k < i.len() implies i[k] != ':' by {
        assert(i[k] == '.' || crate::parse::is_dec_digit(i[k]));
    }
    assert forall|k: int| 0 <= k < f.len() implies f[k] != ':' by {}
    lemma_split_none(i, ':');
    lemma_split_none(f, ':');
    lemma_split_concat(f, ':', i);
    let ps = split(tail, ':');
    assert(ps =~= seq![f, i]);
    let o0 = crate::format::octets(x)[0];
    assert(i[crate::digits::dec_text(o0 as nat).len() as int] == '.');
    assert(hex_group(i) is None) by {
        if hex_group(i) is Some {
            assert(crate::parse::is_digit_of(i[crate::digits::dec_text(o0 as nat).len() as int], 16));
        }
    }
    assert(!all_groups(ps)) by {
        assert(hex_group(ps[1]) is None);
    }
    assert(ps.drop_last() =~= seq![f]);
    assert(hex_group(f) == Some(65535int)) by {
        reveal_with_fuel(digits_value, 5);
        assert(f.drop_last().drop_last().drop_last().drop_last() =~= seq![]);
    }
    assert(group_values(seq![f]) =~= seq![65535int]);
    assert(ps.last() == i);
    assert(group_list(tail) == Some(seq![65535int] + v4_halves(x)));
    assert(seq![] + Seq::new(5, |k: int| 0int) + (seq![65535int] + v4_halves(x)) =~= g);
}

/// The canonical text of an address that is not IPv4-mapped reads back as it.
proof fn lemma_plain_round_trip(w: u128)
    requires
        !is_v4_mapped(segments(w)),
    ensures
        ipv6_groups(ipv6_text(w)) == Some(segments(w)),
{
    let g = segments(w);
    lemma_segments_value(w);
    assert(valid_groups(g));
    let run = longest_zero_run(g, 0);
    lemma_longest_zero_run(g, 0);
    let t = ipv6_text(w);
    if run.1 > 1 {
        let st = run.0;
        let l = run.1;
        let hg = g.take(st);
        let tg = g.skip(st + l);
        assert(valid_groups(hg));
        assert(valid_groups(tg));
        lemma_join_groups(hg);
        lemma_join_groups(tg);
        let a = join_hex(hg);
        let b = join_hex(tg);
        assert(t == a + seq![':', ':'] + b);
        lemma_first_double_colon_at(a, b, 0);
        assert(t.take(a.len() as int) =~= a);
        assert(t.skip(a.len() as int + 2) =~= b);
        assert(hg + Seq::new((8 - hg.len() - tg.len()) as nat, |k: int| 0int) + tg =~= g);
    } else {
        lemma_join_hex(g);
        lemma_hex_parts_groups(g);
        lemma_first_double_colon_none(t, 0);
        assert(t == join_hex(g));
    }
}

/// The canonical text of an IPv6 address reads back as the same address.
pub proof fn lemma_ipv6_text_round_trip(w: u128)
    ensures
        ipv6_value(ipv6_text(w)) == Some(w),
{
    lemma_segments_value(w);
    if is_v4_mapped(segments(w)) {
        lemma_mapped_round_trip(w);
    } else {
        lemma_plain_round_trip(w);
    }
}

} // verus!
