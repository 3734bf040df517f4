//! Reading textual IPv6 addresses.

use vstd::prelude::*;
use crate::parse::{
    all_digits, copy_range, digit_value, digits_value, digits_value_exec, ipv4_value,
    is_digit_of, lemma_split_len, parse_ipv4, split, split_chars, views,
};

verus! {

/// One group of an IPv6 address: one to four hexadecimal digits.
pub open spec fn hex_group(t: Seq<char>) -> Option<int> {
    if 1 <= t.len() <= 4 && all_digits(t, 16) {
        Some(digits_value(t, 16))
    } else {
        None
    }
}

pub open spec fn all_groups(ps: Seq<Seq<char>>) -> bool {
    forall|i: int| 0 <= i < ps.len() ==> (#[trigger] hex_group(ps[i])) is Some
}

pub open spec fn group_values(ps: Seq<Seq<char>>) -> Seq<int> {
    ps.map_values(|t: Seq<char>| hex_group(t)->0)
}

/// The two 16-bit groups that an embedded IPv4 address stands for.
pub open spec fn v4_halves(v: u32) -> Seq<int> {
    seq![v as int / 65536, v as int % 65536]
}

/// Colon-separated groups; the last part may be an embedded IPv4 address.
pub open spec fn group_list(t: Seq<char>) -> Option<Seq<int>> {
    let ps = split(t, ':');
    if all_groups(ps) {
        Some(group_values(ps))
    } else if all_groups(ps.drop_last()) && ipv4_value(ps.last()) is Some {
        Some(group_values(ps.drop_last()) + v4_halves(ipv4_value(ps.last())->0))
    } else {
        None
    }
}

/// The groups before `::`: none at all, or colon-separated groups.
pub open spec fn head_list(t: Seq<char>) -> Option<Seq<int>> {
    if t.len() == 0 {
        Some(seq![])
    } else if all_groups(split(t, ':')) {
        Some(group_values(split(t, ':')))
    } else {
        None
    }
}

/// The groups after `::`: none at all, or a group list.
pub open spec fn tail_list(t: Seq<char>) -> Option<Seq<int>> {
    if t.len() == 0 {
        Some(seq![])
    } else {
        group_list(t)
    }
}

/// The first position, from `i` on, where `::` starts; -1 when there is none.
pub open spec fn first_double_colon(s: Seq<char>, i: int) -> int
    decreases s.len() - i,
{
    if i < 0 || i + 1 >= s.len() {
        -1
    } else if s[i] == ':' && s[i + 1] == ':' {
        i
    } else {
        first_double_colon(s, i + 1)
    }
}

/// The eight 16-bit groups of a textual IPv6 address.
pub open spec fn ipv6_groups(s: Seq<char>) -> Option<Seq<int>> {
    let k = first_double_colon(s, 0);
    if k < 0 {
        match group_list(s) {
            Some(g) => if g.len() == 8 {
                Some(g)
            } else {
                None
            },
            None => None,
        }
    } else {
        match (head_list(s.take(k)), tail_list(s.skip(k + 2))) {
            (Some(h), Some(t)) => if h.len() + t.len() <= 7 {
                Some(h + Seq::new((8 - h.len() - t.len()) as nat, |i: int| 0int) + t)
            } else {
                None
            },
            _ => None,
        }
    }
}

/// The 128-bit number whose 16-bit groups, most significant first, are `g`.
pub open spec fn groups_value(g: Seq<int>) -> int {
    ((((((g[0] * 65536 + g[1]) * 65536 + g[2]) * 65536 + g[3]) * 65536 + g[4]) * 65536 + g[5])
        * 65536 + g[6]) * 65536 + g[7]
}

/// The value of a textual IPv6 address.
pub open spec fn ipv6_value(s: Seq<char>) -> Option<u128> {
    match ipv6_groups(s) {
        Some(g) => Some(groups_value(g) as u128),
        None => None,
    }
}

pub open spec fn ints(g: Seq<u16>) -> Seq<int> {
    g.map_values(|x: u16| x as int)
}

proof fn lemma_ints_push(g: Seq<u16>, x: u16)
    ensures
        ints(g.push(x)) == ints(g).push(x as int),
{
    assert(ints(g.push(x)) =~= ints(g).push(x as int));
}

proof fn lemma_digit_range(c: char, b: int)
    requires
        b == 16 || b == 10,
        is_digit_of(c, b),
    ensures
        0 <= digit_value(c) < b,
{
}

/// Digits in base `b` (at most four of them) spell a number below `b^4`.
proof fn lemma_digits_bound(t: Seq<char>, b: int, n: nat)
    requires
        b == 16 || b == 10,
        all_digits(t, b),
        t.len() <= n,
    ensures
        0 <= digits_value(t, b) < vstd::arithmetic::power::pow(b, n),
    decreases t.len(), n,
{
    vstd::arithmetic::power::lemma_pow_positive(b, n);
    if t.len() > 0 {
        let u = t.drop_last();
        assert(all_digits(u, b)) by {
            assert forall|j: int| 0 <= j < u.len() implies is_digit_of(#[trigger] u[j], b) by {
                assert(u[j] == t[j]);
            }
        }
        lemma_digits_bound(u, b, (n - 1) as nat);
        lemma_digit_range(t[t.len() - 1], b);
        let p = digits_value(u, b);
        let d = digit_value(t.last());
        let q = vstd::arithmetic::power::pow(b, (n - 1) as nat);
        vstd::arithmetic::power::lemma_pow_adds(b, (n - 1) as nat, 1);
        vstd::arithmetic::power::lemma_pow1(b);
        assert(0 <= p * b + d < q * b) by (nonlinear_arith)
            requires 0 <= p < q, 0 <= d < b, b >= 10;
    }
}

/// Reads one group of an IPv6 address.
pub fn parse_hex_group(t: &[char]) -> (r: Option<u16>)
    ensures
        r matches Some(v) ==> hex_group(t@) == Some(v as int),
        r is None ==> hex_group(t@) is None,
{
    if t.len() < 1 || t.len() > 4 {
        return None;
    }
    proof {
        reveal_with_fuel(vstd::arithmetic::power::pow, 5);
        assert(vstd::arithmetic::power::pow(16, 4) == 65536);
    }
    match digits_value_exec(t, 16) {
        Some(v) => {
            proof {
                lemma_digits_bound(t@, 16, 4);
            }
            Some(v as u16)
        },
        None => {
            proof {
                if all_digits(t@, 16) {
                    lemma_digits_bound(t@, 16, 4);
                }
            }
            None
        },
    }
}

/// Reads the first `n` parts of `ps` as IPv6 groups.
fn parse_groups(ps: &Vec<Vec<char>>, n: usize) -> (r: Option<Vec<u16>>)
    requires
        n <= ps@.len(),
    ensures
        r matches Some(g) ==> all_groups(views(ps@).take(n as int)) && ints(g@) == group_values(
            views(ps@).take(n as int),
        ),
        r is None ==> !all_groups(views(ps@).take(n as int)),
{
    let mut g: Vec<u16> = Vec::new();
    let mut i: usize = 0;
    assert(ints(g@) =~= group_values(views(ps@).take(0)));
    while i < n
        invariant
            i <= n <= ps@.len(),
            all_groups(views(ps@).take(i as int)),
            ints(g@) == group_values(views(ps@).take(i as int)),
        decreases n - i,
    {
        let ghost vs = views(ps@);
        assert(vs[i as int] == ps@[i as int]@);
        let ghost before = g@;
        match parse_hex_group(ps[i].as_slice()) {
            Some(x) => {
                g.push(x);
                proof {
                    lemma_ints_push(before, x);
                    assert(vs.take(i + 1) =~= vs.take(i as int).push(vs[i as int]));
                    assert(group_values(vs.take(i + 1)) =~= group_values(vs.take(i as int)).push(
                        x as int,
                    ));
                }
            },
            None => {
                assert(!all_groups(vs.take(n as int))) by {
                    assert(vs.take(n as int)[i as int] == vs[i as int]);
                }
                return None;
            },
        }
        i += 1;
        assert(all_groups(vs.take(i as int))) by {
            assert forall|j: int| 0 <= j < i implies (#[trigger] hex_group(
                vs.take(i as int)[j],
            )) is Some by {
                if j < i - 1 {
                    assert(vs.take(i as int)[j] == vs.take(i - 1)[j]);
                }
            }
        }
    }
    Some(g)
}

/// Reads colon-separated groups; with `allow_v4`, the last part may be an
/// embedded IPv4 address.
fn parse_group_list(t: &[char], allow_v4: bool) -> (r: Option<Vec<u16>>)
    ensures
        allow_v4 ==> (r matches Some(g) ==> group_list(t@) == Some(ints(g@))),
        allow_v4 ==> (r is None ==> group_list(t@) is None),
        !allow_v4 ==> (r matches Some(g) ==> all_groups(split(t@, ':')) && ints(g@)
            == group_values(split(t@, ':'))),
        !allow_v4 ==> (r is None ==> !all_groups(split(t@, ':'))),
{
    let ps = split_chars(t, ':');
    let ghost vs = split(t@, ':');
    proof {
        lemma_split_len(t@, ':');
        assert(views(ps@).take(ps@.len() as int) =~= vs);
        assert(views(ps@).take(ps@.len() - 1) =~= vs.drop_last());
    }
    match parse_groups(&ps, ps.len()) {
        Some(g) => {
            return Some(g);
        },
        None => {},
    }
    if !allow_v4 {
        return None;
    }
    let last = ps.len() - 1;
    let mut g = match parse_groups(&ps, last) {
        Some(g) => g,
        None => return None,
    };
    assert(vs.last() == ps@[last as int]@);
    let v = match parse_ipv4(ps[last].as_slice()) {
        Some(v) => v,
        None => return None,
    };
    let ghost before = g@;
    g.push((v / 65536) as u16);
    g.push((v % 65536) as u16);
    assert(ints(g@) =~= group_values(vs.drop_last()) + v4_halves(v));
    Some(g)
}

/// Finds where `::` first stands in `s`.
fn find_double_colon(s: &[char]) -> (r: Option<usize>)
    ensures
        r matches Some(k) ==> first_double_colon(s@, 0) == k && k + 2 <= s@.len(),
        r is None ==> first_double_colon(s@, 0) < 0,
{
    if s.len() < 2 {
        return None;
    }
    let mut i: usize = 0;
    while i < s.len() - 1
        invariant
            s@.len() >= 2,
            first_double_colon(s@, 0) == first_double_colon(s@, i as int),
        decreases s.len() - i,
    {
        if s[i] == ':' && s[i + 1] == ':' {
            return Some(i);
        }
        i += 1;
    }
    None
}

/// Reads a textual IPv6 address, with `::` for a run of zero groups and an
/// optional embedded IPv4 address at the end.
pub fn parse_ipv6(s: &[char]) -> (r: Option<u128>)
    ensures
        r == ipv6_value(s@),
{
    let groups: Vec<u16> = match find_double_colon(s) {
        None => {
            match parse_group_list(s, true) {
                Some(g) => {
                    if g.len() != 8 {
                        return None;
                    }
                    g
                },
                None => return None,
            }
        },
        Some(k) => {
            let n = s.len();
            assert(k + 2 <= n);
            let head = copy_range(s, 0, k);
            let tail = copy_range(s, k + 2, s.len());
            assert(head@ =~= s@.take(k as int));
            assert(tail@ =~= s@.skip(k + 2));
            let h: Vec<u16> = if head.len() == 0 {
                Vec::new()
            } else {
                match parse_group_list(head.as_slice(), false) {
                    Some(g) => g,
                    None => return None,
                }
            };
            let t: Vec<u16> = if tail.len() == 0 {
                Vec::new()
            } else {
                match parse_group_list(tail.as_slice(), true) {
                    Some(g) => g,
                    None => return None,
                }
            };
            if h.len() > 7 || t.len() > 7 || h.len() + t.len() > 7 {
                return None;
            }
            let mut g = h;
            let zeros = 8 - g.len() - t.len();
            let mut j: usize = 0;
            let ghost hv = ints(g@);
            assert(ints(g@) =~= hv + Seq::new(0, |i: int| 0int));
            while j < zeros
                invariant
                    j <= zeros,
                    ints(g@) == hv + Seq::new(j as nat, |i: int| 0int),
                decreases zeros - j,
            {
                let ghost before = g@;
                g.push(0);
                proof {
                    lemma_ints_push(before, 0);
                }
                j += 1;
                assert(ints(g@) =~= hv + Seq::new(j as nat, |i: int| 0int));
            }
            let mut m: usize = 0;
            assert(ints(g@) =~= hv + Seq::new(zeros as nat, |i: int| 0int) + ints(t@).take(0));
            while m < t.len()
                invariant
                    m <= t@.len(),
                    ints(g@) == hv + Seq::new(zeros as nat, |i: int| 0int) + ints(t@).take(
                        m as int,
                    ),
                decreases t.len() - m,
            {
                let ghost before = g@;
                g.push(t[m]);
                proof {
                    lemma_ints_push(before, t@[m as int]);
                    assert(ints(t@).take(m + 1) =~= ints(t@).take(m as int).push(
                        t@[m as int] as int,
                    ));
                }
                m += 1;
                assert(ints(g@) =~= hv + Seq::new(zeros as nat, |i: int| 0int) + ints(t@).take(
                    m as int,
                ));
            }
            assert(ints(t@).take(t@.len() as int) =~= ints(t@));
            g
        },
    };
    let ghost gi = ints(groups@);
    assert(gi == ipv6_groups(s@)->0);
    assert(groups@.len() == 8);
    proof {
        assert(forall|j: int| 0 <= j < 8 ==> gi[j] == groups@[j] as int);
    }
    let value = (((((((groups[0] as u128) * 65536 + groups[1] as u128) * 65536
        + groups[2] as u128) * 65536 + groups[3] as u128) * 65536 + groups[4] as u128) * 65536
        + groups[5] as u128) * 65536 + groups[6] as u128) * 65536 + groups[7] as u128;
    Some(value)
}

} // verus!
