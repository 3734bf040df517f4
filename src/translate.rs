//! The translation record and the function that fills it for each kind of input.

use vstd::prelude::*;
use crate::classify::{classification, classify_chars, trim_chars, trimmed, IpTranslationType};
use crate::digits::{dec_text, hex_text, push_char, push_min_digits};
use crate::format::{
    ipv4_binary, ipv4_binary_string, ipv4_text, ipv4_to_string, ipv6_binary, ipv6_binary_string,
    ipv6_expanded, ipv6_expanded_string, ipv6_text, ipv6_to_string, push_ipv4,
};
use crate::numeric::{
    ipv4_mask, ipv6_mask, signed64, split_u128_to_i64, v4_broadcast, v4_mask, v4_network,
    v6_broadcast, v6_mask, v6_network,
};
use crate::parse::{chars_of, ipv4_value, parse_ipv4, parse_u128, split, split_chars, u128_value, views};
use crate::parse_v6::{ipv6_value, parse_ipv6};

verus! {

/// Every representation derived from one input; a field that does not apply
/// to the input's kind is left empty.
pub struct IpTranslationResult {
    pub field_type: String,
    pub com_address: String,
    pub ex_address: String,
    pub binary_address: String,
    pub subnet: String,
    pub subnet_mask: String,
    pub prev_address: String,
    pub next_address: String,
    pub int_value: String,
    pub high_low_64_bit_signed_number: Option<(i64, i64)>,
    pub to_ipv4: String,
    pub to_ipv6: String,
    pub net_work_address: String,
    pub net_work_address_int_value: String,
    pub net_work_address_binary_address: String,
    pub broadcast_address: String,
    pub broadcast_address_int_value: String,
    pub broadcast_address_binary_address: String,
}

/// The contents of an [`IpTranslationResult`].
pub struct TranslationView {
    pub field_type: Seq<char>,
    pub com_address: Seq<char>,
    pub ex_address: Seq<char>,
    pub binary_address: Seq<char>,
    pub subnet: Seq<char>,
    pub subnet_mask: Seq<char>,
    pub prev_address: Seq<char>,
    pub next_address: Seq<char>,
    pub int_value: Seq<char>,
    pub high_low: Option<(int, int)>,
    pub to_ipv4: Seq<char>,
    pub to_ipv6: Seq<char>,
    pub network: Seq<char>,
    pub network_int: Seq<char>,
    pub network_binary: Seq<char>,
    pub broadcast: Seq<char>,
    pub broadcast_int: Seq<char>,
    pub broadcast_binary: Seq<char>,
}

impl View for IpTranslationResult {
    type V = TranslationView;

    open spec fn view(&self) -> TranslationView {
        TranslationView {
            field_type: self.field_type@,
            com_address: self.com_address@,
            ex_address: self.ex_address@,
            binary_address: self.binary_address@,
            subnet: self.subnet@,
            subnet_mask: self.subnet_mask@,
            prev_address: self.prev_address@,
            next_address: self.next_address@,
            int_value: self.int_value@,
            high_low: match self.high_low_64_bit_signed_number {
                Some(p) => Some((p.0 as int, p.1 as int)),
                None => None,
            },
            to_ipv4: self.to_ipv4@,
            to_ipv6: self.to_ipv6@,
            network: self.net_work_address@,
            network_int: self.net_work_address_int_value@,
            network_binary: self.net_work_address_binary_address@,
            broadcast: self.broadcast_address@,
            broadcast_int: self.broadcast_address_int_value@,
            broadcast_binary: self.broadcast_address_binary_address@,
        }
    }
}

pub open spec fn empty_view() -> TranslationView {
    TranslationView {
        field_type: seq![],
        com_address: seq![],
        ex_address: seq![],
        binary_address: seq![],
        subnet: seq![],
        subnet_mask: seq![],
        prev_address: seq![],
        next_address: seq![],
        int_value: seq![],
        high_low: None,
        to_ipv4: seq![],
        to_ipv6: seq![],
        network: seq![],
        network_int: seq![],
        network_binary: seq![],
        broadcast: seq![],
        broadcast_int: seq![],
        broadcast_binary: seq![],
    }
}

impl Default for IpTranslationResult {
    fn default() -> (r: Self)
        ensures
            r@ == empty_view(),
    {
        IpTranslationResult {
            field_type: String::new(),
            com_address: String::new(),
            ex_address: String::new(),
            binary_address: String::new(),
            subnet: String::new(),
            subnet_mask: String::new(),
            prev_address: String::new(),
            next_address: String::new(),
            int_value: String::new(),
            high_low_64_bit_signed_number: None,
            to_ipv4: String::new(),
            to_ipv6: String::new(),
            net_work_address: String::new(),
            net_work_address_int_value: String::new(),
            net_work_address_binary_address: String::new(),
            broadcast_address: String::new(),
            broadcast_address_int_value: String::new(),
            broadcast_address_binary_address: String::new(),
        }
    }
}

/// The upper and lower 64 bits of `v`, each read as a signed number.
pub open spec fn high_low(v: int) -> Option<(int, int)> {
    Some(
        (
            signed64(v / 0x1_0000_0000_0000_0000),
            signed64(v % 0x1_0000_0000_0000_0000),
        ),
    )
}

/// A single IPv4 address `v`; `mapped` is the text put before it in the IPv6 form.
pub open spec fn v4_single_view(v: u32, label: Seq<char>, mapped: Seq<char>) -> TranslationView {
    TranslationView {
        field_type: label,
        com_address: ipv4_text(v),
        binary_address: ipv4_binary(v),
        prev_address: if v > 0 {
            ipv4_text((v - 1) as u32)
        } else {
            seq![]
        },
        next_address: if v < u32::MAX {
            ipv4_text((v + 1) as u32)
        } else {
            seq![]
        },
        int_value: dec_text(v as nat),
        high_low: high_low(v as int),
        to_ipv4: ipv4_text(v),
        to_ipv6: mapped + ipv4_text(v),
        ..empty_view()
    }
}

/// A single IPv6 address `v`.
pub open spec fn v6_single_view(v: u128, label: Seq<char>) -> TranslationView {
    TranslationView {
        field_type: label,
        com_address: ipv6_text(v),
        ex_address: ipv6_expanded(v),
        binary_address: ipv6_binary(v),
        prev_address: if v > 0 {
            ipv6_text((v - 1) as u128)
        } else {
            seq![]
        },
        next_address: if v < u128::MAX {
            ipv6_text((v + 1) as u128)
        } else {
            seq![]
        },
        int_value: dec_text(v as nat),
        high_low: high_low(v as int),
        to_ipv6: ipv6_text(v),
        ..empty_view()
    }
}

/// IPv4 address `a` with prefix length `p`.
pub open spec fn v4_mask_view(a: u32, p: u32) -> TranslationView {
    TranslationView {
        field_type: "IPv4 + CIDR mask"@,
        com_address: ipv4_text(a),
        binary_address: ipv4_binary(a),
        subnet: ipv4_text(a) + seq!['/'] + dec_text(p as nat),
        subnet_mask: ipv4_text(v4_mask(p)),
        int_value: dec_text(a as nat),
        high_low: high_low(a as int),
        to_ipv4: ipv4_text(a),
        to_ipv6: "0:0:0:0:0:ffff:"@ + ipv4_text(a),
        network: ipv4_text(v4_network(a, p)),
        network_int: dec_text(v4_network(a, p) as nat),
        network_binary: ipv4_binary(v4_network(a, p)),
        broadcast: ipv4_text(v4_broadcast(a, p)),
        broadcast_int: dec_text(v4_broadcast(a, p) as nat),
        broadcast_binary: ipv4_binary(v4_broadcast(a, p)),
        ..empty_view()
    }
}

/// IPv6 address `a` with prefix length `p`; the highest address of the
/// subnet stands in the broadcast fields.
pub open spec fn v6_mask_view(a: u128, p: u128) -> TranslationView {
    TranslationView {
        field_type: "IPv6 + CIDR mask"@,
        com_address: ipv6_text(a),
        ex_address: ipv6_expanded(a),
        binary_address: ipv6_binary(a),
        subnet: ipv6_text(a) + seq!['/'] + dec_text(p as nat),
        subnet_mask: hex_text(v6_mask(p) as nat),
        int_value: dec_text(a as nat),
        high_low: high_low(a as int),
        to_ipv6: ipv6_text(a),
        network: ipv6_text(v6_network(a, p)),
        network_int: dec_text(v6_network(a, p) as nat),
        network_binary: ipv6_binary(v6_network(a, p)),
        broadcast: ipv6_text(v6_broadcast(a, p)),
        broadcast_int: dec_text(v6_broadcast(a, p) as nat),
        broadcast_binary: ipv6_binary(v6_broadcast(a, p)),
        ..empty_view()
    }
}

/// The IPv4 range from `a` to `b`, carried in the network and broadcast fields.
pub open spec fn v4_range_view(a: u32, b: u32) -> TranslationView {
    TranslationView {
        field_type: "IPv4 range"@,
        com_address: ipv4_text(a) + " - "@ + ipv4_text(b),
        binary_address: ipv4_binary(a) + " - "@ + ipv4_binary(b),
        network: ipv4_text(a),
        network_int: dec_text(a as nat),
        network_binary: ipv4_binary(a),
        broadcast: ipv4_text(b),
        broadcast_int: dec_text(b as nat),
        broadcast_binary: ipv4_binary(b),
        ..empty_view()
    }
}

/// The IPv6 range from `a` to `b`, carried in the network and broadcast fields.
pub open spec fn v6_range_view(a: u128, b: u128) -> TranslationView {
    TranslationView {
        field_type: "IPv6 range"@,
        com_address: ipv6_text(a) + " - "@ + ipv6_text(b),
        binary_address: ipv6_binary(a) + " - "@ + ipv6_binary(b),
        network: ipv6_text(a),
        network_int: dec_text(a as nat),
        network_binary: ipv6_binary(a),
        broadcast: ipv6_text(b),
        broadcast_int: dec_text(b as nat),
        broadcast_binary: ipv6_binary(b),
        ..empty_view()
    }
}

pub open spec fn v4_mask_translation(s: Seq<char>) -> Option<TranslationView> {
    let p = split(s, '/');
    if p.len() != 2 {
        None
    } else {
        match (ipv4_value(p[0]), u128_value(p[1])) {
            (Some(a), Some(m)) => if m <= 32 {
                Some(v4_mask_view(a, m as u32))
            } else {
                None
            },
            _ => None,
        }
    }
}

pub open spec fn v6_mask_translation(s: Seq<char>) -> Option<TranslationView> {
    let p = split(s, '/');
    if p.len() != 2 {
        None
    } else {
        match (ipv6_value(p[0]), u128_value(p[1])) {
            (Some(a), Some(m)) => if m <= 128 {
                Some(v6_mask_view(a, m))
            } else {
                None
            },
            _ => None,
        }
    }
}

pub open spec fn v4_range_translation(s: Seq<char>) -> Option<TranslationView> {
    let p = split(s, '-');
    if p.len() != 2 {
        None
    } else {
        match (ipv4_value(trimmed(p[0])), ipv4_value(trimmed(p[1]))) {
            (Some(a), Some(b)) => if a <= b {
                Some(v4_range_view(a, b))
            } else {
                None
            },
            _ => None,
        }
    }
}

pub open spec fn v6_range_translation(s: Seq<char>) -> Option<TranslationView> {
    let p = split(s, '-');
    if p.len() != 2 {
        None
    } else {
        match (ipv6_value(trimmed(p[0])), ipv6_value(trimmed(p[1]))) {
            (Some(a), Some(b)) => if a <= b {
                Some(v6_range_view(a, b))
            } else {
                None
            },
            _ => None,
        }
    }
}

/// What translating `input` gives: the input is classified, then the text is
/// read again as its kind requires; `None` where that reading fails.
pub open spec fn translation(input: Seq<char>) -> Option<TranslationView> {
    match classification(input) {
        IpTranslationType::Ipv4 => match ipv4_value(input) {
            Some(v) => Some(v4_single_view(v, "IPv4"@, "0:0:0:0:0:ffff:"@)),
            None => None,
        },
        IpTranslationType::Ipv6 => match ipv6_value(input) {
            Some(v) => Some(v6_single_view(v, "IPv6"@)),
            None => None,
        },
        IpTranslationType::Ipv4Mask => v4_mask_translation(input),
        IpTranslationType::Ipv6Mask => v6_mask_translation(input),
        IpTranslationType::Ipv4Range => v4_range_translation(input),
        IpTranslationType::Ipv6Range => v6_range_translation(input),
        IpTranslationType::Ipv4Num => match u128_value(input) {
            Some(n) => if n <= u32::MAX {
                Some(v4_single_view(n as u32, "Integer -> IPv4"@, "::ffff:"@))
            } else {
                None
            },
            None => None,
        },
        IpTranslationType::Ipv6Num => match u128_value(input) {
            Some(n) => Some(v6_single_view(n, "Integer -> IPv6"@)),
            None => None,
        },
        IpTranslationType::UnknownIp => None,
    }
}

/// The error for an input of no known kind.
pub open spec fn unknown_message(input: Seq<char>) -> Seq<char> {
    "unrecognised IP format '"@ + input + "'"@
}

fn dec_string(v: u128) -> (r: String)
    ensures
        r@ == dec_text(v as nat),
{
    let mut s = String::new();
    push_min_digits(&mut s, v, 10);
    assert(s@ =~= dec_text(v as nat));
    s
}

fn text(t: &str) -> (r: String)
    ensures
        r@ == t@,
{
    String::from_str(t)
}

/// `a`, then `sep`, then `b`.
fn joined(a: String, sep: &str, b: &String) -> (r: String)
    ensures
        r@ == a@ + sep@ + b@,
{
    let mut r = a;
    r.append(sep);
    r.append(b.as_str());
    r
}

fn v4_single(v: u32, label: &str, mapped: &str) -> (r: IpTranslationResult)
    ensures
        r@ == v4_single_view(v, label@, mapped@),
{
    let mut r = IpTranslationResult::default();
    r.field_type = text(label);
    r.com_address = ipv4_to_string(v);
    r.binary_address = ipv4_binary_string(v);
    if v > 0 {
        r.prev_address = ipv4_to_string(v - 1);
    }
    if v < u32::MAX {
        r.next_address = ipv4_to_string(v + 1);
    }
    r.int_value = dec_string(v as u128);
    r.high_low_64_bit_signed_number = Some(split_u128_to_i64(v as u128));
    r.to_ipv4 = ipv4_to_string(v);
    let mut m = text(mapped);
    push_ipv4(&mut m, v);
    r.to_ipv6 = m;
    r
}

fn v6_single(v: u128, label: &str) -> (r: IpTranslationResult)
    ensures
        r@ == v6_single_view(v, label@),
{
    let mut r = IpTranslationResult::default();
    r.field_type = text(label);
    r.com_address = ipv6_to_string(v);
    r.ex_address = ipv6_expanded_string(v);
    r.binary_address = ipv6_binary_string(v);
    if v > 0 {
        r.prev_address = ipv6_to_string(v - 1);
    }
    if v < u128::MAX {
        r.next_address = ipv6_to_string(v + 1);
    }
    r.int_value = dec_string(v);
    r.high_low_64_bit_signed_number = Some(split_u128_to_i64(v));
    r.to_ipv6 = ipv6_to_string(v);
    r
}

fn v4_masked(a: u32, p: u8) -> (r: IpTranslationResult)
    requires
        p <= 32,
    ensures
        r@ == v4_mask_view(a, p as u32),
{
    let mask = ipv4_mask(p);
    let network = a & mask;
    let broadcast = network | !mask;
    let mut r = IpTranslationResult::default();
    r.field_type = text("IPv4 + CIDR mask");
    r.com_address = ipv4_to_string(a);
    r.binary_address = ipv4_binary_string(a);
    let mut subnet = ipv4_to_string(a);
    push_char(&mut subnet, '/');
    push_min_digits(&mut subnet, p as u128, 10);
    assert(subnet@ =~= ipv4_text(a) + seq!['/'] + dec_text(p as nat));
    r.subnet = subnet;
    r.subnet_mask = ipv4_to_string(mask);
    r.int_value = dec_string(a as u128);
    r.high_low_64_bit_signed_number = Some(split_u128_to_i64(a as u128));
    r.to_ipv4 = ipv4_to_string(a);
    let mut m = text("0:0:0:0:0:ffff:");
    push_ipv4(&mut m, a);
    r.to_ipv6 = m;
    r.net_work_address = ipv4_to_string(network);
    r.net_work_address_int_value = dec_string(network as u128);
    r.net_work_address_binary_address = ipv4_binary_string(network);
    r.broadcast_address = ipv4_to_string(broadcast);
    r.broadcast_address_int_value = dec_string(broadcast as u128);
    r.broadcast_address_binary_address = ipv4_binary_string(broadcast);
    r
}

fn v6_masked(a: u128, p: u8) -> (r: IpTranslationResult)
    requires
        p <= 128,
    ensures
        r@ == v6_mask_view(a, p as u128),
{
    let mask = ipv6_mask(p);
    let network = a & mask;
    let broadcast = network | !mask;
    let mut r = IpTranslationResult::default();
    r.field_type = text("IPv6 + CIDR mask");
    r.com_address = ipv6_to_string(a);
    r.ex_address = ipv6_expanded_string(a);
    r.binary_address = ipv6_binary_string(a);
    let mut subnet = ipv6_to_string(a);
    push_char(&mut subnet, '/');
    push_min_digits(&mut subnet, p as u128, 10);
    assert(subnet@ =~= ipv6_text(a) + seq!['/'] + dec_text(p as nat));
    r.subnet = subnet;
    let mut hex = String::new();
    push_min_digits(&mut hex, mask, 16);
    assert(hex@ =~= hex_text(mask as nat));
    r.subnet_mask = hex;
    r.int_value = dec_string(a);
    r.high_low_64_bit_signed_number = Some(split_u128_to_i64(a));
    r.to_ipv6 = ipv6_to_string(a);
    r.net_work_address = ipv6_to_string(network);
    r.net_work_address_int_value = dec_string(network);
    r.net_work_address_binary_address = ipv6_binary_string(network);
    r.broadcast_address = ipv6_to_string(broadcast);
    r.broadcast_address_int_value = dec_string(broadcast);
    r.broadcast_address_binary_address = ipv6_binary_string(broadcast);
    r
}

fn v4_range(a: u32, b: u32) -> (r: IpTranslationResult)
    ensures
        r@ == v4_range_view(a, b),
{
    let mut r = IpTranslationResult::default();
    r.field_type = text("IPv4 range");
    r.com_address = joined(ipv4_to_string(a), " - ", &ipv4_to_string(b));
    r.binary_address = joined(ipv4_binary_string(a), " - ", &ipv4_binary_string(b));
    r.net_work_address = ipv4_to_string(a);
    r.net_work_address_int_value = dec_string(a as u128);
    r.net_work_address_binary_address = ipv4_binary_string(a);
    r.broadcast_address = ipv4_to_string(b);
    r.broadcast_address_int_value = dec_string(b as u128);
    r.broadcast_address_binary_address = ipv4_binary_string(b);
    r
}

fn v6_range(a: u128, b: u128) -> (r: IpTranslationResult)
    ensures
        r@ == v6_range_view(a, b),
{
    let mut r = IpTranslationResult::default();
    r.field_type = text("IPv6 range");
    r.com_address = joined(ipv6_to_string(a), " - ", &ipv6_to_string(b));
    r.binary_address = joined(ipv6_binary_string(a), " - ", &ipv6_binary_string(b));
    r.net_work_address = ipv6_to_string(a);
    r.net_work_address_int_value = dec_string(a);
    r.net_work_address_binary_address = ipv6_binary_string(a);
    r.broadcast_address = ipv6_to_string(b);
    r.broadcast_address_int_value = dec_string(b);
    r.broadcast_address_binary_address = ipv6_binary_string(b);
    r
}

/// `before`, then the input between quotes.
fn message(before: &str, input: &Vec<char>) -> (r: String)
    ensures
        r@ == before@ + input@ + "'"@,
{
    let mut r = text(before);
    let mut i: usize = 0;
    let ghost start = r@;
    while i < input.len()
        invariant
            i <= input@.len(),
            r@ == start + input@.take(i as int),
        decreases input.len() - i,
    {
        push_char(&mut r, input[i]);
        i += 1;
        assert(r@ =~= start + input@.take(i as int));
    }
    assert(input@.take(input@.len() as int) =~= input@);
    r.append("'");
    r
}

/// Classifies `ip` and derives every representation that its kind has.
pub fn translate_ip(ip: String) -> (r: Result<IpTranslationResult, String>)
    ensures
        r matches Ok(t) ==> translation(ip@) == Some(t@),
        r is Err ==> translation(ip@) is None,
        classification(ip@) == IpTranslationType::UnknownIp ==> (r matches Err(e) && e@
            == unknown_message(ip@)),
{
    let chars = chars_of(ip.as_str());
    let s = chars.as_slice();
    match classify_chars(s) {
        IpTranslationType::Ipv4 => match parse_ipv4(s) {
            Some(v) => Ok(v4_single(v, "IPv4", "0:0:0:0:0:ffff:")),
            None => Err(message("invalid IPv4 address '", &chars)),
        },
        IpTranslationType::Ipv6 => match parse_ipv6(s) {
            Some(v) => Ok(v6_single(v, "IPv6")),
            None => Err(message("invalid IPv6 address '", &chars)),
        },
        IpTranslationType::Ipv4Mask => {
            let parts = split_chars(s, '/');
            assert(views(parts@).len() == parts@.len());
            if parts.len() != 2 {
                return Err(message("invalid IPv4 CIDR notation '", &chars));
            }
            assert(views(parts@)[0] == parts@[0]@ && views(parts@)[1] == parts@[1]@);
            let a = match parse_ipv4(parts[0].as_slice()) {
                Some(a) => a,
                None => return Err(message("invalid IPv4 address '", &parts[0])),
            };
            match parse_u128(parts[1].as_slice()) {
                Some(m) => if m <= 32 {
                    Ok(v4_masked(a, m as u8))
                } else {
                    Err(message("invalid IPv4 prefix length '", &parts[1]))
                },
                None => Err(message("invalid prefix length '", &parts[1])),
            }
        },
        IpTranslationType::Ipv6Mask => {
            let parts = split_chars(s, '/');
            assert(views(parts@).len() == parts@.len());
            if parts.len() != 2 {
                return Err(message("invalid IPv6 CIDR notation '", &chars));
            }
            assert(views(parts@)[0] == parts@[0]@ && views(parts@)[1] == parts@[1]@);
            let a = match parse_ipv6(parts[0].as_slice()) {
                Some(a) => a,
                None => return Err(message("invalid IPv6 address '", &parts[0])),
            };
            match parse_u128(parts[1].as_slice()) {
                Some(m) => if m <= 128 {
                    Ok(v6_masked(a, m as u8))
                } else {
                    Err(message("IPv6 prefix length exceeds 128: '", &parts[1]))
                },
                None => Err(message("invalid prefix length '", &parts[1])),
            }
        },
        IpTranslationType::Ipv4Range => {
            let parts = split_chars(s, '-');
            assert(views(parts@).len() == parts@.len());
            if parts.len() != 2 {
                return Err(message("invalid IPv4 range '", &chars));
            }
            assert(views(parts@)[0] == parts@[0]@ && views(parts@)[1] == parts@[1]@);
            let first = trim_chars(parts[0].as_slice());
            let last = trim_chars(parts[1].as_slice());
            let a = match parse_ipv4(first.as_slice()) {
                Some(a) => a,
                None => return Err(message("invalid range start '", &parts[0])),
            };
            let b = match parse_ipv4(last.as_slice()) {
                Some(b) => b,
                None => return Err(message("invalid range end '", &parts[1])),
            };
            if a > b {
                return Err(message("range start is above its end: '", &chars));
            }
            Ok(v4_range(a, b))
        },
        IpTranslationType::Ipv6Range => {
            let parts = split_chars(s, '-');
            assert(views(parts@).len() == parts@.len());
            if parts.len() != 2 {
                return Err(message("invalid IPv6 range '", &chars));
            }
            assert(views(parts@)[0] == parts@[0]@ && views(parts@)[1] == parts@[1]@);
            let first = trim_chars(parts[0].as_slice());
            let last = trim_chars(parts[1].as_slice());
            let a = match parse_ipv6(first.as_slice()) {
                Some(a) => a,
                None => return Err(message("invalid range start '", &parts[0])),
            };
            let b = match parse_ipv6(last.as_slice()) {
                Some(b) => b,
                None => return Err(message("invalid range end '", &parts[1])),
            };
            if a > b {
                return Err(message("range start is above its end: '", &chars));
            }
            Ok(v6_range(a, b))
        },
        IpTranslationType::Ipv4Num => match parse_u128(s) {
            Some(n) => if n <= 0xffff_ffffu128 {
                Ok(v4_single(n as u32, "Integer -> IPv4", "::ffff:"))
            } else {
                Err(message("IPv4 number out of range 0 to 2^32-1: '", &chars))
            },
            None => Err(message("invalid IPv4 number '", &chars)),
        },
        IpTranslationType::Ipv6Num => match parse_u128(s) {
            Some(n) => Ok(v6_single(n, "Integer -> IPv6")),
            None => Err(message("invalid IPv6 number '", &chars)),
        },
        IpTranslationType::UnknownIp => Err(message("unrecognised IP format '", &chars)),
    }
}

} // verus!
