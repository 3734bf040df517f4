use ip_translate::classify::IpTranslationType;
use ip_translate::numeric::split_u128_to_i64;
use ip_translate::translate::{translate_ip, IpTranslationResult};

fn ok(input: &str) -> IpTranslationResult {
    match translate_ip(input.to_string()) {
        Ok(r) => r,
        Err(e) => panic!("translation of {input:?} failed: {e}"),
    }
}

#[test]
fn ipv4_address_scenario() {
    let r = ok("192.168.1.1");
    assert_eq!(r.field_type, "IPv4");
    assert_eq!(r.com_address, "192.168.1.1");
    assert_eq!(r.int_value, "3232235777");
    assert_eq!(r.next_address, "192.168.1.2");
    assert_eq!(r.prev_address, "192.168.1.0");
    assert_eq!(r.binary_address, "11000000.10101000.00000001.00000001");
    assert_eq!(r.to_ipv4, "192.168.1.1");
    assert_eq!(r.to_ipv6, "0:0:0:0:0:ffff:192.168.1.1");
    assert_eq!(r.high_low_64_bit_signed_number, Some((0, 3232235777)));
    assert_eq!(r.ex_address, "");
    assert_eq!(r.subnet, "");
}

#[test]
fn ipv4_cidr_scenario() {
    let r = ok("192.168.1.0/24");
    assert_eq!(r.field_type, "IPv4 + CIDR mask");
    assert_eq!(r.net_work_address, "192.168.1.0");
    assert_eq!(r.broadcast_address, "192.168.1.255");
    assert_eq!(r.subnet_mask, "255.255.255.0");
    assert_eq!(r.subnet, "192.168.1.0/24");
    assert_eq!(r.net_work_address_int_value, "3232235776");
    assert_eq!(r.broadcast_address_int_value, "3232236031");
    assert_eq!(r.broadcast_address_binary_address, "11000000.10101000.00000001.11111111");
}

#[test]
fn ipv4_cidr_prefix_zero_and_full() {
    let r = ok("10.1.2.3/0");
    assert_eq!(r.subnet_mask, "0.0.0.0");
    assert_eq!(r.net_work_address, "0.0.0.0");
    assert_eq!(r.broadcast_address, "255.255.255.255");
    let r = ok("10.1.2.3/32");
    assert_eq!(r.subnet_mask, "255.255.255.255");
    assert_eq!(r.net_work_address, "10.1.2.3");
    assert_eq!(r.broadcast_address, "10.1.2.3");
}

#[test]
fn ipv4_range_scenario() {
    let r = ok("10.0.0.1-10.0.0.5");
    assert_eq!(r.field_type, "IPv4 range");
    assert_eq!(r.net_work_address, "10.0.0.1");
    assert_eq!(r.broadcast_address, "10.0.0.5");
    assert_eq!(r.com_address, "10.0.0.1 - 10.0.0.5");
    assert_eq!(r.net_work_address_int_value, "167772161");
    assert_eq!(r.broadcast_address_int_value, "167772165");
    assert_eq!(r.high_low_64_bit_signed_number, None);
}

#[test]
fn reversed_range_is_rejected() {
    assert_eq!(IpTranslationType::from_str("10.0.0.5-10.0.0.1"), IpTranslationType::UnknownIp);
    assert!(translate_ip("10.0.0.5-10.0.0.1".to_string()).is_err());
    assert_eq!(IpTranslationType::from_str("10.0.0.1-10.0.0.1"), IpTranslationType::UnknownIp);
}

#[test]
fn ipv4_number_scenario() {
    let r = ok("4294967295");
    assert_eq!(r.field_type, "Integer -> IPv4");
    assert_eq!(r.com_address, "255.255.255.255");
    assert_eq!(r.next_address, "");
    assert_eq!(r.prev_address, "255.255.255.254");
    assert_eq!(r.to_ipv6, "::ffff:255.255.255.255");
}

#[test]
fn ipv4_zero_has_no_previous() {
    let r = ok("0.0.0.0");
    assert_eq!(r.prev_address, "");
    assert_eq!(r.next_address, "0.0.0.1");
    let r = ok("0");
    assert_eq!(r.com_address, "0.0.0.0");
    assert_eq!(r.prev_address, "");
}

#[test]
fn ipv6_loopback_scenario() {
    let r = ok("::1");
    assert_eq!(r.field_type, "IPv6");
    assert_eq!(r.int_value, "1");
    assert_eq!(r.prev_address, "::");
    assert_eq!(r.next_address, "::2");
    assert_eq!(r.ex_address, "0000:0000:0000:0000:0000:0000:0000:0001");
    assert_eq!(
        r.binary_address,
        "0000000000000000:0000000000000000:0000000000000000:0000000000000000\n\
         0000000000000000:0000000000000000:0000000000000000:0000000000000001"
    );
    assert_eq!(r.to_ipv4, "");
}

#[test]
fn ipv6_canonical_text() {
    assert_eq!(ok("2001:0DB8:0:0:0:0:0:1").com_address, "2001:db8::1");
    assert_eq!(ok("1:0:0:2:0:0:0:3").com_address, "1:0:0:2::3");
    assert_eq!(ok("1:0:0:2:0:0:3:4").com_address, "1::2:0:0:3:4");
    assert_eq!(ok("1:2:3:4:5:6:0:8").com_address, "1:2:3:4:5:6:0:8");
    assert_eq!(ok("::ffff:1.2.3.4").com_address, "::ffff:1.2.3.4");
    assert_eq!(ok("::1.2.3.4").com_address, "::102:304");
    assert_eq!(ok("1:2:3:4:5:6:7::").com_address, "1:2:3:4:5:6:7:0");
}

#[test]
fn ipv6_max_has_no_next() {
    let r = ok("ffff:ffff:ffff:ffff:ffff:ffff:ffff:ffff");
    assert_eq!(r.next_address, "");
    assert_eq!(r.int_value, "340282366920938463463374607431768211455");
    assert_eq!(r.high_low_64_bit_signed_number, Some((-1, -1)));
}

#[test]
fn ipv6_number() {
    let r = ok("4294967296");
    assert_eq!(r.field_type, "Integer -> IPv6");
    assert_eq!(r.com_address, "::1:0:0");
    assert_eq!(r.prev_address, "::ffff:ffff");
    assert_eq!(r.next_address, "::1:0:1");
}

#[test]
fn ipv6_cidr() {
    let r = ok("2001:db8::1/32");
    assert_eq!(r.field_type, "IPv6 + CIDR mask");
    assert_eq!(r.subnet, "2001:db8::1/32");
    assert_eq!(r.subnet_mask, "ffffffff000000000000000000000000");
    assert_eq!(r.net_work_address, "2001:db8::");
    assert_eq!(r.broadcast_address, "2001:db8:ffff:ffff:ffff:ffff:ffff:ffff");
    let r = ok("::/0");
    assert_eq!(r.subnet_mask, "0");
    assert_eq!(r.broadcast_address_int_value, "340282366920938463463374607431768211455");
}

#[test]
fn ipv6_range() {
    let r = ok("::1 - ::3");
    assert_eq!(r.field_type, "IPv6 range");
    assert_eq!(r.com_address, "::1 - ::3");
    assert_eq!(r.net_work_address_int_value, "1");
    assert_eq!(r.broadcast_address_int_value, "3");
}

#[test]
fn unknown_input_fails_naming_it() {
    assert_eq!(IpTranslationType::from_str("not-an-ip"), IpTranslationType::UnknownIp);
    match translate_ip("not-an-ip".to_string()) {
        Ok(_) => panic!("expected an error"),
        Err(e) => {
            assert_eq!(e, "unrecognised IP format 'not-an-ip'");
        },
    }
}

#[test]
fn classification_order() {
    assert_eq!(IpTranslationType::from_str("1.2.3.4"), IpTranslationType::Ipv4);
    assert_eq!(IpTranslationType::from_str("  1.2.3.4 \t"), IpTranslationType::Ipv4);
    assert_eq!(IpTranslationType::from_str("fe80::1"), IpTranslationType::Ipv6);
    assert_eq!(IpTranslationType::from_str("1.2.3.4/33"), IpTranslationType::UnknownIp);
    assert_eq!(IpTranslationType::from_str("::/128"), IpTranslationType::Ipv6Mask);
    assert_eq!(IpTranslationType::from_str("::/129"), IpTranslationType::UnknownIp);
    assert_eq!(IpTranslationType::from_str("1.2.3.4-1.2.3.5/24"), IpTranslationType::UnknownIp);
    assert_eq!(IpTranslationType::from_str("01.2.3.4"), IpTranslationType::UnknownIp);
    assert_eq!(IpTranslationType::from_str("1.2.3.256"), IpTranslationType::UnknownIp);
    assert_eq!(IpTranslationType::from_str("+7"), IpTranslationType::Ipv4Num);
    assert_eq!(IpTranslationType::from_str("-7"), IpTranslationType::UnknownIp);
    assert_eq!(IpTranslationType::from_str("340282366920938463463374607431768211455"), IpTranslationType::Ipv6Num);
    assert_eq!(IpTranslationType::from_str("340282366920938463463374607431768211456"), IpTranslationType::UnknownIp);
    assert_eq!(IpTranslationType::from_str("1::2::3"), IpTranslationType::UnknownIp);
    assert_eq!(IpTranslationType::from_str("1:2:3:4:5:6:7:8:9"), IpTranslationType::UnknownIp);
    assert_eq!(IpTranslationType::from_str("12345::"), IpTranslationType::UnknownIp);
    assert_eq!(IpTranslationType::from_str(""), IpTranslationType::UnknownIp);
}

#[test]
fn whitespace_is_trimmed_only_for_classification() {
    assert!(translate_ip(" 1.2.3.4".to_string()).is_err());
}

#[test]
fn signed_split_reinterprets_bits() {
    assert_eq!(split_u128_to_i64(0), (0, 0));
    assert_eq!(split_u128_to_i64(1u128 << 63), (0, i64::MIN));
    assert_eq!(split_u128_to_i64((1u128 << 64) | 5), (1, 5));
    assert_eq!(split_u128_to_i64(u128::MAX), (-1, -1));
}

#[test]
fn neighbours_decode_to_adjacent_values() {
    let r = ok("10.0.0.0");
    assert_eq!(r.prev_address, "9.255.255.255");
    assert_eq!(ok(&r.prev_address).int_value, "167772159");
    assert_eq!(ok(&r.next_address).int_value, "167772161");
    let r = ok("2001:db8::");
    assert_eq!(r.prev_address, "2001:db7:ffff:ffff:ffff:ffff:ffff:ffff");
    assert_eq!(r.next_address, "2001:db8::1");
    let v: u128 = r.int_value.parse().unwrap();
    assert_eq!(ok(&r.prev_address).int_value, (v - 1).to_string());
    assert_eq!(ok(&r.next_address).int_value, (v + 1).to_string());
}

#[test]
fn integer_value_round_trips() {
    for a in ["192.168.1.1", "0.0.0.0", "255.255.255.255", "8.8.4.4"] {
        let r = ok(a);
        assert_eq!(ok(&r.int_value).com_address, a);
    }
    for a in ["2001:db8::1", "::ffff:1.2.3.4", "fe80::1:2"] {
        let r = ok(a);
        assert_eq!(ok(&r.int_value).com_address, r.com_address);
    }
}

#[test]
fn subnet_bounds_hold() {
    let r = ok("172.16.5.4/12");
    assert_eq!(r.net_work_address, "172.16.0.0");
    assert_eq!(r.broadcast_address, "172.31.255.255");
    let a: u64 = r.int_value.parse().unwrap();
    let n: u64 = r.net_work_address_int_value.parse().unwrap();
    let b: u64 = r.broadcast_address_int_value.parse().unwrap();
    assert!(n <= a && a <= b);
    assert_eq!(b - n, (1u64 << 20) - 1);
}

#[test]
fn ipv6_range_order() {
    assert_eq!(IpTranslationType::from_str("::1-::2"), IpTranslationType::Ipv6Range);
    assert!(translate_ip("::1-::2".to_string()).is_ok());
    assert_eq!(IpTranslationType::from_str("::2-::1"), IpTranslationType::UnknownIp);
    assert!(translate_ip("::2-::1".to_string()).is_err());
}
