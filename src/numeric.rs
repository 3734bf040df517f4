//! Integer arithmetic on addresses: netmasks, subnet bounds and the signed
//! 64-bit split of a 128-bit value.

use vstd::prelude::*;
use vstd::arithmetic::power2::pow2;
use vstd::bits::{lemma_u32_shl_is_mul, lemma_u32_pow2_no_overflow};

verus! {

/// The value of a 64-bit pattern `x` (0 <= x < 2^64) read as two's complement.
pub open spec fn signed64(x: int) -> int {
    if x < 0x8000_0000_0000_0000 {
        x
    } else {
        x - 0x1_0000_0000_0000_0000
    }
}

/// Splits a 128-bit value into its upper and lower 64 bits, each read as a
/// two's-complement signed integer.
pub fn split_u128_to_i64(num: u128) -> (r: (i64, i64))
    ensures
        r.0 == signed64(num as int / 0x1_0000_0000_0000_0000),
        r.1 == signed64(num as int % 0x1_0000_0000_0000_0000),
{
    let high: u64 = (num / 0x1_0000_0000_0000_0000u128) as u64;
    let low: u64 = (num % 0x1_0000_0000_0000_0000u128) as u64;
    (to_signed64(high), to_signed64(low))
}

fn to_signed64(x: u64) -> (r: i64)
    ensures
        r == signed64(x as int),
{
    if x < 0x8000_0000_0000_0000u64 {
        x as i64
    } else {
        ((x - 0x8000_0000_0000_0000u64) as i64) + i64::MIN
    }
}

/// The IPv4 netmask with the top `p` bits set.
pub open spec fn v4_mask(p: u32) -> u32 {
    if p == 0 {
        0
    } else {
        (!0u32) << ((32 - p) as u32)
    }
}

/// The IPv6 netmask with the top `p` bits set.
pub open spec fn v6_mask(p: u128) -> u128 {
    if p == 0 {
        0
    } else {
        (!0u128) << ((128 - p) as u128)
    }
}

pub open spec fn v4_network(a: u32, p: u32) -> u32 {
    a & v4_mask(p)
}

pub open spec fn v4_broadcast(a: u32, p: u32) -> u32 {
    v4_network(a, p) | !v4_mask(p)
}

pub open spec fn v6_network(a: u128, p: u128) -> u128 {
    a & v6_mask(p)
}

pub open spec fn v6_broadcast(a: u128, p: u128) -> u128 {
    v6_network(a, p) | !v6_mask(p)
}

pub fn ipv4_mask(prefix: u8) -> (m: u32)
    requires
        prefix <= 32,
    ensures
        m == v4_mask(prefix as u32),
{
    if prefix == 0 {
        0
    } else {
        (!0u32) << (32 - prefix as u32)
    }
}

pub fn ipv6_mask(prefix: u8) -> (m: u128)
    requires
        prefix <= 128,
    ensures
        m == v6_mask(prefix as u128),
{
    if prefix == 0 {
        0
    } else {
        (!0u128) << (128 - prefix as u128)
    }
}

/// An IPv4 address lies between the network and broadcast addresses of any
/// of its subnets, and a subnet of prefix `p` spans `2^(32 - p)` addresses.
pub proof fn law_ipv4_subnet_bounds(a: u32, p: u32)
    requires
        p <= 32,
    ensures
        v4_network(a, p) <= a <= v4_broadcast(a, p),
        v4_broadcast(a, p) - v4_network(a, p) == pow2((32 - p) as nat) - 1,
{
    if p == 0 {
        assert((a & 0u32) == 0u32 && (0u32 | !0u32) == 0xffff_ffffu32) by (bit_vector);
        vstd::arithmetic::power2::lemma2_to64();
    } else {
        let s: u32 = (32 - p) as u32;
        assert(s < 32 ==> (a & (!0u32 << s)) <= a && a <= ((a & (!0u32 << s)) | !(!0u32 << s))
            && ((a & (!0u32 << s)) | !(!0u32 << s)) - (a & (!0u32 << s)) == (1u32 << s) - 1u32)
            by (bit_vector);
        lemma_u32_pow2_no_overflow(s as nat);
        lemma_u32_shl_is_mul(1, s);
    }
}

/// An IPv6 address lies between the lowest and highest addresses of any of
/// its subnets.
pub proof fn law_ipv6_subnet_bounds(a: u128, p: u128)
    requires
        p <= 128,
    ensures
        v6_network(a, p) <= a <= v6_broadcast(a, p),
{
    if p == 0 {
        assert((a & 0u128) <= a && a <= ((a & 0u128) | !0u128)) by (bit_vector);
    } else {
        let s: u128 = (128 - p) as u128;
        assert(s < 128 ==> (a & (!0u128 << s)) <= a && a <= ((a & (!0u128 << s)) | !(!0u128 << s)))
            by (bit_vector);
    }
}

} // verus!
