//! Dotted-quad IPv4 addresses and subnet membership.
use vstd::prelude::*;

use crate::text::{
    all_digits, chars_of, dec_value, digit_val, is_digit, lemma_dec_value_push, lemma_text_lt_asymmetric,
    lemma_text_lt_total, lemma_text_lt_transitive, split, split_chars, text_less, text_lt, views,
};

verus! {

/// One component of a dotted quad: 1 to 3 ASCII digits, no leading zero
/// unless it is the single digit `0`, value at most 255.
pub open spec fn octet_ok(g: Seq<char>) -> bool {
    &&& 1 <= g.len() <= 3
    &&& all_digits(g)
    &&& (g.len() == 1 || g[0] != '0')
    &&& dec_value(g) <= 255
}

/// The address written by `s` as a 32-bit number (first octet most
/// significant), or `None` when `s` is not exactly four valid octets joined
/// by dots.
pub open spec fn ipv4_value(s: Seq<char>) -> Option<u32> {
    let parts = split(s, '.');
    if parts.len() == 4 && forall|k: int| 0 <= k < 4 ==> octet_ok(#[trigger] parts[k]) {
        Some(
            (dec_value(parts[0]) * 16777216 + dec_value(parts[1]) * 65536 + dec_value(parts[2])
                * 256 + dec_value(parts[3])) as u32,
        )
    } else {
        None
    }
}

/// The top `prefix` bits of `a` and `b` agree.
pub open spec fn same_prefix(a: u32, b: u32, prefix: u8) -> bool {
    prefix == 0 || (a >> ((32 - prefix) as u32)) == (b >> ((32 - prefix) as u32))
}

/// `ip` and `gateway` are both addresses and lie in the same `/prefix` network.
pub open spec fn in_subnet_spec(ip: Seq<char>, gateway: Seq<char>, prefix: u8) -> bool {
    match (ipv4_value(ip), ipv4_value(gateway)) {
        (Some(a), Some(g)) => same_prefix(a, g, prefix),
        _ => false,
    }
}

/// Value of one octet, or `None` when it is not a valid octet.
fn octet_value(g: &Vec<char>) -> (r: Option<u32>)
    ensures
        r is Some <==> octet_ok(g@),
        r matches Some(v) ==> v == dec_value(g@),
{
    if g.len() == 0 || g.len() > 3 {
        return None;
    }
    if g.len() > 1 && g[0] == '0' {
        return None;
    }
    let mut v: u32 = 0;
    let mut i: usize = 0;
    while i < g.len()
        invariant
            1 <= g.len() <= 3,
            i <= g.len(),
            all_digits(g@.take(i as int)),
            v == dec_value(g@.take(i as int)),
            v < 1000,
            i == 0 ==> v == 0,
            i == 1 ==> v < 10,
            i == 2 ==> v < 100,
        decreases g.len() - i,
    {
        let c = g[i];
        if !('0' <= c && c <= '9') {
            assert(!all_digits(g@)) by {
                assert(!is_digit(g@[i as int]));
            }
            return None;
        }
        let d = (c as u32) - ('0' as u32);
        proof {
            lemma_dec_value_push(g@.take(i as int), c);
            assert(g@.take(i as int).push(c) =~= g@.take(i + 1));
        }
        v = v * 10 + d;
        i = i + 1;
        assert forall|k: int| 0 <= k < i implies is_digit(#[trigger] g@.take(i as int)[k]) by {
            if k < i - 1 {
                assert(g@.take(i as int)[k] == g@.take(i - 1)[k]);
            }
        }
    }
    assert(g@.take(g.len() as int) =~= g@);
    if v > 255 {
        return None;
    }
    Some(v)
}

/// The address written by `s`, or `None` (`Ipv4Addr::from_str` then `u32::from`).
pub fn ipv4_of(s: &Vec<char>) -> (r: Option<u32>)
    ensures
        r == ipv4_value(s@),
{
    let parts = split_chars(s, '.');
    if parts.len() != 4 {
        return None;
    }
    proof {
        assert(views(parts@)[0] == parts@[0]@);
    }
    let a = octet_value(&parts[0]);
    let b = octet_value(&parts[1]);
    let c = octet_value(&parts[2]);
    let d = octet_value(&parts[3]);
    let ghost ps = views(parts@);
    assert(ps[0] == parts@[0]@ && ps[1] == parts@[1]@ && ps[2] == parts@[2]@ && ps[3]
        == parts@[3]@);
    match (a, b, c, d) {
        (Some(a), Some(b), Some(c), Some(d)) => {
            assert(forall|k: int| 0 <= k < 4 ==> octet_ok(#[trigger] ps[k])) by {
                assert(octet_ok(ps[0]) && octet_ok(ps[1]) && octet_ok(ps[2]) && octet_ok(ps[3]));
            }
            Some(a * 16777216 + b * 65536 + c * 256 + d)
        },
        _ => {
            assert(!(forall|k: int| 0 <= k < 4 ==> octet_ok(#[trigger] ps[k])));
            None
        },
    }
}

proof fn lemma_mask_equiv(a: u32, g: u32, s: u32)
    requires
        s < 32,
    ensures
        ((a & (0xffff_ffffu32 << s)) == (g & (0xffff_ffffu32 << s))) == ((a >> s) == (g >> s)),
{
    assert(((a & (0xffff_ffffu32 << s)) == (g & (0xffff_ffffu32 << s))) == ((a >> s) == (g
        >> s))) by (bit_vector)
        requires
            s < 32,
    ;
}

/// Subnet test on char sequences.
pub fn in_subnet_chars(ip: &Vec<char>, gateway: &Vec<char>, prefix: u8) -> (r: bool)
    requires
        prefix <= 32 || ipv4_value(ip@) is None || ipv4_value(gateway@) is None,
    ensures
        r == in_subnet_spec(ip@, gateway@, prefix),
{
    let a = match ipv4_of(ip) {
        Some(a) => a,
        None => return false,
    };
    let g = match ipv4_of(gateway) {
        Some(g) => g,
        None => return false,
    };
    if prefix == 0 {
        return true;
    }
    let s: u32 = (32 - prefix) as u32;
    let mask: u32 = u32::MAX << s;
    proof {
        lemma_mask_equiv(a, g, s);
    }
    (a & mask) == (g & mask)
}

/// Whether `ip` is in the same IPv4 network as `gateway` with the given prefix
/// length. `false` when either is not a dotted-quad address.
pub fn in_subnet(ip: &str, gateway: &str, prefix: u8) -> (r: bool)
    requires
        prefix <= 32 || ipv4_value(ip@) is None || ipv4_value(gateway@) is None,
    ensures
        r == in_subnet_spec(ip@, gateway@, prefix),
{
    in_subnet_chars(&chars_of(ip), &chars_of(gateway), prefix)
}

/// IP order: addresses by numeric value, before any text that is not an
/// address; equal values, and two non-addresses, by text.
pub open spec fn ip_lt(a: Seq<char>, b: Seq<char>) -> bool {
    match (ipv4_value(a), ipv4_value(b)) {
        (Some(x), Some(y)) => x < y || (x == y && text_lt(a, b)),
        (Some(_), None) => true,
        (None, Some(_)) => false,
        (None, None) => text_lt(a, b),
    }
}

/// Whether `a` comes before `b` in IP order.
pub fn ip_less(a: &Vec<char>, b: &Vec<char>) -> (r: bool)
    ensures
        r == ip_lt(a@, b@),
{
    match (ipv4_of(a), ipv4_of(b)) {
        (Some(x), Some(y)) => x < y || (x == y && text_less(a, b)),
        (Some(_), None) => true,
        (None, Some(_)) => false,
        (None, None) => text_less(a, b),
    }
}

/// IP order is a strict order: never both ways.
pub proof fn lemma_ip_lt_asymmetric(a: Seq<char>, b: Seq<char>)
    ensures
        !(ip_lt(a, b) && ip_lt(b, a)),
{
    lemma_text_lt_asymmetric(a, b);
}

/// IP order is total on distinct texts.
pub proof fn lemma_ip_lt_total(a: Seq<char>, b: Seq<char>)
    requires
        a != b,
    ensures
        ip_lt(a, b) || ip_lt(b, a),
{
    lemma_text_lt_total(a, b);
}

/// IP order is transitive.
pub proof fn lemma_ip_lt_transitive(a: Seq<char>, b: Seq<char>, c: Seq<char>)
    requires
        ip_lt(a, b),
        ip_lt(b, c),
    ensures
        ip_lt(a, c),
{
    if text_lt(a, b) && text_lt(b, c) {
        lemma_text_lt_transitive(a, b, c);
    }
}

/// An address is in its own network, whatever the prefix length.
pub proof fn lemma_in_own_subnet(gateway: Seq<char>, prefix: u8)
    requires
        ipv4_value(gateway) is Some,
    ensures
        in_subnet_spec(gateway, gateway, prefix),
{
}

/// With prefix length 0 every address is in the network of any address.
pub proof fn lemma_prefix_zero_covers_all(ip: Seq<char>, gateway: Seq<char>)
    requires
        ipv4_value(ip) is Some,
        ipv4_value(gateway) is Some,
    ensures
        in_subnet_spec(ip, gateway, 0),
{
}

/// Membership is symmetric in the two addresses.
pub proof fn lemma_in_subnet_symmetric(a: Seq<char>, b: Seq<char>, prefix: u8)
    ensures
        in_subnet_spec(a, b, prefix) == in_subnet_spec(b, a, prefix),
{
}

} // verus!
