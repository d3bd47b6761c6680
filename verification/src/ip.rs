//! Parsing dotted-decimal IPv4 addresses.

use vstd::prelude::*;

verus! {

/// Whether `c` is a decimal digit.
pub open spec fn is_digit(c: char) -> bool {
    48 <= c as u32 <= 57
}

/// The numeric value of the digit `c`.
pub open spec fn digit_value(c: char) -> int {
    c as u32 - 48
}

/// The decimal value of the digit string `p`.
pub open spec fn decimal_value(p: Seq<char>) -> int
    decreases p.len(),
{
    if p.len() == 0 {
        0
    } else {
        decimal_value(p.drop_last()) * 10 + digit_value(p.last())
    }
}

/// Whether `p` is a well-formed octet of a dotted-decimal address: one to
/// three digits, no leading zero, value at most 255.
pub open spec fn is_valid_octet(p: Seq<char>) -> bool {
    &&& 1 <= p.len() <= 3
    &&& forall|k: int| 0 <= k < p.len() ==> is_digit(#[trigger] p[k])
    &&& decimal_value(p) <= 255
    &&& (p.len() > 1 ==> p[0] != '0')
}

/// The 32-bit address with octets `a.b.c.d`, highest octet first.
pub open spec fn address_value(a: int, b: int, c: int, d: int) -> int {
    a * 0x1000000 + b * 0x10000 + c * 0x100 + d
}

/// The address denoted by the dotted-decimal string `s`, if `s` is
/// well formed: exactly four valid octets separated by `.`.
pub open spec fn spec_parse_ipv4(s: Seq<char>) -> Option<u32> {
    let parts = crate::text::split_chars(s, '.');
    if parts.len() == 4 && is_valid_octet(parts[0]) && is_valid_octet(parts[1])
        && is_valid_octet(parts[2]) && is_valid_octet(parts[3]) {
        Some(
            address_value(
                decimal_value(parts[0]),
                decimal_value(parts[1]),
                decimal_value(parts[2]),
                decimal_value(parts[3]),
            ) as u32,
        )
    } else {
        None
    }
}

/// Parse one octet of a dotted-decimal address: one to three digits, no
/// leading zero, value at most 255.
fn parse_octet(p: &str) -> (r: Option<u8>)
    ensures
        r is Some <==> is_valid_octet(p@),
        r matches Some(v) ==> v == decimal_value(p@),
{
    let n = p.unicode_len();
    if n == 0 || n > 3 {
        return None;
    }
    let mut val: u32 = 0;
    let mut k: usize = 0;
    while k < n
        invariant
            k <= n,
            n == p@.len(),
            1 <= n <= 3,
            forall|j: int| 0 <= j < k ==> is_digit(#[trigger] p@[j]),
            val == decimal_value(p@.take(k as int)),
            val < 1000,
        decreases n - k,
    {
        let c = p.get_char(k);
        let u = c as u32;
        if u < 48 || u > 57 {
            return None;
        }
        proof {
            assert(p@.take(k as int + 1).drop_last() =~= p@.take(k as int));
            lemma_decimal_value_bounds(p@.take(k as int));
        }
        val = val * 10 + (u - 48);
        k = k + 1;
    }
    proof {
        assert(p@.take(n as int) =~= p@);
    }
    if n > 1 && p.get_char(0) == '0' {
        return None;
    }
    if val > 255 {
        return None;
    }
    Some(val as u8)
}

/// Parse a dotted-decimal IPv4 string into its 32-bit address value,
/// highest octet first.  Fails exactly on malformed input: a wrong number
/// of octets, or an octet that is not a plain decimal number in range.
pub fn parse_ipv4(ip_v4: &str) -> (r: Option<u32>)
    ensures
        r == spec_parse_ipv4(ip_v4@),
{
    let parts = crate::text::split_str(ip_v4, '.');
    if parts.len() != 4 {
        return None;
    }
    let o0 = match parse_octet(parts[0]) {
        Some(v) => v,
        None => { return None },
    };
    let o1 = match parse_octet(parts[1]) {
        Some(v) => v,
        None => { return None },
    };
    let o2 = match parse_octet(parts[2]) {
        Some(v) => v,
        None => { return None },
    };
    let o3 = match parse_octet(parts[3]) {
        Some(v) => v,
        None => { return None },
    };
    let ip: u32 = (o0 as u32) * 0x1000000 + (o1 as u32) * 0x10000 + (o2 as u32) * 0x100 + (
    o3 as u32);
    Some(ip)
}

proof fn lemma_decimal_value_bounds(p: Seq<char>)
    requires
        forall|k: int| 0 <= k < p.len() ==> is_digit(#[trigger] p[k]),
    ensures
        decimal_value(p) >= 0,
        p.len() == 0 ==> decimal_value(p) == 0,
        p.len() <= 1 ==> decimal_value(p) < 10,
        p.len() <= 2 ==> decimal_value(p) < 100,
        p.len() <= 3 ==> decimal_value(p) < 1000,
    decreases p.len(),
{
    if p.len() > 0 {
        lemma_decimal_value_bounds(p.drop_last());
    }
}

} // verus!
