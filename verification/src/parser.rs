//! Reading socket addresses from bytes.

use crate::addr::{AddrParseError, IpAddr, SocketAddr};
use crate::scan::{find_byte, find_pair, lemma_first_index_found, lemma_first_pair_found, split_on, texts};
use crate::syntax::{
    digit_value, first_index, ipv4_text, ipv6_text, is_digit, is_numeral,
    numeral_value, octet_pair, octet_text, port_text, scope_text, segment_text, segments_text,
    socket_addr_text, socket_v4_text, socket_v6_text, split, CLOSE_BRACKET, COLON, DIGIT_0,
    DIGIT_9, DOT, LOWER_A, LOWER_F, OPEN_BRACKET, PERCENT, UPPER_A, UPPER_F,
};
use vstd::prelude::*;
use vstd::slice::slice_subrange;

verus! {

/// One more digit multiplies the value by the radix and adds the digit.
pub proof fn lemma_numeral_step(s: Seq<u8>, radix: nat, k: int)
    requires
        0 <= k < s.len(),
    ensures
        numeral_value(s.take(k + 1), radix) == numeral_value(s.take(k), radix) * radix + (
        match digit_value(s[k]) {
            Some(d) => d,
            None => 0,
        }),
{
    assert(s.take(k + 1).drop_last() =~= s.take(k));
    assert(s.take(k + 1).last() == s[k]);
}

/// The value of a text is at least the value of each of its prefixes.
pub proof fn lemma_numeral_grows(s: Seq<u8>, radix: nat, k: int)
    requires
        0 <= k <= s.len(),
        radix >= 1,
    ensures
        numeral_value(s.take(k), radix) <= numeral_value(s, radix),
    decreases s.len() - k,
{
    if k == s.len() {
        assert(s.take(k) =~= s);
    } else {
        lemma_numeral_step(s, radix, k);
        lemma_numeral_grows(s, radix, k + 1);
        let v = numeral_value(s.take(k), radix);
        assert(v <= v * radix) by (nonlinear_arith)
            requires
                radix >= 1,
        ;
    }
}

/// `radix` to the power of `n`.
pub open spec fn power(radix: nat, n: nat) -> nat
    decreases n,
{
    if n == 0 {
        1
    } else {
        radix * power(radix, (n - 1) as nat)
    }
}

/// A text of `n` digits denotes a number below the radix to the power of `n`.
pub proof fn lemma_numeral_below_power(s: Seq<u8>, radix: nat)
    requires
        radix >= 1,
        forall|i: int| 0 <= i < s.len() ==> is_digit(#[trigger] s[i], radix),
    ensures
        numeral_value(s, radix) < power(radix, s.len()),
    decreases s.len(),
{
    if s.len() > 0 {
        let init = s.drop_last();
        assert forall|i: int| 0 <= i < init.len() implies is_digit(#[trigger] init[i], radix) by {
            assert(init[i] == s[i]);
        }
        lemma_numeral_below_power(init, radix);
        assert(is_digit(s[s.len() - 1], radix));
        let v = numeral_value(init, radix);
        let p = power(radix, init.len());
        let d = digit_value(s.last()).unwrap();
        assert(v * radix + d < radix * p) by (nonlinear_arith)
            requires
                v < p,
                d < radix,
        ;
    }
}

/// The value of a byte as a hexadecimal digit.
fn digit_of(b: u8) -> (r: Option<u32>)
    ensures
        match digit_value(b) {
            Some(d) => r == Some(d as u32),
            None => r is None,
        },
{
    if DIGIT_0 <= b && b <= DIGIT_9 {
        Some((b - DIGIT_0) as u32)
    } else if LOWER_A <= b && b <= LOWER_F {
        Some((b - LOWER_A) as u32 + 10)
    } else if UPPER_A <= b && b <= UPPER_F {
        Some((b - UPPER_A) as u32 + 10)
    } else {
        None
    }
}

/// The value of a numeral of any length, where it is at most `max`.
fn parse_numeral(text: &[u8], radix: u32, max: u32) -> (r: Option<u32>)
    requires
        1 <= radix <= 16,
    ensures
        r == (if is_numeral(text@, radix as nat) && numeral_value(text@, radix as nat) <= max {
            Some(numeral_value(text@, radix as nat) as u32)
        } else {
            None
        }),
{
    if text.len() == 0 {
        return None;
    }
    let mut acc: u64 = 0;
    let mut i: usize = 0;
    while i < text.len()
        invariant
            1 <= radix <= 16,
            0 <= i <= text@.len(),
            acc <= max,
            acc == numeral_value(text@.take(i as int), radix as nat),
            forall|j: int| 0 <= j < i ==> is_digit(#[trigger] text@[j], radix as nat),
        decreases text@.len() - i,
    {
        let d: u32 = match digit_of(text[i]) {
            Some(d) => d,
            None => {
                assert(!is_digit(text@[i as int], radix as nat));
                return None;
            },
        };
        if d >= radix {
            assert(!is_digit(text@[i as int], radix as nat));
            return None;
        }
        proof {
            lemma_numeral_step(text@, radix as nat, i as int);
            assert(acc * radix <= 0xffff_ffff * 16) by (nonlinear_arith)
                requires
                    acc <= 0xffff_ffff,
                    radix <= 16,
            ;
        }
        let next: u64 = acc * (radix as u64) + (d as u64);
        if next > max as u64 {
            proof {
                lemma_numeral_grows(text@, radix as nat, i + 1);
            }
            return None;
        }
        acc = next;
        i += 1;
    }
    proof {
        assert(text@.take(i as int) =~= text@);
    }
    Some(acc as u32)
}

/// Reads a port.
pub fn parse_port(text: &[u8]) -> (r: Option<u16>)
    ensures
        r == port_text(text@),
{
    match parse_numeral(text, 10, 0xffff) {
        Some(v) => Some(v as u16),
        None => None,
    }
}

/// Checks a zone index, and gives its value.
pub fn parse_scope(text: &[u8]) -> (r: Option<u32>)
    ensures
        r == scope_text(text@),
{
    parse_numeral(text, 10, 0xffff_ffff)
}

/// Reads an octet of a dotted quad.
pub fn parse_octet(text: &[u8]) -> (r: Option<u8>)
    ensures
        r == octet_text(text@),
{
    if text.len() > 3 || (text.len() > 1 && text[0] == DIGIT_0) {
        return None;
    }
    match parse_numeral(text, 10, 0xff) {
        Some(v) => Some(v as u8),
        None => None,
    }
}

/// Reads a segment of an IPv6 address.
pub fn parse_segment(text: &[u8]) -> (r: Option<u16>)
    ensures
        r == segment_text(text@),
{
    if text.len() > 4 {
        return None;
    }
    proof {
        if is_numeral(text@, 16) {
            lemma_numeral_below_power(text@, 16);
            reveal_with_fuel(power, 5);
        }
    }
    match parse_numeral(text, 16, 0xffff) {
        Some(v) => Some(v as u16),
        None => None,
    }
}

/// Reads a dotted quad.
pub fn parse_ipv4(text: &[u8]) -> (r: Option<[u8; 4]>)
    ensures
        r == ipv4_text(text@),
{
    let parts = split_on(text, DOT);
    if parts.len() != 4 {
        return None;
    }
    let ghost p = split(text@, DOT);
    proof {
        assert forall|i: int| 0 <= i < 4 implies p[i] == (#[trigger] parts@[i])@ by {
            assert(texts(parts@)[i] == parts@[i]@);
        }
    }
    let a = match parse_octet(parts[0]) {
        Some(v) => v,
        None => {
            assert(octet_text(p[0]) is None);
            return None;
        },
    };
    let b = match parse_octet(parts[1]) {
        Some(v) => v,
        None => {
            assert(octet_text(p[1]) is None);
            return None;
        },
    };
    let c = match parse_octet(parts[2]) {
        Some(v) => v,
        None => {
            assert(octet_text(p[2]) is None);
            return None;
        },
    };
    let d = match parse_octet(parts[3]) {
        Some(v) => v,
        None => {
            assert(octet_text(p[3]) is None);
            return None;
        },
    };
    Some([a, b, c, d])
}

/// Joins two octets into a segment.
fn join_octets(hi: u8, lo: u8) -> (r: u16)
    ensures
        r == octet_pair(hi, lo),
{
    (hi as u16) * 256 + (lo as u16)
}

/// A text has at least one piece, whatever it is cut at.
pub proof fn lemma_split_nonempty(s: Seq<u8>, c: u8)
    ensures
        split(s, c).len() >= 1,
    decreases s.len(),
{
    let i = first_index(s, c);
    if 0 <= i < s.len() {
        lemma_split_nonempty(s.skip(i + 1), c);
    }
}

/// Reads a run of segments separated by single colons, in which a dotted
/// quad may come last where `v4_tail` holds.
pub fn parse_segments(text: &[u8], v4_tail: bool) -> (r: Option<Vec<u16>>)
    ensures
        match segments_text(text@, v4_tail) {
            Some(g) => r is Some && r.unwrap()@ == g,
            None => r is None,
        },
{
    let mut out: Vec<u16> = Vec::new();
    if text.len() == 0 {
        assert(out@ =~= Seq::<u16>::empty());
        return Some(out);
    }
    let parts = split_on(text, COLON);
    let ghost p = split(text@, COLON);
    let ghost init = p.drop_last();
    let ghost front = Seq::new(init.len(), |i: int| segment_text(init[i]).unwrap());
    proof {
        lemma_split_nonempty(text@, COLON);
        assert forall|i: int| 0 <= i < p.len() implies p[i] == (#[trigger] parts@[i])@ by {
            assert(texts(parts@)[i] == parts@[i]@);
        }
    }
    let n = parts.len();
    let mut i: usize = 0;
    while i + 1 < n
        invariant
            text@.len() > 0,
            p == split(text@, COLON),
            n == parts@.len(),
            n == p.len(),
            n >= 1,
            i <= n - 1,
            init == p.drop_last(),
            forall|j: int| 0 <= j < p.len() ==> p[j] == (#[trigger] parts@[j])@,
            out@.len() == i,
            forall|j: int| 0 <= j < i ==> segment_text(#[trigger] init[j]) == Some(out@[j]),
        decreases n - i,
    {
        match parse_segment(parts[i]) {
            Some(g) => {
                assert(init[i as int] == p[i as int]);
                out.push(g);
            },
            None => {
                assert(init[i as int] == p[i as int]);
                assert(segment_text(init[i as int]) is None);
                return None;
            },
        }
        i += 1;
    }
    assert(out@ =~= front);
    let last = parts[n - 1];
    assert(last@ == p.last());
    match parse_segment(last) {
        Some(g) => {
            out.push(g);
            Some(out)
        },
        None => {
            if v4_tail {
                match parse_ipv4(last) {
                    Some(q) => {
                        out.push(join_octets(q[0], q[1]));
                        out.push(join_octets(q[2], q[3]));
                        Some(out)
                    },
                    None => None,
                }
            } else {
                None
            }
        },
    }
}

/// Reads an IPv6 address.
pub fn parse_ipv6(text: &[u8]) -> (r: Option<[u16; 8]>)
    ensures
        r == ipv6_text(text@),
{
    let i = find_pair(text, COLON);
    proof {
        lemma_first_pair_found(text@, COLON);
    }
    let mut g: Vec<u16>;
    if i < text.len() {
        assert(text@.take(i as int) =~= text@.subrange(0, i as int));
        assert(text@.skip(i + 2) =~= text@.subrange(i + 2, text@.len() as int));
        let head = match parse_segments(slice_subrange(text, 0, i), false) {
            Some(h) => h,
            None => {
                return None;
            },
        };
        let tail = match parse_segments(slice_subrange(text, i + 2, text.len()), true) {
            Some(t) => t,
            None => {
                return None;
            },
        };
        if head.len() > 7 || tail.len() > 7 - head.len() {
            return None;
        }
        let gap: usize = 8 - head.len() - tail.len();
        let ghost h = head@;
        g = head;
        let mut k: usize = 0;
        while k < gap
            invariant
                k <= gap,
                g@ == h + Seq::new(k as nat, |j: int| 0u16),
            decreases gap - k,
        {
            g.push(0);
            k += 1;
            assert(g@ =~= h + Seq::new(k as nat, |j: int| 0u16));
        }
        let ghost filled = g@;
        let mut k: usize = 0;
        while k < tail.len()
            invariant
                k <= tail@.len(),
                g@ == filled + tail@.take(k as int),
            decreases tail@.len() - k,
        {
            g.push(tail[k]);
            k += 1;
            assert(g@ =~= filled + tail@.take(k as int));
        }
        assert(tail@.take(k as int) =~= tail@);
    } else {
        g = match parse_segments(text, true) {
            Some(all) => all,
            None => {
                return None;
            },
        };
        if g.len() != 8 {
            return None;
        }
    }
    Some([g[0], g[1], g[2], g[3], g[4], g[5], g[6], g[7]])
}

/// Reads an IPv4 socket address.
pub fn parse_socket_v4(text: &[u8]) -> (r: Option<SocketAddr>)
    ensures
        r == socket_v4_text(text@),
{
    let i = find_byte(text, 0, COLON);
    proof {
        assert(text@.skip(0) =~= text@);
    }
    if i >= text.len() {
        return None;
    }
    assert(text@.take(i as int) =~= text@.subrange(0, i as int));
    assert(text@.skip(i + 1) =~= text@.subrange(i + 1, text@.len() as int));
    let ip = parse_ipv4(slice_subrange(text, 0, i));
    let port = parse_port(slice_subrange(text, i + 1, text.len()));
    match (ip, port) {
        (Some(ip), Some(port)) => Some(SocketAddr { ip: IpAddr::V4(ip), port }),
        _ => None,
    }
}

/// Reads an IPv6 socket address.
pub fn parse_socket_v6(text: &[u8]) -> (r: Option<SocketAddr>)
    ensures
        r == socket_v6_text(text@),
{
    if text.len() == 0 || text[0] != OPEN_BRACKET {
        return None;
    }
    let j = find_byte(text, 0, CLOSE_BRACKET);
    proof {
        assert(text@.skip(0) =~= text@);
        lemma_first_index_found(text@, CLOSE_BRACKET);
        assert(j >= 1);
    }
    if j >= text.len() - 1 || text[j + 1] != COLON {
        return None;
    }
    let inner = slice_subrange(text, 1, j);
    let k = find_byte(inner, 0, PERCENT);
    proof {
        assert(inner@.skip(0) =~= inner@);
        assert(text@.skip(j + 2) =~= text@.subrange(j + 2, text@.len() as int));
    }
    let ip = if k < inner.len() {
        assert(inner@.take(k as int) =~= inner@.subrange(0, k as int));
        assert(inner@.skip(k + 1) =~= inner@.subrange(k + 1, inner@.len() as int));
        if parse_scope(slice_subrange(inner, k + 1, inner.len())).is_none() {
            return None;
        }
        parse_ipv6(slice_subrange(inner, 0, k))
    } else {
        parse_ipv6(inner)
    };
    let port = parse_port(slice_subrange(text, j + 2, text.len()));
    match (ip, port) {
        (Some(ip), Some(port)) => Some(SocketAddr { ip: IpAddr::V6(ip), port }),
        _ => None,
    }
}

/// Reads a socket address: an IPv4 address or a bracketed IPv6 address,
/// then a colon and a port. Nothing may come before it or after it.
pub fn parse_socket_addr(text: &[u8]) -> (r: Result<SocketAddr, AddrParseError>)
    ensures
        r == match socket_addr_text(text@) {
            Some(addr) => Ok::<SocketAddr, AddrParseError>(addr),
            None => Err(AddrParseError),
        },
{
    let found = if text.len() > 0 && text[0] == OPEN_BRACKET {
        parse_socket_v6(text)
    } else {
        parse_socket_v4(text)
    };
    match found {
        Some(addr) => Ok(addr),
        None => Err(AddrParseError),
    }
}

} // verus!
