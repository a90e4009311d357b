//! The textual notation of socket addresses, as a mathematical definition.
//!
//! A socket address is written `a.b.c.d:port` for IPv4 and `[segments]:port`
//! for IPv6. Every function here maps a sequence of bytes to the value that it
//! denotes, or to `None` where the bytes are not in the notation.

use crate::addr::{IpAddr, SocketAddr};
use vstd::prelude::*;

verus! {

/// The byte `0`.
pub const DIGIT_0: u8 = 0x30;

/// The byte `9`.
pub const DIGIT_9: u8 = 0x39;

/// The byte `A`.
pub const UPPER_A: u8 = 0x41;

/// The byte `F`.
pub const UPPER_F: u8 = 0x46;

/// The byte `a`.
pub const LOWER_A: u8 = 0x61;

/// The byte `f`.
pub const LOWER_F: u8 = 0x66;

/// The byte `.`, which separates the octets of a dotted quad.
pub const DOT: u8 = 0x2e;

/// The byte `:`, which separates the segments of an IPv6 address, and an
/// address from its port.
pub const COLON: u8 = 0x3a;

/// The byte `[`, which opens an IPv6 address that a port follows.
pub const OPEN_BRACKET: u8 = 0x5b;

/// The byte `]`, which closes such an address.
pub const CLOSE_BRACKET: u8 = 0x5d;

/// The byte `%`, which separates an IPv6 address from its zone index.
pub const PERCENT: u8 = 0x25;

/// The value of a byte read as a digit: `0`-`9`, then `a`-`f` or `A`-`F` for
/// ten to fifteen.
pub open spec fn digit_value(b: u8) -> Option<nat> {
    if DIGIT_0 <= b <= DIGIT_9 {
        Some((b - DIGIT_0) as nat)
    } else if LOWER_A <= b <= LOWER_F {
        Some((b - LOWER_A + 10) as nat)
    } else if UPPER_A <= b <= UPPER_F {
        Some((b - UPPER_A + 10) as nat)
    } else {
        None
    }
}

/// Whether a byte is a digit of the given radix.
pub open spec fn is_digit(b: u8, radix: nat) -> bool {
    match digit_value(b) {
        Some(d) => d < radix,
        None => false,
    }
}

/// A numeral is one or more digits of the radix.
pub open spec fn is_numeral(s: Seq<u8>, radix: nat) -> bool {
    s.len() > 0 && forall|i: int| 0 <= i < s.len() ==> is_digit(#[trigger] s[i], radix)
}

/// The number that a numeral denotes, most significant digit first.
pub open spec fn numeral_value(s: Seq<u8>, radix: nat) -> nat
    decreases s.len(),
{
    if s.len() == 0 {
        0
    } else {
        let d = match digit_value(s.last()) {
            Some(d) => d,
            None => 0,
        };
        numeral_value(s.drop_last(), radix) * radix + d
    }
}

/// A port: a decimal numeral of any length whose value fits sixteen bits.
pub open spec fn port_text(s: Seq<u8>) -> Option<u16> {
    if is_numeral(s, 10) && numeral_value(s, 10) <= 0xffff {
        Some(numeral_value(s, 10) as u16)
    } else {
        None
    }
}

/// A zone index: a decimal numeral of any length whose value fits 32 bits.
pub open spec fn scope_text(s: Seq<u8>) -> Option<u32> {
    if is_numeral(s, 10) && numeral_value(s, 10) <= 0xffff_ffff {
        Some(numeral_value(s, 10) as u32)
    } else {
        None
    }
}

/// An octet of a dotted quad: one to three decimal digits, without a leading
/// zero unless it is the single digit `0`, with a value of at most 255.
pub open spec fn octet_text(s: Seq<u8>) -> Option<u8> {
    if is_numeral(s, 10) && s.len() <= 3 && (s.len() == 1 || s[0] != DIGIT_0) && numeral_value(s, 10)
        <= 0xff {
        Some(numeral_value(s, 10) as u8)
    } else {
        None
    }
}

/// A segment of an IPv6 address: one to four hexadecimal digits.
pub open spec fn segment_text(s: Seq<u8>) -> Option<u16> {
    if is_numeral(s, 16) && s.len() <= 4 {
        Some(numeral_value(s, 16) as u16)
    } else {
        None
    }
}

/// The index of the first occurrence of `c` in `s`, or the length of `s`
/// where there is none.
pub open spec fn first_index(s: Seq<u8>, c: u8) -> int
    decreases s.len(),
{
    if s.len() == 0 || s[0] == c {
        0
    } else {
        1 + first_index(s.skip(1), c)
    }
}

/// The index at which `c` first stands twice in a row in `s`, or the length
/// of `s` where it never does.
pub open spec fn first_pair(s: Seq<u8>, c: u8) -> int
    decreases s.len(),
{
    if s.len() < 2 {
        s.len() as int
    } else if s[0] == c && s[1] == c {
        0
    } else {
        1 + first_pair(s.skip(1), c)
    }
}

/// The pieces of `s` between the occurrences of `c`. There is one piece more
/// than there are occurrences; a piece may be empty.
pub open spec fn split(s: Seq<u8>, c: u8) -> Seq<Seq<u8>>
    decreases s.len(),
{
    let i = first_index(s, c);
    if 0 <= i < s.len() {
        seq![s.take(i)] + split(s.skip(i + 1), c)
    } else {
        seq![s]
    }
}

/// A dotted quad: four octets separated by dots.
pub open spec fn ipv4_text(s: Seq<u8>) -> Option<[u8; 4]> {
    let p = split(s, DOT);
    if p.len() == 4 && (forall|i: int| 0 <= i < 4 ==> octet_text(#[trigger] p[i]) is Some) {
        Some(
            [
                octet_text(p[0]).unwrap(),
                octet_text(p[1]).unwrap(),
                octet_text(p[2]).unwrap(),
                octet_text(p[3]).unwrap(),
            ],
        )
    } else {
        None
    }
}

/// The segment made of two octets, the first being the more significant.
pub open spec fn octet_pair(hi: u8, lo: u8) -> u16 {
    (hi * 256 + lo) as u16
}

/// A run of segments separated by single colons; the empty text is the empty
/// run. Where `v4_tail` holds, a dotted quad may stand in the last place, and
/// counts as two segments.
pub open spec fn segments_text(s: Seq<u8>, v4_tail: bool) -> Option<Seq<u16>> {
    if s.len() == 0 {
        Some(Seq::empty())
    } else {
        let p = split(s, COLON);
        let init = p.drop_last();
        let front = Seq::new(init.len(), |i: int| segment_text(init[i]).unwrap());
        if forall|i: int| 0 <= i < init.len() ==> segment_text(#[trigger] init[i]) is Some {
            match (segment_text(p.last()), ipv4_text(p.last())) {
                (Some(g), _) => Some(front.push(g)),
                (None, Some(q)) => if v4_tail {
                    Some(front.push(octet_pair(q[0], q[1])).push(octet_pair(q[2], q[3])))
                } else {
                    None
                },
                (None, None) => None,
            }
        } else {
            None
        }
    }
}

/// An IPv6 address: eight segments, or fewer around one `::` that stands for
/// the missing ones, all zero, and for at least one. A dotted quad may close
/// the address, but not stand before the `::`.
pub open spec fn ipv6_text(s: Seq<u8>) -> Option<[u16; 8]> {
    let i = first_pair(s, COLON);
    let g = if 0 <= i < s.len() {
        match (segments_text(s.take(i), false), segments_text(s.skip(i + 2), true)) {
            (Some(h), Some(t)) => if h.len() + t.len() <= 7 {
                Some(h + Seq::new((8 - h.len() - t.len()) as nat, |k: int| 0u16) + t)
            } else {
                None
            },
            _ => None,
        }
    } else {
        match segments_text(s, true) {
            Some(g) => if g.len() == 8 {
                Some(g)
            } else {
                None
            },
            None => None,
        }
    };
    match g {
        Some(g) => Some([g[0], g[1], g[2], g[3], g[4], g[5], g[6], g[7]]),
        None => None,
    }
}

/// An IPv4 socket address: a dotted quad, a colon and a port.
pub open spec fn socket_v4_text(s: Seq<u8>) -> Option<SocketAddr> {
    let i = first_index(s, COLON);
    if 0 <= i < s.len() {
        match (ipv4_text(s.take(i)), port_text(s.skip(i + 1))) {
            (Some(ip), Some(port)) => Some(SocketAddr { ip: IpAddr::V4(ip), port }),
            _ => None,
        }
    } else {
        None
    }
}

/// An IPv6 socket address: an IPv6 address in square brackets, a colon and a
/// port. Inside the brackets a `%` and a zone index may follow the address;
/// the index has to be well formed and is not part of the result.
pub open spec fn socket_v6_text(s: Seq<u8>) -> Option<SocketAddr> {
    let j = first_index(s, CLOSE_BRACKET);
    if s.len() > 0 && s[0] == OPEN_BRACKET && 1 <= j && j + 1 < s.len() && s[j + 1] == COLON {
        let inner = s.subrange(1, j);
        let k = first_index(inner, PERCENT);
        let host = if 0 <= k < inner.len() {
            inner.take(k)
        } else {
            inner
        };
        let scope_ok = 0 <= k < inner.len() ==> scope_text(inner.skip(k + 1)) is Some;
        match (ipv6_text(host), port_text(s.skip(j + 2))) {
            (Some(ip), Some(port)) => if scope_ok {
                Some(SocketAddr { ip: IpAddr::V6(ip), port })
            } else {
                None
            },
            _ => None,
        }
    } else {
        None
    }
}

/// A socket address in either notation.
pub open spec fn socket_addr_text(s: Seq<u8>) -> Option<SocketAddr> {
    if s.len() > 0 && s[0] == OPEN_BRACKET {
        socket_v6_text(s)
    } else {
        socket_v4_text(s)
    }
}

} // verus!
