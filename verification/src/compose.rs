//! How a socket address is put together from the texts of its parts, and what
//! no socket address can look like.

use crate::addr::{IpAddr, SocketAddr};
use crate::scan::{lemma_first_index_found, lemma_first_index_is, lemma_first_pair_found, pair_at};
use crate::syntax::{
    first_index, first_pair, ipv4_text, ipv6_text, is_digit, is_numeral, octet_text, port_text,
    scope_text, segment_text, segments_text, socket_addr_text, split, CLOSE_BRACKET, COLON, DOT, OPEN_BRACKET, PERCENT,
};
use vstd::prelude::*;

verus! {

/// A byte that can stand in an IP address: a hexadecimal digit, a colon or a
/// dot.
pub open spec fn is_address_byte(b: u8) -> bool {
    is_digit(b, 16) || b == COLON || b == DOT
}

/// Every byte of a text is the separator or stands in one of the pieces: what
/// holds of the bytes of each piece holds of every other byte of the text.
pub proof fn lemma_split_bytes(s: Seq<u8>, c: u8, ok: spec_fn(u8) -> bool)
    requires
        forall|k: int, j: int|
            0 <= k < split(s, c).len() && 0 <= j < split(s, c)[k].len() ==> ok(
                #[trigger] split(s, c)[k][j],
            ),
    ensures
        forall|i: int| 0 <= i < s.len() ==> s[i] == c || ok(#[trigger] s[i]),
    decreases s.len(),
{
    let f = first_index(s, c);
    let p = split(s, c);
    lemma_first_index_found(s, c);
    if 0 <= f < s.len() {
        let rest = s.skip(f + 1);
        let q = split(rest, c);
        assert(p =~= seq![s.take(f)] + q);
        assert forall|k: int, j: int| 0 <= k < q.len() && 0 <= j < q[k].len() implies ok(
            #[trigger] q[k][j],
        ) by {
            assert(p[k + 1] == q[k]);
            assert(ok(p[k + 1][j]));
        }
        lemma_split_bytes(rest, c, ok);
        assert forall|i: int| 0 <= i < s.len() implies s[i] == c || ok(#[trigger] s[i]) by {
            if i < f {
                assert(p[0][i] == s[i]);
                assert(ok(p[0][i]));
            } else if i > f {
                assert(rest[i - f - 1] == s[i]);
            }
        }
    } else {
        assert forall|i: int| 0 <= i < s.len() implies s[i] == c || ok(#[trigger] s[i]) by {
            assert(p[0][i] == s[i]);
            assert(ok(p[0][i]));
        }
    }
}

/// A dotted quad starts with a decimal digit and holds decimal digits and
/// dots only.
pub proof fn lemma_ipv4_bytes(s: Seq<u8>)
    requires
        ipv4_text(s) is Some,
    ensures
        s.len() > 0,
        is_digit(s[0], 10),
        forall|i: int| 0 <= i < s.len() ==> s[i] == DOT || is_digit(#[trigger] s[i], 10),
{
    let p = split(s, DOT);
    let ok = |b: u8| is_digit(b, 10);
    assert forall|k: int, j: int| 0 <= k < p.len() && 0 <= j < p[k].len() implies ok(
        #[trigger] p[k][j],
    ) by {
        assert(octet_text(p[k]) is Some);
        assert(is_digit(p[k][j], 10));
    }
    lemma_split_bytes(s, DOT, ok);
    lemma_first_index_found(s, DOT);
    assert(octet_text(p[0]) is Some);
    assert(p[0] == s.take(first_index(s, DOT)));
    assert(p[0][0] == s[0]);
    assert(ok(p[0][0]));
}

/// A run of segments holds hexadecimal digits, colons and dots only.
pub proof fn lemma_segments_bytes(s: Seq<u8>, v4_tail: bool)
    requires
        segments_text(s, v4_tail) is Some,
    ensures
        forall|i: int| 0 <= i < s.len() ==> is_address_byte(#[trigger] s[i]),
{
    if s.len() > 0 {
        let p = split(s, COLON);
        let init = p.drop_last();
        let ok = |b: u8| is_digit(b, 16) || b == DOT;
        assert forall|k: int, j: int| 0 <= k < p.len() && 0 <= j < p[k].len() implies ok(
            #[trigger] p[k][j],
        ) by {
            if k < p.len() - 1 {
                assert(init[k] == p[k]);
                assert(segment_text(init[k]) is Some);
                assert(is_digit(p[k][j], 16));
            } else if segment_text(p.last()) is Some {
                assert(is_digit(p[k][j], 16));
            } else {
                lemma_ipv4_bytes(p.last());
                assert(p[k][j] == DOT || is_digit(p[k][j], 10));
            }
        }
        lemma_split_bytes(s, COLON, ok);
    }
}

/// An IPv6 address holds hexadecimal digits, colons and dots only.
pub proof fn lemma_ipv6_bytes(s: Seq<u8>)
    requires
        ipv6_text(s) is Some,
    ensures
        forall|i: int| 0 <= i < s.len() ==> is_address_byte(#[trigger] s[i]),
{
    let f = first_pair(s, COLON);
    lemma_first_pair_found(s, COLON);
    if 0 <= f < s.len() {
        let h = s.take(f);
        let t = s.skip(f + 2);
        assert(pair_at(s, COLON, f));
        lemma_segments_bytes(h, false);
        lemma_segments_bytes(t, true);
        assert forall|i: int| 0 <= i < s.len() implies is_address_byte(#[trigger] s[i]) by {
            if i < f {
                assert(h[i] == s[i]);
            } else if i >= f + 2 {
                assert(t[i - f - 2] == s[i]);
            }
        }
    } else {
        lemma_segments_bytes(s, true);
    }
}

/// A dotted quad, a colon and a port make the IPv4 socket address of that
/// host and that port.
pub proof fn lemma_v4_host_and_port(host: Seq<u8>, port: Seq<u8>)
    requires
        ipv4_text(host) is Some,
        port_text(port) is Some,
    ensures
        socket_addr_text(host + seq![COLON] + port) == Some(
            SocketAddr { ip: IpAddr::V4(ipv4_text(host).unwrap()), port: port_text(port).unwrap() },
        ),
{
    let s = host + seq![COLON] + port;
    let n = host.len() as int;
    lemma_ipv4_bytes(host);
    assert forall|j: int| 0 <= j < n implies s[j] != COLON by {
        assert(s[j] == host[j]);
    }
    assert(s[n] == COLON);
    lemma_first_index_is(s, COLON, n);
    assert(s.take(n) =~= host);
    assert(s.skip(n + 1) =~= port);
    assert(s[0] == host[0]);
}

/// The text in which an IPv6 address, with or without a zone index behind
/// it, stands in brackets before a colon and a port.
pub open spec fn bracketed(inner: Seq<u8>, port: Seq<u8>) -> Seq<u8> {
    seq![OPEN_BRACKET] + inner + seq![CLOSE_BRACKET, COLON] + port
}

/// In a bracketed text whose inside holds no closing bracket, the first
/// closing bracket is the one behind the inside.
proof fn lemma_bracketed_parts(inner: Seq<u8>, port: Seq<u8>)
    requires
        forall|i: int| 0 <= i < inner.len() ==> inner[i] != CLOSE_BRACKET,
    ensures
        first_index(bracketed(inner, port), CLOSE_BRACKET) == inner.len() + 1,
        bracketed(inner, port).subrange(1, inner.len() as int + 1) == inner,
        bracketed(inner, port).skip(inner.len() as int + 3) == port,
        bracketed(inner, port)[0] == OPEN_BRACKET,
        bracketed(inner, port)[inner.len() as int + 2] == COLON,
        bracketed(inner, port).len() == inner.len() + 3 + port.len(),
{
    let s = bracketed(inner, port);
    let n = inner.len() as int;
    assert forall|j: int| 0 <= j < n + 1 implies s[j] != CLOSE_BRACKET by {
        if j > 0 {
            assert(s[j] == inner[j - 1]);
        }
    }
    assert(s[n + 1] == CLOSE_BRACKET);
    lemma_first_index_is(s, CLOSE_BRACKET, n + 1);
    assert(s.subrange(1, n + 1) =~= inner);
    assert(s.skip(n + 3) =~= port);
}

/// An IPv6 address in brackets, a colon and a port make the IPv6 socket
/// address of that host and that port.
pub proof fn lemma_v6_host_and_port(host: Seq<u8>, port: Seq<u8>)
    requires
        ipv6_text(host) is Some,
        port_text(port) is Some,
    ensures
        socket_addr_text(bracketed(host, port)) == Some(
            SocketAddr { ip: IpAddr::V6(ipv6_text(host).unwrap()), port: port_text(port).unwrap() },
        ),
{
    lemma_ipv6_bytes(host);
    lemma_bracketed_parts(host, port);
    lemma_first_index_is(host, PERCENT, host.len() as int);
}

/// A zone index behind the address, after a `%`, leaves the host and the
/// port of the socket address as they are.
pub proof fn lemma_v6_host_zone_and_port(host: Seq<u8>, zone: Seq<u8>, port: Seq<u8>)
    requires
        ipv6_text(host) is Some,
        scope_text(zone) is Some,
        port_text(port) is Some,
    ensures
        socket_addr_text(bracketed(host + seq![PERCENT] + zone, port)) == Some(
            SocketAddr { ip: IpAddr::V6(ipv6_text(host).unwrap()), port: port_text(port).unwrap() },
        ),
{
    let inner = host + seq![PERCENT] + zone;
    let n = host.len() as int;
    lemma_ipv6_bytes(host);
    assert forall|i: int| 0 <= i < inner.len() implies inner[i] != CLOSE_BRACKET by {
        if i < n {
            assert(inner[i] == host[i]);
        } else if i > n {
            assert(inner[i] == zone[i - n - 1]);
            assert(is_digit(zone[i - n - 1], 10));
        }
    }
    lemma_bracketed_parts(inner, port);
    assert forall|i: int| 0 <= i < n implies inner[i] != PERCENT by {
        assert(inner[i] == host[i]);
    }
    assert(inner[n] == PERCENT);
    lemma_first_index_is(inner, PERCENT, n);
    assert(inner.take(n) =~= host);
    assert(inner.skip(n + 1) =~= zone);
}

/// A text without a colon is no socket address: the port cannot be left out.
pub proof fn lemma_colon_needed(s: Seq<u8>)
    requires
        forall|i: int| 0 <= i < s.len() ==> s[i] != COLON,
    ensures
        socket_addr_text(s) is None,
{
    lemma_first_index_found(s, COLON);
    lemma_first_index_found(s, CLOSE_BRACKET);
}

/// What follows the last colon of a socket address is its port: a text in
/// which something else follows it, such as a number above 65535, is no
/// socket address.
pub proof fn lemma_port_follows_last_colon(s: Seq<u8>, i: int)
    requires
        0 <= i < s.len(),
        s[i] == COLON,
        forall|j: int| i < j < s.len() ==> s[j] != COLON,
        port_text(s.skip(i + 1)) is None,
    ensures
        socket_addr_text(s) is None,
{
    if s[0] == OPEN_BRACKET {
        let close = first_index(s, CLOSE_BRACKET);
        lemma_first_index_found(s, CLOSE_BRACKET);
        if 1 <= close && close + 1 < s.len() && s[close + 1] == COLON {
            let port = s.skip(close + 2);
            if close + 1 < i {
                assert(port[i - close - 2] == s[i]);
                assert(!is_digit(port[i - close - 2], 10));
                assert(!is_numeral(port, 10));
            }
        }
    } else {
        let f = first_index(s, COLON);
        lemma_first_index_found(s, COLON);
        let port = s.skip(f + 1);
        if f < i {
            assert(port[i - f - 1] == s[i]);
            assert(!is_digit(port[i - f - 1], 10));
            assert(!is_numeral(port, 10));
        }
    }
}

} // verus!
