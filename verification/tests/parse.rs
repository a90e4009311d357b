use system_proxy::parser::{
    parse_ipv4, parse_ipv6, parse_octet, parse_port, parse_scope, parse_segment, parse_segments,
    parse_socket_addr, parse_socket_v4, parse_socket_v6,
};
use system_proxy::scan::{find_byte, find_pair, split_on};
use system_proxy::{AddrParseError, IpAddr, SocketAddr};

fn v4(a: u8, b: u8, c: u8, d: u8, port: u16) -> Result<SocketAddr, AddrParseError> {
    Ok(SocketAddr { ip: IpAddr::V4([a, b, c, d]), port })
}

fn v6(segments: [u16; 8], port: u16) -> Result<SocketAddr, AddrParseError> {
    Ok(SocketAddr { ip: IpAddr::V6(segments), port })
}

fn read(text: &str) -> Result<SocketAddr, AddrParseError> {
    parse_socket_addr(text.as_bytes())
}

#[test]
fn find_byte_gives_first_occurrence_from_start() {
    assert_eq!(find_byte(b"a:b:c", 0, b':'), 1);
    assert_eq!(find_byte(b"a:b:c", 1, b':'), 1);
    assert_eq!(find_byte(b"a:b:c", 2, b':'), 3);
    assert_eq!(find_byte(b"a:b:c", 4, b':'), 5);
    assert_eq!(find_byte(b"a:b:c", 5, b':'), 5);
    assert_eq!(find_byte(b"", 0, b':'), 0);
}

#[test]
fn find_pair_gives_first_double() {
    assert_eq!(find_pair(b"1::2", b':'), 1);
    assert_eq!(find_pair(b"::", b':'), 0);
    assert_eq!(find_pair(b"1:2:3", b':'), 5);
    assert_eq!(find_pair(b"1:2::3::4", b':'), 3);
    assert_eq!(find_pair(b":", b':'), 1);
    assert_eq!(find_pair(b"", b':'), 0);
    assert_eq!(find_pair(b"1:::2", b':'), 1);
}

#[test]
fn split_on_keeps_empty_pieces() {
    let none: Vec<&[u8]> = vec![b""];
    assert_eq!(split_on(b"", b'.'), none);
    let one: Vec<&[u8]> = vec![b"abc"];
    assert_eq!(split_on(b"abc", b'.'), one);
    let four: Vec<&[u8]> = vec![b"1", b"22", b"", b"4"];
    assert_eq!(split_on(b"1.22..4", b'.'), four);
    let edges: Vec<&[u8]> = vec![b"", b"x", b""];
    assert_eq!(split_on(b".x.", b'.'), edges);
}

#[test]
fn ports_are_decimal_and_fit_sixteen_bits() {
    assert_eq!(parse_port(b"0"), Some(0));
    assert_eq!(parse_port(b"8080"), Some(8080));
    assert_eq!(parse_port(b"65535"), Some(65535));
    assert_eq!(parse_port(b"65536"), None);
    assert_eq!(parse_port(b"99999"), None);
    assert_eq!(parse_port(b"0000000000000000000000080"), Some(80));
    assert_eq!(parse_port(b"00000000000000000000065536"), None);
    assert_eq!(parse_port(b"18446744073709551616"), None);
    assert_eq!(parse_port(b"340282366920938463463374607431768211456"), None);
    assert_eq!(parse_port(b""), None);
    assert_eq!(parse_port(b"+80"), None);
    assert_eq!(parse_port(b"-1"), None);
    assert_eq!(parse_port(b"80 "), None);
    assert_eq!(parse_port(b"8a"), None);
    assert_eq!(parse_port(b"ff"), None);
}

#[test]
fn zone_indexes_are_decimal_and_fit_32_bits() {
    assert_eq!(parse_scope(b"0"), Some(0));
    assert_eq!(parse_scope(b"4294967295"), Some(4294967295));
    assert_eq!(parse_scope(b"4294967296"), None);
    assert_eq!(parse_scope(b"0004294967295"), Some(4294967295));
    assert_eq!(parse_scope(b"eth0"), None);
    assert_eq!(parse_scope(b""), None);
}

#[test]
fn octets_have_no_leading_zero() {
    assert_eq!(parse_octet(b"0"), Some(0));
    assert_eq!(parse_octet(b"7"), Some(7));
    assert_eq!(parse_octet(b"10"), Some(10));
    assert_eq!(parse_octet(b"255"), Some(255));
    assert_eq!(parse_octet(b"256"), None);
    assert_eq!(parse_octet(b"999"), None);
    assert_eq!(parse_octet(b"00"), None);
    assert_eq!(parse_octet(b"01"), None);
    assert_eq!(parse_octet(b"010"), None);
    assert_eq!(parse_octet(b"1000"), None);
    assert_eq!(parse_octet(b"0001"), None);
    assert_eq!(parse_octet(b""), None);
    assert_eq!(parse_octet(b"a"), None);
    assert_eq!(parse_octet(b"1a"), None);
}

#[test]
fn segments_are_up_to_four_hex_digits() {
    assert_eq!(parse_segment(b"0"), Some(0));
    assert_eq!(parse_segment(b"0000"), Some(0));
    assert_eq!(parse_segment(b"1"), Some(1));
    assert_eq!(parse_segment(b"001"), Some(1));
    assert_eq!(parse_segment(b"ffff"), Some(0xffff));
    assert_eq!(parse_segment(b"FFFF"), Some(0xffff));
    assert_eq!(parse_segment(b"aBcD"), Some(0xabcd));
    assert_eq!(parse_segment(b"9f0e"), Some(0x9f0e));
    assert_eq!(parse_segment(b"10000"), None);
    assert_eq!(parse_segment(b"00001"), None);
    assert_eq!(parse_segment(b""), None);
    assert_eq!(parse_segment(b"g"), None);
    assert_eq!(parse_segment(b"0x1"), None);
    assert_eq!(parse_segment(b"@"), None);
    assert_eq!(parse_segment(b"`"), None);
    assert_eq!(parse_segment(b"G"), None);
    assert_eq!(parse_segment(b"/"), None);
    assert_eq!(parse_segment(b":"), None);
}

#[test]
fn dotted_quads() {
    assert_eq!(parse_ipv4(b"127.0.0.1"), Some([127, 0, 0, 1]));
    assert_eq!(parse_ipv4(b"0.0.0.0"), Some([0, 0, 0, 0]));
    assert_eq!(parse_ipv4(b"255.255.255.255"), Some([255, 255, 255, 255]));
    assert_eq!(parse_ipv4(b"1.20.230.4"), Some([1, 20, 230, 4]));
    assert_eq!(parse_ipv4(b"256.0.0.1"), None);
    assert_eq!(parse_ipv4(b"1.2.3"), None);
    assert_eq!(parse_ipv4(b"1.2.3.4.5"), None);
    assert_eq!(parse_ipv4(b"1.2.3."), None);
    assert_eq!(parse_ipv4(b".1.2.3"), None);
    assert_eq!(parse_ipv4(b"1..2.3"), None);
    assert_eq!(parse_ipv4(b"1.2.3.04"), None);
    assert_eq!(parse_ipv4(b"1.2.3.4 "), None);
    assert_eq!(parse_ipv4(b"0x7f.0.0.1"), None);
    assert_eq!(parse_ipv4(b"2130706433"), None);
    assert_eq!(parse_ipv4(b""), None);
}

#[test]
fn runs_of_segments() {
    assert_eq!(parse_segments(b"", false), Some(vec![]));
    assert_eq!(parse_segments(b"", true), Some(vec![]));
    assert_eq!(parse_segments(b"1", false), Some(vec![1]));
    assert_eq!(parse_segments(b"1:a:ff", false), Some(vec![1, 10, 255]));
    assert_eq!(parse_segments(b"1:2:3:4:5:6:7:8:9", true), Some(vec![1, 2, 3, 4, 5, 6, 7, 8, 9]));
    assert_eq!(parse_segments(b"1:1.2.3.4", true), Some(vec![1, 0x0102, 0x0304]));
    assert_eq!(parse_segments(b"1:1.2.3.4", false), None);
    assert_eq!(parse_segments(b"255.254.0.1", true), Some(vec![0xfffe, 0x0001]));
    assert_eq!(parse_segments(b"1.2.3.4:1", true), None);
    assert_eq!(parse_segments(b"1:", true), None);
    assert_eq!(parse_segments(b":1", true), None);
    assert_eq!(parse_segments(b":", true), None);
    assert_eq!(parse_segments(b"1::2", true), None);
}

#[test]
fn ipv6_addresses() {
    assert_eq!(parse_ipv6(b"::"), Some([0; 8]));
    assert_eq!(parse_ipv6(b"::1"), Some([0, 0, 0, 0, 0, 0, 0, 1]));
    assert_eq!(parse_ipv6(b"1::"), Some([1, 0, 0, 0, 0, 0, 0, 0]));
    assert_eq!(parse_ipv6(b"1:2:3:4:5:6:7:8"), Some([1, 2, 3, 4, 5, 6, 7, 8]));
    assert_eq!(
        parse_ipv6(b"2001:0db8:85a3:0000:0000:8a2e:0370:7334"),
        Some([0x2001, 0x0db8, 0x85a3, 0, 0, 0x8a2e, 0x0370, 0x7334])
    );
    assert_eq!(parse_ipv6(b"2001:DB8::8A2E:370:7334"), Some([0x2001, 0xdb8, 0, 0, 0, 0x8a2e, 0x370, 0x7334]));
    assert_eq!(parse_ipv6(b"1:2:3:4:5:6:7::"), Some([1, 2, 3, 4, 5, 6, 7, 0]));
    assert_eq!(parse_ipv6(b"::2:3:4:5:6:7:8"), Some([0, 2, 3, 4, 5, 6, 7, 8]));
    assert_eq!(parse_ipv6(b"1:2:3::6:7:8"), Some([1, 2, 3, 0, 0, 6, 7, 8]));
    assert_eq!(parse_ipv6(b"1:2:3:4::5:6:7"), Some([1, 2, 3, 4, 0, 5, 6, 7]));
    assert_eq!(parse_ipv6(b"::ffff:192.168.0.1"), Some([0, 0, 0, 0, 0, 0xffff, 0xc0a8, 1]));
    assert_eq!(parse_ipv6(b"::192.168.0.1"), Some([0, 0, 0, 0, 0, 0, 0xc0a8, 1]));
    assert_eq!(parse_ipv6(b"1:2:3:4:5:6:1.2.3.4"), Some([1, 2, 3, 4, 5, 6, 0x0102, 0x0304]));
    assert_eq!(parse_ipv6(b"64:ff9b::10.0.0.1"), Some([0x64, 0xff9b, 0, 0, 0, 0, 0x0a00, 1]));
    assert_eq!(parse_ipv6(b"1:2:3:4:5::1.2.3.4"), Some([1, 2, 3, 4, 5, 0, 0x0102, 0x0304]));
    assert_eq!(parse_ipv6(b""), None);
    assert_eq!(parse_ipv6(b":"), None);
    assert_eq!(parse_ipv6(b":::"), None);
    assert_eq!(parse_ipv6(b"1"), None);
    assert_eq!(parse_ipv6(b"1:2:3:4:5:6:7"), None);
    assert_eq!(parse_ipv6(b"1:2:3:4:5:6:7:8:9"), None);
    assert_eq!(parse_ipv6(b"1:2:3:4::5:6:7:8"), None);
    assert_eq!(parse_ipv6(b"1:2:3:4:5:6:7:8::"), None);
    assert_eq!(parse_ipv6(b"::1:2:3:4:5:6:7:8"), None);
    assert_eq!(parse_ipv6(b"1::2::3"), None);
    assert_eq!(parse_ipv6(b"1:::2"), None);
    assert_eq!(parse_ipv6(b":1::2"), None);
    assert_eq!(parse_ipv6(b"1::2:"), None);
    assert_eq!(parse_ipv6(b"12345::"), None);
    assert_eq!(parse_ipv6(b"g::"), None);
    assert_eq!(parse_ipv6(b"1.2.3.4::"), None);
    assert_eq!(parse_ipv6(b"1.2.3.4::1"), None);
    assert_eq!(parse_ipv6(b"::1.2.3.4:1"), None);
    assert_eq!(parse_ipv6(b"1:2:3:4:5:6:7:1.2.3.4"), None);
    assert_eq!(parse_ipv6(b"1:2:3:4:5:1.2.3.4"), None);
    assert_eq!(parse_ipv6(b"1:2:3:4:5:6::1.2.3.4"), None);
    assert_eq!(parse_ipv6(b"::1.2.3"), None);
    assert_eq!(parse_ipv6(b"::1.2.3.256"), None);
    assert_eq!(parse_ipv6(b"::01.2.3.4"), None);
    assert_eq!(parse_ipv6(b"1.2.3.4"), None);
    assert_eq!(parse_ipv6(b"::1%1"), None);
    assert_eq!(parse_ipv6(b"[::1]"), None);
}

#[test]
fn ipv4_socket_addresses() {
    assert_eq!(read("127.0.0.1:8080"), v4(127, 0, 0, 1, 8080));
    assert_eq!(read("0.0.0.0:0"), v4(0, 0, 0, 0, 0));
    assert_eq!(read("255.255.255.255:65535"), v4(255, 255, 255, 255, 65535));
    assert_eq!(read("77.88.21.11:0080"), v4(77, 88, 21, 11, 80));
    assert_eq!(parse_socket_v4(b"10.0.0.1:3128"), v4(10, 0, 0, 1, 3128).ok());
    assert_eq!(parse_socket_v4(b"[::1]:3128"), None);
    for bad in [
        "", ":", "10.0.0.1", "10.0.0.1:", ":80", "10.0.0.1:99999", "10.0.0.1:65536", "10.0.0.1:-1",
        "10.0.0.1:+1", "10.0.0.1: 80", " 10.0.0.1:80", "10.0.0.1:80 ", "10.0.0.1::80",
        "10.0.0.1:80:80", "10.0.0:80", "10.0.0.0.1:80", "10.0.0.256:80", "10.0.0.01:80",
        "010.0.0.1:80", "10.0.0.1.:80", "localhost:80", "example.com:80", "not-an-address",
        "badhost", "10.0.0.1:http", "10.0.0.1:0x50", "http://10.0.0.1:80", "10.0.0.1:80/",
        "10,0,0,1:80", "10.0.0.1;80", "::1:80", "1:2:3:4:5:6:7:8:80",
    ] {
        assert_eq!(read(bad), Err(AddrParseError), "{:?}", bad);
    }
}

#[test]
fn ipv6_socket_addresses() {
    assert_eq!(read("[::1]:3128"), v6([0, 0, 0, 0, 0, 0, 0, 1], 3128));
    assert_eq!(read("[::]:0"), v6([0; 8], 0));
    assert_eq!(read("[1:2:3:4:5:6:7:8]:65535"), v6([1, 2, 3, 4, 5, 6, 7, 8], 65535));
    assert_eq!(read("[2a02:6b8:0:1::1]:53"), v6([0x2a02, 0x6b8, 0, 1, 0, 0, 0, 1], 53));
    assert_eq!(read("[::127.0.0.1]:22"), v6([0, 0, 0, 0, 0, 0, 0x7f00, 1], 22));
    assert_eq!(read("[fe80::1%0]:80"), v6([0xfe80, 0, 0, 0, 0, 0, 0, 1], 80));
    assert_eq!(read("[fe80::1%4294967295]:80"), v6([0xfe80, 0, 0, 0, 0, 0, 0, 1], 80));
    assert_eq!(read("[::1.2.3.4%007]:080"), v6([0, 0, 0, 0, 0, 0, 0x0102, 0x0304], 80));
    assert_eq!(
        parse_socket_v6(b"[ff02::2]:1"),
        v6([0xff02, 0, 0, 0, 0, 0, 0, 2], 1).ok()
    );
    assert_eq!(parse_socket_v6(b"127.0.0.1:1"), None);
    for bad in [
        "[", "]", "[]", "[]:80", "[::1]", "[::1]:", "[::1]80", "[::1]:65536", "[::1]::80",
        "[::1]:80:", "[::1:80", "::1]:80", "[[::1]]:80", "[::1]]:80", "[::1] :80", "[ ::1]:80",
        "[::1 ]:80", "[::1%]:80", "[::1%eth0]:80", "[::1%4294967296]:80", "[::1%1%2]:80",
        "[::1%-1]:80", "[%1]:80", "[::1]%1:80", "[1:2:3:4:5:6:7]:80", "[1:2:3:4:5:6:7:8:9]:80",
        "[12345::]:80", "[::g]:80", "[1.2.3.4]:80", "[127.0.0.1]:80", "[::1]:80]", "x[::1]:80",
        "[::1]:80x", "[:::]:80", "[::1::]:80",
    ] {
        assert_eq!(read(bad), Err(AddrParseError), "{:?}", bad);
    }
}

#[test]
fn every_port_is_read_back() {
    for port in 0..=u16::MAX {
        let text = format!("192.0.2.1:{}", port);
        assert_eq!(read(&text), v4(192, 0, 2, 1, port));
        let text = format!("[2001:db8::1]:{}", port);
        assert_eq!(read(&text), v6([0x2001, 0xdb8, 0, 0, 0, 0, 0, 1], port));
    }
    for port in 65536u32..70000 {
        assert_eq!(read(&format!("192.0.2.1:{}", port)), Err(AddrParseError));
    }
}

#[test]
fn every_octet_is_read_back() {
    for value in 0..=255u8 {
        let text = format!("{}.{}.{}.{}:1", value, 255 - value, value / 2, value);
        assert_eq!(read(&text), v4(value, 255 - value, value / 2, value, 1));
    }
    for value in 256u32..1000 {
        assert_eq!(read(&format!("1.2.3.{}:1", value)), Err(AddrParseError));
    }
}

#[test]
fn segments_in_full_form_are_read_back() {
    let mut seed: u32 = 0x9e37_79b9;
    for _ in 0..2000 {
        let mut segments = [0u16; 8];
        for slot in segments.iter_mut() {
            seed = seed.wrapping_mul(1_664_525).wrapping_add(1_013_904_223);
            *slot = (seed >> 16) as u16;
        }
        let words: Vec<String> = segments.iter().map(|s| format!("{:x}", s)).collect();
        let text = format!("[{}]:443", words.join(":"));
        assert_eq!(read(&text), v6(segments, 443));
        let words: Vec<String> = segments.iter().map(|s| format!("{:04X}", s)).collect();
        let text = format!("[{}]:443", words.join(":"));
        assert_eq!(read(&text), v6(segments, 443));
    }
}
