use hyper_networklistener_proxy::proxy_listener::ProxyListener;
use hyper_networklistener_proxy::proxy_protocol::{
    decode, decode_any, decode_v1, decode_v2, read_to_crlf, Command, HostErrorKind, IpAddress,
    Proto, ProxyProtocolHeader, ProxyProtocolVersion, ProxyReadError, SocketAddress,
};
use hyper_networklistener_proxy::proxy_stream::{BufferSource, ByteSource, ProxyStream};
use hyper_networklistener_proxy::text::{parse_ip, parse_port};

fn v4(a: u8, b: u8, c: u8, d: u8, port: u16) -> SocketAddress {
    SocketAddress { ip: IpAddress::V4(a, b, c, d), port }
}

fn v6(g: [u16; 8], port: u16) -> SocketAddress {
    SocketAddress { ip: IpAddress::V6(g[0], g[1], g[2], g[3], g[4], g[5], g[6], g[7]), port }
}

const V2_TCP4: &[u8] = b"\x0d\x0a\x0d\x0a\x00\x0d\x0a\x51\x55\x49\x54\x0a\x21\x11\x00\x0c\x0a\x0b\x0c\x0d\x7f\x00\x00\x01\x22\xb8\x27\x0f";
const V2_TCP6: &[u8] = b"\x0d\x0a\x0d\x0a\x00\x0d\x0a\x51\x55\x49\x54\x0a\x21\x21\x00\x24\xfd\x00\x00\x00\x00\x00\x00\x00\x00\x00\x00\x00\x00\x00\x00\x01\x00\x00\x00\x00\x00\x00\x00\x00\x00\x00\x00\x00\x00\x00\x00\x01\x22\xb8\x27\x0f";

#[derive(Debug)]
struct Cursor {
    data: Vec<u8>,
    pos: usize,
}

impl ByteSource for Cursor {
    fn read_byte(&mut self) -> Option<u8> {
        if self.pos < self.data.len() {
            self.pos += 1;
            Some(self.data[self.pos - 1])
        } else {
            None
        }
    }
}

fn header(r: Result<(ProxyProtocolHeader, usize), ProxyReadError>) -> ProxyProtocolHeader {
    r.expect("Should parse").0
}

#[test]
fn test_proxy_protocol_v1_spec_vectors() {
    let ff = [0xffffu16; 8];
    let vectors = vec![
        (b"PROXY TCP4 255.255.255.255 255.255.255.255 65535 65535\r\n".to_vec(),
         ProxyProtocolHeader::new(1, Proto::Tcp4, v4(255, 255, 255, 255, 65535), v4(255, 255, 255, 255, 65535))),
        (b"PROXY TCP6 ffff:ffff:ffff:ffff:ffff:ffff:ffff:ffff ffff:ffff:ffff:ffff:ffff:ffff:ffff:ffff 65535 65535\r\n".to_vec(),
         ProxyProtocolHeader::new(1, Proto::Tcp6, v6(ff, 65535), v6(ff, 65535))),
        (b"PROXY UNKNOWN\r\n".to_vec(), ProxyProtocolHeader::new_unknown(1)),
        (b"PROXY TCP4 192.168.0.1 192.168.0.11 56324 443\r\n".to_vec(),
         ProxyProtocolHeader::new(1, Proto::Tcp4, v4(192, 168, 0, 1, 56324), v4(192, 168, 0, 11, 443))),
    ];
    for (bytestr, expected) in vectors {
        let r = header(decode_v1(&bytestr));
        assert_eq!(r, expected);
    }
}

#[test]
fn test_proxy_protocol_v1_failure_cases() {
    assert!(decode_v1(b"").is_err());
    assert!(decode_v1(b"\r\n").is_err());
    assert!(decode_v1(b"proxy tcp4 255.255.255.255 255.255.255.255 0 0\r\n").is_err());
}

#[test]
fn test_proxy_protocol_v2_vectors() {
    let vectors = vec![
        (V2_TCP4.to_vec(), ProxyProtocolHeader::new(2, Proto::Tcp4, v4(10, 11, 12, 13, 8888), v4(127, 0, 0, 1, 9999))),
        (V2_TCP6.to_vec(), ProxyProtocolHeader::new(2, Proto::Tcp6, v6([0xfd00, 0, 0, 0, 0, 0, 0, 1], 8888), v6([0, 0, 0, 0, 0, 0, 0, 1], 9999))),
    ];
    for (bytestr, expected) in vectors {
        let r = header(decode_v2(&bytestr));
        assert_eq!(r, expected);
    }
}

#[test]
fn test_proxy_protocol_v2_failure_cases() {
    assert!(decode_v2(b"").is_err());
    assert!(decode_v2(b"\x0d\x0a\x0d\x0a\x00\x0d\x0a\x51\x55\x49\x54\x0a").is_err());
}

#[test]
fn test_proxy_protocol_any() {
    let vectors = vec![
        (b"PROXY TCP4 192.168.0.1 192.168.0.11 56324 443\r\n".to_vec(),
         ProxyProtocolHeader::new(1, Proto::Tcp4, v4(192, 168, 0, 1, 56324), v4(192, 168, 0, 11, 443))),
        (V2_TCP4.to_vec(), ProxyProtocolHeader::new(2, Proto::Tcp4, v4(10, 11, 12, 13, 8888), v4(127, 0, 0, 1, 9999))),
    ];
    for (bytestr, expected) in vectors {
        let r = decode_any(&bytestr).expect("should parse").0;
        assert_eq!(r, expected);
    }
}

#[test]
fn test_basic() {
    let listener = ProxyListener::new((), ProxyProtocolVersion::V1);
    let mut data = b"PROXY TCP4 127.0.0.1 127.0.0.2 2020 3030\r\n".to_vec();
    data.extend_from_slice(b"GET / HTTP/1.1\r\n\r\n");
    let mut conn = listener.decorate(Cursor { data, pos: 0 }).expect("should be able to accept a connection");
    assert_eq!(conn.peer_addr(), Some(v4(127, 0, 0, 1, 2020)));
    let mut body = Vec::new();
    while let Some(b) = conn.get_mut().read_byte() {
        body.push(b);
    }
    assert_eq!(body, b"GET / HTTP/1.1\r\n\r\n".to_vec());
    assert_eq!(conn.header().len(), 42);
}

#[test]
fn v1_tcp4_reproduces_fields() {
    let (h, n) = decode_v1(b"PROXY TCP4 1.2.3.4 0.0.0.0 0 65535\r\n").unwrap();
    assert_eq!(h.proto, Proto::Tcp4);
    assert_eq!(h.command, Command::Proxy);
    assert_eq!(h.version, 1);
    assert_eq!(h.source_addr, Some(v4(1, 2, 3, 4, 0)));
    assert_eq!(h.dest_addr, Some(v4(0, 0, 0, 0, 65535)));
    assert_eq!(n, 36);
}

#[test]
fn v1_unknown_has_no_addresses() {
    let (h, n) = decode_v1(b"PROXY UNKNOWN\r\n").unwrap();
    assert_eq!(h.proto, Proto::Unknown);
    assert_eq!(h.command, Command::Unspec);
    assert_eq!(h.source_addr, None);
    assert_eq!(h.dest_addr, None);
    assert_eq!(n, 15);
    let (h2, _) = decode_v1(b"PROXY UNKNOWN ffff::1 ::1 1 2\r\n").unwrap();
    assert_eq!(h2, ProxyProtocolHeader::new_unknown(1));
}

#[test]
fn v1_literals_are_case_sensitive() {
    assert_eq!(decode_v1(b"PROXY tcp4 1.2.3.4 1.2.3.4 1 2\r\n"), Err(ProxyReadError::MissingLiteral));
    assert_eq!(decode_v1(b"Proxy TCP4 1.2.3.4 1.2.3.4 1 2\r\n"), Err(ProxyReadError::MissingLiteral));
    assert_eq!(decode_v1(b"proxy TCP4 1.2.3.4 1.2.3.4 1 2\r\n"), Err(ProxyReadError::MissingFirstByte));
    assert_eq!(decode_v1(b""), Err(ProxyReadError::Io));
    assert_eq!(decode_v1(b"\r\n"), Err(ProxyReadError::MissingFirstByte));
}

#[test]
fn v1_error_variants() {
    assert_eq!(decode_v1(b"PROXY TCP4\r\n"), Err(ProxyReadError::MissingField));
    assert_eq!(decode_v1(b"PROXY TCP4 1.2.3.4 5.6.7.8 80\r\n"), Err(ProxyReadError::MissingField));
    assert_eq!(decode_v1(b"PROXY TCP5 1.2.3.4 5.6.7.8 80 81\r\n"), Err(ProxyReadError::MissingLiteral));
    assert_eq!(decode_v1(b"PROXY TCP4 1.2.3.256 5.6.7.8 80 81\r\n"), Err(ProxyReadError::BadSourceAddress));
    assert_eq!(decode_v1(b"PROXY TCP4 1.2.3.4 5.6.7 80 81\r\n"), Err(ProxyReadError::BadDestAddress));
    assert_eq!(decode_v1(b"PROXY TCP4 1.2.3.4 5.6.7.8 65536 81\r\n"), Err(ProxyReadError::BadSourcePort));
    assert_eq!(decode_v1(b"PROXY TCP4 1.2.3.4 5.6.7.8 80 -1\r\n"), Err(ProxyReadError::BadDestPort));
    assert_eq!(decode_v1(b"PROXY TCP4 \xff 5.6.7.8 80 81\r\n"), Err(ProxyReadError::Utf8));
    assert_eq!(decode_v1("PROXY TCP4 \u{e9} 5.6.7.8 80 81\r\n".as_bytes()), Err(ProxyReadError::BadSourceAddress));
    assert_eq!(decode_v1(b"PROXY TCP4 \xc0\x80 5.6.7.8 80 81\r\n"), Err(ProxyReadError::Utf8));
    assert_eq!(decode_v1(b"PROXY TCP4 \xed\xa0\x80 5.6.7.8 80 81\r\n"), Err(ProxyReadError::Utf8));
    assert_eq!(decode_v1("PROXY TCP4 \u{10ffff} 5.6.7.8 80 81\r\n".as_bytes()), Err(ProxyReadError::BadSourceAddress));
    assert_eq!(decode_v1(b"PROXY UNKNOWN \xff\r\n"), Err(ProxyReadError::Utf8));
    assert_eq!(decode_v1(b"PROXY TCP4 1.2.3.4"), Err(ProxyReadError::Io));
    assert_eq!(decode_v1(&[b'P'; 200]), Err(ProxyReadError::MissingCrlf));
}

#[test]
fn v1_crlf_position() {
    assert_eq!(read_to_crlf(b"PROXY UNKNOWN\r\nabc"), Ok(13));
    assert_eq!(read_to_crlf(b"PROXY"), Err(ProxyReadError::Io));
    let mut long = vec![b'a'; 105];
    long.extend_from_slice(b"\r\n");
    assert_eq!(read_to_crlf(&long), Ok(105));
    let mut too_long = vec![b'a'; 106];
    too_long.extend_from_slice(b"\r\n");
    assert_eq!(read_to_crlf(&too_long), Err(ProxyReadError::MissingCrlf));
}

#[test]
fn v1_ipv6_forms() {
    let (h, _) = decode_v1(b"PROXY TCP6 fd00::1 ::1 8888 9999\r\n").unwrap();
    assert_eq!(h.source_addr, Some(v6([0xfd00, 0, 0, 0, 0, 0, 0, 1], 8888)));
    assert_eq!(h.dest_addr, Some(v6([0, 0, 0, 0, 0, 0, 0, 1], 9999)));
    assert_eq!(parse_ip(b"::"), Some(IpAddress::V6(0, 0, 0, 0, 0, 0, 0, 0)));
    assert_eq!(parse_ip(b"1:2:3:4:5:6:7::"), Some(IpAddress::V6(1, 2, 3, 4, 5, 6, 7, 0)));
    assert_eq!(parse_ip(b"1:2:3:4:5:6:7:8::"), None);
    assert_eq!(parse_ip(b"1::2::3"), None);
    assert_eq!(parse_ip(b"12345::"), None);
    assert_eq!(parse_ip(b"ABCD::Ef"), Some(IpAddress::V6(0xabcd, 0, 0, 0, 0, 0, 0, 0xef)));
    assert_eq!(parse_ip(b"::ffff:10.0.0.1"), Some(IpAddress::V6(0, 0, 0, 0, 0, 0xffff, 0x0a00, 0x0001)));
    assert_eq!(parse_ip(b"1:2:3:4:5:6:1.2.3.4"), Some(IpAddress::V6(1, 2, 3, 4, 5, 6, 0x0102, 0x0304)));
    assert_eq!(parse_ip(b"1.2.3.4::"), None);
    assert_eq!(parse_ip(b"::1.2.3.4:5"), None);
    assert_eq!(parse_ip(b"1:2:3:4:5:6:7:1.2.3.4"), None);
    assert_eq!(parse_ip(b"1:2:3:4:5:6:7:8:9"), None);
}

#[test]
fn text_numbers() {
    assert_eq!(parse_port(b"+80"), Some(80));
    assert_eq!(parse_port(b"0080"), Some(80));
    assert_eq!(parse_port(b"+"), None);
    assert_eq!(parse_port(b""), None);
    assert_eq!(parse_port(b"99999999999"), None);
    assert_eq!(parse_ip(b"01.2.3.4"), None);
    assert_eq!(parse_ip(b"0.10.100.200"), Some(IpAddress::V4(0, 10, 100, 200)));
}

#[test]
fn v2_scenario_fields() {
    let (h, n) = decode_v2(V2_TCP4).unwrap();
    assert_eq!(h.version, 2);
    assert_eq!(h.proto, Proto::Tcp4);
    assert_eq!(h.command, Command::Proxy);
    assert_eq!(h.source_addr, Some(v4(10, 11, 12, 13, 8888)));
    assert_eq!(h.dest_addr, Some(v4(127, 0, 0, 1, 9999)));
    assert_eq!(n, 28);
}

#[test]
fn v2_ipv6_groups_in_order() {
    let mut bytes = V2_TCP6[..16].to_vec();
    for i in 0..16u8 {
        bytes.push(i);
    }
    bytes.extend_from_slice(&[0u8; 16]);
    bytes.extend_from_slice(&[0, 1, 0, 2]);
    let (h, n) = decode_v2(&bytes).unwrap();
    assert_eq!(n, 52);
    assert_eq!(h.source_addr, Some(v6([0x0001, 0x0203, 0x0405, 0x0607, 0x0809, 0x0a0b, 0x0c0d, 0x0e0f], 1)));
    assert_eq!(h.dest_addr, Some(v6([0; 8], 2)));
}

#[test]
fn v2_truncated_is_io() {
    for len in 0..16 {
        assert_eq!(decode_v2(&V2_TCP4[..len]), Err(ProxyReadError::Io));
    }
    assert_eq!(decode_v2(&V2_TCP4[..27]), Err(ProxyReadError::Io));
}

#[test]
fn v2_error_variants() {
    let mut bad_magic = V2_TCP4.to_vec();
    bad_magic[11] = 0x0b;
    assert_eq!(decode_v2(&bad_magic), Err(ProxyReadError::MissingLiteral));
    let mut bad_version = V2_TCP4.to_vec();
    bad_version[12] = 0x11;
    assert_eq!(decode_v2(&bad_version), Err(ProxyReadError::BadVersion));
    let mut bad_command = V2_TCP4.to_vec();
    bad_command[12] = 0x22;
    assert_eq!(decode_v2(&bad_command), Err(ProxyReadError::InvalidProtocol));
    let mut bad_family = V2_TCP4.to_vec();
    bad_family[13] = 0x41;
    assert_eq!(decode_v2(&bad_family), Err(ProxyReadError::InvalidProtocol));
    let mut dgram = V2_TCP4.to_vec();
    dgram[13] = 0x12;
    assert_eq!(decode_v2(&dgram), Err(ProxyReadError::InvalidProtocol));
    let mut too_long = V2_TCP4.to_vec();
    too_long[14] = 0x00;
    too_long[15] = 217;
    assert_eq!(decode_v2(&too_long), Err(ProxyReadError::InvalidProtocol));
    let mut short_block = V2_TCP4.to_vec();
    short_block[15] = 8;
    assert_eq!(decode_v2(&short_block), Err(ProxyReadError::InvalidProtocol));
}

#[test]
fn v2_local_and_unspec() {
    let mut local = V2_TCP4[..16].to_vec();
    local[12] = 0x20;
    local[13] = 0x00;
    local[15] = 3;
    local.extend_from_slice(&[9, 9, 9, 7, 7]);
    let (h, n) = decode_v2(&local).unwrap();
    assert_eq!(h, ProxyProtocolHeader::new_unknown(2));
    assert_eq!(n, 19);
    let mut unix = V2_TCP4.to_vec();
    unix[13] = 0x31;
    assert_eq!(decode_v2(&unix).unwrap().0, ProxyProtocolHeader::new_unknown(2));
}

#[test]
fn any_matches_direct_decoders() {
    let v1 = b"PROXY TCP4 192.168.0.1 192.168.0.11 56324 443\r\n";
    assert_eq!(decode_any(v1), decode_v1(v1));
    assert_eq!(decode_any(V2_TCP4), decode_v2(V2_TCP4));
    assert_eq!(decode_any(V2_TCP6), decode_v2(V2_TCP6));
    assert_eq!(decode_any(b"GET / HTTP/1.1\r\n"), Err(ProxyReadError::MissingFirstByte));
    assert_eq!(decode_any(b""), Err(ProxyReadError::Io));
    assert_eq!(decode(ProxyProtocolVersion::Any, V2_TCP4), decode_v2(V2_TCP4));
    assert_eq!(decode(ProxyProtocolVersion::V1, v1), decode_v1(v1));
}

#[test]
fn no_over_read_into_application_bytes() {
    let mut v1 = b"PROXY TCP4 1.2.3.4 5.6.7.8 80 81\r\n".to_vec();
    let header_len = v1.len();
    let alone = decode_v1(&v1);
    v1.extend_from_slice(b"\r\nmore data");
    assert_eq!(decode_v1(&v1), alone);
    assert_eq!(alone.unwrap().1, header_len);
    let mut v2 = V2_TCP4.to_vec();
    v2.extend_from_slice(b"PROXY TCP4");
    assert_eq!(decode_v2(&v2), decode_v2(V2_TCP4));
    assert_eq!(decode_v2(&v2).unwrap().1, V2_TCP4.len());
}

#[test]
fn stream_keeps_application_bytes_v2() {
    let mut data = V2_TCP4.to_vec();
    data.extend_from_slice(b"hello");
    let mut s = ProxyStream::from_stream(Cursor { data, pos: 0 }, ProxyProtocolVersion::Any).unwrap();
    assert_eq!(s.peer_addr(), Some(v4(10, 11, 12, 13, 8888)));
    assert_eq!(s.get_mut().pos, V2_TCP4.len());
    assert_eq!(s.into_inner().data.len(), V2_TCP4.len() + 5);
}

#[test]
fn stream_failures() {
    let r = ProxyStream::from_stream(Cursor { data: b"PROXY TCP4 1.2".to_vec(), pos: 0 }, ProxyProtocolVersion::V1);
    let f = r.err().unwrap();
    assert_eq!(f.error, ProxyReadError::Io);
    assert_eq!(f.read, b"PROXY TCP4 1.2".to_vec());
    let r = ProxyStream::from_stream(Cursor { data: b"HELLO".to_vec(), pos: 0 }, ProxyProtocolVersion::Any);
    let f = r.err().unwrap();
    assert_eq!(f.error, ProxyReadError::MissingFirstByte);
    assert_eq!(f.read, b"H".to_vec());
    assert_eq!(f.source.pos, 1);
    let r = ProxyStream::from_stream(Cursor { data: b"PROXY UNKNOWN\r\nx".to_vec(), pos: 0 }, ProxyProtocolVersion::V1);
    let s = r.ok().unwrap();
    assert_eq!(s.peer_addr(), None);
    assert_eq!(s.get_ref().pos, 15);
}

#[test]
fn stream_failures_consume_only_what_decides() {
    let mut long = vec![b'P'; 300];
    long.extend_from_slice(b"\r\n");
    let f = ProxyStream::from_stream(BufferSource::new(long), ProxyProtocolVersion::V1).err().unwrap();
    assert_eq!(f.error, ProxyReadError::MissingCrlf);
    assert_eq!(f.read.len(), 107);

    let mut bad_magic = V2_TCP4.to_vec();
    bad_magic[3] = 0;
    let f = ProxyStream::from_stream(BufferSource::new(bad_magic), ProxyProtocolVersion::V2).err().unwrap();
    assert_eq!(f.error, ProxyReadError::MissingLiteral);
    assert_eq!(f.read.len(), 16);

    let mut oversized = V2_TCP4.to_vec();
    oversized[14] = 0xff;
    let f = ProxyStream::from_stream(BufferSource::new(oversized), ProxyProtocolVersion::Any).err().unwrap();
    assert_eq!(f.error, ProxyReadError::InvalidProtocol);
    assert_eq!(f.read.len(), 16);

    let f = ProxyStream::from_stream(BufferSource::new(b"PROXY TCP4 1.2.3.4 5.6.7.8 80 x\r\nrest".to_vec()), ProxyProtocolVersion::V1).err().unwrap();
    assert_eq!(f.error, ProxyReadError::BadDestPort);
    assert_eq!(f.read, b"PROXY TCP4 1.2.3.4 5.6.7.8 80 x\r\n".to_vec());
    let mut src = f.source;
    assert_eq!(src.read_byte(), Some(b'r'));
}

#[test]
fn buffer_source_leaves_application_bytes() {
    let mut data = b"PROXY TCP6 ::1 ::2 1 2\r\n".to_vec();
    data.extend_from_slice(b"ab");
    let mut s = ProxyStream::from_stream(BufferSource::new(data), ProxyProtocolVersion::Any).ok().unwrap();
    assert_eq!(s.header(), &b"PROXY TCP6 ::1 ::2 1 2\r\n".to_vec());
    assert_eq!(s.peer_addr(), Some(v6([0, 0, 0, 0, 0, 0, 0, 1], 1)));
    assert_eq!(s.get_mut().read_byte(), Some(b'a'));
    let mut inner = s.into_inner();
    assert_eq!(inner.read_byte(), Some(b'b'));
    assert_eq!(inner.read_byte(), None);
}

#[test]
fn listener_keeps_version() {
    let mut l = ProxyListener::new(7u32, ProxyProtocolVersion::V2);
    assert_eq!(l.version(), ProxyProtocolVersion::V2);
    assert_eq!(*l.get_ref(), 7);
    *l.get_mut() = 8;
    assert_eq!(*l.get_ref(), 8);
}

#[test]
fn host_error_kinds() {
    assert_eq!(ProxyReadError::Io.host_error_kind(), HostErrorKind::Io);
    assert_eq!(ProxyReadError::Utf8.host_error_kind(), HostErrorKind::Utf8);
    assert_eq!(ProxyReadError::BadVersion.host_error_kind(), HostErrorKind::Version);
    assert_eq!(ProxyReadError::MissingCrlf.host_error_kind(), HostErrorKind::Version);
}
