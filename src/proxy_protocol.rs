use vstd::prelude::*;
use byteorder::ByteOrder;
use crate::text::{
    dec_text, free_of, ip_of, ipv4_text, lemma_dec_text, lemma_digits_free, lemma_ipv4_text,
    lemma_port_text, lemma_split_first, lemma_split_whole, parse_ip, parse_port, port_of, split,
    split_bytes, views,
};

verus! {

/// Which version of the PROXY protocol header to expect on an accepted connection.
/// `Any` looks at the first byte to tell the two apart.
#[derive(Debug, Clone, Copy, PartialEq, Eq, Structural)]
pub enum ProxyProtocolVersion {
    V1,
    V2,
    Any,
}

/// Transport and address family declared by a header.
#[derive(Debug, Clone, Copy, PartialEq, Eq, Structural)]
pub enum Proto {
    Tcp4,
    Tcp6,
    Unix,
    Unknown,
}

/// Whether the header describes a forwarded connection (`Proxy`), a connection made
/// by the balancer itself (`Local`), or nothing known (`Unspec`).
#[derive(Debug, Clone, Copy, PartialEq, Eq, Structural)]
pub enum Command {
    Local,
    Proxy,
    Unspec,
}

/// An IP address: four octets, or eight 16-bit groups, most significant first.
#[derive(Debug, Clone, Copy, PartialEq, Eq, Structural)]
pub enum IpAddress {
    V4(u8, u8, u8, u8),
    V6(u16, u16, u16, u16, u16, u16, u16, u16),
}

/// An IP address with a port.
#[derive(Debug, Clone, Copy, PartialEq, Eq, Structural)]
pub struct SocketAddress {
    pub ip: IpAddress,
    pub port: u16,
}

/// Ways in which reading a header can fail.
#[derive(Debug, Clone, Copy, PartialEq, Eq, Structural)]
pub enum ProxyReadError {
    MissingField,
    MissingLiteral,
    InvalidProtocol,
    MissingCrlf,
    MissingFirstByte,
    BadVersion,
    BadSourceAddress,
    BadSourcePort,
    BadDestAddress,
    BadDestPort,
    /// The input ended before the header was complete.
    Io,
    /// The v1 header line is not valid UTF-8.
    Utf8,
}

/// The kinds of error that a connection layer above this one reports: a failed
/// read, text that is not UTF-8, or a protocol violation.
#[derive(Debug, Clone, Copy, PartialEq, Eq, Structural)]
pub enum HostErrorKind {
    Io,
    Utf8,
    Version,
}

impl ProxyReadError {
    /// The kind of connection error under which this decode failure is reported.
    pub fn host_error_kind(&self) -> (r: HostErrorKind)
        ensures
            r == (match *self {
                ProxyReadError::Io => HostErrorKind::Io,
                ProxyReadError::Utf8 => HostErrorKind::Utf8,
                _ => HostErrorKind::Version,
            }),
    {
        match self {
            ProxyReadError::Io => HostErrorKind::Io,
            ProxyReadError::Utf8 => HostErrorKind::Utf8,
            _ => HostErrorKind::Version,
        }
    }
}

/// A decoded header.
#[derive(Debug, Clone, Copy, PartialEq, Eq, Structural)]
pub struct ProxyProtocolHeader {
    pub version: u8,
    pub proto: Proto,
    pub command: Command,
    pub source_addr: Option<SocketAddress>,
    pub dest_addr: Option<SocketAddress>,
}

/// A decoded header together with the number of input bytes that it took up.
pub type Decoded = Result<(ProxyProtocolHeader, usize), ProxyReadError>;

/// Size of the fixed part of a v2 header.
pub const V2_FIXED_LEN: usize = 16;

/// Largest v2 address block that is accepted.
pub const V2_MAX_ADDR_LEN: usize = 216;

impl ProxyProtocolHeader {
    /// Endpoints are present exactly for the TCP protocols.
    pub open spec fn well_formed(&self) -> bool {
        &&& self.source_addr.is_some() == (self.proto == Proto::Tcp4 || self.proto == Proto::Tcp6)
        &&& self.dest_addr.is_some() == self.source_addr.is_some()
    }

    pub open spec fn spec_new(version: u8, proto: Proto, command: Command, source_addr: SocketAddress, dest_addr: SocketAddress) -> Self {
        ProxyProtocolHeader {
            version,
            proto,
            command,
            source_addr: Some(source_addr),
            dest_addr: Some(dest_addr),
        }
    }

    pub open spec fn spec_unknown(version: u8) -> Self {
        ProxyProtocolHeader {
            version,
            proto: Proto::Unknown,
            command: Command::Unspec,
            source_addr: None,
            dest_addr: None,
        }
    }

    /// A header for a forwarded connection between two endpoints.
    pub fn new(version: u8, proto: Proto, source_addr: SocketAddress, dest_addr: SocketAddress) -> (r: Self)
        ensures
            r == Self::spec_new(version, proto, Command::Proxy, source_addr, dest_addr),
    {
        Self::new_with_command(version, proto, Command::Proxy, source_addr, dest_addr)
    }

    /// A header with endpoints and the given command.
    pub fn new_with_command(
        version: u8,
        proto: Proto,
        command: Command,
        source_addr: SocketAddress,
        dest_addr: SocketAddress,
    ) -> (r: Self)
        ensures
            r == Self::spec_new(version, proto, command, source_addr, dest_addr),
    {
        ProxyProtocolHeader {
            version,
            proto,
            command,
            source_addr: Some(source_addr),
            dest_addr: Some(dest_addr),
        }
    }

    /// A header that carries no endpoints.
    pub fn new_unknown(version: u8) -> (r: Self)
        ensures
            r == Self::spec_unknown(version),
    {
        ProxyProtocolHeader {
            version,
            proto: Proto::Unknown,
            command: Command::Unspec,
            source_addr: None,
            dest_addr: None,
        }
    }

    /// The source endpoint, where the header has one.
    pub fn source_addr(&self) -> (r: Option<SocketAddress>)
        ensures
            r == self.source_addr,
    {
        self.source_addr
    }
}

/// The big-endian value of two bytes.
pub open spec fn be16(hi: u8, lo: u8) -> u16 {
    (hi as int * 256 + lo as int) as u16
}

/// Relies on byteorder's `NetworkEndian::read_u16`: the first two bytes, big-endian.
/// It panics on a shorter slice.
#[verifier::external_body]
fn read_be16(buf: &[u8]) -> (r: u16)
    requires
        buf@.len() >= 2,
    ensures
        r == be16(buf@[0], buf@[1]),
{
    byteorder::NetworkEndian::read_u16(buf)
}

/// The 12-byte signature that opens a v2 header.
pub open spec fn v2_magic() -> Seq<u8> {
    seq![0x0Du8, 0x0Au8, 0x0Du8, 0x0Au8, 0x00u8, 0x0Du8, 0x0Au8, 0x51u8, 0x55u8, 0x49u8, 0x54u8, 0x0Au8]
}

/// The v2 IPv4 endpoint whose address starts at `a` and whose port starts at `p`.
pub open spec fn v4_endpoint(s: Seq<u8>, a: int, p: int) -> SocketAddress {
    SocketAddress {
        ip: IpAddress::V4(s[a], s[a + 1], s[a + 2], s[a + 3]),
        port: be16(s[p], s[p + 1]),
    }
}

/// The 16-bit group of an IPv6 address that starts at `a + 2 * k`.
pub open spec fn group_at(s: Seq<u8>, a: int, k: int) -> u16 {
    be16(s[a + 2 * k], s[a + 2 * k + 1])
}

/// The v2 IPv6 endpoint whose address starts at `a` and whose port starts at `p`.
pub open spec fn v6_endpoint(s: Seq<u8>, a: int, p: int) -> SocketAddress {
    SocketAddress {
        ip: IpAddress::V6(
            group_at(s, a, 0),
            group_at(s, a, 1),
            group_at(s, a, 2),
            group_at(s, a, 3),
            group_at(s, a, 4),
            group_at(s, a, 5),
            group_at(s, a, 6),
            group_at(s, a, 7),
        ),
        port: be16(s[p], s[p + 1]),
    }
}

/// What decoding a v2 header from the front of `s` gives.
pub open spec fn v2_spec(s: Seq<u8>) -> Decoded {
    if s.len() < 16 {
        Err(ProxyReadError::Io)
    } else if s.subrange(0, 12) != v2_magic() {
        Err(ProxyReadError::MissingLiteral)
    } else if s[12] / 16 != 2 {
        Err(ProxyReadError::BadVersion)
    } else if s[12] % 16 > 1 || s[13] / 16 > 3 || s[13] % 16 > 2 {
        Err(ProxyReadError::InvalidProtocol)
    } else {
        let len = be16(s[14], s[15]) as int;
        let family = s[13] / 16;
        let command = if s[12] % 16 == 0 { Command::Local } else { Command::Proxy };
        if len > 216 {
            Err(ProxyReadError::InvalidProtocol)
        } else if s.len() < 16 + len {
            Err(ProxyReadError::Io)
        } else if family == 0 || family == 3 {
            Ok((ProxyProtocolHeader::spec_unknown(2), (16 + len) as usize))
        } else if s[13] % 16 != 1 {
            Err(ProxyReadError::InvalidProtocol)
        } else if family == 1 {
            if len < 12 {
                Err(ProxyReadError::InvalidProtocol)
            } else {
                Ok((ProxyProtocolHeader::spec_new(2, Proto::Tcp4, command,
                    v4_endpoint(s, 16, 24), v4_endpoint(s, 20, 26)), (16 + len) as usize))
            }
        } else {
            if len < 36 {
                Err(ProxyReadError::InvalidProtocol)
            } else {
                Ok((ProxyProtocolHeader::spec_new(2, Proto::Tcp6, command,
                    v6_endpoint(s, 16, 48), v6_endpoint(s, 32, 50)), (16 + len) as usize))
            }
        }
    }
}

fn has_v2_magic(input: &[u8]) -> (r: bool)
    requires
        input@.len() >= 12,
    ensures
        r == (input@.subrange(0, 12) == v2_magic()),
{
    let r = input[0] == 0x0D && input[1] == 0x0A && input[2] == 0x0D && input[3] == 0x0A
        && input[4] == 0x00 && input[5] == 0x0D && input[6] == 0x0A && input[7] == 0x51
        && input[8] == 0x55 && input[9] == 0x49 && input[10] == 0x54 && input[11] == 0x0A;
    if r {
        assert(input@.subrange(0, 12) =~= v2_magic());
    } else {
        assert(input@.subrange(0, 12) != v2_magic()) by {
            if input@.subrange(0, 12) == v2_magic() {
                assert(input@.subrange(0, 12)[0] == input@[0]);
            }
        }
    }
    r
}

fn read_v4_endpoint(input: &[u8], a: usize, p: usize) -> (r: SocketAddress)
    requires
        a < 64,
        p < 64,
        a + 4 <= input@.len(),
        p + 2 <= input@.len(),
    ensures
        r == v4_endpoint(input@, a as int, p as int),
{
    let port = read_be16(vstd::slice::slice_subrange(input, p, p + 2));
    SocketAddress { ip: IpAddress::V4(input[a], input[a + 1], input[a + 2], input[a + 3]), port }
}

fn read_group(input: &[u8], a: usize, k: usize) -> (r: u16)
    requires
        a < 64,
        a + 16 <= input@.len(),
        k < 8,
    ensures
        r == group_at(input@, a as int, k as int),
{
    read_be16(vstd::slice::slice_subrange(input, a + 2 * k, a + 2 * k + 2))
}

fn read_v6_endpoint(input: &[u8], a: usize, p: usize) -> (r: SocketAddress)
    requires
        a < 64,
        p < 64,
        a + 16 <= input@.len(),
        p + 2 <= input@.len(),
    ensures
        r == v6_endpoint(input@, a as int, p as int),
{
    let port = read_be16(vstd::slice::slice_subrange(input, p, p + 2));
    let ip = IpAddress::V6(
        read_group(input, a, 0),
        read_group(input, a, 1),
        read_group(input, a, 2),
        read_group(input, a, 3),
        read_group(input, a, 4),
        read_group(input, a, 5),
        read_group(input, a, 6),
        read_group(input, a, 7),
    );
    SocketAddress { ip, port }
}

/// Decodes a v2 header from the front of `input`, the bytes that the connection
/// delivers. On success it also gives how many bytes the header took up: the bytes
/// after them belong to the application.
pub fn decode_v2(input: &[u8]) -> (r: Decoded)
    ensures
        r == v2_spec(input@),
        r matches Ok((h, n)) ==> h.well_formed() && n <= input@.len(),
{
    if input.len() < V2_FIXED_LEN {
        return Err(ProxyReadError::Io);
    }
    if !has_v2_magic(input) {
        return Err(ProxyReadError::MissingLiteral);
    }
    let version_command = input[12];
    let family_transport = input[13];
    if version_command / 16 != 2 {
        return Err(ProxyReadError::BadVersion);
    }
    if version_command % 16 > 1 || family_transport / 16 > 3 || family_transport % 16 > 2 {
        return Err(ProxyReadError::InvalidProtocol);
    }
    let command = if version_command % 16 == 0 { Command::Local } else { Command::Proxy };
    let family = family_transport / 16;
    let len = read_be16(vstd::slice::slice_subrange(input, 14, 16)) as usize;
    if len > V2_MAX_ADDR_LEN {
        return Err(ProxyReadError::InvalidProtocol);
    }
    if input.len() < V2_FIXED_LEN + len {
        return Err(ProxyReadError::Io);
    }
    let total = V2_FIXED_LEN + len;
    if family == 0 || family == 3 {
        return Ok((ProxyProtocolHeader::new_unknown(2), total));
    }
    if family_transport % 16 != 1 {
        return Err(ProxyReadError::InvalidProtocol);
    }
    if family == 1 {
        if len < 12 {
            return Err(ProxyReadError::InvalidProtocol);
        }
        let source = read_v4_endpoint(input, 16, 24);
        let dest = read_v4_endpoint(input, 20, 26);
        Ok((ProxyProtocolHeader::new_with_command(2, Proto::Tcp4, command, source, dest), total))
    } else {
        if len < 36 {
            return Err(ProxyReadError::InvalidProtocol);
        }
        let source = read_v6_endpoint(input, 16, 48);
        let dest = read_v6_endpoint(input, 32, 50);
        Ok((ProxyProtocolHeader::new_with_command(2, Proto::Tcp6, command, source, dest), total))
    }
}

/// Longest v1 header, CRLF included.
pub const V1_MAX_LEN: usize = 107;

/// Where the first CRLF of `s` starts, looking at the bytes from position `i` on,
/// one at a time, as a reader of at most `V1_MAX_LEN` bytes sees them.
pub open spec fn crlf_scan(s: Seq<u8>, i: int) -> Result<usize, ProxyReadError>
    decreases 107 - i,
{
    if i >= 107 {
        Err(ProxyReadError::MissingCrlf)
    } else if i >= s.len() {
        Err(ProxyReadError::Io)
    } else if i >= 1 && s[i - 1] == 13 && s[i] == 10 {
        Ok((i - 1) as usize)
    } else {
        crlf_scan(s, i + 1)
    }
}

/// Finds the CRLF that ends a v1 header at the front of `input`: the position of its
/// CR. Fails with `MissingCrlf` when the first `V1_MAX_LEN` bytes hold none, and with
/// `Io` when the input ends before either.
pub fn read_to_crlf(input: &[u8]) -> (r: Result<usize, ProxyReadError>)
    ensures
        r == crlf_scan(input@, 0),
        r matches Ok(j) ==> j + 2 <= input@.len() && j + 2 <= V1_MAX_LEN,
{
    let mut i: usize = 0;
    while i < V1_MAX_LEN
        invariant
            0 <= i <= V1_MAX_LEN,
            crlf_scan(input@, 0) == crlf_scan(input@, i as int),
        decreases V1_MAX_LEN - i,
    {
        if i >= input.len() {
            return Err(ProxyReadError::Io);
        }
        if i >= 1 && input[i - 1] == 13 && input[i] == 10 {
            return Ok(i - 1);
        }
        i += 1;
    }
    Err(ProxyReadError::MissingCrlf)
}

/// A UTF-8 continuation byte.
pub open spec fn cont(c: u8) -> bool {
    0x80 <= c <= 0xBF
}

/// Whether `b` is well-formed UTF-8: each character is one of the byte sequences
/// that the Unicode standard allows (no overlong forms, no surrogates, nothing
/// above U+10FFFF).
pub open spec fn utf8_valid(b: Seq<u8>) -> bool
    decreases b.len(),
{
    if b.len() == 0 {
        true
    } else {
        let c = b[0];
        if c < 0x80 {
            utf8_valid(b.drop_first())
        } else if 0xC2 <= c <= 0xDF {
            b.len() >= 2 && cont(b[1]) && utf8_valid(b.skip(2))
        } else if 0xE0 <= c <= 0xEF {
            b.len() >= 3 && cont(b[2]) && (if c == 0xE0 {
                0xA0 <= b[1] <= 0xBF
            } else if c == 0xED {
                0x80 <= b[1] <= 0x9F
            } else {
                cont(b[1])
            }) && utf8_valid(b.skip(3))
        } else if 0xF0 <= c <= 0xF4 {
            b.len() >= 4 && cont(b[2]) && cont(b[3]) && (if c == 0xF0 {
                0x90 <= b[1] <= 0xBF
            } else if c == 0xF4 {
                0x80 <= b[1] <= 0x8F
            } else {
                cont(b[1])
            }) && utf8_valid(b.skip(4))
        } else {
            false
        }
    }
}

/// ASCII text is valid UTF-8.
pub proof fn lemma_ascii_utf8(b: Seq<u8>)
    requires
        is_ascii(b),
    ensures
        utf8_valid(b),
    decreases b.len(),
{
    if b.len() > 0 {
        assert(is_ascii(b.drop_first())) by {
            assert forall|i: int| 0 <= i < b.drop_first().len() implies b.drop_first()[i] < 128 by {
                assert(b.drop_first()[i] == b[i + 1]);
            }
        }
        lemma_ascii_utf8(b.drop_first());
    }
}

/// Relies on `std::str::from_utf8`: it succeeds exactly on valid UTF-8.
#[verifier::external_body]
fn is_utf8(b: &[u8]) -> (r: bool)
    ensures
        r == utf8_valid(b@),
{
    std::str::from_utf8(b).is_ok()
}

pub open spec fn word_proxy() -> Seq<u8> {
    seq![80u8, 82u8, 79u8, 88u8, 89u8]
}

pub open spec fn word_tcp4() -> Seq<u8> {
    seq![84u8, 67u8, 80u8, 52u8]
}

pub open spec fn word_tcp6() -> Seq<u8> {
    seq![84u8, 67u8, 80u8, 54u8]
}

pub open spec fn word_unknown() -> Seq<u8> {
    seq![85u8, 78u8, 75u8, 78u8, 79u8, 87u8, 78u8]
}

/// Every byte of `b` is ASCII.
pub open spec fn is_ascii(b: Seq<u8>) -> bool {
    forall|i: int| 0 <= i < b.len() ==> b[i] < 128
}

fn check_ascii(b: &[u8]) -> (r: bool)
    ensures
        r == is_ascii(b@),
{
    let mut i: usize = 0;
    while i < b.len()
        invariant
            0 <= i <= b@.len(),
            forall|j: int| 0 <= j < i ==> b@[j] < 128,
        decreases b@.len() - i,
    {
        if b[i] >= 128 {
            return false;
        }
        i += 1;
    }
    true
}

/// What a v1 header line (the bytes before its CRLF) decodes to.
pub open spec fn v1_line(l: Seq<u8>) -> Result<ProxyProtocolHeader, ProxyReadError> {
    v1_line_with(l, utf8_valid(l))
}

/// What a v1 header line decodes to, given whether it is valid UTF-8.
pub open spec fn v1_line_with(l: Seq<u8>, text_ok: bool) -> Result<ProxyProtocolHeader, ProxyReadError> {
    let f = split(l, 32);
    if l.len() == 0 || l[0] != 80 {
        Err(ProxyReadError::MissingFirstByte)
    } else if !text_ok {
        Err(ProxyReadError::Utf8)
    } else if f[0] != word_proxy() {
        Err(ProxyReadError::MissingLiteral)
    } else if f.len() < 2 {
        Err(ProxyReadError::MissingField)
    } else if f[1] == word_unknown() {
        Ok(ProxyProtocolHeader::spec_unknown(1))
    } else if f[1] != word_tcp4() && f[1] != word_tcp6() {
        Err(ProxyReadError::MissingLiteral)
    } else if f.len() < 3 {
        Err(ProxyReadError::MissingField)
    } else if ip_of(f[2]) is None {
        Err(ProxyReadError::BadSourceAddress)
    } else if f.len() < 4 {
        Err(ProxyReadError::MissingField)
    } else if ip_of(f[3]) is None {
        Err(ProxyReadError::BadDestAddress)
    } else if f.len() < 5 {
        Err(ProxyReadError::MissingField)
    } else if port_of(f[4]) is None {
        Err(ProxyReadError::BadSourcePort)
    } else if f.len() < 6 {
        Err(ProxyReadError::MissingField)
    } else if port_of(f[5]) is None {
        Err(ProxyReadError::BadDestPort)
    } else {
        let proto = if f[1] == word_tcp4() { Proto::Tcp4 } else { Proto::Tcp6 };
        Ok(ProxyProtocolHeader::spec_new(1, proto, Command::Proxy,
            SocketAddress { ip: ip_of(f[2]).unwrap(), port: port_of(f[4]).unwrap() },
            SocketAddress { ip: ip_of(f[3]).unwrap(), port: port_of(f[5]).unwrap() }))
    }
}

/// What decoding a v1 header from the front of `s` gives.
pub open spec fn v1_spec(s: Seq<u8>) -> Decoded {
    match crlf_scan(s, 0) {
        Err(e) => Err(e),
        Ok(j) => match v1_line(s.subrange(0, j as int)) {
            Ok(h) => Ok((h, (j + 2) as usize)),
            Err(e) => Err(e),
        },
    }
}

/// What decoding a header of either version from the front of `s` gives: the first
/// byte tells which.
pub open spec fn any_spec(s: Seq<u8>) -> Decoded {
    if s.len() == 0 {
        Err(ProxyReadError::Io)
    } else if s[0] == 0x0D {
        v2_spec(s)
    } else if s[0] == 0x50 {
        v1_spec(s)
    } else {
        Err(ProxyReadError::MissingFirstByte)
    }
}

/// What decoding a header in the given mode gives.
#[verifier::opaque]
pub open spec fn decode_spec(version: ProxyProtocolVersion, s: Seq<u8>) -> Decoded {
    match version {
        ProxyProtocolVersion::V1 => v1_spec(s),
        ProxyProtocolVersion::V2 => v2_spec(s),
        ProxyProtocolVersion::Any => any_spec(s),
    }
}

fn bytes_eq(a: &[u8], b: &[u8]) -> (r: bool)
    ensures
        r == (a@ == b@),
{
    if a.len() != b.len() {
        return false;
    }
    let mut i: usize = 0;
    while i < a.len()
        invariant
            0 <= i <= a@.len(),
            a@.len() == b@.len(),
            forall|j: int| 0 <= j < i ==> a@[j] == b@[j],
        decreases a@.len() - i,
    {
        if a[i] != b[i] {
            return false;
        }
        i += 1;
    }
    assert(a@ =~= b@);
    true
}

/// Decodes a v1 header line, the bytes before its CRLF.
pub fn parse_v1_line(l: &[u8]) -> (r: Result<ProxyProtocolHeader, ProxyReadError>)
    ensures
        r == v1_line(l@),
{
    let ascii = check_ascii(l);
    proof {
        if ascii {
            lemma_ascii_utf8(l@);
        }
    }
    let text_ok = ascii || is_utf8(l);
    parse_v1_line_with(l, text_ok)
}

/// Decodes a v1 header line, given whether the line is valid UTF-8 text.
#[verifier::rlimit(30)]
pub fn parse_v1_line_with(l: &[u8], text_ok: bool) -> (r: Result<ProxyProtocolHeader, ProxyReadError>)
    ensures
        r == v1_line_with(l@, text_ok),
{
    if l.len() == 0 || l[0] != 80 {
        return Err(ProxyReadError::MissingFirstByte);
    }
    if !text_ok {
        return Err(ProxyReadError::Utf8);
    }
    let fields = split_bytes(l, 32);
    let ghost f = split(l@, 32);
    proof {
        assert forall|k: int| 0 <= k < fields@.len() implies #[trigger] fields@[k]@ == f[k] by {
            assert(views(fields@)[k] == fields@[k]@);
        }
        assert(fields@.len() == f.len());
        crate::text::lemma_split_nonempty(l@, 32, Seq::empty());
    }
    let w_proxy = vec![80u8, 82u8, 79u8, 88u8, 89u8];
    let w_tcp4 = vec![84u8, 67u8, 80u8, 52u8];
    let w_tcp6 = vec![84u8, 67u8, 80u8, 54u8];
    let w_unknown = vec![85u8, 78u8, 75u8, 78u8, 79u8, 87u8, 78u8];
    assert(w_proxy@ =~= word_proxy());
    assert(w_tcp4@ =~= word_tcp4());
    assert(w_tcp6@ =~= word_tcp6());
    assert(w_unknown@ =~= word_unknown());
    if fields.len() == 0 || !bytes_eq(fields[0].as_slice(), w_proxy.as_slice()) {
        return Err(ProxyReadError::MissingLiteral);
    }
    if fields.len() < 2 {
        return Err(ProxyReadError::MissingField);
    }
    if bytes_eq(fields[1].as_slice(), w_unknown.as_slice()) {
        return Ok(ProxyProtocolHeader::new_unknown(1));
    }
    let is_tcp4 = bytes_eq(fields[1].as_slice(), w_tcp4.as_slice());
    if !is_tcp4 && !bytes_eq(fields[1].as_slice(), w_tcp6.as_slice()) {
        return Err(ProxyReadError::MissingLiteral);
    }
    let proto = if is_tcp4 { Proto::Tcp4 } else { Proto::Tcp6 };
    if fields.len() < 3 {
        return Err(ProxyReadError::MissingField);
    }
    let source_ip = match parse_ip(fields[2].as_slice()) {
        Some(a) => a,
        None => return Err(ProxyReadError::BadSourceAddress),
    };
    if fields.len() < 4 {
        return Err(ProxyReadError::MissingField);
    }
    let dest_ip = match parse_ip(fields[3].as_slice()) {
        Some(a) => a,
        None => return Err(ProxyReadError::BadDestAddress),
    };
    if fields.len() < 5 {
        return Err(ProxyReadError::MissingField);
    }
    let source_port = match parse_port(fields[4].as_slice()) {
        Some(p) => p,
        None => return Err(ProxyReadError::BadSourcePort),
    };
    if fields.len() < 6 {
        return Err(ProxyReadError::MissingField);
    }
    let dest_port = match parse_port(fields[5].as_slice()) {
        Some(p) => p,
        None => return Err(ProxyReadError::BadDestPort),
    };
    Ok(ProxyProtocolHeader::new(
        1,
        proto,
        SocketAddress { ip: source_ip, port: source_port },
        SocketAddress { ip: dest_ip, port: dest_port },
    ))
}

/// Decodes a v1 header from the front of `input`, the bytes that the connection
/// delivers. On success it also gives how many bytes the header took up, its CRLF
/// included.
pub fn decode_v1(input: &[u8]) -> (r: Decoded)
    ensures
        r == v1_spec(input@),
        r matches Ok((h, n)) ==> h.well_formed() && n <= input@.len(),
{
    let end = match read_to_crlf(input) {
        Ok(j) => j,
        Err(e) => return Err(e),
    };
    match parse_v1_line(vstd::slice::slice_subrange(input, 0, end)) {
        Ok(h) => Ok((h, end + 2)),
        Err(e) => Err(e),
    }
}

/// Decodes a header of either version from the front of `input`: a first byte of
/// `0x0D` selects v2, `P` selects v1, and any other fails with `MissingFirstByte`.
pub fn decode_any(input: &[u8]) -> (r: Decoded)
    ensures
        r == any_spec(input@),
        r matches Ok((h, n)) ==> h.well_formed() && n <= input@.len(),
{
    if input.len() == 0 {
        Err(ProxyReadError::Io)
    } else if input[0] == 0x0D {
        decode_v2(input)
    } else if input[0] == 0x50 {
        decode_v1(input)
    } else {
        Err(ProxyReadError::MissingFirstByte)
    }
}

/// Decodes a header in the given mode from the front of `input`.
pub fn decode(version: ProxyProtocolVersion, input: &[u8]) -> (r: Decoded)
    ensures
        r == decode_spec(version, input@),
        r matches Ok((h, n)) ==> h.well_formed() && n <= input@.len(),
{
    proof {
        reveal(decode_spec);
    }
    match version {
        ProxyProtocolVersion::V1 => decode_v1(input),
        ProxyProtocolVersion::V2 => decode_v2(input),
        ProxyProtocolVersion::Any => decode_any(input),
    }
}

/// Auto-detection agrees with the direct decoders: on every input that `decode_v1`
/// accepts, `decode_any` gives the same result, and likewise for `decode_v2`.
pub proof fn lemma_any_agrees(s: Seq<u8>)
    ensures
        v1_spec(s) is Ok ==> any_spec(s) == v1_spec(s),
        v2_spec(s) is Ok ==> any_spec(s) == v2_spec(s),
{
    if v1_spec(s) is Ok {
        let j = crlf_scan(s, 0)->Ok_0;
        lemma_scan_bounds(s, 0);
        assert(s.subrange(0, j as int)[0] == s[0]);
    }
    if v2_spec(s) is Ok {
        assert(s.subrange(0, 12)[0] == s[0]);
    }
}

proof fn lemma_scan_bounds(s: Seq<u8>, i: int)
    requires
        0 <= i,
    ensures
        crlf_scan(s, i) matches Ok(j) ==> i <= j + 1 && j + 2 <= s.len() && j + 2 <= 107,
    decreases 107 - i,
{
    if i < 107 && i < s.len() && !(i >= 1 && s[i - 1] == 13 && s[i] == 10) {
        lemma_scan_bounds(s, i + 1);
    }
}

proof fn lemma_scan_prefix(s: Seq<u8>, t: Seq<u8>, i: int)
    requires
        0 <= i,
        crlf_scan(s, i) is Ok,
        crlf_scan(s, i)->Ok_0 + 2 <= t.len(),
        forall|k: int| 0 <= k < crlf_scan(s, i)->Ok_0 + 2 ==> t[k] == s[k],
    ensures
        crlf_scan(t, i) == crlf_scan(s, i),
    decreases 107 - i,
{
    lemma_scan_bounds(s, i);
    if i < 107 && i < s.len() && !(i >= 1 && s[i - 1] == 13 && s[i] == 10) {
        lemma_scan_prefix(s, t, i + 1);
    }
}

/// A decoded header lies within the input it was decoded from.
pub proof fn lemma_decoded_within(version: ProxyProtocolVersion, s: Seq<u8>)
    ensures
        decode_spec(version, s) matches Ok((h, n)) ==> n <= s.len(),
{
    reveal(decode_spec);
    lemma_scan_bounds(s, 0);
}

/// A decode never looks past the header: when `s` decodes to a header of `n` bytes,
/// those `n` bytes are within `s`, and any input that starts with the same `n` bytes
/// decodes to the same result, whatever follows them.
#[verifier::rlimit(30)]
pub proof fn lemma_no_over_read(version: ProxyProtocolVersion, s: Seq<u8>, t: Seq<u8>)
    requires
        decode_spec(version, s) is Ok,
        decode_spec(version, s)->Ok_0.1 <= t.len(),
        t.subrange(0, decode_spec(version, s)->Ok_0.1 as int)
            == s.subrange(0, decode_spec(version, s)->Ok_0.1 as int),
    ensures
        decode_spec(version, s)->Ok_0.1 <= s.len(),
        decode_spec(version, t) == decode_spec(version, s),
{
    reveal(decode_spec);
    let n = decode_spec(version, s)->Ok_0.1 as int;
    lemma_any_agrees(s);
    let v1 = version == ProxyProtocolVersion::V1 || (version == ProxyProtocolVersion::Any && s[0] == 0x50);
    if v1 {
        lemma_scan_bounds(s, 0);
        let j = crlf_scan(s, 0)->Ok_0 as int;
        assert(n == j + 2);
        assert forall|k: int| 0 <= k < n implies t[k] == s[k] by {
            assert(t.subrange(0, n)[k] == s.subrange(0, n)[k]);
        }
        lemma_scan_prefix(s, t, 0);
        assert(t.subrange(0, j) =~= s.subrange(0, j));
        assert(t[0] == s[0]);
    } else {
        assert(v2_spec(s) is Ok);
        assert(16 <= n <= s.len());
        assert forall|k: int| 0 <= k < n implies t[k] == s[k] by {
            assert(t.subrange(0, n)[k] == s.subrange(0, n)[k]);
        }
        assert(t.subrange(0, 12) =~= s.subrange(0, 12));
        if n >= 28 {
            assert(v4_endpoint(t, 16, 24) == v4_endpoint(s, 16, 24));
            assert(v4_endpoint(t, 20, 26) == v4_endpoint(s, 20, 26));
        }
        if n >= 52 {
            assert(v6_endpoint(t, 16, 48) == v6_endpoint(s, 16, 48));
            assert(v6_endpoint(t, 32, 50) == v6_endpoint(s, 32, 50));
        }
    }
}

/// The text of an address as a v1 header writes it (IPv4 only).
pub open spec fn addr4_text(a: IpAddress) -> Seq<u8> {
    match a {
        IpAddress::V4(a, b, c, d) => ipv4_text(a, b, c, d),
        IpAddress::V6(..) => Seq::empty(),
    }
}

/// The v1 header line, without its CRLF, for a TCP4 connection between two endpoints.
pub open spec fn v1_tcp4_line(src: SocketAddress, dst: SocketAddress) -> Seq<u8> {
    word_proxy() + seq![32u8] + word_tcp4() + seq![32u8] + addr4_text(src.ip) + seq![32u8]
        + addr4_text(dst.ip) + seq![32u8] + dec_text(src.port as nat) + seq![32u8]
        + dec_text(dst.port as nat)
}

proof fn lemma_scan_to(s: Seq<u8>, i: int, l: int)
    requires
        0 <= l,
        0 <= i <= l + 1,
        l + 2 <= s.len(),
        l + 2 <= 107,
        s[l] == 13,
        s[l + 1] == 10,
        forall|k: int| 0 <= k < l ==> s[k] != 13,
    ensures
        crlf_scan(s, i) == Ok::<usize, ProxyReadError>(l as usize),
    decreases l + 1 - i,
{
    if i < l + 1 {
        lemma_scan_to(s, i + 1, l);
    }
}

#[verifier::rlimit(30)]
proof fn lemma_tcp4_fields(src: SocketAddress, dst: SocketAddress)
    requires
        src.ip is V4,
        dst.ip is V4,
    ensures
        split(v1_tcp4_line(src, dst), 32) == seq![
            word_proxy(),
            word_tcp4(),
            addr4_text(src.ip),
            addr4_text(dst.ip),
            dec_text(src.port as nat),
            dec_text(dst.port as nat),
        ],
{
    let w = word_proxy();
    let t4 = word_tcp4();
    let a = addr4_text(src.ip);
    let b = addr4_text(dst.ip);
    let p = dec_text(src.port as nat);
    let q = dec_text(dst.port as nat);
    let sp = seq![32u8];
    let e = Seq::<u8>::empty();
    lemma_ipv4_text(src.ip->V4_0, src.ip->V4_1, src.ip->V4_2, src.ip->V4_3);
    lemma_ipv4_text(dst.ip->V4_0, dst.ip->V4_1, dst.ip->V4_2, dst.ip->V4_3);
    lemma_digits_free(src.port as nat);
    lemma_digits_free(dst.port as nat);
    let r4 = p + sp + q;
    let r3 = b + sp + r4;
    let r2 = a + sp + r3;
    let r1 = t4 + sp + r2;
    assert(v1_tcp4_line(src, dst) =~= w + sp + r1);
    assert(free_of(w, 32)) by {
        assert forall|i: int| 0 <= i < w.len() implies w[i] != 32 by {}
    }
    assert(free_of(t4, 32)) by {
        assert forall|i: int| 0 <= i < t4.len() implies t4[i] != 32 by {}
    }
    lemma_split_first(w, r1, 32, e);
    lemma_split_first(t4, r2, 32, e);
    lemma_split_first(a, r3, 32, e);
    lemma_split_first(b, r4, 32, e);
    lemma_split_first(p, q, 32, e);
    lemma_split_whole(q, 32, e);
    assert(e + w =~= w);
    assert(e + t4 =~= t4);
    assert(e + a =~= a);
    assert(e + b =~= b);
    assert(e + p =~= p);
    assert(e + q =~= q);
    assert(split(v1_tcp4_line(src, dst), 32) =~= seq![w, t4, a, b, p, q]);
}

/// Bytes that may stand in a TCP4 line: space, dot, digits and capital letters.
pub open spec fn line_byte(c: u8) -> bool {
    c == 32 || (46 <= c <= 57) || (65 <= c <= 90)
}

pub open spec fn all_line_bytes(t: Seq<u8>) -> bool {
    forall|i: int| 0 <= i < t.len() ==> line_byte(#[trigger] t[i])
}

/// Digits and dots are line bytes.
proof fn lemma_digit_text_line_bytes(t: Seq<u8>)
    requires
        forall|i: int| 0 <= i < t.len() ==> 46 <= #[trigger] t[i] <= 57,
    ensures
        all_line_bytes(t),
{
    assert forall|i: int| 0 <= i < t.len() implies line_byte(#[trigger] t[i]) by {
        assert(46 <= t[i] <= 57);
    }
}

/// The fixed words of a TCP4 line, and the space, are line bytes.
proof fn lemma_words_line_bytes()
    ensures
        all_line_bytes(word_proxy()),
        all_line_bytes(word_tcp4()),
        all_line_bytes(seq![32u8]),
{
    assert forall|i: int| 0 <= i < word_proxy().len() implies line_byte(#[trigger] word_proxy()[i]) by {}
    assert forall|i: int| 0 <= i < word_tcp4().len() implies line_byte(#[trigger] word_tcp4()[i]) by {}
    assert forall|i: int| 0 <= i < seq![32u8].len() implies line_byte(#[trigger] seq![32u8][i]) by {}
}

proof fn lemma_concat_line_bytes(a: Seq<u8>, b: Seq<u8>)
    requires
        all_line_bytes(a),
        all_line_bytes(b),
    ensures
        all_line_bytes(a + b),
{
    assert forall|i: int| 0 <= i < (a + b).len() implies line_byte(#[trigger] (a + b)[i]) by {
        if i >= a.len() {
            assert((a + b)[i] == b[i - a.len()]);
        } else {
            assert((a + b)[i] == a[i]);
        }
    }
}

#[verifier::rlimit(30)]
proof fn lemma_tcp4_line_bytes(src: SocketAddress, dst: SocketAddress)
    requires
        src.ip is V4,
        dst.ip is V4,
    ensures
        all_line_bytes(v1_tcp4_line(src, dst)),
        v1_tcp4_line(src, dst).len() <= 54,
        v1_tcp4_line(src, dst)[0] == 80,
{
    let w = word_proxy();
    let t4 = word_tcp4();
    let a = addr4_text(src.ip);
    let b = addr4_text(dst.ip);
    let p = dec_text(src.port as nat);
    let q = dec_text(dst.port as nat);
    let sp = seq![32u8];
    lemma_ipv4_text(src.ip->V4_0, src.ip->V4_1, src.ip->V4_2, src.ip->V4_3);
    lemma_ipv4_text(dst.ip->V4_0, dst.ip->V4_1, dst.ip->V4_2, dst.ip->V4_3);
    crate::text::lemma_ipv4_ascii(src.ip->V4_0, src.ip->V4_1, src.ip->V4_2, src.ip->V4_3);
    crate::text::lemma_ipv4_ascii(dst.ip->V4_0, dst.ip->V4_1, dst.ip->V4_2, dst.ip->V4_3);
    lemma_dec_text(src.port as nat);
    lemma_dec_text(dst.port as nat);
    lemma_words_line_bytes();
    lemma_digit_text_line_bytes(a);
    lemma_digit_text_line_bytes(b);
    lemma_digit_text_line_bytes(p);
    lemma_digit_text_line_bytes(q);
    lemma_concat_line_bytes(w, sp);
    lemma_concat_line_bytes(w + sp, t4);
    lemma_concat_line_bytes(w + sp + t4, sp);
    lemma_concat_line_bytes(w + sp + t4 + sp, a);
    lemma_concat_line_bytes(w + sp + t4 + sp + a, sp);
    lemma_concat_line_bytes(w + sp + t4 + sp + a + sp, b);
    lemma_concat_line_bytes(w + sp + t4 + sp + a + sp + b, sp);
    lemma_concat_line_bytes(w + sp + t4 + sp + a + sp + b + sp, p);
    lemma_concat_line_bytes(w + sp + t4 + sp + a + sp + b + sp + p, sp);
    lemma_concat_line_bytes(w + sp + t4 + sp + a + sp + b + sp + p + sp, q);
    assert(v1_tcp4_line(src, dst)[0] == w[0]);
}

#[verifier::rlimit(40)]
proof fn lemma_tcp4_line_decodes(src: SocketAddress, dst: SocketAddress)
    requires
        src.ip is V4,
        dst.ip is V4,
    ensures
        v1_line(v1_tcp4_line(src, dst)) == Ok::<ProxyProtocolHeader, ProxyReadError>(
            ProxyProtocolHeader::spec_new(1, Proto::Tcp4, Command::Proxy, src, dst)),
{
    let line = v1_tcp4_line(src, dst);
    lemma_tcp4_fields(src, dst);
    lemma_tcp4_line_bytes(src, dst);
    lemma_ipv4_text(src.ip->V4_0, src.ip->V4_1, src.ip->V4_2, src.ip->V4_3);
    lemma_ipv4_text(dst.ip->V4_0, dst.ip->V4_1, dst.ip->V4_2, dst.ip->V4_3);
    lemma_port_text(src.port);
    lemma_port_text(dst.port);
    assert(is_ascii(line)) by {
        assert forall|i: int| 0 <= i < line.len() implies line[i] < 128 by {
            assert(line_byte(line[i]));
        }
    }
    lemma_ascii_utf8(line);
    assert(word_tcp4() != word_unknown()) by {
        assert(word_tcp4().len() != word_unknown().len());
    }
}

/// Every v1 header of a TCP4 connection, written with its two IPv4 endpoints in
/// dotted-decimal form and its ports in decimal, decodes to a `Proxy` header that
/// holds exactly those endpoints, whatever bytes follow the CRLF.
#[verifier::rlimit(30)]
pub proof fn lemma_v1_tcp4_round_trip(src: SocketAddress, dst: SocketAddress, rest: Seq<u8>)
    requires
        src.ip is V4,
        dst.ip is V4,
    ensures
        v1_spec(v1_tcp4_line(src, dst) + seq![13u8, 10u8] + rest) == Ok::<(ProxyProtocolHeader, usize), ProxyReadError>((
            ProxyProtocolHeader::spec_new(1, Proto::Tcp4, Command::Proxy, src, dst),
            (v1_tcp4_line(src, dst).len() + 2) as usize,
        )),
{
    let line = v1_tcp4_line(src, dst);
    let input = line + seq![13u8, 10u8] + rest;
    lemma_tcp4_line_bytes(src, dst);
    lemma_tcp4_line_decodes(src, dst);
    let l = line.len() as int;
    assert(input[l] == 13 && input[l + 1] == 10);
    assert forall|k: int| 0 <= k < l implies input[k] != 13 by {
        assert(input[k] == line[k]);
        assert(line_byte(line[k]));
    }
    lemma_scan_to(input, 0, l);
    assert(input.subrange(0, l) =~= line);
}

/// Every input shorter than `b` leaves the decode undecided: it answers `Io`, wanting
/// more bytes.
pub open spec fn undecided_before(version: ProxyProtocolVersion, b: Seq<u8>) -> bool {
    forall|k: int| 0 <= k < b.len()
        ==> #[trigger] decode_spec(version, b.subrange(0, k)) == Err::<(ProxyProtocolHeader, usize), ProxyReadError>(ProxyReadError::Io)
}

/// `b` is where a reader that decodes after every byte stops: the decode of `b` is
/// decided, and that of every shorter input was not.
pub open spec fn stops_at(version: ProxyProtocolVersion, b: Seq<u8>) -> bool {
    &&& decode_spec(version, b) != Err::<(ProxyProtocolHeader, usize), ProxyReadError>(ProxyReadError::Io)
    &&& undecided_before(version, b)
}

/// The most bytes a decode in the given mode looks at.
pub open spec fn max_header_len(version: ProxyProtocolVersion) -> nat {
    if version == ProxyProtocolVersion::V1 { 107 } else { 232 }
}

proof fn lemma_scan_decided(s: Seq<u8>, i: int)
    requires
        0 <= i,
        s.len() >= 107,
    ensures
        crlf_scan(s, i) != Err::<usize, ProxyReadError>(ProxyReadError::Io),
    decreases 107 - i,
{
    if i < 107 && !(i >= 1 && s[i - 1] == 13 && s[i] == 10) {
        lemma_scan_decided(s, i + 1);
    }
}

/// An input of `max_header_len` bytes or more is always decided.
pub proof fn lemma_long_input_decided(version: ProxyProtocolVersion, s: Seq<u8>)
    requires
        s.len() >= max_header_len(version),
    ensures
        decode_spec(version, s) != Err::<(ProxyProtocolHeader, usize), ProxyReadError>(ProxyReadError::Io),
{
    reveal(decode_spec);
    lemma_scan_decided(s, 0);
    if crlf_scan(s, 0) is Ok {
        let l = s.subrange(0, crlf_scan(s, 0)->Ok_0 as int);
        assert(v1_line(l) != Err::<ProxyProtocolHeader, ProxyReadError>(ProxyReadError::Io));
    }
}

/// A reader stops within `max_header_len` bytes, whatever the input.
pub proof fn lemma_stop_bound(version: ProxyProtocolVersion, b: Seq<u8>)
    requires
        stops_at(version, b),
    ensures
        b.len() <= max_header_len(version),
{
    if b.len() > max_header_len(version) {
        let k = max_header_len(version) as int;
        assert(decode_spec(version, b.subrange(0, k)) == Err::<(ProxyProtocolHeader, usize), ProxyReadError>(ProxyReadError::Io));
        lemma_long_input_decided(version, b.subrange(0, k));
    }
}

proof fn lemma_scan_undecided(s: Seq<u8>, p: Seq<u8>, i: int)
    requires
        0 <= i <= p.len(),
        crlf_scan(s, i) is Ok,
        p.len() <= crlf_scan(s, i)->Ok_0 + 1,
        p == s.subrange(0, p.len() as int),
    ensures
        crlf_scan(p, i) == Err::<usize, ProxyReadError>(ProxyReadError::Io),
    decreases 107 - i,
{
    lemma_scan_bounds(s, i);
    if i < p.len() {
        assert(p[i] == s[i]);
        if i >= 1 {
            assert(p[i - 1] == s[i - 1]);
        }
        lemma_scan_undecided(s, p, i + 1);
    }
}

/// A complete header leaves every shorter input undecided: a reader that decodes
/// after every byte stops exactly on its last byte.
pub proof fn lemma_complete_header_stops(version: ProxyProtocolVersion, b: Seq<u8>)
    requires
        decode_spec(version, b) is Ok,
        decode_spec(version, b)->Ok_0.1 == b.len(),
    ensures
        stops_at(version, b),
{
    reveal(decode_spec);
    lemma_any_agrees(b);
    lemma_scan_bounds(b, 0);
    assert forall|k: int| 0 <= k < b.len() implies #[trigger] decode_spec(version, b.subrange(0, k))
        == Err::<(ProxyProtocolHeader, usize), ProxyReadError>(ProxyReadError::Io) by {
        let p = b.subrange(0, k);
        if k > 0 {
            assert(p[0] == b[0]);
        }
        if version == ProxyProtocolVersion::V1 || (version == ProxyProtocolVersion::Any && b[0] == 0x50) {
            lemma_scan_undecided(b, p, 0);
        } else if k >= 16 {
            assert(p.subrange(0, 12) =~= b.subrange(0, 12));
            assert(p[12] == b[12] && p[13] == b[13] && p[14] == b[14] && p[15] == b[15]);
        }
    }
}

/// A reader that decodes after every byte stops on the last byte of a complete
/// header at the front of its input, and nowhere else: any stopping point within
/// `head + rest` is `head` itself, so a decorated connection holds exactly the
/// header's bytes and leaves `rest` unread.
pub proof fn lemma_stop_is_header(version: ProxyProtocolVersion, head: Seq<u8>, rest: Seq<u8>, b: Seq<u8>)
    requires
        decode_spec(version, head) is Ok,
        decode_spec(version, head)->Ok_0.1 == head.len(),
        stops_at(version, b),
        b.len() <= head.len() + rest.len(),
        b == (head + rest).subrange(0, b.len() as int),
    ensures
        b == head,
{
    lemma_complete_header_stops(version, head);
    if b.len() < head.len() {
        assert(b =~= head.subrange(0, b.len() as int));
    } else if b.len() > head.len() {
        assert(head =~= b.subrange(0, head.len() as int));
    } else {
        assert(b =~= head);
    }
}

/// The first `n` bytes of `s` are a complete header, and nothing more.
pub open spec fn complete_at(version: ProxyProtocolVersion, s: Seq<u8>, n: int) -> bool {
    &&& decode_spec(version, s.subrange(0, n)) is Ok
    &&& decode_spec(version, s.subrange(0, n))->Ok_0.1 == n
}

/// Where the input `s` opens with a complete header of `n` bytes, a reader that
/// decodes after every byte stops exactly there, with that header: it neither stops
/// earlier nor reads on to the end of `s` undecided.
pub proof fn lemma_outcome_forced(version: ProxyProtocolVersion, s: Seq<u8>, n: int, b: Seq<u8>)
    requires
        0 <= n <= s.len(),
        complete_at(version, s, n),
        b.len() <= s.len(),
        b == s.subrange(0, b.len() as int),
        stops_at(version, b) || (b == s
            && decode_spec(version, b) == Err::<(ProxyProtocolHeader, usize), ProxyReadError>(ProxyReadError::Io)),
    ensures
        b == s.subrange(0, n),
        decode_spec(version, b) is Ok,
{
    let head = s.subrange(0, n);
    let rest = s.subrange(n, s.len() as int);
    assert(s =~= head + rest);
    assert(head.len() == n);
    if stops_at(version, b) {
        lemma_stop_is_header(version, head, rest, b);
    } else {
        assert(s.subrange(0, n) =~= head.subrange(0, n));
        lemma_no_over_read(version, head, s);
    }
}

/// `tcp4` in lowercase.
pub open spec fn word_tcp4_lower() -> Seq<u8> {
    seq![116u8, 99u8, 112u8, 52u8]
}

/// Literals are matched case-sensitively, and an empty header line is refused: the
/// empty input, a bare CRLF, an input that opens with a lowercase `p`, and a line whose
/// protocol field is a lowercase `tcp4` all fail to decode.
pub proof fn lemma_v1_rejects(s: Seq<u8>)
    ensures
        v1_spec(Seq::empty()) is Err,
        v1_spec(seq![13u8, 10u8]) is Err,
        s.len() > 0 && s[0] == 112 ==> v1_spec(s) is Err && any_spec(s) is Err,
        crlf_scan(s, 0) is Ok && split(s.subrange(0, crlf_scan(s, 0)->Ok_0 as int), 32).len() > 1
            && split(s.subrange(0, crlf_scan(s, 0)->Ok_0 as int), 32)[1] == word_tcp4_lower()
            ==> v1_spec(s) is Err,
{
    let crlf = seq![13u8, 10u8];
    assert(crlf_scan(crlf, 0) == crlf_scan(crlf, 1));
    assert(crlf_scan(crlf, 1) == Ok::<usize, ProxyReadError>(0));
    assert(crlf.subrange(0, 0) =~= Seq::<u8>::empty());
    if crlf_scan(s, 0) is Ok {
        let j = crlf_scan(s, 0)->Ok_0 as int;
        lemma_scan_bounds(s, 0);
        let l = s.subrange(0, j);
        if j > 0 {
            assert(l[0] == s[0]);
        }
        let f = split(l, 32);
        if f.len() > 1 && f[1] == word_tcp4_lower() {
            assert(f[1] != word_unknown()) by {
                assert(f[1].len() != word_unknown().len());
            }
            assert(f[1] != word_tcp4()) by {
                assert(f[1][0] != word_tcp4()[0]);
            }
            assert(f[1] != word_tcp6()) by {
                assert(f[1][0] != word_tcp6()[0]);
            }
        }
    }
}

/// A v2 decode of fewer than the 16 bytes of the fixed header fails as a read
/// that ended early, whatever those bytes are.
pub proof fn lemma_v2_short_input(s: Seq<u8>)
    requires
        s.len() < 16,
    ensures
        v2_spec(s) == Err::<(ProxyProtocolHeader, usize), ProxyReadError>(ProxyReadError::Io),
{
}

} // verus!
