//! A connection off which a PROXY header has already been read.

use vstd::prelude::*;
use crate::proxy_protocol::{
    decode, decode_spec, lemma_decoded_within, lemma_long_input_decided, lemma_no_over_read,
    max_header_len, stops_at, undecided_before, complete_at, lemma_outcome_forced, ProxyProtocolHeader, ProxyProtocolVersion,
    ProxyReadError, SocketAddress,
};

verus! {

/// Ordered, blocking delivery of the bytes that a connection receives.
pub trait ByteSource {
    /// The bytes that the source has yet to deliver, in order, before it ends or
    /// fails. A source that the
    /// verifier does not check (a network connection) keeps this default, which only
    /// the verifier reads; such a source keeps the contract of `read_byte` by
    /// delivering the connection's bytes in order.
    closed spec fn pending(&self) -> Seq<u8> {
        Seq::empty()
    }

    /// The next byte, or `None` where the connection ended or failed. A byte that is
    /// delivered is the first pending one, and it is then no longer pending; `None`
    /// comes once nothing is pending.
    fn read_byte(&mut self) -> (r: Option<u8>)
        ensures
            r matches Some(b) ==> old(self).pending().len() > 0 && b == old(self).pending()[0]
                && final(self).pending() == old(self).pending().drop_first(),
            r is None ==> old(self).pending().len() == 0,
    ;
}

/// A source over bytes already in memory.
pub struct BufferSource {
    data: Vec<u8>,
    pos: usize,
}

impl BufferSource {
    /// A source that delivers `data`, in order.
    pub fn new(data: Vec<u8>) -> (r: Self)
        ensures
            r.pending() == data@,
    {
        let r = BufferSource { data, pos: 0 };
        assert(r.data@.subrange(0, r.data@.len() as int) =~= r.data@);
        r
    }
}

impl ByteSource for BufferSource {
    closed spec fn pending(&self) -> Seq<u8> {
        if self.pos <= self.data@.len() {
            self.data@.subrange(self.pos as int, self.data@.len() as int)
        } else {
            Seq::empty()
        }
    }

    fn read_byte(&mut self) -> (r: Option<u8>) {
        if self.pos < self.data.len() {
            let b = self.data[self.pos];
            self.pos = self.pos + 1;
            assert(self.data@.subrange(self.pos as int, self.data@.len() as int)
                =~= old(self).data@.subrange(old(self).pos as int, old(self).data@.len() as int).drop_first());
            Some(b)
        } else {
            None
        }
    }
}

/// Longest header of any version: the fixed v2 part and the largest address block.
pub const MAX_HEADER_LEN: usize = 232;

/// A connection whose PROXY header has been consumed, with the header's bytes and the
/// source address that the header named, where it named one.
#[derive(Clone, Debug)]
pub struct ProxyStream<T> {
    inner: T,
    peer_addr: Option<SocketAddress>,
    header: Vec<u8>,
}

/// A header that could not be read: the decode error, the bytes read before it was
/// decided (or before the connection failed), and the connection.
#[derive(Debug)]
pub struct HeaderFailure<T> {
    pub error: ProxyReadError,
    pub read: Vec<u8>,
    pub source: T,
}

impl<T> ProxyStream<T> {
    pub closed spec fn spec_peer_addr(&self) -> Option<SocketAddress> {
        self.peer_addr
    }

    pub closed spec fn spec_header(&self) -> Seq<u8> {
        self.header@
    }

    pub closed spec fn spec_inner(&self) -> T {
        self.inner
    }

    /// The source address that the header named.
    pub fn peer_addr(&self) -> (r: Option<SocketAddress>)
        ensures
            r == self.spec_peer_addr(),
    {
        self.peer_addr
    }

    /// The bytes of the header, as they were read.
    pub fn header(&self) -> (r: &Vec<u8>)
        ensures
            r@ == self.spec_header(),
    {
        &self.header
    }

    /// The wrapped connection.
    pub fn get_ref(&self) -> (r: &T)
        ensures
            *r == self.spec_inner(),
    {
        &self.inner
    }

    /// The wrapped connection, for reads and writes past the header.
    pub fn get_mut(&mut self) -> (r: &mut T)
        ensures
            *r == old(self).spec_inner(),
            final(self).spec_inner() == *final(r),
            final(self).spec_peer_addr() == old(self).spec_peer_addr(),
            final(self).spec_header() == old(self).spec_header(),
    {
        &mut self.inner
    }

    /// Gives the wrapped connection back.
    pub fn into_inner(self) -> (r: T)
        ensures
            r == self.spec_inner(),
    {
        self.inner
    }
}

/// Where every shorter input was undecided, a header decoded from `b` takes all of it.
proof fn lemma_decided_whole(version: ProxyProtocolVersion, b: Seq<u8>)
    requires
        undecided_before(version, b),
        decode_spec(version, b) is Ok,
    ensures
        decode_spec(version, b)->Ok_0.1 == b.len(),
{
    let n = decode_spec(version, b)->Ok_0.1;
    lemma_decoded_within(version, b);
    if n < b.len() {
        assert(b.subrange(0, n as int).subrange(0, n as int) =~= b.subrange(0, n as int));
        lemma_no_over_read(version, b, b.subrange(0, n as int));
        assert(decode_spec(version, b.subrange(0, n as int))
            == Err::<(ProxyProtocolHeader, usize), ProxyReadError>(ProxyReadError::Io));
    }
}

/// One more byte after an input that was undecided keeps every shorter input undecided.
proof fn lemma_undecided_extend(version: ProxyProtocolVersion, prev: Seq<u8>, b: u8)
    requires
        undecided_before(version, prev),
        decode_spec(version, prev) == Err::<(ProxyProtocolHeader, usize), ProxyReadError>(ProxyReadError::Io),
    ensures
        undecided_before(version, prev.push(b)),
{
    let next = prev.push(b);
    assert forall|k: int| 0 <= k < next.len() implies #[trigger] decode_spec(version, next.subrange(0, k))
        == Err::<(ProxyProtocolHeader, usize), ProxyReadError>(ProxyReadError::Io) by {
        if k < prev.len() {
            assert(next.subrange(0, k) =~= prev.subrange(0, k));
        } else {
            assert(next.subrange(0, k) =~= prev);
        }
    }
}

impl<T: ByteSource> ProxyStream<T> {
    /// Reads one header of the given version off `stream`, a byte at a time, decoding
    /// after each byte and stopping as soon as the decode is decided.
    ///
    /// On success the bytes read are a complete header and nothing more: the result
    /// keeps them and the header's source address, and the connection still holds
    /// every byte after them. On failure the error is what decoding the bytes read
    /// gives, and the failure keeps those bytes: either the decode was decided as an
    /// error and nothing after the deciding byte was read, or the connection ended
    /// or failed with every byte it delivered still undecided (`Io`). Where the
    /// connection's bytes open with a complete header, the result is that header.
    #[verifier::rlimit(40)]
    pub fn from_stream(stream: T, version: ProxyProtocolVersion) -> (r: Result<Self, HeaderFailure<T>>)
        ensures
            r matches Ok(ps) ==> {
                &&& stops_at(version, ps.spec_header())
                &&& decode_spec(version, ps.spec_header()) matches Ok((h, n))
                    && n == ps.spec_header().len() && ps.spec_peer_addr() == h.source_addr
                &&& stream.pending() == ps.spec_header() + ps.spec_inner().pending()
            },
            r matches Err(f) ==> {
                &&& undecided_before(version, f.read@)
                &&& decode_spec(version, f.read@) == Err::<(ProxyProtocolHeader, usize), ProxyReadError>(f.error)
                &&& f.read@.len() <= stream.pending().len()
                &&& f.read@ == stream.pending().subrange(0, f.read@.len() as int)
                &&& f.error != ProxyReadError::Io ==> stops_at(version, f.read@)
                    && stream.pending() == f.read@ + f.source.pending()
                &&& f.error == ProxyReadError::Io ==> f.read@ == stream.pending()
            },
            forall|n: int| 0 <= n <= stream.pending().len() && #[trigger] complete_at(version, stream.pending(), n)
                ==> (r matches Ok(ps) && ps.spec_header() == stream.pending().subrange(0, n)),
    {
        let ghost start = stream.pending();
        let mut source = stream;
        let mut buf: Vec<u8> = Vec::new();
        assert(buf@ + source.pending() =~= start);
        loop
            invariant
                buf@.len() <= MAX_HEADER_LEN,
                undecided_before(version, buf@),
                start == buf@ + source.pending(),
                start == stream.pending(),
            decreases MAX_HEADER_LEN - buf@.len(),
        {
            match decode(version, buf.as_slice()) {
                Ok((h, _)) => {
                    proof {
                        lemma_decided_whole(version, buf@);
                        assert(buf@ =~= start.subrange(0, buf@.len() as int));
                        assert forall|n: int| 0 <= n <= start.len() && #[trigger] complete_at(version, start, n)
                            implies buf@ == start.subrange(0, n) by {
                            lemma_outcome_forced(version, start, n, buf@);
                        }
                    }
                    return Ok(ProxyStream { inner: source, peer_addr: h.source_addr, header: buf });
                },
                Err(ProxyReadError::Io) => {},
                Err(e) => {
                    assert(start.subrange(0, buf@.len() as int) =~= buf@);
                    assert forall|n: int| 0 <= n <= start.len() && #[trigger] complete_at(version, start, n)
                        implies false by {
                        lemma_outcome_forced(version, start, n, buf@);
                    }
                    return Err(HeaderFailure { error: e, read: buf, source: source });
                },
            }
            proof {
                if buf@.len() >= max_header_len(version) {
                    lemma_long_input_decided(version, buf@);
                }
            }
            let ghost prev = buf@;
            match source.read_byte() {
                Some(b) => {
                    buf.push(b);
                    proof {
                        lemma_undecided_extend(version, prev, b);
                        assert(buf@ + source.pending() =~= start);
                    }
                },
                None => {
                    assert(start.subrange(0, buf@.len() as int) =~= buf@);
                    assert(buf@ =~= start);
                    assert forall|n: int| 0 <= n <= start.len() && #[trigger] complete_at(version, start, n)
                        implies false by {
                        lemma_outcome_forced(version, start, n, buf@);
                    }
                    return Err(HeaderFailure { error: ProxyReadError::Io, read: buf, source: source });
                },
            }
        }
    }
}

} // verus!
