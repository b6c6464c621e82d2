//! A listener that reads a PROXY header off every connection it accepts.

use vstd::prelude::*;
use crate::proxy_protocol::{
    complete_at, decode_spec, stops_at, undecided_before, ProxyProtocolHeader, ProxyProtocolVersion, ProxyReadError,
};
use crate::proxy_stream::{ByteSource, HeaderFailure, ProxyStream};

verus! {

/// A listener together with the version of PROXY header that its connections carry.
#[derive(Clone)]
pub struct ProxyListener<T> {
    inner: T,
    version: ProxyProtocolVersion,
}

impl<T> ProxyListener<T> {
    pub closed spec fn spec_version(&self) -> ProxyProtocolVersion {
        self.version
    }

    pub closed spec fn spec_inner(&self) -> T {
        self.inner
    }

    /// Wraps an already constructed listener.
    pub fn new(listener: T, proxy_protocol_version: ProxyProtocolVersion) -> (r: Self)
        ensures
            r.spec_inner() == listener,
            r.spec_version() == proxy_protocol_version,
    {
        ProxyListener { inner: listener, version: proxy_protocol_version }
    }

    /// The version of header expected on each connection.
    pub fn version(&self) -> (r: ProxyProtocolVersion)
        ensures
            r == self.spec_version(),
    {
        self.version
    }

    /// The wrapped listener.
    pub fn get_ref(&self) -> (r: &T)
        ensures
            *r == self.spec_inner(),
    {
        &self.inner
    }

    /// The wrapped listener, for accepting and for address queries.
    pub fn get_mut(&mut self) -> (r: &mut T)
        ensures
            *r == old(self).spec_inner(),
            final(self).spec_version() == old(self).spec_version(),
            final(self).spec_inner() == *final(r),
    {
        &mut self.inner
    }

    /// Reads the header off a connection that the wrapped listener accepted, in the
    /// version this listener was made with, as `ProxyStream::from_stream` does.
    pub fn decorate<S: ByteSource>(&self, stream: S) -> (r: Result<ProxyStream<S>, HeaderFailure<S>>)
        ensures
            r matches Ok(ps) ==> {
                &&& stops_at(self.spec_version(), ps.spec_header())
                &&& decode_spec(self.spec_version(), ps.spec_header()) matches Ok((h, n))
                    && n == ps.spec_header().len() && ps.spec_peer_addr() == h.source_addr
                &&& stream.pending() == ps.spec_header() + ps.spec_inner().pending()
            },
            r matches Err(f) ==> {
                &&& undecided_before(self.spec_version(), f.read@)
                &&& decode_spec(self.spec_version(), f.read@)
                    == Err::<(ProxyProtocolHeader, usize), ProxyReadError>(f.error)
                &&& f.read@.len() <= stream.pending().len()
                &&& f.read@ == stream.pending().subrange(0, f.read@.len() as int)
                &&& f.error != ProxyReadError::Io ==> stops_at(self.spec_version(), f.read@)
                    && stream.pending() == f.read@ + f.source.pending()
                &&& f.error == ProxyReadError::Io ==> f.read@ == stream.pending()
            },
            forall|n: int| 0 <= n <= stream.pending().len()
                && #[trigger] complete_at(self.spec_version(), stream.pending(), n)
                ==> (r matches Ok(ps) && ps.spec_header() == stream.pending().subrange(0, n)),
    {
        ProxyStream::from_stream(stream, self.version)
    }
}

} // verus!
