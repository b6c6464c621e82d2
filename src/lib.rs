//! Receiver side of the PROXY protocol: decoding of the text (v1) and binary (v2)
//! headers that a load balancer sends ahead of a forwarded connection, and the
//! connection and listener decorators that consume such a header once per
//! accepted connection.

pub mod proxy_protocol;
pub mod text;
pub mod proxy_stream;
pub mod proxy_listener;

pub use proxy_listener::ProxyListener;
pub use proxy_protocol::ProxyProtocolVersion;
