//! `rusty_request`: the logic of an HTTP client in the spirit of Python's
//! `requests`, with every promise it makes stated as a contract and proved.
//!
//! The library touches no socket, no clock that matters, and no environment:
//! it parses and builds URLs, headers, cookies, JSON, forms and HTTP/1.1
//! messages, and it decides (what goes out on each hop, which redirects are
//! followed, what is retried and when, which connection is used again). What
//! it cannot do without the outside world, it asks for: the readers in
//! [`http1`] say when they need more bytes, and [`exchange`],
//! [`retry::RetryState`], [`hop::Dialing`] and [`hop::after_attempt`] say what
//! to do next.
//!
//! Modules whose names end in `_laws` hold what several functions promise
//! together.

pub mod base64;
pub mod body;
pub mod client;
pub mod cookie;
pub mod cookie_laws;
pub mod date;
pub mod error;
pub mod exchange;
pub mod exchange_laws;
pub mod header;
pub mod hop;
pub mod hop_laws;
pub mod http1;
pub mod json;
pub mod json_laws;
pub mod json_text_laws;
pub mod method;
pub mod multipart;
pub mod platform;
pub mod pool;
pub mod proxy;
pub mod rand;
pub mod redirect;
pub mod request;
pub mod response;
pub mod response_laws;
pub mod retry;
pub mod retry_laws;
pub mod status;
pub mod streaming;
pub mod text;
pub mod text_laws;
pub mod tls;
pub mod url;
pub mod url_laws;
pub mod wire;

pub use body::Body;
pub use client::Client;
pub use client::ClientBuilder;
pub use client::RequestBuilder;
pub use error::Error;
pub use error::Result;
pub use header::HeaderMap;
pub use json::Value as Json;
pub use method::Method;
pub use multipart::Multipart;
pub use proxy::Proxy;
pub use request::Request;
pub use response::Response;
pub use retry::Backoff;
pub use retry::RetryPolicy;
pub use status::StatusCode;
pub use streaming::StreamingResponse;
pub use tls::pinned_anchors;
pub use tls::TrustPolicy;
pub use url::Url;
