//! A small HTTP client engine.
//!
//! [`url::Url::new`] parses a URL, [`request::request`] performs one `GET`
//! over a [`socket::Socket`] and parses the answer into a
//! [`response::HttpResponse`], and [`markup::strip_html_tags`] takes the
//! markup out of a body. The engine opens no connection itself: it is handed
//! its transports, and says of each call it makes on them what it hands over
//! and what it does with the answer.

pub mod error;
pub mod headers;
pub mod markup;
pub mod replay;
pub mod request;
pub mod response;
pub mod socket;
pub mod std_specs;
pub mod text;
pub mod url;

pub use crate::error::{RequestError, Stage, TransportError};
pub use crate::headers::Headers;
pub use crate::markup::strip_html_tags;
pub use crate::request::{make_request_with_socket, request};
pub use crate::response::HttpResponse;
pub use crate::socket::{ByteStream, HttpSocket, Socket};
pub use crate::url::{ParseError, Scheme, Url};
