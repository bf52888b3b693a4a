//! A minimal embeddable HTTP serving core: request decoding, route matching
//! with path parameters, a middleware chain, and response encoding.
//!
//! Everything here is pure: bytes in, bytes out. Sockets and threads belong to
//! the program that embeds the library.

pub mod chain;
pub mod codec;
pub mod json;
pub mod request;
pub mod response;
pub mod router;
pub mod server;
pub mod strmap;
pub mod text;

pub use chain::run_middlewares;
pub use chain::Flow;
pub use codec::decode;
pub use codec::encode;
pub use codec::encode_request;
pub use json::encode_json;
pub use json::EncodeError;
pub use request::decode_text;
pub use request::ParseError;
pub use request::Request;
pub use response::Response;
pub use router::match_route;
pub use router::Params;
pub use router::Route;
pub use server::MiniExpress;
pub use strmap::StrMap;
