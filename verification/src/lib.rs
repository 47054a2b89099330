//! A verified HTTP/1.x message parser.
//!
//! The library turns a byte sequence into a structured request or response:
//! a request line or status line, a header block whose values follow a
//! comma-and-quote grammar, and a length-bounded body.  Every parsing
//! function carries a contract relating its result to a specification-level
//! reading of the same grammar.

use vstd::prelude::*;

pub mod http;

verus! {

pub use crate::http::HTTPError;
pub use crate::http::HTTPError as Error;
pub use crate::http::RequestType;
pub use crate::http::Version;
pub use crate::http::HeaderVal;
pub use crate::http::Headers;
pub use crate::http::Request;
pub use crate::http::Response;

} // verus!
