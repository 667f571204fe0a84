//! HTTP messages: requests as parsed from the wire and responses as written to it.
pub mod content_type;
pub mod request;
pub mod response;

use crate::str_map::StrMap;
use vstd::prelude::*;

verus! {

/// The request methods that the server understands.
#[derive(Clone, Copy, Debug, PartialEq, Eq, Structural)]
pub enum Method {
    GET,
    HEAD,
    POST,
    PUT,
    DELETE,
    TRACE,
    OPTIONS,
    CONNECT,
    PATCH,
}

/// A request as handed to a route function.
pub struct Request {
    pub method: Method,
    pub target: String,
    pub options: StrMap,
    pub body: Vec<u8>,
}

/// A response under construction.
pub struct Response {
    pub status: u32,
    pub fields: Vec<String>,
    pub content_type: ContentType,
    pub body: Vec<u8>,
}

/// The content types that a response can declare.
#[derive(Clone, Copy, Debug, PartialEq, Eq, Structural)]
pub enum ContentType {
    JSON,
    JS,
    CSS,
    HTML,
    ICO,
    PLAIN,
}

} // verus!
