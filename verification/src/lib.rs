use vstd::prelude::*;

pub mod assertions;
pub mod base64;
pub mod curl;
pub mod headers;
pub mod json;
pub mod kv;
pub mod method;
pub mod query;
pub mod request;
pub mod response;
pub mod size;
pub mod status;
pub mod text;
pub mod urlencoding;
