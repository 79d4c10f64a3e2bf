//! The host side of a FastCGI runtime for Cyth scripts embedded in HTML
//! pages, PHP-style, between `<?` and `?>`.
//!
//! - `template`: turning a page into Cyth source, text chunks and a line mapping;
//! - `host`: output, headers, environment, error reports and the response;
//! - `builtins`: host functions of scripts that compute on their arguments;
//! - `environ`: the request's environment and its cookies;
//! - `numbers`: reading integers from text;
//! - `json`: JSON values read by `jsonDecode`;
//! - `serve`: routing a request, and database handles;
//! - `cyth`: the strings and arrays exchanged with Cyth code;
//! - `text`: byte-text helpers (search, white space, lines, decimals);
//! - `outside`: the calls into other crates, with what is believed of them.

pub mod text;
pub mod template;
pub mod cyth;
pub mod numbers;
pub mod json;
pub mod outside;
pub mod builtins;
pub mod environ;
pub mod host;
pub mod serve;

pub use cyth::{CyArray, CyString};
