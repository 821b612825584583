//! A small JSON-over-HTTP application substrate: a hand-written JSON codec,
//! an HTTP/1.1 request framer, a sorted route table with binary-search
//! lookup, and a response assembler, all with verified contracts.

pub mod clock;
pub mod config;
pub mod framer;
pub mod json;
pub mod query;
pub mod reqres;
pub mod routes;
pub mod strutil;
pub mod urlencoded;
