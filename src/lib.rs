//! Static site generation for a tree of post records: paragraph mangling of
//! post bodies, index aggregation over directories and tags, and the
//! timestamp rule that decides whether a page is rebuilt.
pub mod text;
pub mod mangle;
pub mod order;
pub mod index;
pub mod paths;
pub mod aggregate;
pub mod rebuild;
pub mod source;
pub mod feed;
pub mod render;
