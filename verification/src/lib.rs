//! A binary container for agent skills: a `SKILL.md` compiled into a signed, lazily verified
//! graph with executable segments, together with the reader that refuses malformed files, the
//! canonical writer, the Markdown compiler and renderer, and the capability gate for segments.

#![verifier::loop_isolation(false)]

use vstd::prelude::*;

pub mod cap_kind;
pub mod classify;
pub mod codec;
pub mod compile;
pub mod corpus;
pub mod embed;
pub mod error;
pub mod fuzz;
pub mod graph;
pub mod hashing;
pub mod library;
pub mod manifest;
pub mod mcp;
pub mod md;
pub mod order;
mod preorder;
pub mod org;
pub mod header;
pub mod raw;
pub mod render;
pub mod routing;
pub mod run;
pub mod sig;
pub mod skill;
pub mod subtree;
pub mod survey;
pub mod text;
pub mod writer;
mod validate;

pub use error::Error;
