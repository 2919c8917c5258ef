//! Library core of a proto backend that installs Python command-line tools with uv.
use vstd::prelude::*;

pub mod config;
pub mod package;
pub mod sorted;
pub mod text;
pub mod uv;
pub mod version;
