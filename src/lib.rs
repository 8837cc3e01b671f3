//! A contextual completion engine over a parsed document tree: it finds the
//! names visible at a cursor, and offers parameter names and values inside a
//! function call.
use vstd::prelude::*;

pub mod model;
pub mod bindings;
pub mod scope;
pub mod params;

