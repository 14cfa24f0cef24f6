//! A verified core for an LSP proxy that sits between an editor and a
//! C/C++ language server compiled against preprocessed sources.
//!
//! The proxy's intellectual content is here: the bidirectional line-range
//! source mapping built from `#line` directives, the request/response
//! correlation state, and the per-method payload translation rules.
//! Process management, sockets and JSON framing live outside this crate's
//! verified boundary, in the accompanying application code.

pub mod global_state;
pub mod handler;
pub mod line_directives;
pub mod source_mapping;
pub mod util;

use vstd::prelude::*;

verus! {

/// Direction of travel of a message through the proxy.
#[derive(Clone, Copy, Debug, PartialEq, Eq, Structural)]
pub enum Direction {
    ToServer,
    FromServer,
}

impl Direction {
    /// The opposite direction, as a specification value.
    pub open spec fn reverse_spec(self) -> Direction {
        match self {
            Direction::ToServer => Direction::FromServer,
            Direction::FromServer => Direction::ToServer,
        }
    }

    /// The opposite direction: a response travels against its request.
    pub fn reverse(&self) -> (r: Direction)
        ensures
            r == self.reverse_spec(),
    {
        match self {
            Direction::ToServer => Direction::FromServer,
            Direction::FromServer => Direction::ToServer,
        }
    }
}

} // verus!
