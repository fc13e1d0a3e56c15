//! Reachability tracing and opcode-pattern search over a decompiled
//! control-flow graph.
//!
//! The crate models a contract's control-flow graph as a mapping from
//! block-start offset to a basic block with an edge descriptor, walks the
//! blocks reachable from an entry offset, and scans the resulting
//! instruction paths for two-opcode patterns with a bounded lookahead.

use vstd::prelude::*;

pub mod graph;
pub mod matcher;
pub mod selector;
pub mod tracer;

pub use graph::Block;
pub use graph::BlockType;
pub use graph::Cfg;
pub use graph::DynamicJumpTarget;
pub use matcher::FunctionTrace;
pub use matcher::PatternMatch;
pub use matcher::contains_substr;
pub use matcher::search_pattern_in_functions;
pub use matcher::LOOKAHEAD;
pub use selector::selector_to_hex;
pub use tracer::trace_function_execution;

verus! {

/// The ceiling on the number of blocks one trace may visit; a safety valve
/// against unbounded exploration of cyclic graphs.
pub const MAX_TRACE_STEPS: usize = 100;

} // verus!
