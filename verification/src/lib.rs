//! Port forwarding rules: the rule registry, its state transitions and the
//! text helpers of the forwarding log, with their contracts.

pub mod counters;
pub mod hexdump;
pub mod keyed;
pub mod laws;
pub mod logs;
pub mod rule;
pub mod rulemap;
pub mod session;
pub mod state;
pub mod text;
