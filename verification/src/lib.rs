//! Compiler core that turns an already-constructed deterministic finite
//! automaton into source text for a bounded-length byte-processing target:
//! the transition relation is flattened into a dense lookup table, start and
//! end anchors are resolved, and a driver routine is emitted that walks the
//! table over a fixed-size input array and asserts acceptance.

pub mod automaton;
pub mod decimal;
pub mod indent;
pub mod table;
pub mod semantics;
pub mod emit;
