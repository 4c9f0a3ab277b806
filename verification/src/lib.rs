//! A compiler and virtual machine for an eight-command tape language.
//!
//! Source text is folded into run-length encoded instructions with resolved
//! loop targets, and the instructions are executed against a circular tape of
//! byte cells.

pub mod cell;
pub mod instruction;
pub mod syntax;
pub mod compiler;
pub mod machine;
pub mod folding;
pub mod pairing;
pub mod clear_loop;
pub mod unfolding;
pub mod plain;
pub mod meaning;
