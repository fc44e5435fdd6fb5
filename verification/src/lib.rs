//! Canonical LR(1) parser-table generation.
//!
//! The generator takes a context-free grammar and produces the canonical
//! LR(1) automaton with the action and goto tables that drive a
//! shift-reduce parser. It is a pure transformation in five parts:
//!
//! * [`symbols`] interns terminals and non-terminals to small integers;
//! * [`grammar`] holds the numbered productions, with production 0 as the
//!   augmented start production `S' -> S`;
//! * [`first`], [`item`] and [`closure`] define LR(1) items and the
//!   operations CLOSURE and GOTO on canonical item sets;
//! * [`automaton`] builds the canonical collection of item sets and the
//!   transitions between them;
//! * [`table`] and [`compact`] emit the dense table with its conflict
//!   report, and the compacted arrays.
//!
//! [`generator`] runs the parts in turn, [`invariants`] states what holds of
//! every state and every cell, [`bounds`] why the construction ends, and
//! [`render`] puts items, actions and states into text for diagnostics.

pub mod automaton;
pub mod bounds;
pub mod closure;
pub mod compact;
pub mod error;
pub mod first;
pub mod generator;
pub mod grammar;
pub mod invariants;
pub mod item;
pub mod render;
pub mod symbols;
pub mod table;
