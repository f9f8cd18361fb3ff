//! Deobfuscation of Python 2.7 bytecode.
//!
//! The bytecode of a code object is decoded ([`instruction`], [`opcode`])
//! and walked along the paths that control can take ([`walker`]). What the
//! walk finds becomes a control-flow graph ([`code_graph`],
//! [`graph_build`]). The graph is repaired, pruned and joined ([`repair`],
//! [`reachability`], [`join`]); an abstract interpreter ([`smallvm`],
//! [`semantics`], [`operators`], [`equality`], [`object`], [`long`]) finds
//! the conditional jumps whose outcome is constant on the paths that lead to
//! them ([`paths`]), which are removed ([`const_conditions`]). The
//! simplified graph is laid out ([`layout`]) and written back as bytecode
//! ([`emit`]), which preserves what the simplification has reached
//! ([`preserved`]). [`deob`] runs these passes in order.
//!
//! Beside this, [`stage2`] recovers bytecode that is hidden behind a
//! substitution of bytes, [`name_tags`] recovers function names,
//! [`names`] sanitizes identifiers, and [`rebuild`] puts the new bytecode
//! and the new names into a code object.

pub mod code_graph;
pub mod const_conditions;
pub mod deob;
pub mod emit;
pub mod equality;
pub mod error;
pub mod graph_build;
pub mod instruction;
pub mod join;
pub mod layout;
pub mod long;
pub mod name_tags;
pub mod names;
pub mod object;
pub mod opcode;
pub mod operators;
pub mod paths;
pub mod preserved;
pub mod reachability;
pub mod rebuild;
pub mod repair;
pub mod semantics;
pub mod smallvm;
pub mod stage2;
pub mod walker;
