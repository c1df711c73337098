//! Verified parts of a virtual machine: the recursive types of its assembly language, the resolution
//! of constants and types by its linker, and the data from which the trace of an execution is
//! replayed and proved.
//!
//! # Types
//!
//! - [`types`]: types, recursive groups, and what they stand for.
//! - [`layout`], [`aggregates`]: sizes and alignments, and the construction of structs and enums.
//! - [`templates`], [`recursive`]: descriptions of types that refer to one another by name, and the
//!   builder that turns them into types. [`graph`] holds the algorithms on the references,
//!   [`closing`] and [`opening`] turn descriptions into types and into definitions of a group, and
//!   [`unfolding`] turns a definition back into a type.
//! - [`alike`], [`closing_laws`], [`recursive_laws`], [`order_laws`], [`guard_laws`]: what holds of built
//!   types, and why others cannot be built.
//! - [`layout_laws`]: what the sizes and offsets of structs, enums and arrays are.
//! - [`lowering`], [`lowering_laws`]: cutting types into the parts that represent them on the operand
//!   stack, and what the parts keep.
//! - [`equality`], [`hashing`], [`text`]: comparing, hashing and printing types.
//! - [`names`], [`lists`], [`type_map`], [`numerals`]: the names, lists, maps and numbers that the
//!   others are made of.
//!
//! # Resolution
//!
//! - [`resolver`]: what the linker decides between the evaluations that it needs.
//!
//! # Replay
//!
//! - [`replay`], [`state`], [`chiplets`], [`hasher`]: what an execution records and a trace builder
//!   replays.
//! - [`fields`], [`errors`]: the values that are recorded, and why they cannot be replayed.
//! - [`wire`], [`reader`], [`bytes`]: how they are written and read. [`format_laws`] says what the bytes
//!   are.
//! - [`inputs`]: what a proof is generated from.

pub mod aggregates;
pub mod alike;
pub mod bytes;
pub mod chiplets;
pub mod closing;
pub mod closing_laws;
pub mod equality;
pub mod errors;
pub mod fields;
pub mod format_laws;
pub mod graph;
pub mod guard_laws;
pub mod hasher;
pub mod hashing;
pub mod inputs;
pub mod layout;
pub mod layout_laws;
pub mod lists;
pub mod lowering;
pub mod lowering_laws;
pub mod names;
pub mod numerals;
pub mod opening;
pub mod order_laws;
pub mod reader;
pub mod recursive;
pub mod recursive_laws;
pub mod replay;
pub mod resolver;
pub mod state;
pub mod templates;
pub mod text;
pub mod type_map;
pub mod types;
pub mod unfolding;
pub mod wire;
