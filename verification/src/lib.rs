//! A verified core for a small entity-behaviour scripting language: parsing
//! of `entity` definitions, statement/expression trees with
//! semantics-preserving transformations, corpus-wide frequency analysis,
//! corpus simplification through synthesized helpers, and generation of the
//! source text for a native micro-benchmark of the hottest statement
//! sequences.

pub mod analyzer;
pub mod aot;
pub mod ast;
pub mod components;
pub mod meta_lang;
pub mod num_text;
pub mod round_trip;
pub mod runtime;
pub mod supercompiler;
pub mod systems;
pub mod transform_props;
pub mod text;

pub use meta_lang::parse_entities;

use vstd::prelude::*;

verus! {

} // verus!
