//! Morphology rule files compiled into a finite-state transducer, and
//! single-word realization queries answered by walking that transducer.
//!
//! A rule line `lemma: word+tags, word+tags, ...` gives one form per
//! comma-separated token holding a `+`. Each form becomes a fresh chain of
//! states from the shared start state, one arc per character of
//! `lemma ‖ tags ‖ word`, reading and writing that character. A query
//! `word+tag+...` is walked with its `+` left out.

pub mod automaton;
pub mod builder;
pub mod query;
pub mod text;

pub use automaton::Transducer;
pub use builder::{generate_fst, parse_entry, BuildError, RuleForm};
pub use query::{realize_query, QueryError};
