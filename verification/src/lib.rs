//! Shell-style globbing: a pattern engine that turns a glob expression into
//! a regular expression and matches it against the whole of a text, and a
//! selector pipeline that walks a directory tree one question at a time and
//! yields the paths that match.
//!
//! The pattern engine is in [`token`] and [`pattern`]; it runs on the
//! regular expressions of [`engine`]. The pipeline is in [`selector`] and
//! [`glob`], over the paths of [`path`]. It never touches the file system:
//! it asks its caller, one question with each step.
//!
//! What the pipeline is for is said in [`semantics`], over the trees of
//! [`tree`], and proved in [`script`]: answered from a tree, a traversal
//! takes the steps of its pattern, finds every match of the pattern, and
//! then ends. [`laws`], [`distinct`] and [`members`] hold what else is
//! true of every traversal and of the matches of every pattern.

pub mod text;
pub mod engine;
pub mod token;
pub mod pattern;
pub mod path;
pub mod selector;
pub mod glob;
pub mod tree;
pub mod laws;
pub mod semantics;
pub mod distinct;
pub mod members;
pub mod script;
