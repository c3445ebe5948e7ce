//! A library for resolving symbolic links in filesystem paths.
//!
//! The core is a component-by-component canonicalizer, expressed as a state
//! machine: the caller performs the actual filesystem reads (single-level
//! symlink target lookups and working-directory queries) and feeds the
//! outcomes back in, while every decision — which component to look at next,
//! which errors are tolerated under which canonicalization mode, and how the
//! result buffer evolves — is made here and verified.

pub mod laws;
pub mod path;
pub mod resolver;
pub mod settings;
