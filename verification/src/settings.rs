//! Configuration for a resolution run: the canonicalization mode and the
//! output options chosen on the command line.

use vstd::prelude::*;

verus! {

/// The tolerance policy applied when a path component does not resolve.
///
/// `None` performs a single non-recursive link read on the whole path;
/// the other three walk the path component by component and differ in
/// which missing components they accept.
#[derive(Debug, Clone, Copy, PartialEq, Eq, Structural)]
pub enum CanonicalizeOption {
    /// Walk every component; all but the last must exist.
    AllButLast,
    /// Walk every component; every component must exist.
    Existing,
    /// Walk every component; no component is required to exist.
    Missing,
    /// Do not walk: read the link target of the exact input path.
    NoCanonicalize,
}

impl CanonicalizeOption {
    #[must_use]
    pub fn is_all_but_last(&self) -> (r: bool)
        ensures
            r == (self is AllButLast),
    {
        if let Self::AllButLast = self {
            true
        } else {
            false
        }
    }

    #[must_use]
    pub fn is_existing(&self) -> (r: bool)
        ensures
            r == (self is Existing),
    {
        if let Self::Existing = self {
            true
        } else {
            false
        }
    }

    #[must_use]
    pub fn is_missing(&self) -> (r: bool)
        ensures
            r == (self is Missing),
    {
        if let Self::Missing = self {
            true
        } else {
            false
        }
    }

    #[must_use]
    pub fn is_none(&self) -> (r: bool)
        ensures
            r == (self is NoCanonicalize),
    {
        if let Self::NoCanonicalize = self {
            true
        } else {
            false
        }
    }
}

/// The full configuration of one invocation: the canonicalization mode,
/// the output options, and the paths to resolve (as raw bytes).
#[derive(Debug)]
pub struct Settings {
    pub canonicalize: CanonicalizeOption,
    pub output_delimiter: bool,
    pub quiet: bool,
    pub zero: bool,
    pub files: Vec<Vec<u8>>,
}

impl Default for Settings {
    /// The configuration before any flag is applied: no canonicalization,
    /// a trailing delimiter, errors suppressed, newline delimiter, no files.
    fn default() -> (r: Self)
        ensures
            r.canonicalize is NoCanonicalize,
            r.output_delimiter == true,
            r.quiet == true,
            r.zero == false,
            r.files@ == Seq::<Vec<u8>>::empty(),
    {
        Self {
            canonicalize: CanonicalizeOption::NoCanonicalize,
            output_delimiter: true,
            quiet: true,
            zero: false,
            files: Vec::<Vec<u8>>::new(),
        }
    }
}

} // verus!
