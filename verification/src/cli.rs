//! Choices that the command line offers.
use vstd::prelude::*;

verus! {

/// How `replay` rewrites the links of responses.
#[derive(Clone, Copy, Debug, PartialEq, Eq, Structural)]
pub enum RewriteMode {
    /// To relative paths (recommended: it holds on every machine and port).
    Relative,
    /// To absolute addresses below a base.
    Absolute,
    /// Not at all.
    Keep,
}

} // verus!
