//! Labelled log lines, as `base` writes them.

use vstd::prelude::*;

use crate::trace::base;

verus! {

/// A success line, as `base::ok` writes it.
pub fn ok(msg: &str) -> (s: String)
    ensures
        s@ == base::labelled(base::ok_label(), 70, msg@),
{
    base::ok(msg)
}

/// An error line, as `base::error` writes it.
pub fn error(msg: &str) -> (s: String)
    ensures
        s@ == base::labelled(base::error_label(), 160, msg@),
{
    base::error(msg)
}

/// An information line, as `base::info` writes it.
pub fn info(msg: &str) -> (s: String)
    ensures
        s@ == base::labelled(base::info_label(), 39, msg@),
{
    base::info(msg)
}

/// A debug line, as `base::debug` writes it.
pub fn debug(msg: &str) -> (s: String)
    ensures
        s@ == base::labelled(base::debug_label(), 190, msg@),
{
    base::debug(msg)
}

/// A warning line, as `base::warn` writes it.
pub fn warn(msg: &str) -> (s: String)
    ensures
        s@ == base::labelled(base::warn_label(), 199, msg@),
{
    base::warn(msg)
}

} // verus!
