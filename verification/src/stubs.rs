//! Running code that explores how threads interleave.

use vstd::prelude::*;

verus! {

/// Runs the given closure once, in the order in which its threads happen to run.
pub fn model<F>(f: F) where F: Fn() + Sync + Send + 'static
    requires
        f.requires(()),
    ensures
        f.ensures((), ()),
{
    f()
}

}
