//! What a push or a pop is refused with.

use vstd::prelude::*;

verus! {

/// Why an element was not pushed.
#[derive(Debug, Copy, Clone, PartialEq, Eq)]
pub enum TryPushError<T> {
    /// The queue was full. The element is handed back.
    Full(T),
    /// A concurrent operation interfered, and the push has to be tried again.
    /// The element is handed back.
    Busy(T),
}

/// Why no element was popped.
#[derive(Debug, Clone, Copy, PartialEq, Eq, Structural)]
pub enum TryPopError {
    /// The queue was empty.
    Empty,
    /// A concurrent operation interfered, and the pop has to be tried again.
    Busy,
}

}
