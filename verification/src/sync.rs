//! Multi-producer multi-consumer queue that allows sending and receiving from
//! different threads.
//!
//! A push and a pop are sequences of accesses to packed words and to slots
//! (`memory`). What they do with each reply is a step of `push` and of `pop`.
//! Two kinds of queues perform the accesses:
//!
//! - `QueueInner` belongs to one caller. Its words are plain numbers, and its
//!   calls are stated exactly. `laps` and `alone` say why no access interferes.
//! - `Queue` is shared. Its words are atomic, and other threads decide what they
//!   hold, so its calls state which accesses and replies lead them to their results.
//!   As the words are touched through shared references, the contracts do not say
//!   that a call touches none of them besides. `single` states what follows while
//!   one thread uses the queue.
//!
//! What holds of any number of operations that take turns on the same words is
//! stated in `interleave`, `arrival` and `starts`, under the bounds of `crowd` and
//! `starts`. The reasons are an account of all slots (`account`), what each access
//! does to it (`slots`, `opening`) and what each operation knows of it (`system`).
//! `traces` and `calls` say what that means for the calls of a shared queue: with
//! the same replies they come to the same results. `values` says it of what the
//! threads receive.
//!
//! When an operation does not succeed is stated in `empty` and `drain` for pops and
//! in `refill` and `full` for pushes, and in `busy` and `looks` for both; `answers`
//! says it of the calls. `heads` says how far the consumer head can lag behind.

pub mod account;
pub mod alone;
pub mod answers;
pub mod arrival;
pub mod bits;
pub mod busy;
pub mod calls;
pub mod count;
pub mod crowd;
pub mod cursor;
pub mod drain;
pub mod empty;
pub mod error;
pub mod full;
pub mod heads;
pub mod inner;
pub mod interleave;
pub mod laps;
pub mod looks;
pub mod memory;
pub mod mpmc;
pub mod opening;
pub mod params;
pub mod pop;
pub mod push;
pub mod queue;
pub mod refill;
pub mod shared;
pub mod single;
pub mod slots;
pub mod snapshot;
pub mod starts;
pub mod system;
pub mod traces;
pub mod values;

pub use error::{TryPopError, TryPushError};
pub use inner::QueueInner;
pub use params::{Capacity, QueueParameters};
pub use queue::Queue;
