//! Constrained enumeration of a Cartesian product.
//!
//! Every combination of several finite, ordered domains that passes an
//! ordered list of predicates is found, and a failing predicate discards the
//! whole subtree of combinations that share the failing prefix in one step.
//!
//! - [`space`]: the domains, and the tuple of values that a position names.
//! - [`counter`]: the position counter, a mixed-radix odometer that can skip
//!   a subtree.
//! - [`constraint`]: predicates with the depth they are scheduled at.
//! - [`schedule`]: the jump and bad tables, and the transitions of the scan
//!   over the constraints.
//! - [`machine`]: the search as a state machine over mathematical values.
//! - [`solutions`]: what a search finds, held against the exhaustive scan.
//! - [`engine`]: the engine that runs the search.
//! - [`util`]: sizing a search space without overflow.

pub mod constraint;
pub mod counter;
pub mod engine;
pub mod machine;
pub mod schedule;
pub mod solutions;
pub mod space;
pub mod util;

pub use crate::constraint::Constrain;
pub use crate::engine::TreeJump;
pub use crate::space::Candidate;
pub use crate::space::SearchSpace;
