//! Composable traversals: a traversal visits every target inside a source,
//! in a fixed order, and hands each one to a projection.
//!
//! A result is produced per target pulled. Reading always pulls every target;
//! mutating pulls as many as the caller asks for and leaves the rest untouched.
pub mod flat;
pub mod laws;
pub mod projection;
pub mod then;
pub mod traversal;
pub mod vec_traversal;

pub use then::Then;
pub use traversal::Step;
pub use traversal::Traversal;
pub use vec_traversal::VecTraversal;
