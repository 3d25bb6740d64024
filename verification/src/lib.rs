//! Persistent (immutable) data structures with verified contracts.
//!
//! Every update operation returns a new logical version of the structure
//! while all previous versions remain valid; unchanged substructure is
//! shared between versions rather than copied.
//!
//! The core component is the rank-based leftist heap in [`heap`]; the
//! binary search trees, the finite map and the stacks are smaller
//! companions built in the same style.  The finite map is generic over
//! its key type through the total-order trait in [`order`], with
//! integer and string keys provided.

pub mod bst;
pub mod heap;
pub mod list;
pub mod order;
pub mod stack;
pub mod stack_mut;
pub mod tree;
pub mod treemap;
