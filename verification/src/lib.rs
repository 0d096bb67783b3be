//! An incremental recomputation engine over a mutable tree of nodes.
//!
//! The dom holds elements, text runs and placeholders, and for each node
//! one derived-value slot per registered state pass.  Every mutation —
//! creating a node, attaching or moving a subtree, touching an attribute,
//! the text or a listener — records, through a mask of what it touched,
//! which passes must recompute which nodes.  An update cycle drains those
//! records and recomputes each due (pass, node) pair exactly once, pass
//! by pass in an order that respects the declared dependencies, and
//! inside a pass in height order: rootward first for parent-to-child
//! passes, leafward first for child-to-parent passes.  A changed value
//! marks its dependants dirty for the next cycle; no cycle iterates to a
//! fixpoint.
//!
//! Every structure carries a ghost model, and every operation's contract
//! states its effect on that model; `laws` states the properties that
//! hold across operations.
//!
//! Shadow subtrees are outside this model: no mutation of this engine
//! can substitute one in place of a slot, so child queries and dependant
//! propagation walk the one tree, and pass descriptors carry no
//! shadow-traversal flag.

pub mod attributes;
pub mod digest;
pub mod dom;
pub mod laws;
pub mod listeners;
pub mod mask;
pub mod node;
pub mod passes;
pub mod schedule;
pub mod tree;
pub mod update;
