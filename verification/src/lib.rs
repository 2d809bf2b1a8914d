//! Structured three-way merge of source code.
//!
//! Three revisions of a file, a common ancestor and two revisions that
//! descend from it, are merged as concrete syntax trees: the trees are matched
//! pairwise, merged node by node, and the merged tree is rendered back to
//! text, with markers around what could not be reconciled.

pub mod control;
pub mod forest;
pub mod matching;
pub mod merge;
pub mod model;
pub mod parsing;
pub mod pretty_printing;
