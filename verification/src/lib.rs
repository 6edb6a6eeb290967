use vstd::prelude::*;

pub mod clock;
pub mod length;
pub mod array;
pub mod language;
pub mod subtree;
pub mod subtree_build;
pub mod subtree_ops;
pub mod subtree_edit;
pub mod subtree_balance;
pub mod subtree_string;
pub mod unicode;
pub mod tree;
pub mod node;
pub mod node_field;
pub mod node_sibling;
pub mod tree_cursor;
pub mod reusable_node;
pub mod query;
pub mod query_parse;
pub mod query_cursor;
pub mod parser;

verus! {

} // verus!
