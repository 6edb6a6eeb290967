# tree_sitter

The data structures and algorithms of the tree-sitter runtime (language ABI
11) as a Verus library: syntax trees and their nodes, tree cursors, tree
edits and balancing, the S-expression printer, the query language (its
parser and its matching cursor), and the parts of the incremental parser that
do not need the parse stack or the lexer.

The functions in `src/` are verified by Verus against their contracts, with
two kinds of exception. Two trusted functions call into std: `same_tree` in
`src/node.rs`, whose contract (two trees at one address are one tree) rests
on `std::ptr::eq`, and `strong_count` in `src/subtree_balance.rs`, which
asks `Rc::strong_count` whether another handle holds a node and promises
nothing of the answer; balancing is verified for every answer it gives.
Functions that only release storage, such as `ts_tree_delete`, state
nothing. The contracts are stated over views:
a `SubtreeView` for each subtree, paths of child indices for nodes,
sequences of steps for cursors, and plain sequences of states for query
cursors.

The only outside crate, `libc`, is used by `app/` to read the clock.

## Layout

- `src/length.rs`, `src/clock.rs`, `src/unicode.rs`, `src/array.rs`:
  positions and extents, time budgets, UTF-8 and UTF-16 decoding, growable
  arrays.
- `src/language.rs`: the tables of a language (symbols, fields, parse table,
  aliases) and the lookups in them.
- `src/subtree*.rs`: subtrees (inline leaves and shared nodes), their
  construction and summaries, comparison, edits, balancing of repetitions,
  and their printing as S-expressions and dot labels.
- `src/tree.rs`, `src/node*.rs`, `src/tree_cursor.rs`: trees, nodes (children,
  fields, siblings, parents, descendants by range) and cursors.
- `src/reusable_node.rs`, `src/parser.rs`: the walk over an old tree for
  subtrees a new parse can reuse, and the parser's choices between versions
  and between trees.
- `src/query.rs`, `src/query_parse.rs`, `src/query_cursor.rs`: queries, their
  parser, and the cursor that runs them over a tree.
- `app/lib.rs`: what needs the operating system: the monotonic clock and
  writing dot graphs of trees to a stream (the children's offsets and
  aliases come from `ts_subtree__dot_children` in `src/subtree_string.rs`).
- `tests/`: tests on concrete trees, languages and queries.
