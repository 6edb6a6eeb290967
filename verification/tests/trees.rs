use tree_sitter::subtree::{
    ts_subtree_dynamic_precedence, ts_subtree_named_child_count, ts_subtree_node_count, ts_subtree_padding,
    ts_subtree_total_size, ts_subtree_visible_child_count,
};
use tree_sitter::array::VoidArray;
use tree_sitter::language::{
    ts_language_field_id_for_name, ts_language_symbol_for_name, TSFieldMapEntry, TSFieldMapSlice,
    TSLanguage, TSLanguageExternalScanner, TSSymbolMetadata,
};
use tree_sitter::length::{Length, TSInputEdit, TSPoint};
use tree_sitter::node::{
    ts_node_child, ts_node_child_count, ts_node_end_byte, ts_node_first_child_for_byte,
    ts_node_is_named, ts_node_is_null, ts_node_named_child, ts_node_named_child_count,
    ts_node_parent, ts_node_start_byte, ts_node_string, ts_node_symbol, ts_node_type,
    ts_node_descendant_for_byte_range, ts_node_descendant_for_point_range, ts_node_edit, ts_node_eq,
    ts_node_first_named_child_for_byte, ts_node_named_descendant_for_byte_range,
    ts_node_named_descendant_for_point_range,
};
use tree_sitter::node_field::{ts_node_child_by_field_id, ts_node_child_by_field_name};
use tree_sitter::node_sibling::{
    ts_node_next_named_sibling, ts_node_next_sibling, ts_node_prev_named_sibling, ts_node_prev_sibling,
};
use tree_sitter::subtree::{
    ts_subtree_child, ts_subtree_repeat_depth, ts_subtree_size, ts_subtree_wf, MutableSubtree,
    ts_subtree_child_count, ts_subtree_extra, ts_subtree_from_mut, ts_subtree_pool_new, ts_subtree_symbol,
    Subtree, SubtreePool,
};
use tree_sitter::subtree_balance::{ts_subtree__compress, ts_subtree_balance};
use tree_sitter::subtree_build::{ts_subtree_new_error_node, ts_subtree_new_leaf, ts_subtree_new_node};
use tree_sitter::subtree_edit::ts_subtree_edit;
use tree_sitter::subtree_ops::{ts_subtree_compare, ts_subtree_eq};
use tree_sitter::subtree_string::{ts_subtree__dot_children, ts_subtree_string};
use tree_sitter::tree::{ts_tree_edit, ts_tree_new, ts_tree_root_node};
use tree_sitter::tree_cursor::{
    ts_tree_cursor_current_field_id, ts_tree_cursor_current_field_name, ts_tree_cursor_current_node,
    ts_tree_cursor_current_status, ts_tree_cursor_goto_first_child, ts_tree_cursor_goto_first_child_for_byte,
    ts_tree_cursor_copy, ts_tree_cursor_goto_next_sibling, ts_tree_cursor_goto_parent, ts_tree_cursor_new,
    ts_tree_cursor_reset,
};

fn meta(visible: bool, named: bool) -> TSSymbolMetadata {
    TSSymbolMetadata { visible, named }
}

/// A grammar for `a + b`: identifiers, `+`, binary expressions with the
/// fields `left` and `right`, and a hidden symbol.
fn expression_language() -> TSLanguage {
    TSLanguage {
        version: 11,
        symbol_count: 5,
        alias_count: 0,
        token_count: 3,
        external_token_count: 0,
        symbol_names: vec![
            b"end".to_vec(),
            b"identifier".to_vec(),
            b"+".to_vec(),
            b"binary".to_vec(),
            b"_hidden".to_vec(),
        ],
        symbol_metadata: vec![
            meta(false, false),
            meta(true, true),
            meta(true, false),
            meta(true, true),
            meta(false, true),
        ],
        parse_table: Vec::new(),
        parse_actions: Vec::new(),
        lex_modes: Vec::new(),
        alias_sequences: Vec::new(),
        max_alias_sequence_length: 0,
        keyword_capture_token: 0,
        external_scanner: TSLanguageExternalScanner { states: Vec::new(), symbol_map: Vec::new() },
        field_count: 2,
        field_map_slices: vec![
            TSFieldMapSlice { index: 0, length: 0 },
            TSFieldMapSlice { index: 0, length: 2 },
            TSFieldMapSlice { index: 2, length: 2 },
            TSFieldMapSlice { index: 4, length: 1 },
        ],
        field_map_entries: vec![
            TSFieldMapEntry { field_id: 1, child_index: 0, inherited: false },
            TSFieldMapEntry { field_id: 2, child_index: 2, inherited: false },
            TSFieldMapEntry { field_id: 1, child_index: 0, inherited: false },
            TSFieldMapEntry { field_id: 2, child_index: 1, inherited: true },
            TSFieldMapEntry { field_id: 2, child_index: 1, inherited: false },
        ],
        field_names: vec![b"".to_vec(), b"left".to_vec(), b"right".to_vec()],
        large_state_count: 0,
        small_parse_table: Vec::new(),
        small_parse_table_map: Vec::new(),
        public_symbol_map: vec![0, 1, 2, 3, 4],
    }
}

fn len(bytes: u32) -> Length {
    Length { bytes, extent: TSPoint { row: 0, column: bytes } }
}

fn leaf(pool: &mut SubtreePool, symbol: u16, padding: u32, size: u32, lang: &TSLanguage) -> Subtree {
    ts_subtree_new_leaf(pool, symbol, len(padding), len(size), 0, 0, false, false, lang)
}

/// The tree of `a + b`.
fn binary_tree(lang: &TSLanguage) -> Subtree {
    let mut pool = ts_subtree_pool_new(0);
    let mut children: VoidArray<Subtree> = VoidArray::new();
    children.contents.push(leaf(&mut pool, 1, 0, 1, lang));
    children.contents.push(leaf(&mut pool, 2, 1, 1, lang));
    children.contents.push(leaf(&mut pool, 1, 1, 1, lang));
    children.capacity = 3;
    ts_subtree_from_mut(ts_subtree_new_node(&mut pool, 3, children, 1, lang))
}

#[test]
fn symbol_names_resolve_as_queries_use_them() {
    let lang = expression_language();
    assert_eq!(ts_language_symbol_for_name(&lang, b"identifier", 10, true), 1);
    assert_eq!(ts_language_symbol_for_name(&lang, b"+", 1, false), 2);
    assert_eq!(ts_language_symbol_for_name(&lang, b"+", 1, true), 0);
    assert_eq!(ts_language_symbol_for_name(&lang, b"_hidden", 7, true), 0);
    assert_eq!(ts_language_symbol_for_name(&lang, b"ERROR", 5, true), 65535);
    assert_eq!(ts_language_symbol_for_name(&lang, b"nothing", 7, true), 0);
    assert_eq!(ts_language_field_id_for_name(&lang, b"left", 4), 1);
    assert_eq!(ts_language_field_id_for_name(&lang, b"right", 5), 2);
    assert_eq!(ts_language_field_id_for_name(&lang, b"middle", 6), 0);
}

#[test]
fn a_tree_prints_as_an_s_expression() {
    let lang = expression_language();
    let root = binary_tree(&lang);
    let text = ts_subtree_string(&Some(root), &lang, false);
    assert_eq!(String::from_utf8(text).unwrap(), "(binary left: (identifier) right: (identifier))");
    assert_eq!(String::from_utf8(ts_subtree_string(&None, &lang, false)).unwrap(), "(NULL)");
}

#[test]
fn nodes_report_their_children_and_positions() {
    let lang = expression_language();
    let tree = ts_tree_new(binary_tree(&lang), &lang, &[]);
    let root = ts_tree_root_node(&tree);
    assert_eq!(ts_node_symbol(&root), 3);
    assert_eq!(ts_node_type(&root), Some(b"binary".to_vec()));
    assert_eq!(ts_node_start_byte(&root), 0);
    assert_eq!(ts_node_end_byte(&root), 5);
    assert_eq!(ts_node_child_count(&root), 3);
    assert_eq!(ts_node_named_child_count(&root), 2);
    let plus = ts_node_child(&root, 1);
    assert_eq!(ts_node_type(&plus), Some(b"+".to_vec()));
    assert!(!ts_node_is_named(&plus));
    assert_eq!(ts_node_start_byte(&plus), 2);
    assert_eq!(ts_node_end_byte(&plus), 3);
    let right = ts_node_named_child(&root, 1);
    assert_eq!(ts_node_start_byte(&right), 4);
    assert!(ts_node_is_null(&ts_node_child(&root, 3)));
    let parent = ts_node_parent(&right);
    assert!(ts_node_eq(&parent, &root));
    assert!(ts_node_is_null(&ts_node_parent(&root)));
    let first = ts_node_first_child_for_byte(&root, 3);
    assert_eq!(ts_node_start_byte(&first), 4);
    let found = ts_node_descendant_for_byte_range(&root, 2, 3);
    assert_eq!(ts_node_symbol(&found), 2);
    assert_eq!(
        String::from_utf8(ts_node_string(&root)).unwrap(),
        "(binary left: (identifier) right: (identifier))"
    );
}

#[test]
fn a_cursor_walks_the_children_with_their_fields() {
    let lang = expression_language();
    let tree = ts_tree_new(binary_tree(&lang), &lang, &[]);
    let root = ts_tree_root_node(&tree);
    let mut cursor = ts_tree_cursor_new(&root);
    assert!(ts_tree_cursor_goto_first_child(&mut cursor));
    assert_eq!(ts_tree_cursor_current_field_id(&cursor), 1);
    assert_eq!(ts_tree_cursor_current_field_name(&cursor), Some(b"left".to_vec()));
    let mut later = false;
    let mut later_with_field = false;
    assert_eq!(ts_tree_cursor_current_status(&cursor, &mut later, &mut later_with_field), 1);
    assert!(later);
    assert!(!later_with_field);
    assert!(ts_tree_cursor_goto_next_sibling(&mut cursor));
    assert_eq!(ts_tree_cursor_current_field_id(&cursor), 0);
    assert!(ts_tree_cursor_goto_next_sibling(&mut cursor));
    assert_eq!(ts_tree_cursor_current_field_name(&cursor), Some(b"right".to_vec()));
    let node = ts_tree_cursor_current_node(&cursor);
    assert_eq!(ts_node_start_byte(&node), 4);
    assert!(!ts_tree_cursor_goto_next_sibling(&mut cursor));
    assert!(!ts_tree_cursor_goto_first_child(&mut cursor));
    assert!(ts_tree_cursor_goto_parent(&mut cursor));
    assert!(!ts_tree_cursor_goto_parent(&mut cursor));
}

#[test]
fn an_edit_moves_the_text_after_it() {
    let lang = expression_language();
    let mut tree = ts_tree_new(binary_tree(&lang), &lang, &[]);
    let edit = TSInputEdit {
        start_byte: 1,
        old_end_byte: 1,
        new_end_byte: 3,
        start_point: TSPoint { row: 0, column: 1 },
        old_end_point: TSPoint { row: 0, column: 1 },
        new_end_point: TSPoint { row: 0, column: 3 },
    };
    ts_tree_edit(&mut tree, &edit);
    let root = ts_tree_root_node(&tree);
    assert_eq!(ts_node_end_byte(&root), 7);
    let right = ts_node_named_child(&root, 1);
    assert_eq!(ts_node_start_byte(&right), 6);
    assert_eq!(ts_node_child_count(&root), 3);
}

#[test]
fn an_edit_keeps_the_shape_of_a_subtree() {
    let lang = expression_language();
    let mut pool = ts_subtree_pool_new(0);
    let root = binary_tree(&lang);
    let edit = TSInputEdit {
        start_byte: 4,
        old_end_byte: 5,
        new_end_byte: 4,
        start_point: TSPoint { row: 0, column: 4 },
        old_end_point: TSPoint { row: 0, column: 5 },
        new_end_point: TSPoint { row: 0, column: 4 },
    };
    let edited = ts_subtree_edit(root, &edit, &mut pool);
    let text = ts_subtree_string(&Some(edited), &lang, false);
    assert_eq!(String::from_utf8(text).unwrap(), "(binary left: (identifier) right: (identifier))");
}

#[test]
fn fields_name_the_children_of_a_node() {
    let lang = expression_language();
    let tree = ts_tree_new(binary_tree(&lang), &lang, &[]);
    let root = ts_tree_root_node(&tree);
    let left = ts_node_child_by_field_id(&root, 1);
    assert_eq!(ts_node_start_byte(&left), 0);
    assert_eq!(ts_node_end_byte(&left), 1);
    let right = ts_node_child_by_field_name(&root, b"right", 5);
    assert_eq!(ts_node_start_byte(&right), 4);
    assert_eq!(ts_node_symbol(&right), 1);
    assert!(ts_node_is_null(&ts_node_child_by_field_id(&root, 0)));
    assert!(ts_node_is_null(&ts_node_child_by_field_id(&root, 3)));
    assert!(ts_node_is_null(&ts_node_child_by_field_name(&root, b"middle", 6)));
    assert!(ts_node_is_null(&ts_node_child_by_field_id(&left, 1)));
}

#[test]
fn a_cursor_finds_the_first_child_past_a_byte() {
    let lang = expression_language();
    let tree = ts_tree_new(binary_tree(&lang), &lang, &[]);
    let root = ts_tree_root_node(&tree);
    let mut cursor = ts_tree_cursor_new(&root);
    assert_eq!(ts_tree_cursor_goto_first_child_for_byte(&mut cursor, 3), 2);
    let node = ts_tree_cursor_current_node(&cursor);
    assert_eq!(ts_node_start_byte(&node), 4);
    assert!(ts_tree_cursor_goto_parent(&mut cursor));
    assert_eq!(ts_tree_cursor_goto_first_child_for_byte(&mut cursor, 0), 0);
    assert_eq!(ts_node_start_byte(&ts_tree_cursor_current_node(&cursor)), 0);
    assert!(ts_tree_cursor_goto_parent(&mut cursor));
    assert_eq!(ts_tree_cursor_goto_first_child_for_byte(&mut cursor, 5), -1);
    assert_eq!(ts_node_symbol(&ts_tree_cursor_current_node(&cursor)), 3);
}

#[test]
fn siblings_are_found_on_either_side() {
    let lang = expression_language();
    let tree = ts_tree_new(binary_tree(&lang), &lang, &[]);
    let root = ts_tree_root_node(&tree);
    let a = ts_node_child(&root, 0);
    let b = ts_node_child(&root, 2);
    let next = ts_node_next_sibling(&a);
    assert_eq!(ts_node_symbol(&next), 2);
    assert_eq!(ts_node_start_byte(&next), 2);
    let next_named = ts_node_next_named_sibling(&a);
    assert_eq!(ts_node_start_byte(&next_named), 4);
    let prev = ts_node_prev_sibling(&b);
    assert_eq!(ts_node_symbol(&prev), 2);
    let prev_named = ts_node_prev_named_sibling(&b);
    assert_eq!(ts_node_start_byte(&prev_named), 0);
    assert!(ts_node_is_null(&ts_node_prev_sibling(&a)));
    assert!(ts_node_is_null(&ts_node_next_sibling(&b)));
    assert!(ts_node_is_null(&ts_node_next_sibling(&root)));
    assert!(ts_node_eq(&ts_node_prev_named_sibling(&b), &a));
}

#[test]
fn going_to_the_parent_undoes_going_to_the_first_child() {
    let lang = expression_language();
    let tree = ts_tree_new(binary_tree(&lang), &lang, &[]);
    let root = ts_tree_root_node(&tree);
    let mut cursor = ts_tree_cursor_new(&root);
    assert!(ts_tree_cursor_goto_first_child(&mut cursor));
    assert!(!ts_node_eq(&ts_tree_cursor_current_node(&cursor), &root));
    assert!(ts_tree_cursor_goto_parent(&mut cursor));
    assert!(ts_node_eq(&ts_tree_cursor_current_node(&cursor), &root));
    assert_eq!(cursor.stack.len(), 1);
}

/// The tree of `a + b` with `+ b` under a hidden node, whose field `right`
/// the binary node inherits.
fn tree_with_hidden_node(lang: &TSLanguage) -> Subtree {
    let mut pool = ts_subtree_pool_new(0);
    let mut inner: VoidArray<Subtree> = VoidArray::new();
    inner.contents.push(leaf(&mut pool, 2, 1, 1, lang));
    inner.contents.push(leaf(&mut pool, 1, 1, 1, lang));
    inner.capacity = 2;
    let hidden = ts_subtree_from_mut(ts_subtree_new_node(&mut pool, 4, inner, 3, lang));
    let mut outer: VoidArray<Subtree> = VoidArray::new();
    outer.contents.push(leaf(&mut pool, 1, 0, 1, lang));
    outer.contents.push(hidden);
    outer.capacity = 2;
    ts_subtree_from_mut(ts_subtree_new_node(&mut pool, 3, outer, 2, lang))
}

#[test]
fn hidden_nodes_hand_their_children_to_their_parent() {
    let lang = expression_language();
    let tree = ts_tree_new(tree_with_hidden_node(&lang), &lang, &[]);
    let root = ts_tree_root_node(&tree);
    assert_eq!(ts_node_child_count(&root), 3);
    assert_eq!(ts_node_named_child_count(&root), 2);
    let plus = ts_node_child(&root, 1);
    assert_eq!(ts_node_symbol(&plus), 2);
    assert_eq!(ts_node_start_byte(&plus), 2);
    let b = ts_node_child(&root, 2);
    assert_eq!(ts_node_start_byte(&b), 4);
    assert!(ts_node_eq(&ts_node_parent(&b), &root));
    assert_eq!(
        String::from_utf8(ts_node_string(&root)).unwrap(),
        "(binary left: (identifier) right: (identifier))"
    );
}

#[test]
fn an_inherited_field_is_found_in_a_hidden_child() {
    let lang = expression_language();
    let tree = ts_tree_new(tree_with_hidden_node(&lang), &lang, &[]);
    let root = ts_tree_root_node(&tree);
    let right = ts_node_child_by_field_id(&root, 2);
    assert_eq!(ts_node_start_byte(&right), 4);
    assert_eq!(ts_node_symbol(&right), 1);
    let left = ts_node_child_by_field_name(&root, b"left", 4);
    assert_eq!(ts_node_start_byte(&left), 0);
}

#[test]
fn siblings_are_found_through_hidden_nodes() {
    let lang = expression_language();
    let tree = ts_tree_new(tree_with_hidden_node(&lang), &lang, &[]);
    let root = ts_tree_root_node(&tree);
    let a = ts_node_child(&root, 0);
    let b = ts_node_child(&root, 2);
    assert_eq!(ts_node_start_byte(&ts_node_next_sibling(&a)), 2);
    assert_eq!(ts_node_start_byte(&ts_node_next_named_sibling(&a)), 4);
    assert_eq!(ts_node_start_byte(&ts_node_prev_sibling(&b)), 2);
    assert_eq!(ts_node_symbol(&ts_node_prev_sibling(&b)), 2);
    let before_b = ts_node_prev_named_sibling(&b);
    assert!(ts_node_eq(&before_b, &a));
}

#[test]
fn a_cursor_goes_through_hidden_nodes() {
    let lang = expression_language();
    let tree = ts_tree_new(tree_with_hidden_node(&lang), &lang, &[]);
    let root = ts_tree_root_node(&tree);
    let mut cursor = ts_tree_cursor_new(&root);
    assert_eq!(ts_tree_cursor_goto_first_child_for_byte(&mut cursor, 3), 2);
    assert_eq!(cursor.stack.len(), 3);
    assert_eq!(ts_node_start_byte(&ts_tree_cursor_current_node(&cursor)), 4);
    assert_eq!(ts_tree_cursor_current_field_id(&cursor), 2);
    assert!(ts_tree_cursor_goto_parent(&mut cursor));
    assert_eq!(cursor.stack.len(), 1);
    assert!(ts_tree_cursor_goto_first_child(&mut cursor));
    assert!(ts_tree_cursor_goto_next_sibling(&mut cursor));
    assert_eq!(ts_node_start_byte(&ts_tree_cursor_current_node(&cursor)), 2);
}

#[test]
fn nodes_of_different_trees_differ() {
    let lang = expression_language();
    let first = ts_tree_new(binary_tree(&lang), &lang, &[]);
    let second = ts_tree_new(binary_tree(&lang), &lang, &[]);
    assert!(!ts_node_eq(&ts_tree_root_node(&first), &ts_tree_root_node(&second)));
    assert!(ts_node_eq(&ts_tree_root_node(&first), &ts_tree_root_node(&first)));
}

#[test]
fn a_node_moves_with_an_edit() {
    let lang = expression_language();
    let tree = ts_tree_new(binary_tree(&lang), &lang, &[]);
    let root = ts_tree_root_node(&tree);
    let mut b = ts_node_child(&root, 2);
    let mut plus = ts_node_child(&root, 1);
    let edit = TSInputEdit {
        start_byte: 1,
        old_end_byte: 3,
        new_end_byte: 5,
        start_point: TSPoint { row: 0, column: 1 },
        old_end_point: TSPoint { row: 0, column: 3 },
        new_end_point: TSPoint { row: 0, column: 5 },
    };
    ts_node_edit(&mut b, &edit);
    assert_eq!(ts_node_start_byte(&b), 6);
    ts_node_edit(&mut plus, &edit);
    assert_eq!(ts_node_start_byte(&plus), 5);
}

#[test]
fn descendants_are_found_by_bytes_and_points() {
    let lang = expression_language();
    let tree = ts_tree_new(binary_tree(&lang), &lang, &[]);
    let root = ts_tree_root_node(&tree);
    // The `+` is not named: the named search stays at the root.
    let named = ts_node_named_descendant_for_byte_range(&root, 2, 3);
    assert!(ts_node_eq(&named, &root));
    let by_point = ts_node_descendant_for_point_range(
        &root,
        TSPoint { row: 0, column: 4 },
        TSPoint { row: 0, column: 5 },
    );
    assert_eq!(ts_node_start_byte(&by_point), 4);
    let named_point = ts_node_named_descendant_for_point_range(
        &root,
        TSPoint { row: 0, column: 0 },
        TSPoint { row: 0, column: 1 },
    );
    assert_eq!(ts_node_end_byte(&named_point), 1);
    assert_eq!(ts_node_start_byte(&ts_node_first_named_child_for_byte(&root, 1)), 4);
}

#[test]
fn balancing_keeps_the_text_of_a_tree() {
    let lang = expression_language();
    let mut pool = ts_subtree_pool_new(0);
    let before = ts_subtree_string(&Some(binary_tree(&lang)), &lang, true);
    let balanced = ts_subtree_balance(binary_tree(&lang), &mut pool, &lang);
    assert_eq!(ts_subtree_string(&Some(balanced), &lang, true), before);
}

#[test]
fn a_copied_cursor_walks_on_its_own() {
    let lang = expression_language();
    let tree = ts_tree_new(binary_tree(&lang), &lang, &[]);
    let root = ts_tree_root_node(&tree);
    let mut cursor = ts_tree_cursor_new(&root);
    assert!(ts_tree_cursor_goto_first_child(&mut cursor));
    let mut copy = ts_tree_cursor_copy(&cursor);
    assert!(ts_tree_cursor_goto_next_sibling(&mut copy));
    assert_eq!(ts_node_start_byte(&ts_tree_cursor_current_node(&cursor)), 0);
    assert_eq!(ts_node_start_byte(&ts_tree_cursor_current_node(&copy)), 2);
    ts_tree_cursor_reset(&mut copy, &root);
    assert_eq!(copy.stack.len(), 1);
    assert!(ts_node_eq(&ts_tree_cursor_current_node(&copy), &root));
}

#[test]
fn an_error_node_holds_its_children() {
    let lang = expression_language();
    let mut pool = ts_subtree_pool_new(0);
    let mut children: VoidArray<Subtree> = VoidArray::new();
    children.contents.push(leaf(&mut pool, 1, 0, 1, &lang));
    children.capacity = 1;
    let error = ts_subtree_new_error_node(&mut pool, children, true, &lang);
    assert_eq!(ts_subtree_symbol(&error), 65535);
    assert!(ts_subtree_extra(&error));
    assert_eq!(ts_subtree_child_count(&error), 1);
}

#[test]
fn comparing_subtrees_is_antisymmetric() {
    let lang = expression_language();
    let mut pool = ts_subtree_pool_new(0);
    let a = leaf(&mut pool, 1, 0, 1, &lang);
    let plus = leaf(&mut pool, 2, 0, 1, &lang);
    let tree = binary_tree(&lang);
    assert_eq!(ts_subtree_compare(&a, &plus), -1);
    assert_eq!(ts_subtree_compare(&plus, &a), 1);
    assert_eq!(ts_subtree_compare(&tree, &tree), 0);
    assert_eq!(ts_subtree_compare(&tree, &a), 1);
    assert_eq!(ts_subtree_compare(&a, &tree), -1);
    assert!(ts_subtree_eq(&tree, &binary_tree(&lang)));
    assert!(!ts_subtree_eq(&a, &plus));
}

#[test]
fn a_node_sums_the_summaries_of_its_children() {
    let lang = expression_language();
    let tree = binary_tree(&lang);
    assert_eq!(ts_subtree_node_count(&tree), 4);
    assert_eq!(ts_subtree_padding(&tree).bytes, 0);
    assert_eq!(ts_subtree_total_size(&tree).bytes, 5);
}

#[test]
fn balancing_keeps_the_total_size_of_a_tree() {
    let lang = expression_language();
    let mut pool = ts_subtree_pool_new(0);
    let tree = tree_with_hidden_node(&lang);
    let before = ts_subtree_total_size(&tree);
    let balanced = ts_subtree_balance(tree, &mut pool, &lang);
    assert_eq!(ts_subtree_total_size(&balanced).bytes, before.bytes);
    assert_eq!(ts_subtree_total_size(&balanced).extent.column, before.extent.column);
}

#[test]
fn going_to_the_first_child_reaches_child_zero() {
    let lang = expression_language();
    let tree = ts_tree_new(tree_with_hidden_node(&lang), &lang, &[]);
    let root = ts_tree_root_node(&tree);
    let mut cursor = ts_tree_cursor_new(&root);
    assert!(ts_tree_cursor_goto_first_child(&mut cursor));
    let first = ts_tree_cursor_current_node(&cursor);
    let child = ts_node_child(&root, 0);
    assert_eq!(ts_node_start_byte(&first), ts_node_start_byte(&child));
    assert_eq!(ts_node_symbol(&first), ts_node_symbol(&child));
}

#[test]
fn a_node_counts_its_visible_and_named_children() {
    let lang = expression_language();
    let tree = binary_tree(&lang);
    assert_eq!(ts_subtree_visible_child_count(&tree), 3);
    assert_eq!(ts_subtree_named_child_count(&tree), 2);
    assert_eq!(ts_subtree_dynamic_precedence(&tree), 0);
}

#[test]
fn an_edit_changes_the_total_size_by_what_it_inserts_and_removes() {
    let lang = expression_language();
    let mut pool = ts_subtree_pool_new(0);
    let root = binary_tree(&lang);
    assert_eq!(ts_subtree_total_size(&root).bytes, 5);
    let edit = TSInputEdit {
        start_byte: 1,
        old_end_byte: 2,
        new_end_byte: 4,
        start_point: TSPoint { row: 0, column: 1 },
        old_end_point: TSPoint { row: 0, column: 2 },
        new_end_point: TSPoint { row: 0, column: 4 },
    };
    let edited = ts_subtree_edit(root, &edit, &mut pool);
    assert_eq!(ts_subtree_total_size(&edited).bytes, 7);
}

#[test]
fn a_graph_places_each_child_after_its_siblings() {
    let lang = expression_language();
    let tree = binary_tree(&lang);
    let children = ts_subtree__dot_children(&tree, 10, &lang);
    assert_eq!(children, vec![(10, 0), (11, 0), (13, 0)]);
}

#[test]
fn a_graph_shows_the_aliases_of_a_production() {
    let mut lang = expression_language();
    lang.alias_sequences = vec![0, 0, 0, 0, 4, 0];
    lang.max_alias_sequence_length = 3;
    let tree = binary_tree(&lang);
    let children = ts_subtree__dot_children(&tree, 0, &lang);
    assert_eq!(children, vec![(0, 0), (1, 4), (3, 0)]);
}

/// The expression grammar with a hidden, unnamed repetition symbol (5).
fn repetition_language() -> TSLanguage {
    let mut lang = expression_language();
    lang.symbol_count = 6;
    lang.symbol_names.push(b"_rep".to_vec());
    lang.symbol_metadata.push(meta(false, false));
    lang.public_symbol_map.push(5);
    lang
}

fn repetition(pool: &mut SubtreePool, children: Vec<Subtree>, lang: &TSLanguage) -> MutableSubtree {
    let mut array: VoidArray<Subtree> = VoidArray::new();
    let n = children.len() as u32;
    array.contents = children;
    array.capacity = n;
    ts_subtree_new_node(pool, 5, array, 0, lang)
}

/// A chain `(c1 (c2 (c3 a b) y3) y2) x` of repetitions, leaves sized
/// 1 to 5 in that order.
fn repetition_chain(pool: &mut SubtreePool, lang: &TSLanguage) -> MutableSubtree {
    let a = leaf(pool, 1, 0, 1, lang);
    let b = leaf(pool, 1, 0, 2, lang);
    let c3 = repetition(pool, vec![a, b], lang);
    let y3 = leaf(pool, 1, 0, 3, lang);
    let c2 = repetition(pool, vec![ts_subtree_from_mut(c3), y3], lang);
    let y2 = leaf(pool, 1, 0, 4, lang);
    let c1 = repetition(pool, vec![ts_subtree_from_mut(c2), y2], lang);
    let x = leaf(pool, 1, 0, 5, lang);
    repetition(pool, vec![ts_subtree_from_mut(c1), x], lang)
}

#[test]
fn compressing_moves_the_grandchild_up_where_nobody_else_holds_it() {
    let lang = repetition_language();
    let mut pool = ts_subtree_pool_new(0);
    let mut tree = match repetition_chain(&mut pool, &lang) {
        MutableSubtree::Heap(d) => d,
        MutableSubtree::Inline(_) => panic!("a node with children is on the heap"),
    };
    let levels = ts_subtree__compress(&mut tree, 1, 5, &lang, &[true, true]);
    assert_eq!(levels, 1);
    let first = &tree.children[0];
    assert_eq!(ts_subtree_child_count(first), 2);
    let moved = ts_subtree_child(first, 1);
    assert_eq!(ts_subtree_size(ts_subtree_child(moved, 0)).bytes, 3);
    assert_eq!(ts_subtree_size(ts_subtree_child(moved, 1)).bytes, 4);
    assert_eq!(ts_subtree_repeat_depth(first), 1);
}

#[test]
fn compressing_leaves_a_node_held_elsewhere() {
    let lang = repetition_language();
    let mut pool = ts_subtree_pool_new(0);
    let mut tree = match repetition_chain(&mut pool, &lang) {
        MutableSubtree::Heap(d) => d,
        MutableSubtree::Inline(_) => panic!("a node with children is on the heap"),
    };
    let levels = ts_subtree__compress(&mut tree, 1, 5, &lang, &[true, false]);
    assert_eq!(levels, 0);
    let first = &tree.children[0];
    assert_eq!(ts_subtree_size(ts_subtree_child(first, 1)).bytes, 4);
}

#[test]
fn balancing_rotates_a_left_leaning_repetition() {
    let lang = repetition_language();
    let mut pool = ts_subtree_pool_new(0);
    let tree = ts_subtree_from_mut(repetition_chain(&mut pool, &lang));
    assert_eq!(ts_subtree_repeat_depth(&tree), 3);
    let balanced = ts_subtree_balance(tree, &mut pool, &lang);
    let first = ts_subtree_child(&balanced, 0);
    let moved = ts_subtree_child(first, 1);
    assert_eq!(ts_subtree_size(ts_subtree_child(moved, 0)).bytes, 3);
    assert_eq!(ts_subtree_size(ts_subtree_child(moved, 1)).bytes, 4);
    assert_eq!(ts_subtree_total_size(&balanced).bytes, 15);
}

#[test]
fn a_built_tree_is_well_formed() {
    let lang = expression_language();
    let tree = binary_tree(&lang);
    assert!(ts_subtree_wf(&tree));
}

#[test]
fn a_cursor_goes_down_exactly_where_a_node_has_children() {
    let lang = expression_language();
    let tree = ts_tree_new(binary_tree(&lang), &lang, &[]);
    let root = ts_tree_root_node(&tree);
    let mut cursor = ts_tree_cursor_new(&root);
    assert!(ts_node_child_count(&root) > 0);
    assert!(ts_tree_cursor_goto_first_child(&mut cursor));
    let first = ts_tree_cursor_current_node(&cursor);
    assert_eq!(ts_node_child_count(&first), 0);
    assert!(!ts_tree_cursor_goto_first_child(&mut cursor));
}
