use tree_sitter::array::VoidArray;
use tree_sitter::language::{
    TSFieldMapEntry, TSFieldMapSlice, TSLanguage, TSLanguageExternalScanner, TSSymbolMetadata,
};
use tree_sitter::length::{Length, TSPoint};
use tree_sitter::node::ts_node_start_byte;
use tree_sitter::query::{
    ts_query_capture_count, ts_query_capture_name_for_id, ts_query_disable_capture,
    ts_query_pattern_count, ts_query_predicates_for_pattern, ts_query_start_byte_for_pattern,
    ts_query_string_count, ts_query_string_value_for_id, TSQueryPredicateStepTypeCapture,
    TSQueryPredicateStepTypeDone, TSQueryPredicateStepTypeString,
};
use tree_sitter::query_cursor::{
    ts_query_cursor_exec, ts_query_cursor_new, ts_query_cursor_next_capture,
    ts_query_cursor_next_match, ts_query_cursor_set_byte_range, TSQueryMatch,
};
use tree_sitter::query_parse::{ts_query_delete, ts_query_new};
use tree_sitter::subtree::{ts_subtree_from_mut, ts_subtree_pool_new, Subtree, SubtreePool};
use tree_sitter::subtree_build::{ts_subtree_new_leaf, ts_subtree_new_node};
use tree_sitter::tree::{ts_tree_new, ts_tree_root_node};

fn meta(visible: bool, named: bool) -> TSSymbolMetadata {
    TSSymbolMetadata { visible, named }
}

/// A grammar for `a + b`: identifiers, `+`, binary expressions with the
/// fields `left` and `right`, and a hidden symbol.
fn expression_language() -> TSLanguage {
    TSLanguage {
        version: 11,
        symbol_count: 5,
        alias_count: 0,
        token_count: 3,
        external_token_count: 0,
        symbol_names: vec![
            b"end".to_vec(),
            b"identifier".to_vec(),
            b"+".to_vec(),
            b"binary".to_vec(),
            b"_hidden".to_vec(),
        ],
        symbol_metadata: vec![
            meta(false, false),
            meta(true, true),
            meta(true, false),
            meta(true, true),
            meta(false, true),
        ],
        parse_table: Vec::new(),
        parse_actions: Vec::new(),
        lex_modes: Vec::new(),
        alias_sequences: Vec::new(),
        max_alias_sequence_length: 0,
        keyword_capture_token: 0,
        external_scanner: TSLanguageExternalScanner { states: Vec::new(), symbol_map: Vec::new() },
        field_count: 2,
        field_map_slices: vec![
            TSFieldMapSlice { index: 0, length: 0 },
            TSFieldMapSlice { index: 0, length: 2 },
        ],
        field_map_entries: vec![
            TSFieldMapEntry { field_id: 1, child_index: 0, inherited: false },
            TSFieldMapEntry { field_id: 2, child_index: 2, inherited: false },
        ],
        field_names: vec![b"".to_vec(), b"left".to_vec(), b"right".to_vec()],
        large_state_count: 0,
        small_parse_table: Vec::new(),
        small_parse_table_map: Vec::new(),
        public_symbol_map: vec![0, 1, 2, 3, 4],
    }
}

fn len(bytes: u32) -> Length {
    Length { bytes, extent: TSPoint { row: 0, column: bytes } }
}

fn leaf(pool: &mut SubtreePool, symbol: u16, padding: u32, size: u32, lang: &TSLanguage) -> Subtree {
    ts_subtree_new_leaf(pool, symbol, len(padding), len(size), 0, 0, false, false, lang)
}

/// The tree of `a + b`.
fn binary_tree(lang: &TSLanguage) -> Subtree {
    let mut pool = ts_subtree_pool_new(0);
    let mut children: VoidArray<Subtree> = VoidArray::new();
    children.contents.push(leaf(&mut pool, 1, 0, 1, lang));
    children.contents.push(leaf(&mut pool, 2, 1, 1, lang));
    children.contents.push(leaf(&mut pool, 1, 1, 1, lang));
    children.capacity = 3;
    ts_subtree_from_mut(ts_subtree_new_node(&mut pool, 3, children, 1, lang))
}

fn compile(lang: &TSLanguage, source: &[u8]) -> Result<(), (u32, u32)> {
    let mut offset: u32 = 0;
    let mut error: u32 = 0;
    match ts_query_new(lang, source, source.len() as u32, &mut offset, &mut error) {
        Some(_) => Ok(()),
        None => Err((error, offset)),
    }
}

fn empty_match<'t, 'l>() -> TSQueryMatch<'t, 'l> {
    TSQueryMatch { id: 0, pattern_index: 0, capture_count: 0, captures: Vec::new() }
}

#[test]
fn a_query_compiles_its_patterns_and_captures() {
    let lang = expression_language();
    let source = b"(binary left: (identifier) @left right: (identifier) @right)\n(identifier) @id";
    let mut offset: u32 = 7;
    let mut error: u32 = 9;
    let query = ts_query_new(&lang, source, source.len() as u32, &mut offset, &mut error).unwrap();
    assert_eq!(error, 0);
    assert_eq!(offset, 7);
    assert_eq!(ts_query_pattern_count(&query), 2);
    assert_eq!(ts_query_capture_count(&query), 3);
    assert_eq!(ts_query_capture_name_for_id(&query, 0), b"left");
    assert_eq!(ts_query_capture_name_for_id(&query, 2), b"id");
    assert_eq!(ts_query_start_byte_for_pattern(&query, 0), 0);
    assert_eq!(ts_query_start_byte_for_pattern(&query, 1), 61);
    assert_eq!(query.steps.contents.len(), 6);
    assert_eq!(query.steps.contents[0].symbol, 3);
    assert_eq!(query.steps.contents[1].field, 1);
    assert_eq!(query.steps.contents[1].depth, 1);
    assert_eq!(query.steps.contents[3].depth, 255);
    assert!(query.steps.contents[0].contains_captures);
    assert_eq!(query.max_capture_count, 2);
}

#[test]
fn a_query_reports_where_it_fails() {
    let lang = expression_language();
    assert_eq!(compile(&lang, b"(unknown)"), Err((2, 1)));
    assert_eq!(compile(&lang, b"(binary"), Err((1, 7)));
    assert_eq!(compile(&lang, b"(binary middle: (identifier))"), Err((3, 8)));
    assert_eq!(compile(&lang, b"((binary) (eq? @x @y))"), Err((4, 16)));
    assert_eq!(compile(&lang, b"(binary @)"), Err((1, 8)));
    assert_eq!(compile(&lang, b")"), Err((u32::MAX, 0)));
    assert_eq!(compile(&lang, b"\"unterminated"), Err((1, 0)));
    assert_eq!(compile(&lang, b"(identifier) ; a comment\n(binary)"), Ok(()));
}

#[test]
fn an_empty_query_leaves_the_error_as_it_was() {
    let lang = expression_language();
    let mut offset: u32 = 3;
    let mut error: u32 = 5;
    let query = ts_query_new(&lang, b"  ", 2, &mut offset, &mut error).unwrap();
    assert_eq!(error, 5);
    assert_eq!(offset, 3);
    assert_eq!(ts_query_pattern_count(&query), 0);
}

#[test]
fn predicates_become_steps_of_their_pattern() {
    let lang = expression_language();
    let source = b"((identifier) @a (match? @a \"x\\ny\" other))";
    let mut offset: u32 = 0;
    let mut error: u32 = 0;
    let query = ts_query_new(&lang, source, source.len() as u32, &mut offset, &mut error).unwrap();
    assert_eq!(error, 0);
    let steps = ts_query_predicates_for_pattern(&query, 0);
    assert_eq!(steps.len(), 5);
    assert_eq!(steps[0].type_0, TSQueryPredicateStepTypeString);
    assert_eq!(steps[1].type_0, TSQueryPredicateStepTypeCapture);
    assert_eq!(steps[1].value_id, 0);
    assert_eq!(steps[2].type_0, TSQueryPredicateStepTypeString);
    assert_eq!(steps[4].type_0, TSQueryPredicateStepTypeDone);
    assert_eq!(ts_query_string_count(&query), 3);
    assert_eq!(ts_query_string_value_for_id(&query, 0), b"match?");
    assert_eq!(ts_query_string_value_for_id(&query, 1), b"x\ny");
    assert_eq!(ts_query_string_value_for_id(&query, 2), b"other");
}

#[test]
fn disabling_a_capture_drops_it_from_every_step() {
    let lang = expression_language();
    let source = b"(binary left: (identifier) @left)";
    let mut offset: u32 = 0;
    let mut error: u32 = 0;
    let mut query = ts_query_new(&lang, source, source.len() as u32, &mut offset, &mut error).unwrap();
    assert!(query.steps.contents[0].contains_captures);
    ts_query_disable_capture(&mut query, b"left", 4);
    assert_eq!(query.steps.contents[1].capture_ids, [65535, 65535, 65535, 65535]);
    assert!(!query.steps.contents[0].contains_captures);
    ts_query_delete(&mut query);
    assert_eq!(query.steps.contents.len(), 0);
}

#[test]
fn a_query_cursor_finds_matches_in_order() {
    let lang = expression_language();
    let tree = ts_tree_new(binary_tree(&lang), &lang, &[]);
    let root = ts_tree_root_node(&tree);
    let source = b"(binary left: (identifier) @left right: (identifier) @right)";
    let mut offset: u32 = 0;
    let mut error: u32 = 0;
    let query = ts_query_new(&lang, source, source.len() as u32, &mut offset, &mut error).unwrap();
    let mut cursor = ts_query_cursor_new();
    ts_query_cursor_exec(&mut cursor, &query, &root);
    let mut m = empty_match();
    assert!(ts_query_cursor_next_match(&mut cursor, &mut m));
    assert_eq!(m.pattern_index, 0);
    assert_eq!(m.capture_count, 2);
    assert_eq!(m.captures.len(), 2);
    assert_eq!(m.captures[0].index, 0);
    assert_eq!(ts_node_start_byte(&m.captures[0].node), 0);
    assert_eq!(m.captures[1].index, 1);
    assert_eq!(ts_node_start_byte(&m.captures[1].node), 4);
    assert!(!ts_query_cursor_next_match(&mut cursor, &mut m));
}

#[test]
fn a_query_cursor_hands_out_captures_in_document_order() {
    let lang = expression_language();
    let tree = ts_tree_new(binary_tree(&lang), &lang, &[]);
    let root = ts_tree_root_node(&tree);
    let source = b"(identifier) @id";
    let mut offset: u32 = 0;
    let mut error: u32 = 0;
    let query = ts_query_new(&lang, source, source.len() as u32, &mut offset, &mut error).unwrap();
    let mut cursor = ts_query_cursor_new();
    ts_query_cursor_exec(&mut cursor, &query, &root);
    let mut m = empty_match();
    let mut index: u32 = 9;
    assert!(ts_query_cursor_next_capture(&mut cursor, &mut m, &mut index));
    assert_eq!(index, 0);
    assert_eq!(ts_node_start_byte(&m.captures[0].node), 0);
    assert!(ts_query_cursor_next_capture(&mut cursor, &mut m, &mut index));
    assert_eq!(ts_node_start_byte(&m.captures[0].node), 4);
    assert!(!ts_query_cursor_next_capture(&mut cursor, &mut m, &mut index));
}

#[test]
fn a_byte_range_limits_the_matches() {
    let lang = expression_language();
    let tree = ts_tree_new(binary_tree(&lang), &lang, &[]);
    let root = ts_tree_root_node(&tree);
    let source = b"(identifier) @id";
    let mut offset: u32 = 0;
    let mut error: u32 = 0;
    let query = ts_query_new(&lang, source, source.len() as u32, &mut offset, &mut error).unwrap();
    let mut cursor = ts_query_cursor_new();
    ts_query_cursor_set_byte_range(&mut cursor, 3, 5);
    assert_eq!(cursor.start_byte, 3);
    ts_query_cursor_exec(&mut cursor, &query, &root);
    let mut m = empty_match();
    assert!(ts_query_cursor_next_match(&mut cursor, &mut m));
    assert_eq!(ts_node_start_byte(&m.captures[0].node), 4);
    assert!(!ts_query_cursor_next_match(&mut cursor, &mut m));
    ts_query_cursor_set_byte_range(&mut cursor, 3, 0);
    assert_eq!(cursor.start_byte, 0);
    assert_eq!(cursor.end_byte, u32::MAX);
}

#[test]
fn two_wildcard_patterns_each_with_a_capture() {
    let lang = expression_language();
    let source = b"(*) @a\n(*) @b";
    let mut offset: u32 = 0;
    let mut error: u32 = 9;
    let query = ts_query_new(&lang, source, 13, &mut offset, &mut error).unwrap();
    assert_eq!(error, 0);
    assert_eq!(ts_query_pattern_count(&query), 2);
    assert_eq!(ts_query_capture_count(&query), 2);
    assert_eq!(ts_query_start_byte_for_pattern(&query, 0), 0);
    assert_eq!(ts_query_start_byte_for_pattern(&query, 1), 7);
    assert_eq!(ts_query_capture_name_for_id(&query, 1), b"b");
}

#[test]
fn an_open_parenthesis_alone_is_a_syntax_error_at_its_end() {
    let lang = expression_language();
    assert_eq!(compile(&lang, b"("), Err((1, 1)));
}

#[test]
fn a_predicate_naming_an_unknown_capture_is_a_capture_error_at_the_name() {
    let lang = expression_language();
    assert_eq!(compile(&lang, b"((*) (eq? @x))"), Err((4, 11)));
}

#[test]
fn a_predicate_with_strings_and_names_reads_every_argument() {
    let lang = expression_language();
    let source = b"((identifier) @v (eq? @v \"a\\\"b\" c))";
    let mut offset: u32 = 0;
    let mut error: u32 = 0;
    let query = ts_query_new(&lang, source, source.len() as u32, &mut offset, &mut error).unwrap();
    let steps = ts_query_predicates_for_pattern(&query, 0);
    assert_eq!(steps.len(), 5);
    assert_eq!(steps[0].type_0, TSQueryPredicateStepTypeString);
    assert_eq!(steps[1].type_0, TSQueryPredicateStepTypeCapture);
    assert_eq!(steps[2].type_0, TSQueryPredicateStepTypeString);
    assert_eq!(steps[3].type_0, TSQueryPredicateStepTypeString);
    assert_eq!(steps[4].type_0, TSQueryPredicateStepTypeDone);
    assert_eq!(steps[4].value_id, 0);
    assert_eq!(ts_query_string_value_for_id(&query, steps[2].value_id), b"a\"b");
    assert_eq!(ts_query_string_value_for_id(&query, steps[3].value_id), b"c");
}

#[test]
fn an_unterminated_string_in_a_predicate_is_a_syntax_error() {
    let lang = expression_language();
    assert_eq!(compile(&lang, b"((identifier) (eq? \"ab"), Err((1, 19)));
}
