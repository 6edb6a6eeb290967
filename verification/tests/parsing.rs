use tree_sitter::parser::{
    ts_parser_language, ts_parser_set_language, ts_parser_set_timeout_micros, ts_parser_timeout_micros,
    TSParser,
};
use tree_sitter::array::VoidArray;
use tree_sitter::language::{
    TSFieldMapSlice, TSLanguage, TSLanguageExternalScanner, TSLexMode, TSParseActionEntry,
    TSParseActionEntryContent, TSSymbolMetadata, TableEntry,
};
use tree_sitter::length::{Length, TSPoint};
use tree_sitter::parser::{
    ts_parser__breakdown_lookahead, ts_parser__can_reuse_first_leaf, ts_parser__compare_versions,
    ts_parser__get_cached_token, ts_parser__replace_children, ts_parser__select_tree,
    ts_parser__set_cached_token,
    ts_string_input_read, ErrorComparison, ErrorStatus, TSStringInput, TokenCache,
};
use tree_sitter::reusable_node::{reusable_node_new, reusable_node_reset, reusable_node_tree};
use tree_sitter::subtree::{ts_subtree_pool_new, ts_subtree_retain, Subtree, SubtreePool};
use tree_sitter::subtree::{
    ts_subtree_child_count, ts_subtree_from_mut, ts_subtree_symbol, MutableSubtree, SubtreeHeapData,
};
use tree_sitter::subtree_build::{ts_subtree_new_leaf, ts_subtree_new_missing_leaf, ts_subtree_new_node};

fn status(cost: u32, node_count: u32, dynamic_precedence: i32, is_in_error: bool) -> ErrorStatus {
    ErrorStatus { cost, node_count, dynamic_precedence, is_in_error }
}

fn small_language() -> TSLanguage {
    TSLanguage {
        version: 11,
        symbol_count: 3,
        alias_count: 0,
        token_count: 2,
        external_token_count: 0,
        symbol_names: vec![b"end".to_vec(), b"word".to_vec(), b"keyword".to_vec()],
        symbol_metadata: vec![
            TSSymbolMetadata { visible: false, named: false },
            TSSymbolMetadata { visible: true, named: true },
            TSSymbolMetadata { visible: true, named: false },
        ],
        parse_table: Vec::new(),
        parse_actions: vec![TSParseActionEntry::Entry(TSParseActionEntryContent { count: 1, reusable: true })],
        lex_modes: vec![
            TSLexMode { lex_state: 1, external_lex_state: 0 },
            TSLexMode { lex_state: 1, external_lex_state: 0 },
            TSLexMode { lex_state: 2, external_lex_state: 1 },
            TSLexMode { lex_state: 65535, external_lex_state: 0 },
        ],
        alias_sequences: Vec::new(),
        max_alias_sequence_length: 0,
        keyword_capture_token: 1,
        external_scanner: TSLanguageExternalScanner { states: Vec::new(), symbol_map: Vec::new() },
        field_count: 0,
        field_map_slices: vec![TSFieldMapSlice { index: 0, length: 0 }],
        field_map_entries: Vec::new(),
        field_names: vec![b"".to_vec()],
        large_state_count: 0,
        small_parse_table: Vec::new(),
        small_parse_table_map: Vec::new(),
        public_symbol_map: vec![0, 1, 2],
    }
}

fn len(bytes: u32) -> Length {
    Length { bytes, extent: TSPoint { row: 0, column: bytes } }
}

fn leaf(pool: &mut SubtreePool, lang: &TSLanguage, symbol: u16, size: u32, state: u16) -> Subtree {
    ts_subtree_new_leaf(pool, symbol, len(0), len(size), 0, state, false, false, lang)
}

#[test]
fn a_version_out_of_error_beats_one_in_error() {
    let r = ts_parser__compare_versions(status(10, 0, 0, false), status(20, 0, 0, true));
    assert_eq!(r, ErrorComparison::TakeLeft);
    let r = ts_parser__compare_versions(status(30, 0, 0, false), status(20, 0, 0, true));
    assert_eq!(r, ErrorComparison::PreferLeft);
    let r = ts_parser__compare_versions(status(30, 0, 0, true), status(20, 0, 0, false));
    assert_eq!(r, ErrorComparison::TakeRight);
    let r = ts_parser__compare_versions(status(10, 0, 0, true), status(20, 0, 0, false));
    assert_eq!(r, ErrorComparison::PreferRight);
}

#[test]
fn a_cheaper_version_is_taken_when_the_weighed_difference_is_large() {
    // 100 * (1 + 15) = 1600: not above the limit.
    let r = ts_parser__compare_versions(status(0, 15, 0, false), status(100, 0, 0, false));
    assert_eq!(r, ErrorComparison::PreferLeft);
    // 100 * (1 + 16) = 1700: above it.
    let r = ts_parser__compare_versions(status(0, 16, 0, false), status(100, 0, 0, false));
    assert_eq!(r, ErrorComparison::TakeLeft);
    let r = ts_parser__compare_versions(status(100, 0, 0, false), status(0, 16, 0, false));
    assert_eq!(r, ErrorComparison::TakeRight);
}

#[test]
fn the_weighed_difference_wraps_around() {
    // (2^31) * (1 + 1) wraps to 0 in 32 bits, which is not above the limit.
    let r = ts_parser__compare_versions(status(0, 1, 0, false), status(0x8000_0000, 0, 0, false));
    assert_eq!(r, ErrorComparison::PreferLeft);
    // node_count + 1 wraps to 0 as well.
    let r = ts_parser__compare_versions(status(0, u32::MAX, 0, false), status(5000, 0, 0, false));
    assert_eq!(r, ErrorComparison::PreferLeft);
}

#[test]
fn equal_costs_go_by_dynamic_precedence() {
    let r = ts_parser__compare_versions(status(5, 0, 3, false), status(5, 0, -1, false));
    assert_eq!(r, ErrorComparison::PreferLeft);
    let r = ts_parser__compare_versions(status(5, 0, -1, true), status(5, 0, 3, true));
    assert_eq!(r, ErrorComparison::PreferRight);
    let r = ts_parser__compare_versions(status(5, 7, 2, false), status(5, 1, 2, false));
    assert_eq!(r, ErrorComparison::Even);
}

#[test]
fn swapping_the_versions_swaps_the_answer() {
    let cases = [
        (status(10, 0, 0, false), status(20, 0, 0, true)),
        (status(0, 16, 0, false), status(100, 0, 0, false)),
        (status(0, 15, 0, false), status(100, 0, 0, false)),
        (status(5, 0, 3, false), status(5, 0, -1, false)),
        (status(5, 0, 2, true), status(5, 0, 2, true)),
    ];
    for (a, b) in cases.iter() {
        let forward = ts_parser__compare_versions(*a, *b);
        let backward = ts_parser__compare_versions(*b, *a);
        let mirrored = match forward {
            ErrorComparison::TakeLeft => ErrorComparison::TakeRight,
            ErrorComparison::PreferLeft => ErrorComparison::PreferRight,
            ErrorComparison::Even => ErrorComparison::Even,
            ErrorComparison::PreferRight => ErrorComparison::PreferLeft,
            ErrorComparison::TakeRight => ErrorComparison::TakeLeft,
        };
        assert_eq!(backward, mirrored);
    }
}

#[test]
fn a_string_input_hands_out_the_rest_of_its_text() {
    let input = TSStringInput { string: b"hello".to_vec(), length: 5 };
    let mut length: u32 = 99;
    let rest = ts_string_input_read(&input, 2, &mut length);
    assert_eq!(rest, b"llo");
    assert_eq!(length, 3);
    let past = ts_string_input_read(&input, 5, &mut length);
    assert!(past.is_empty());
    assert_eq!(length, 0);
    let far = ts_string_input_read(&input, 40, &mut length);
    assert!(far.is_empty());
    assert_eq!(length, 0);
}

#[test]
fn a_missing_tree_loses_the_selection() {
    let lang = small_language();
    let mut pool = ts_subtree_pool_new(0);
    let t = leaf(&mut pool, &lang, 1, 3, 0);
    assert!(ts_parser__select_tree(&None, &Some(ts_subtree_retain(&t))));
    assert!(!ts_parser__select_tree(&Some(t), &None));
    assert!(ts_parser__select_tree(&None, &None));
}

#[test]
fn the_tree_with_fewer_errors_is_selected() {
    let lang = small_language();
    let mut pool = ts_subtree_pool_new(0);
    let clean = leaf(&mut pool, &lang, 1, 3, 0);
    let missing = ts_subtree_new_missing_leaf(&mut pool, 1, len(0), &lang);
    assert!(!ts_parser__select_tree(&Some(ts_subtree_retain(&clean)), &Some(ts_subtree_retain(&missing))));
    assert!(ts_parser__select_tree(&Some(missing), &Some(clean)));
}

#[test]
fn equal_clean_trees_keep_the_left_one() {
    let lang = small_language();
    let mut pool = ts_subtree_pool_new(0);
    let a = leaf(&mut pool, &lang, 1, 3, 0);
    let b = leaf(&mut pool, &lang, 1, 3, 0);
    assert!(!ts_parser__select_tree(&Some(a), &Some(b)));
    // A tree of a smaller symbol compares first: the right one is kept
    // only when it compares after the left one.
    let low = leaf(&mut pool, &lang, 1, 3, 0);
    let high = leaf(&mut pool, &lang, 2, 3, 0);
    assert!(!ts_parser__select_tree(&Some(ts_subtree_retain(&low)), &Some(ts_subtree_retain(&high))));
    assert!(ts_parser__select_tree(&Some(high), &Some(low)));
}

#[test]
fn a_leaf_lexed_alike_can_be_reused() {
    let lang = small_language();
    let mut pool = ts_subtree_pool_new(0);
    let with_actions = TableEntry { actions: 0, action_count: 1, is_reusable: false };
    let no_actions = TableEntry { actions: 0, action_count: 0, is_reusable: false };
    let reusable = TableEntry { actions: 0, action_count: 0, is_reusable: true };
    // A keyword-capture leaf lexed in state 1: same lex mode as states 0 and 1.
    let word = leaf(&mut pool, &lang, 1, 3, 1);
    assert!(ts_parser__can_reuse_first_leaf(&lang, 1, &word, &with_actions));
    // In state 0 the mode is alike, but the keyword-capture token must come
    // from the same state.
    assert!(!ts_parser__can_reuse_first_leaf(&lang, 0, &word, &with_actions));
    assert!(ts_parser__can_reuse_first_leaf(&lang, 0, &word, &reusable));
    // Another token lexed alike is reused in either state.
    let other = leaf(&mut pool, &lang, 2, 3, 1);
    assert!(ts_parser__can_reuse_first_leaf(&lang, 0, &other, &with_actions));
    // Not when the state allows external tokens.
    assert!(!ts_parser__can_reuse_first_leaf(&lang, 2, &other, &reusable));
    // Never at the end of a non-terminal extra.
    assert!(!ts_parser__can_reuse_first_leaf(&lang, 3, &other, &reusable));
    // An empty token lexed otherwise is not reused.
    let empty = leaf(&mut pool, &lang, 2, 0, 2);
    assert!(!ts_parser__can_reuse_first_leaf(&lang, 0, &empty, &reusable));
    assert!(!ts_parser__can_reuse_first_leaf(&lang, 0, &other, &no_actions));
}

#[test]
fn a_cached_token_is_handed_back_where_it_was_lexed() {
    let lang = small_language();
    let mut pool = ts_subtree_pool_new(0);
    let mut cache = TokenCache { token: None, last_external_token: None, byte_index: 0 };
    let mut entry = TableEntry { actions: 9, action_count: 9, is_reusable: false };
    assert!(ts_parser__get_cached_token(&cache, &lang, 1, 0, &None, &mut entry).is_none());
    let token = leaf(&mut pool, &lang, 2, 3, 1);
    ts_parser__set_cached_token(&mut cache, 7, None, Some(ts_subtree_retain(&token)));
    assert_eq!(cache.byte_index, 7);
    let missed = ts_parser__get_cached_token(&cache, &lang, 1, 8, &None, &mut entry);
    assert!(missed.is_none());
    assert_eq!(entry, TableEntry { actions: 9, action_count: 9, is_reusable: false });
    let hit = ts_parser__get_cached_token(&cache, &lang, 1, 7, &None, &mut entry);
    assert_eq!(entry, TableEntry { actions: 1, action_count: 1, is_reusable: true });
    assert_eq!(ts_subtree_symbol(&hit.unwrap()), 2);
    // In a state that allows external tokens, the token is not reused.
    let other_state = ts_parser__get_cached_token(&cache, &lang, 2, 7, &None, &mut entry);
    assert!(other_state.is_none());
}

#[test]
fn a_lookahead_is_broken_down_to_the_parse_state() {
    let lang = small_language();
    let mut pool = ts_subtree_pool_new(0);
    let mut children: VoidArray<Subtree> = VoidArray::new();
    children.contents.push(leaf(&mut pool, &lang, 1, 1, 0));
    children.contents.push(leaf(&mut pool, &lang, 2, 2, 0));
    children.capacity = 2;
    let node = ts_subtree_from_mut(ts_subtree_new_node(&mut pool, 2, children, 0, &lang));
    let mut reusable = reusable_node_new();
    reusable_node_reset(&mut reusable, ts_subtree_retain(&node));
    // Built in state 0: nothing to break down.
    let mut lookahead = ts_subtree_retain(&node);
    ts_parser__breakdown_lookahead(&mut lookahead, 0, &mut reusable);
    assert_eq!(ts_subtree_child_count(&lookahead), 2);
    assert_eq!(reusable.stack.contents.len(), 1);
    // In another state the walk goes down to the first leaf.
    ts_parser__breakdown_lookahead(&mut lookahead, 5, &mut reusable);
    assert_eq!(ts_subtree_child_count(&lookahead), 0);
    assert_eq!(ts_subtree_symbol(&lookahead), 1);
    assert_eq!(reusable.stack.contents.len(), 2);
    assert_eq!(ts_subtree_symbol(&reusable_node_tree(&reusable).unwrap()), 1);
}

fn heap(m: MutableSubtree) -> SubtreeHeapData {
    match m {
        MutableSubtree::Heap(d) => d,
        MutableSubtree::Inline(_) => panic!("a node is kept on the heap"),
    }
}

#[test]
fn children_are_replaced_only_by_a_better_tree() {
    let lang = small_language();
    let mut pool = ts_subtree_pool_new(0);
    let mut children: VoidArray<Subtree> = VoidArray::new();
    children.contents.push(ts_subtree_new_missing_leaf(&mut pool, 1, len(0), &lang));
    children.contents.push(leaf(&mut pool, &lang, 2, 2, 0));
    children.capacity = 2;
    let mut node = heap(ts_subtree_new_node(&mut pool, 2, children, 0, &lang));
    assert!(node.error_cost >= 610);
    // Clean children make a better tree: it replaces the node's children.
    let clean = vec![leaf(&mut pool, &lang, 1, 1, 0), leaf(&mut pool, &lang, 2, 2, 0), leaf(&mut pool, &lang, 2, 1, 0)];
    assert!(ts_parser__replace_children(&mut node, clean, &lang));
    assert_eq!(node.children.len(), 3);
    assert_eq!(node.error_cost, 0);
    // Children with a missing token make a worse tree: the node stays.
    let worse = vec![ts_subtree_new_missing_leaf(&mut pool, 1, len(0), &lang)];
    assert!(!ts_parser__replace_children(&mut node, worse, &lang));
    assert_eq!(node.children.len(), 3);
}

#[test]
fn a_parser_accepts_grammar_versions_nine_to_eleven_only() {
    let mut old_grammar = small_language();
    old_grammar.version = 8;
    let mut grammar = small_language();
    grammar.version = 11;
    let mut new_grammar = small_language();
    new_grammar.version = 12;
    let mut parser = TSParser { language: None, timeout_duration: 0 };
    assert!(!ts_parser_set_language(&mut parser, Some(&old_grammar)));
    assert!(ts_parser_language(&parser).is_none());
    assert!(ts_parser_set_language(&mut parser, Some(&grammar)));
    assert_eq!(ts_parser_language(&parser).unwrap().version, 11);
    assert!(!ts_parser_set_language(&mut parser, Some(&new_grammar)));
    assert_eq!(ts_parser_language(&parser).unwrap().version, 11);
    assert!(ts_parser_set_language(&mut parser, None));
    assert!(ts_parser_language(&parser).is_none());
}

#[test]
fn a_parser_keeps_its_timeout() {
    let mut parser = TSParser { language: None, timeout_duration: 0 };
    assert_eq!(ts_parser_timeout_micros(&parser), 0);
    ts_parser_set_timeout_micros(&mut parser, 1500);
    assert_eq!(ts_parser_timeout_micros(&parser), 1500);
}
