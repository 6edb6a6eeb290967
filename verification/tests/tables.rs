use tree_sitter::language::{
    ts_language_has_actions, ts_language_has_reduce_action, ts_language_lookup,
    ts_language_next_state, ts_language_table_entry, TSFieldMapSlice, TSLanguage,
    TSLanguageExternalScanner, TSParseAction, TSParseActionEntry, TSParseActionEntryContent,
    TSParseActionParams, TSParseActionParamsState, TSParseActionParamsSymbol, TSSymbolMetadata,
    TableEntry, TS_BUILTIN_SYM_ERROR, TS_PARSE_ACTION_TYPE_REDUCE, TS_PARSE_ACTION_TYPE_SHIFT,
};
use tree_sitter::subtree::{
    ts_external_scanner_state_copy, ts_external_scanner_state_data, ts_external_scanner_state_eq,
    ts_external_scanner_state_init, ExternalScannerState,
};

fn entry(count: u8, reusable: bool) -> TSParseActionEntry {
    TSParseActionEntry::Entry(TSParseActionEntryContent { count, reusable })
}

fn shift(state: u16, extra: bool) -> TSParseActionEntry {
    TSParseActionEntry::Action(TSParseAction {
        params: TSParseActionParams::State(TSParseActionParamsState { state, extra, repetition: false }),
        type_0: TS_PARSE_ACTION_TYPE_SHIFT,
    })
}

fn reduce(symbol: u16) -> TSParseActionEntry {
    TSParseActionEntry::Action(TSParseAction {
        params: TSParseActionParams::Symbol(TSParseActionParamsSymbol {
            symbol,
            dynamic_precedence: 0,
            child_count: 1,
            production_id: 0,
        }),
        type_0: TS_PARSE_ACTION_TYPE_REDUCE,
    })
}

/// Two tokens and one non-terminal; states 0 and 1 in the dense table,
/// state 2 in the small one.
fn table_language() -> TSLanguage {
    TSLanguage {
        version: 11,
        symbol_count: 3,
        alias_count: 0,
        token_count: 2,
        external_token_count: 0,
        symbol_names: vec![b"end".to_vec(), b"word".to_vec(), b"phrase".to_vec()],
        symbol_metadata: vec![
            TSSymbolMetadata { visible: false, named: false },
            TSSymbolMetadata { visible: true, named: true },
            TSSymbolMetadata { visible: true, named: true },
        ],
        parse_table: vec![0, 1, 7, 3, 5, 0],
        parse_actions: vec![
            entry(0, false),
            entry(1, true),
            shift(4, false),
            entry(1, false),
            reduce(2),
            entry(1, false),
            shift(9, true),
        ],
        lex_modes: Vec::new(),
        alias_sequences: Vec::new(),
        max_alias_sequence_length: 0,
        keyword_capture_token: 0,
        external_scanner: TSLanguageExternalScanner { states: Vec::new(), symbol_map: Vec::new() },
        field_count: 0,
        field_map_slices: vec![TSFieldMapSlice { index: 0, length: 0 }],
        field_map_entries: Vec::new(),
        field_names: vec![b"".to_vec()],
        large_state_count: 2,
        small_parse_table: vec![1, 3, 2, 0, 1],
        small_parse_table_map: vec![0],
        public_symbol_map: vec![0, 1, 2],
    }
}

#[test]
fn the_parse_tables_give_the_actions_of_a_state() {
    let lang = table_language();
    assert_eq!(ts_language_lookup(&lang, 0, 2), 7);
    assert_eq!(ts_language_lookup(&lang, 1, 1), 5);
    assert_eq!(ts_language_lookup(&lang, 2, 0), 3);
    assert_eq!(ts_language_lookup(&lang, 2, 1), 3);
    assert_eq!(ts_language_lookup(&lang, 2, 2), 0);
    assert_eq!(
        ts_language_table_entry(&lang, 0, 1),
        TableEntry { actions: 2, action_count: 1, is_reusable: true }
    );
    assert_eq!(
        ts_language_table_entry(&lang, 0, TS_BUILTIN_SYM_ERROR),
        TableEntry { actions: 0, action_count: 0, is_reusable: false }
    );
    assert!(!ts_language_has_actions(&lang, 0, 0));
    assert!(ts_language_has_actions(&lang, 0, 1));
    assert!(ts_language_has_reduce_action(&lang, 1, 0));
    assert!(!ts_language_has_reduce_action(&lang, 0, 1));
}

#[test]
fn the_next_state_follows_shifts_and_gotos() {
    let lang = table_language();
    assert_eq!(ts_language_next_state(&lang, 0, 1), 4);
    // An extra token leaves the parser in its state.
    assert_eq!(ts_language_next_state(&lang, 1, 1), 1);
    // A reduction is no shift.
    assert_eq!(ts_language_next_state(&lang, 1, 0), 0);
    // For a non-terminal the table holds the state itself.
    assert_eq!(ts_language_next_state(&lang, 0, 2), 7);
    assert_eq!(ts_language_next_state(&lang, 0, TS_BUILTIN_SYM_ERROR), 0);
}

#[test]
fn an_external_scanner_state_keeps_its_bytes() {
    let mut a = ExternalScannerState { data: Vec::new() };
    ts_external_scanner_state_init(&mut a, b"abcdef", 3);
    assert_eq!(ts_external_scanner_state_data(&a), b"abc");
    let b = ts_external_scanner_state_copy(&a);
    assert!(ts_external_scanner_state_eq(&a, &b));
    let mut c = ExternalScannerState { data: Vec::new() };
    ts_external_scanner_state_init(&mut c, b"abd", 3);
    assert!(!ts_external_scanner_state_eq(&a, &c));
}
