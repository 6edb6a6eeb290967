use tree_sitter::array::{array__erase, array__grow, array__splice, array_push, VoidArray};
use tree_sitter::language::{ts_reduce_action_set_add, ReduceAction};
use tree_sitter::length::{
    length_add, length_min, length_sub, length_zero, point_add, point_lt, point_lte, point_sub,
    Length, TSPoint,
};
use tree_sitter::query::{
    bitmask_for_index, capture_list_pool_acquire, capture_list_pool_new, capture_list_pool_release,
    capture_list_pool_reset, count_leading_zeros, query_step__add_capture, query_step__new,
    query_step__remove_capture, stream_new, stream_scan_identifier, stream_skip_whitespace,
    symbol_table_id_for_name, symbol_table_insert_name, symbol_table_insert_name_with_escapes,
    symbol_table_name_for_id, symbol_table_new, CaptureListPool, NONE,
};
use tree_sitter::unicode::{ts_decode_utf16, ts_decode_utf8};
use tree_sitter::clock::{clock_after, clock_is_gt, clock_is_null, clock_null, duration_from_micros, TSClock};
use tree_sitter::subtree_string::ts_subtree__write_dot_string;

fn point(row: u32, column: u32) -> TSPoint {
    TSPoint { row, column }
}

#[test]
fn points_add_by_rows_then_columns() {
    assert_eq!(point_add(point(1, 5), point(0, 3)), point(1, 8));
    assert_eq!(point_add(point(1, 5), point(2, 3)), point(3, 3));
    assert_eq!(point_sub(point(3, 3), point(1, 5)), point(2, 3));
    assert_eq!(point_sub(point(1, 8), point(1, 5)), point(0, 3));
    assert!(point_lt(point(0, 9), point(1, 0)));
    assert!(!point_lt(point(1, 0), point(1, 0)));
    assert!(point_lte(point(1, 0), point(1, 0)));
}

#[test]
fn lengths_add_and_subtract() {
    let a = Length { bytes: 10, extent: point(1, 2) };
    let b = Length { bytes: 4, extent: point(0, 4) };
    let sum = length_add(a, b);
    assert_eq!(sum, Length { bytes: 14, extent: point(1, 6) });
    assert_eq!(length_sub(sum, a), b);
    assert_eq!(length_add(length_zero(), a), a);
    assert_eq!(length_min(a, b), b);
}

#[test]
fn utf8_decodes_one_code_point() {
    let mut c: i32 = 0;
    assert_eq!(ts_decode_utf8(b"a", 1, &mut c), 1);
    assert_eq!(c, 97);
    assert_eq!(ts_decode_utf8(&[0xc3, 0xa9], 2, &mut c), 2);
    assert_eq!(c, 0xe9);
    assert_eq!(ts_decode_utf8(&[0xe2, 0x82, 0xac], 3, &mut c), 3);
    assert_eq!(c, 0x20ac);
    assert_eq!(ts_decode_utf8(&[0xf0, 0x9f, 0x98, 0x80], 4, &mut c), 4);
    assert_eq!(c, 0x1f600);
    assert_eq!(ts_decode_utf8(&[0xc3], 1, &mut c), 1);
    assert_eq!(c, -1);
    assert_eq!(ts_decode_utf8(&[0xff, 0x41], 2, &mut c), 1);
    assert_eq!(c, -1);
}

#[test]
fn utf8_decodes_what_was_encoded() {
    for cp in [0x24u32, 0xa2, 0x939, 0x20ac, 0xd55c, 0x10348] {
        let s = char::from_u32(cp).unwrap().to_string();
        let bytes = s.as_bytes();
        let mut c: i32 = 0;
        assert_eq!(ts_decode_utf8(bytes, bytes.len() as u32, &mut c), bytes.len() as u32);
        assert_eq!(c, cp as i32);
    }
}

#[test]
fn utf16_decodes_surrogate_pairs() {
    let mut c: i32 = 0;
    assert_eq!(ts_decode_utf16(&[0x41], 1, &mut c), 2);
    assert_eq!(c, 0x41);
    assert_eq!(ts_decode_utf16(&[0xd83d, 0xde00], 2, &mut c), 4);
    assert_eq!(c, 0x1f600);
}

#[test]
fn arrays_grow_splice_and_erase() {
    let mut a: VoidArray<u32> = VoidArray::new();
    array__grow(&mut a, 3);
    assert_eq!(a.capacity, 8);
    array_push(&mut a, 1);
    array_push(&mut a, 4);
    array__splice(&mut a, 1, 0, &[2, 3]);
    assert_eq!(a.contents, vec![1, 2, 3, 4]);
    array__splice(&mut a, 1, 2, &[9]);
    assert_eq!(a.contents, vec![1, 9, 4]);
    array__erase(&mut a, 0);
    assert_eq!(a.contents, vec![9, 4]);
}

#[test]
fn a_reduce_action_set_holds_each_reduction_once() {
    let mut set: VoidArray<ReduceAction> = VoidArray::new();
    let a = ReduceAction { count: 2, symbol: 5, dynamic_precedence: 0, production_id: 1 };
    let b = ReduceAction { count: 2, symbol: 5, dynamic_precedence: 3, production_id: 2 };
    let c = ReduceAction { count: 1, symbol: 5, dynamic_precedence: 0, production_id: 1 };
    ts_reduce_action_set_add(&mut set, a);
    ts_reduce_action_set_add(&mut set, b);
    ts_reduce_action_set_add(&mut set, c);
    assert_eq!(set.contents, vec![a, c]);
}

#[test]
fn a_symbol_table_reads_back_what_was_inserted() {
    let mut table = symbol_table_new();
    assert_eq!(symbol_table_id_for_name(&table, b"name", 4), -1);
    assert_eq!(symbol_table_insert_name(&mut table, b"name", 4), 0);
    assert_eq!(symbol_table_insert_name(&mut table, b"other", 5), 1);
    assert_eq!(symbol_table_insert_name(&mut table, b"name", 4), 0);
    assert_eq!(symbol_table_id_for_name(&table, b"other", 5), 1);
    assert_eq!(symbol_table_name_for_id(&table, 1), b"other");
    assert_eq!(table.characters.contents, b"name\0other\0".to_vec());
    assert_eq!(symbol_table_insert_name_with_escapes(&mut table, b"a\\tb", 4), 2);
    assert_eq!(symbol_table_name_for_id(&table, 2), b"a\tb");
    assert_eq!(symbol_table_insert_name_with_escapes(&mut table, b"name", 4), 0);
}

#[test]
fn capture_lists_come_back_to_the_pool() {
    let mut pool: CaptureListPool<u32> = capture_list_pool_new();
    capture_list_pool_reset(&mut pool);
    assert_eq!(pool.list.len(), 32);
    let before = pool.usage_map;
    let first = capture_list_pool_acquire(&mut pool);
    let second = capture_list_pool_acquire(&mut pool);
    assert_eq!(first, 0);
    assert_eq!(second, 1);
    assert_eq!(pool.usage_map, 0x3fff_ffff);
    capture_list_pool_release(&mut pool, second);
    capture_list_pool_release(&mut pool, first);
    assert_eq!(pool.usage_map, before);
    pool.usage_map = 0;
    assert_eq!(capture_list_pool_acquire(&mut pool), NONE);
}

#[test]
fn bits_count_from_the_top() {
    assert_eq!(count_leading_zeros(0), 32);
    assert_eq!(count_leading_zeros(1), 31);
    assert_eq!(count_leading_zeros(0x8000_0000), 0);
    assert_eq!(bitmask_for_index(0), 0x8000_0000);
    assert_eq!(bitmask_for_index(31), 1);
}

#[test]
fn steps_keep_up_to_four_captures() {
    let mut step = query_step__new(3, 8193, true);
    assert_eq!(step.depth, 1);
    assert!(step.is_immediate);
    for id in 0..5 {
        query_step__add_capture(&mut step, id);
    }
    assert_eq!(step.capture_ids, [0, 1, 2, 3]);
    query_step__remove_capture(&mut step, 1);
    assert_eq!(step.capture_ids, [0, 2, 3, NONE]);
    query_step__remove_capture(&mut step, 7);
    assert_eq!(step.capture_ids, [0, 2, 3, NONE]);
}

#[test]
fn a_stream_skips_comments_and_reads_identifiers() {
    let source = b"  ; comment\n  name-with.dots? rest";
    let mut stream = stream_new(source, source.len() as u32);
    stream_skip_whitespace(&mut stream);
    assert_eq!(stream.input, 14);
    assert_eq!(stream.next, 'n' as i32);
    stream_scan_identifier(&mut stream);
    assert_eq!(stream.input, 29);
    assert_eq!(stream.next, ' ' as i32);
}

#[test]
fn clocks_move_on_by_durations() {
    assert!(clock_is_null(clock_null()));
    let start = TSClock { tv_sec: 5, tv_nsec: 100 };
    let later = clock_after(start, duration_from_micros(2_000_003));
    assert_eq!(later, TSClock { tv_sec: 7, tv_nsec: 3_100 });
    assert!(clock_is_gt(later, start));
    assert!(!clock_is_gt(start, later));
    assert!(!clock_is_gt(start, start));
    assert!(!clock_is_null(start));
}

#[test]
fn dot_names_escape_quotes_and_newlines() {
    assert_eq!(ts_subtree__write_dot_string(b"a\"b\nc\0d"), b"a\\\"b\\nc".to_vec());
    assert_eq!(ts_subtree__write_dot_string(b"plain"), b"plain".to_vec());
}
