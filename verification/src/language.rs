use vstd::prelude::*;

use crate::array::VoidArray;
use crate::array::array_push;

verus! {

/// The symbol of error nodes.
pub const TS_BUILTIN_SYM_ERROR: u16 = 65535;

/// The symbol of the hidden nodes that repeat errors.
pub const TS_BUILTIN_SYM_ERROR_REPEAT: u16 = 65534;

/// The symbol of the end of the input.
pub const TS_BUILTIN_SYM_END: u16 = 0;

/// The parse state of subtrees that cannot be reused in any state.
pub const TS_TREE_STATE_NONE: u16 = 65535;

/// The oldest and the newest language ABI versions this library reads.
pub const TREE_SITTER_MIN_COMPATIBLE_LANGUAGE_VERSION: u32 = 9;

pub const TREE_SITTER_LANGUAGE_VERSION: u32 = 11;

/// Kinds of parse actions.
pub const TS_PARSE_ACTION_TYPE_SHIFT: u8 = 0;

pub const TS_PARSE_ACTION_TYPE_REDUCE: u8 = 1;

pub const TS_PARSE_ACTION_TYPE_ACCEPT: u8 = 2;

pub const TS_PARSE_ACTION_TYPE_RECOVER: u8 = 3;

/// Kinds of symbols, as reported by `ts_language_symbol_type`.
pub const TS_SYMBOL_TYPE_REGULAR: u32 = 0;

pub const TS_SYMBOL_TYPE_ANONYMOUS: u32 = 1;

pub const TS_SYMBOL_TYPE_AUXILIARY: u32 = 2;

/// Whether nodes of a symbol appear in the syntax tree, and whether they are named.
#[derive(Copy, Clone, Debug, PartialEq, Eq, Structural)]
pub struct TSSymbolMetadata {
    pub visible: bool,
    pub named: bool,
}

/// The lexer states to use in a parse state.
#[derive(Copy, Clone, Debug, PartialEq, Eq, Structural)]
pub struct TSLexMode {
    pub lex_state: u16,
    pub external_lex_state: u16,
}

/// One field of a production: which child it names, and whether the child's
/// own fields are inherited.
#[derive(Copy, Clone, Debug, PartialEq, Eq, Structural)]
pub struct TSFieldMapEntry {
    pub field_id: u16,
    pub child_index: u8,
    pub inherited: bool,
}

/// The field entries of one production, as a slice of the field map.
#[derive(Copy, Clone, Debug, PartialEq, Eq, Structural)]
pub struct TSFieldMapSlice {
    pub index: u16,
    pub length: u16,
}

/// The parameters of shift actions.
#[derive(Copy, Clone, Debug, PartialEq, Eq, Structural)]
pub struct TSParseActionParamsState {
    pub state: u16,
    pub extra: bool,
    pub repetition: bool,
}

/// The parameters of reduce actions.
#[derive(Copy, Clone, Debug, PartialEq, Eq, Structural)]
pub struct TSParseActionParamsSymbol {
    pub symbol: u16,
    pub dynamic_precedence: i16,
    pub child_count: u8,
    pub production_id: u8,
}

/// The parameters of a parse action: those of a shift or those of a reduce.
#[derive(Copy, Clone, Debug, PartialEq, Eq, Structural)]
pub enum TSParseActionParams {
    State(TSParseActionParamsState),
    Symbol(TSParseActionParamsSymbol),
}

/// A parse action: one of the `TS_PARSE_ACTION_TYPE_*` kinds and its parameters.
#[derive(Copy, Clone, Debug, PartialEq, Eq, Structural)]
pub struct TSParseAction {
    pub params: TSParseActionParams,
    pub type_0: u8,
}

/// The header of a run of actions in the action table.
#[derive(Copy, Clone, Debug, PartialEq, Eq, Structural)]
pub struct TSParseActionEntryContent {
    pub count: u8,
    pub reusable: bool,
}

/// An element of the action table: a header, followed by `count` actions.
#[derive(Copy, Clone, Debug, PartialEq, Eq, Structural)]
pub enum TSParseActionEntry {
    Entry(TSParseActionEntryContent),
    Action(TSParseAction),
}

/// The tables of an external scanner that the parser reads.
pub struct TSLanguageExternalScanner {
    pub states: Vec<bool>,
    pub symbol_map: Vec<u16>,
}

/// The parse tables and symbol tables of a grammar. Symbol and field names
/// are byte strings.
pub struct TSLanguage {
    pub version: u32,
    pub symbol_count: u32,
    pub alias_count: u32,
    pub token_count: u32,
    pub external_token_count: u32,
    pub symbol_names: Vec<Vec<u8>>,
    pub symbol_metadata: Vec<TSSymbolMetadata>,
    pub parse_table: Vec<u16>,
    pub parse_actions: Vec<TSParseActionEntry>,
    pub lex_modes: Vec<TSLexMode>,
    pub alias_sequences: Vec<u16>,
    pub max_alias_sequence_length: u16,
    pub keyword_capture_token: u16,
    pub external_scanner: TSLanguageExternalScanner,
    pub field_count: u32,
    pub field_map_slices: Vec<TSFieldMapSlice>,
    pub field_map_entries: Vec<TSFieldMapEntry>,
    pub field_names: Vec<Vec<u8>>,
    pub large_state_count: u32,
    pub small_parse_table: Vec<u16>,
    pub small_parse_table_map: Vec<u32>,
    pub public_symbol_map: Vec<u16>,
}

/// The run of parse actions for a state and a lookahead symbol: its start in
/// `parse_actions`, its length, and whether the lookahead token may be reused.
#[derive(Copy, Clone, Debug, PartialEq, Eq, Structural)]
pub struct TableEntry {
    pub actions: u32,
    pub action_count: u32,
    pub is_reusable: bool,
}

/// A reduction: pop `count` subtrees and build a `symbol` node from them.
#[derive(Copy, Clone, Debug, PartialEq, Eq, Structural)]
pub struct ReduceAction {
    pub count: u32,
    pub symbol: u16,
    pub dynamic_precedence: i32,
    pub production_id: u16,
}

/// A set of reductions without two that reduce the same symbol over the same count.
pub type ReduceActionSet = VoidArray<ReduceAction>;

/// The "ERROR" name of error nodes.
pub open spec fn error_name() -> Seq<u8> {
    seq![69u8, 82u8, 82u8, 79u8, 82u8]
}

/// The "_ERROR" name of error-repeat nodes.
pub open spec fn error_repeat_name() -> Seq<u8> {
    seq![95u8, 69u8, 82u8, 82u8, 79u8, 82u8]
}

pub open spec fn spec_symbol_metadata(l: &TSLanguage, symbol: u16) -> TSSymbolMetadata {
    if symbol == TS_BUILTIN_SYM_ERROR {
        TSSymbolMetadata { visible: true, named: true }
    } else if symbol == TS_BUILTIN_SYM_ERROR_REPEAT {
        TSSymbolMetadata { visible: false, named: false }
    } else if symbol < l.symbol_metadata@.len() {
        l.symbol_metadata@[symbol as int]
    } else {
        TSSymbolMetadata { visible: false, named: false }
    }
}

/// The metadata of a symbol (invisible and unnamed for a symbol outside the table).
pub fn ts_language_symbol_metadata(self_0: &TSLanguage, symbol: u16) -> (m: TSSymbolMetadata)
    ensures
        m == spec_symbol_metadata(self_0, symbol),
{
    if symbol == TS_BUILTIN_SYM_ERROR {
        TSSymbolMetadata { visible: true, named: true }
    } else if symbol == TS_BUILTIN_SYM_ERROR_REPEAT {
        TSSymbolMetadata { visible: false, named: false }
    } else if (symbol as usize) < self_0.symbol_metadata.len() {
        self_0.symbol_metadata[symbol as usize]
    } else {
        TSSymbolMetadata { visible: false, named: false }
    }
}

/// The number of symbols, aliases included.
pub open spec fn spec_symbol_count(l: &TSLanguage) -> int {
    l.symbol_count + l.alias_count
}

pub fn ts_language_symbol_count(self_0: &TSLanguage) -> (n: u64)
    ensures
        n == spec_symbol_count(self_0),
{
    self_0.symbol_count as u64 + self_0.alias_count as u64
}

pub fn ts_language_version(self_0: &TSLanguage) -> (v: u32)
    ensures
        v == self_0.version,
{
    self_0.version
}

pub fn ts_language_field_count(self_0: &TSLanguage) -> (n: u32)
    ensures
        n == (if self_0.version >= 10 { self_0.field_count } else { 0 }),
{
    if self_0.version >= 10 {
        self_0.field_count
    } else {
        0
    }
}

pub open spec fn spec_public_symbol(l: &TSLanguage, symbol: u16) -> u16 {
    if symbol == TS_BUILTIN_SYM_ERROR {
        symbol
    } else if l.version >= 11 {
        if symbol < l.public_symbol_map@.len() {
            l.public_symbol_map@[symbol as int]
        } else {
            symbol
        }
    } else {
        symbol
    }
}

/// The symbol that the public API reports for a symbol: since version 11, the
/// first of the symbols that share its name and kind.
pub fn ts_language_public_symbol(self_0: &TSLanguage, symbol: u16) -> (s: u16)
    ensures
        s == spec_public_symbol(self_0, symbol),
{
    if symbol == TS_BUILTIN_SYM_ERROR {
        symbol
    } else if self_0.version >= 11 {
        if (symbol as usize) < self_0.public_symbol_map.len() {
            self_0.public_symbol_map[symbol as usize]
        } else {
            symbol
        }
    } else {
        symbol
    }
}

pub open spec fn spec_symbol_name(l: &TSLanguage, symbol: u16) -> Option<Seq<u8>> {
    if symbol == TS_BUILTIN_SYM_ERROR {
        Some(error_name())
    } else if symbol == TS_BUILTIN_SYM_ERROR_REPEAT {
        Some(error_repeat_name())
    } else if symbol < spec_symbol_count(l) && symbol < l.symbol_names@.len() {
        Some(l.symbol_names@[symbol as int]@)
    } else {
        None
    }
}

/// The name of a symbol, or `None` for a symbol outside the table.
pub fn ts_language_symbol_name(self_0: &TSLanguage, symbol: u16) -> (name: Option<Vec<u8>>)
    ensures
        match name {
            Some(n) => spec_symbol_name(self_0, symbol) == Some(n@),
            None => spec_symbol_name(self_0, symbol) is None,
        },
{
    if symbol == TS_BUILTIN_SYM_ERROR {
        Some(vec![69u8, 82u8, 82u8, 79u8, 82u8])
    } else if symbol == TS_BUILTIN_SYM_ERROR_REPEAT {
        Some(vec![95u8, 69u8, 82u8, 82u8, 79u8, 82u8])
    } else if (symbol as u64) < ts_language_symbol_count(self_0) && (symbol as usize)
        < self_0.symbol_names.len() {
        Some(self_0.symbol_names[symbol as usize].clone())
    } else {
        None
    }
}

pub open spec fn spec_symbol_type(l: &TSLanguage, symbol: u16) -> u32 {
    let m = spec_symbol_metadata(l, symbol);
    if m.named {
        TS_SYMBOL_TYPE_REGULAR
    } else if m.visible {
        TS_SYMBOL_TYPE_ANONYMOUS
    } else {
        TS_SYMBOL_TYPE_AUXILIARY
    }
}

/// Named symbols are regular, visible unnamed ones anonymous, and the others auxiliary.
pub fn ts_language_symbol_type(self_0: &TSLanguage, symbol: u16) -> (t: u32)
    ensures
        t == spec_symbol_type(self_0, symbol),
{
    let m = ts_language_symbol_metadata(self_0, symbol);
    if m.named {
        TS_SYMBOL_TYPE_REGULAR
    } else if m.visible {
        TS_SYMBOL_TYPE_ANONYMOUS
    } else {
        TS_SYMBOL_TYPE_AUXILIARY
    }
}

/// Two byte strings of length `n` are equal as `strncmp` compares them: up
/// to and including the first zero byte.
pub open spec fn spec_strn_eq(a: Seq<u8>, b: Seq<u8>, i: int, n: int) -> bool
    decreases n - i,
{
    if i >= n {
        true
    } else if a[i] != b[i] {
        false
    } else if a[i] == 0 {
        true
    } else {
        spec_strn_eq(a, b, i + 1, n)
    }
}

/// Compares `a` and `b` over their first `n` bytes as `spec_strn_eq` does.
fn bytes_strn_eq(a: &[u8], b: &[u8], n: usize) -> (r: bool)
    requires
        n <= a@.len(),
        n <= b@.len(),
    ensures
        r == spec_strn_eq(a@, b@, 0, n as int),
{
    let mut i: usize = 0;
    while i < n
        invariant
            i <= n,
            n <= a@.len(),
            n <= b@.len(),
            spec_strn_eq(a@, b@, 0, n as int) == spec_strn_eq(a@, b@, i as int, n as int),
        decreases n - i,
    {
        if a[i] != b[i] {
            return false;
        }
        if a[i] == 0 {
            return true;
        }
        i = i + 1;
    }
    true
}

/// Whether a name taken from a query is read as the name of error nodes: it
/// equals "ERROR" over its own length, as `strncmp` compares them (so a
/// prefix of "ERROR" is read so too).
pub open spec fn spec_names_error(name: Seq<u8>) -> bool {
    spec_strn_eq(name, error_name().push(0u8), 0, name.len() as int)
}

/// Whether symbol `i` has the name `name`.
pub open spec fn spec_symbol_name_is(l: &TSLanguage, i: int, name: Seq<u8>) -> bool {
    &&& 0 <= i < l.symbol_names@.len()
    &&& l.symbol_names@[i]@.len() == name.len()
    &&& spec_strn_eq(l.symbol_names@[i]@, name, 0, name.len() as int)
}

/// The first symbol from `i` on that is visible, named or not as asked, and
/// has the name `name`, as the public API reports it; 0 for none.
pub open spec fn spec_symbol_for_name_from(l: &TSLanguage, name: Seq<u8>, is_named: bool, i: int) -> u16
    decreases spec_symbol_count(l) - i,
{
    if i < 0 || i >= spec_symbol_count(l) || i > u16::MAX {
        0
    } else {
        let m = spec_symbol_metadata(l, i as u16);
        if m.visible && m.named == is_named && spec_symbol_name_is(l, i, name) {
            spec_public_symbol(l, i as u16)
        } else {
            spec_symbol_for_name_from(l, name, is_named, i + 1)
        }
    }
}

/// The symbol a query means by a node name: the error symbol for "ERROR"
/// (see `spec_names_error`), else the first visible symbol of that name,
/// named or anonymous as asked; 0 for none.
pub open spec fn spec_symbol_for_name(l: &TSLanguage, name: Seq<u8>, is_named: bool) -> u16 {
    if spec_names_error(name) {
        TS_BUILTIN_SYM_ERROR
    } else {
        spec_symbol_for_name_from(l, name, is_named, 0)
    }
}

/// The symbol for a node name (see `spec_symbol_for_name`).
pub fn ts_language_symbol_for_name(self_0: &TSLanguage, string: &[u8], length: u32, is_named: bool) -> (s: u16)
    requires
        length == string@.len(),
        spec_symbol_count(self_0) <= u16::MAX,
    ensures
        s == spec_symbol_for_name(self_0, string@, is_named),
{
    let error: [u8; 6] = [69u8, 82u8, 82u8, 79u8, 82u8, 0u8];
    let n: usize = if (length as usize) < 6 { length as usize } else { 6 };
    proof {
        assert(error@ == error_name().push(0u8));
        lemma_strn_eq_stops(string@, error@, 0, n as int, length as int);
    }
    if bytes_strn_eq(string, &error, n) {
        return TS_BUILTIN_SYM_ERROR;
    }
    let count = ts_language_symbol_count(self_0);
    let mut i: u64 = 0;
    while i < count
        invariant
            i <= count,
            count == spec_symbol_count(self_0),
            count <= u16::MAX,
            length == string@.len(),
            !spec_names_error(string@),
            spec_symbol_for_name(self_0, string@, is_named) == spec_symbol_for_name_from(
                self_0,
                string@,
                is_named,
                i as int,
            ),
        decreases count - i,
    {
        let m = ts_language_symbol_metadata(self_0, i as u16);
        if m.visible && m.named == is_named && (i as usize) < self_0.symbol_names.len() {
            let name = self_0.symbol_names[i as usize].as_slice();
            if name.len() == string.len() && bytes_strn_eq(name, string, string.len()) {
                return ts_language_public_symbol(self_0, i as u16);
            }
        }
        i = i + 1;
    }
    0
}

/// Comparing as `strncmp` does stops at a zero byte of the second string:
/// beyond it, the length compared makes no difference.
proof fn lemma_strn_eq_stops(a: Seq<u8>, b: Seq<u8>, i: int, n: int, m: int)
    requires
        0 <= i <= n <= m,
        n <= b.len(),
        n < m ==> n == b.len() && i < n && b[n - 1] == 0,
    ensures
        spec_strn_eq(a, b, i, m) == spec_strn_eq(a, b, i, n),
    decreases n - i,
{
    if n < m {
        if a[i] != b[i] {
        } else if a[i] == 0 {
        } else {
            assert(i + 1 < n);
            lemma_strn_eq_stops(a, b, i + 1, n, m);
        }
    }
}

/// Whether field `i` has the name `name`.
pub open spec fn spec_field_name_is(l: &TSLanguage, i: int, name: Seq<u8>) -> bool {
    &&& 0 <= i < l.field_names@.len()
    &&& l.field_names@[i]@.len() == name.len()
    &&& spec_strn_eq(l.field_names@[i]@, name, 0, name.len() as int)
}

/// The first field from `i` on, up to the field count, named `name`; 0 for
/// none.
pub open spec fn spec_field_id_for_name_from(l: &TSLanguage, name: Seq<u8>, i: int) -> u16
    decreases l.field_count + 1 - i,
{
    let count: int = if l.version >= 10 { l.field_count as int } else { 0 };
    if i < 1 || i > count || i > u16::MAX {
        0
    } else if spec_field_name_is(l, i, name) {
        i as u16
    } else {
        spec_field_id_for_name_from(l, name, i + 1)
    }
}

/// The id of the field named `name`, or 0 (field ids start at 1).
pub fn ts_language_field_id_for_name(self_0: &TSLanguage, name: &[u8], name_length: u32) -> (f: u16)
    requires
        name_length == name@.len(),
        self_0.field_count < u16::MAX,
    ensures
        f == spec_field_id_for_name_from(self_0, name@, 1),
{
    let count = ts_language_field_count(self_0);
    let mut i: u32 = 1;
    while i < count + 1
        invariant
            1 <= i <= count + 1,
            count == (if self_0.version >= 10 { self_0.field_count } else { 0 }),
            count < u16::MAX,
            name_length == name@.len(),
            spec_field_id_for_name_from(self_0, name@, 1) == spec_field_id_for_name_from(
                self_0,
                name@,
                i as int,
            ),
        decreases count + 1 - i,
    {
        if (i as usize) < self_0.field_names.len() {
            let field = self_0.field_names[i as usize].as_slice();
            if field.len() == name.len() && bytes_strn_eq(field, name, name.len()) {
                return i as u16;
            }
        }
        i = i + 1;
    }
    0
}

/// Whether the symbols of the small parse table run `t[start..start + count]`
/// hold `symbol`.
pub open spec fn section_contains(t: Seq<u16>, start: int, count: int, symbol: u16) -> bool {
    exists|i: int| start <= i < start + count && t[i] == symbol
}

/// Looking `symbol` up in the sections of the small parse table that begin at
/// `pos`: each section is a value, a symbol count and that many symbols; the
/// value of the first section that lists the symbol is the result, and 0 when
/// none does (or when a section runs past the table).
pub open spec fn spec_small_lookup(t: Seq<u16>, pos: int, sections_left: nat, symbol: u16) -> u16
    decreases sections_left,
{
    if sections_left == 0 || pos < 0 || pos + 2 > t.len() {
        0
    } else {
        let value = t[pos];
        let count = t[pos + 1] as int;
        if pos + 2 + count > t.len() {
            0
        } else if section_contains(t, pos + 2, count, symbol) {
            value
        } else {
            spec_small_lookup(t, pos + 2 + count, (sections_left - 1) as nat, symbol)
        }
    }
}

/// The entry of the parse table for a state and a symbol: in the large table
/// for the large states, in the compressed small table for the others (from
/// version 11 on). Entries outside the tables read as 0.
pub open spec fn spec_lookup(l: &TSLanguage, state: u16, symbol: u16) -> u16 {
    if l.version >= 11 && state >= l.large_state_count {
        let map_index = state - l.large_state_count;
        if map_index < l.small_parse_table_map@.len() {
            let index = l.small_parse_table_map@[map_index] as int;
            if index < l.small_parse_table@.len() {
                spec_small_lookup(
                    l.small_parse_table@,
                    index + 1,
                    l.small_parse_table@[index] as nat,
                    symbol,
                )
            } else {
                0
            }
        } else {
            0
        }
    } else {
        let index = wadd_u32(wmul_u32(state as u32, l.symbol_count), symbol as u32);
        if index < l.parse_table@.len() {
            l.parse_table@[index as int]
        } else {
            0
        }
    }
}

pub open spec fn wadd_u32(a: u32, b: u32) -> u32 {
    ((a + b) % 0x1_0000_0000) as u32
}

pub open spec fn wmul_u32(a: u32, b: u32) -> u32 {
    ((a * b) % 0x1_0000_0000) as u32
}

/// Scans the sections of the small parse table from `pos` on, one section at a time.
fn small_table_lookup(t: &Vec<u16>, pos: usize, sections_left: u16, symbol: u16) -> (r: u16)
    ensures
        r == spec_small_lookup(t@, pos as int, sections_left as nat, symbol),
    decreases sections_left,
{
    if sections_left == 0 || pos > t.len() || t.len() - pos < 2 {
        return 0;
    }
    let value = t[pos];
    let count = t[pos + 1] as usize;
    if t.len() - (pos + 2) < count {
        return 0;
    }
    let base: usize = pos + 2;
    let mut j: usize = 0;
    while j < count
        invariant
            j <= count,
            base == pos + 2,
            base + count <= t.len(),
            sections_left > 0,
            value == t@[pos as int],
            count == t@[pos + 1],
            forall|k: int| pos + 2 <= k < pos + 2 + j ==> t@[k] != symbol,
        decreases count - j,
    {
        if t[base + j] == symbol {
            assert(section_contains(t@, pos + 2, count as int, symbol)) by {
                assert(t@[pos + 2 + j] == symbol);
            }
            return value;
        }
        j = j + 1;
    }
    assert(!section_contains(t@, pos + 2, count as int, symbol));
    small_table_lookup(t, pos + 2 + count, sections_left - 1, symbol)
}

/// The parse table entry for a state and a symbol.
pub fn ts_language_lookup(self_0: &TSLanguage, state: u16, symbol: u16) -> (r: u16)
    ensures
        r == spec_lookup(self_0, state, symbol),
{
    if self_0.version >= 11 && state as u32 >= self_0.large_state_count {
        let map_index: u32 = state as u32 - self_0.large_state_count;
        if (map_index as usize) < self_0.small_parse_table_map.len() {
            let index: u32 = self_0.small_parse_table_map[map_index as usize];
            if (index as usize) < self_0.small_parse_table.len() {
                let section_count: u16 = self_0.small_parse_table[index as usize];
                small_table_lookup(&self_0.small_parse_table, index as usize + 1, section_count, symbol)
            } else {
                0
            }
        } else {
            0
        }
    } else {
        let index: u32 = (state as u32).wrapping_mul(self_0.symbol_count).wrapping_add(
            symbol as u32,
        );
        if (index as usize) < self_0.parse_table.len() {
            self_0.parse_table[index as usize]
        } else {
            0
        }
    }
}

pub open spec fn spec_table_entry(l: &TSLanguage, state: u16, symbol: u16) -> TableEntry {
    if symbol == TS_BUILTIN_SYM_ERROR || symbol == TS_BUILTIN_SYM_ERROR_REPEAT {
        TableEntry { actions: 0, action_count: 0, is_reusable: false }
    } else {
        let action_index = spec_lookup(l, state, symbol);
        if action_index < l.parse_actions@.len() {
            match l.parse_actions@[action_index as int] {
                TSParseActionEntry::Entry(e) => TableEntry {
                    actions: (action_index + 1) as u32,
                    action_count: e.count as u32,
                    is_reusable: e.reusable,
                },
                TSParseActionEntry::Action(_) => TableEntry {
                    actions: 0,
                    action_count: 0,
                    is_reusable: false,
                },
            }
        } else {
            TableEntry { actions: 0, action_count: 0, is_reusable: false }
        }
    }
}

/// The run of actions for a state and a lookahead symbol; error symbols have none.
pub fn ts_language_table_entry(self_0: &TSLanguage, state: u16, symbol: u16) -> (e: TableEntry)
    ensures
        e == spec_table_entry(self_0, state, symbol),
{
    if symbol == TS_BUILTIN_SYM_ERROR || symbol == TS_BUILTIN_SYM_ERROR_REPEAT {
        return TableEntry { actions: 0, action_count: 0, is_reusable: false };
    }
    let action_index = ts_language_lookup(self_0, state, symbol);
    if (action_index as usize) < self_0.parse_actions.len() {
        match self_0.parse_actions[action_index as usize] {
            TSParseActionEntry::Entry(e) => TableEntry {
                actions: action_index as u32 + 1,
                action_count: e.count as u32,
                is_reusable: e.reusable,
            },
            TSParseActionEntry::Action(_) => TableEntry {
                actions: 0,
                action_count: 0,
                is_reusable: false,
            },
        }
    } else {
        TableEntry { actions: 0, action_count: 0, is_reusable: false }
    }
}

/// The parse action at an index of the action table, if it holds one.
pub open spec fn spec_action_at(l: &TSLanguage, index: int) -> Option<TSParseAction> {
    if 0 <= index < l.parse_actions@.len() {
        match l.parse_actions@[index] {
            TSParseActionEntry::Action(a) => Some(a),
            TSParseActionEntry::Entry(_) => None,
        }
    } else {
        None
    }
}

fn action_at(self_0: &TSLanguage, index: u64) -> (a: Option<TSParseAction>)
    ensures
        a == spec_action_at(self_0, index as int),
{
    if index < self_0.parse_actions.len() as u64 {
        match self_0.parse_actions[index as usize] {
            TSParseActionEntry::Action(a) => Some(a),
            TSParseActionEntry::Entry(_) => None,
        }
    } else {
        None
    }
}

/// The actions for a state and a symbol: the index of the first one, with
/// their number written to `count`.
pub fn ts_language_actions(self_0: &TSLanguage, state: u16, symbol: u16, count: &mut u32) -> (start: u32)
    ensures
        start == spec_table_entry(self_0, state, symbol).actions,
        *final(count) == spec_table_entry(self_0, state, symbol).action_count,
{
    let entry = ts_language_table_entry(self_0, state, symbol);
    *count = entry.action_count;
    entry.actions
}

/// Whether there is any action for a state and a symbol.
pub fn ts_language_has_actions(self_0: &TSLanguage, state: u16, symbol: u16) -> (r: bool)
    ensures
        r == (spec_table_entry(self_0, state, symbol).action_count > 0),
{
    let entry = ts_language_table_entry(self_0, state, symbol);
    entry.action_count > 0
}

pub open spec fn spec_has_reduce_action(l: &TSLanguage, state: u16, symbol: u16) -> bool {
    let e = spec_table_entry(l, state, symbol);
    e.action_count > 0 && match spec_action_at(l, e.actions as int) {
        Some(a) => a.type_0 == TS_PARSE_ACTION_TYPE_REDUCE,
        None => false,
    }
}

/// Whether the first action for a state and a symbol is a reduction.
pub fn ts_language_has_reduce_action(self_0: &TSLanguage, state: u16, symbol: u16) -> (r: bool)
    ensures
        r == spec_has_reduce_action(self_0, state, symbol),
{
    let entry = ts_language_table_entry(self_0, state, symbol);
    if entry.action_count > 0 {
        match action_at(self_0, entry.actions as u64) {
            Some(a) => a.type_0 == TS_PARSE_ACTION_TYPE_REDUCE,
            None => false,
        }
    } else {
        false
    }
}

pub open spec fn spec_next_state(l: &TSLanguage, state: u16, symbol: u16) -> u16 {
    if symbol == TS_BUILTIN_SYM_ERROR || symbol == TS_BUILTIN_SYM_ERROR_REPEAT {
        0
    } else if (symbol as u32) < l.token_count {
        let e = spec_table_entry(l, state, symbol);
        if e.action_count > 0 {
            match spec_action_at(l, e.actions + e.action_count - 1) {
                Some(a) => if a.type_0 == TS_PARSE_ACTION_TYPE_SHIFT {
                    match a.params {
                        TSParseActionParams::State(p) => if p.extra {
                            state
                        } else {
                            p.state
                        },
                        TSParseActionParams::Symbol(_) => 0,
                    }
                } else {
                    0
                },
                None => 0,
            }
        } else {
            0
        }
    } else {
        spec_lookup(l, state, symbol)
    }
}

/// The state after a symbol: for a token, the target of its last action if that
/// is a shift (the same state for an extra); for a nonterminal, the goto entry.
pub fn ts_language_next_state(self_0: &TSLanguage, state: u16, symbol: u16) -> (r: u16)
    ensures
        r == spec_next_state(self_0, state, symbol),
{
    if symbol == TS_BUILTIN_SYM_ERROR || symbol == TS_BUILTIN_SYM_ERROR_REPEAT {
        0
    } else if (symbol as u32) < self_0.token_count {
        let mut count: u32 = 0;
        let start = ts_language_actions(self_0, state, symbol, &mut count);
        if count > 0 {
            match action_at(self_0, start as u64 + count as u64 - 1) {
                Some(action) => {
                    if action.type_0 == TS_PARSE_ACTION_TYPE_SHIFT {
                        match action.params {
                            TSParseActionParams::State(p) => {
                                if p.extra {
                                    state
                                } else {
                                    p.state
                                }
                            },
                            TSParseActionParams::Symbol(_) => 0,
                        }
                    } else {
                        0
                    }
                },
                None => 0,
            }
        } else {
            0
        }
    } else {
        ts_language_lookup(self_0, state, symbol)
    }
}

/// The start of the alias row of a production in `alias_sequences`; production 0 has none.
pub open spec fn spec_alias_sequence(l: &TSLanguage, production_id: u32) -> Option<u32> {
    if production_id > 0 {
        Some(wmul_u32(production_id, l.max_alias_sequence_length as u32))
    } else {
        None
    }
}

pub fn ts_language_alias_sequence(self_0: &TSLanguage, production_id: u32) -> (r: Option<u32>)
    ensures
        r == spec_alias_sequence(self_0, production_id),
{
    if production_id > 0 {
        Some(production_id.wrapping_mul(self_0.max_alias_sequence_length as u32))
    } else {
        None
    }
}

/// The alias of the `index`-th structural child of a production, 0 for none.
pub open spec fn spec_alias_at(l: &TSLanguage, production_id: u32, index: u32) -> u16 {
    match spec_alias_sequence(l, production_id) {
        Some(start) => if start + index < l.alias_sequences@.len() {
            l.alias_sequences@[start + index]
        } else {
            0
        },
        None => 0,
    }
}

pub fn ts_language_alias_at(self_0: &TSLanguage, production_id: u32, index: u32) -> (r: u16)
    ensures
        r == spec_alias_at(self_0, production_id, index),
{
    match ts_language_alias_sequence(self_0, production_id) {
        Some(start) => {
            if (start as u64 + index as u64) < self_0.alias_sequences.len() as u64 {
                self_0.alias_sequences[(start as u64 + index as u64) as usize]
            } else {
                0
            }
        },
        None => 0,
    }
}

/// The field entries of a production, as a range of `field_map_entries`
/// (empty for languages without fields).
pub open spec fn spec_field_map(l: &TSLanguage, production_id: u32) -> (u32, u32) {
    if l.version < 10 || l.field_count == 0 {
        (0, 0)
    } else if production_id < l.field_map_slices@.len() {
        let slice = l.field_map_slices@[production_id as int];
        (slice.index as u32, (slice.index + slice.length) as u32)
    } else {
        (0, 0)
    }
}

pub fn ts_language_field_map(self_0: &TSLanguage, production_id: u32) -> (r: (u32, u32))
    ensures
        r == spec_field_map(self_0, production_id),
{
    if self_0.version < 10 || self_0.field_count == 0 {
        return (0, 0);
    }
    if (production_id as usize) < self_0.field_map_slices.len() {
        let slice = self_0.field_map_slices[production_id as usize];
        (slice.index as u32, slice.index as u32 + slice.length as u32)
    } else {
        (0, 0)
    }
}

/// The field entry at an index of the field map, if there is one.
pub open spec fn spec_field_entry(l: &TSLanguage, index: int) -> Option<TSFieldMapEntry> {
    if 0 <= index < l.field_map_entries@.len() {
        Some(l.field_map_entries@[index])
    } else {
        None
    }
}

/// The start of the row of valid external tokens for an external lex state;
/// state 0 enables none.
pub fn ts_language_enabled_external_tokens(self_0: &TSLanguage, external_scanner_state: u32) -> (r:
    Option<u32>)
    ensures
        r == (if external_scanner_state == 0 {
            None
        } else {
            Some(wmul_u32(self_0.external_token_count, external_scanner_state))
        }),
{
    if external_scanner_state == 0 {
        None
    } else {
        Some(self_0.external_token_count.wrapping_mul(external_scanner_state))
    }
}

/// Whether a set already holds a reduction of the same symbol over the same count.
pub open spec fn reduce_set_has(s: Seq<ReduceAction>, a: ReduceAction) -> bool {
    exists|i: int| 0 <= i < s.len() && s[i].symbol == a.symbol && s[i].count == a.count
}

/// No two reductions of a set reduce the same symbol over the same count.
pub open spec fn reduce_set_distinct(s: Seq<ReduceAction>) -> bool {
    forall|i: int, j: int|
        0 <= i < j < s.len() ==> !(s[i].symbol == s[j].symbol && s[i].count == s[j].count)
}

/// Adds a reduction unless one of the same symbol and count is present.
pub fn ts_reduce_action_set_add(self_0: &mut ReduceActionSet, new_action: ReduceAction)
    requires
        old(self_0).wf(),
        old(self_0).contents@.len() < u32::MAX,
    ensures
        final(self_0).wf(),
        final(self_0).contents@ == (if reduce_set_has(old(self_0).contents@, new_action) {
            old(self_0).contents@
        } else {
            old(self_0).contents@.push(new_action)
        }),
{
    let mut i: usize = 0;
    while i < self_0.contents.len()
        invariant
            i <= self_0.contents@.len(),
            self_0.wf(),
            self_0.contents@ == old(self_0).contents@,
            forall|k: int|
                0 <= k < i ==> !(self_0.contents@[k].symbol == new_action.symbol
                    && self_0.contents@[k].count == new_action.count),
        decreases self_0.contents@.len() - i,
    {
        let action = self_0.contents[i];
        if action.symbol == new_action.symbol && action.count == new_action.count {
            return;
        }
        i = i + 1;
    }
    array_push(self_0, new_action);
}

/// Adding to a set of distinct reductions keeps them distinct and makes the set
/// hold the new one; adding it again changes nothing.
pub proof fn lemma_reduce_set_add(s: Seq<ReduceAction>, a: ReduceAction)
    requires
        reduce_set_distinct(s),
    ensures
        ({
            let t = if reduce_set_has(s, a) { s } else { s.push(a) };
            &&& reduce_set_distinct(t)
            &&& reduce_set_has(t, a)
            &&& (if reduce_set_has(t, a) { t } else { t.push(a) }) == t
        }),
{
    if !reduce_set_has(s, a) {
        let t = s.push(a);
        assert(t[s.len() as int] == a);
    }
}

} // verus!
