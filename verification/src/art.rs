//! Finding the hook points of the Android runtime in `libart.so`.
use crate::arm64::wrap64;
use crate::codescan::{
    clinit_addresses, code_is_whole, execute_by_string, find_execute_by_interpreting_string,
    is_clinit_hit, is_first_clinit, law_branch_scan_is_exact, law_first_branch_comes_first,
    try_clinit_scan, BranchError, ExecuteError, ExecuteNote,
};
use crate::elf::{
    elf_of, find_pattern_uaddrs, is_first_place, is_hit, law_first_place_comes_first,
    law_pattern_search_is_exact, parse_elf, pattern_addresses,
    pattern_hits, symbol_texts, ElfImage, ElfText, SearchError, Segment, Symbol, SymbolText,
};
use crate::text::{
    chars_of, contains, contains_text, hex_text, push_hex, same_text,
};
use vstd::prelude::*;
use vstd::string::StringExecFns;

verus! {

/// Where the fields that a probe reads stand in the runtime's structures.
#[derive(Clone, Copy, Debug, PartialEq, Eq, Structural)]
pub struct ArtRuntimeLayout {
    pub shadow_frame_method_offset: u32,
    pub art_method_declaring_class_offset: u32,
    pub art_method_dex_method_index_offset: u32,
    pub art_method_data_offset: u32,
    pub class_dex_cache_offset: u32,
    pub dex_cache_dex_file_offset: u32,
    pub dex_file_begin_offset: u32,
    pub dex_header_file_size_offset: u32,
    pub code_item_insns_size_offset: u32,
    pub code_item_insns_offset: u32,
}

/// The compact 64-bit layout that Android has from version 13 on.
pub open spec fn android_13_plus() -> ArtRuntimeLayout {
    ArtRuntimeLayout {
        shadow_frame_method_offset: 0x08,
        art_method_declaring_class_offset: 0x00,
        art_method_dex_method_index_offset: 0x08,
        art_method_data_offset: 0x10,
        class_dex_cache_offset: 0x10,
        dex_cache_dex_file_offset: 0x10,
        dex_file_begin_offset: 0x08,
        dex_header_file_size_offset: 0x20,
        code_item_insns_size_offset: 0x0c,
        code_item_insns_offset: 0x10,
    }
}

impl ArtRuntimeLayout {
    /// The compact 64-bit layout that Android has from version 13 on.
    pub fn android_13_plus_default() -> (r: Self)
        ensures
            r == android_13_plus(),
    {
        ArtRuntimeLayout {
            shadow_frame_method_offset: 0x08,
            art_method_declaring_class_offset: 0x00,
            art_method_dex_method_index_offset: 0x08,
            art_method_data_offset: 0x10,
            class_dex_cache_offset: 0x10,
            dex_cache_dex_file_offset: 0x10,
            dex_file_begin_offset: 0x08,
            dex_header_file_size_offset: 0x20,
            code_item_insns_size_offset: 0x0c,
            code_item_insns_offset: 0x10,
        }
    }

    /// The layout in one line.
    pub open spec fn text(self) -> Seq<char> {
        "ShadowFrame.method=0x"@ + hex_text(self.shadow_frame_method_offset as nat)
            + ", ArtMethod.declaring_class=0x"@ + hex_text(
            self.art_method_declaring_class_offset as nat,
        ) + ", ArtMethod.dex_method_index=0x"@ + hex_text(
            self.art_method_dex_method_index_offset as nat,
        ) + ", ArtMethod.data=0x"@ + hex_text(self.art_method_data_offset as nat)
            + ", Class.dex_cache=0x"@ + hex_text(self.class_dex_cache_offset as nat)
            + ", DexCache.dex_file=0x"@ + hex_text(self.dex_cache_dex_file_offset as nat)
            + ", DexFile.begin=0x"@ + hex_text(self.dex_file_begin_offset as nat)
            + ", DexHeader.file_size=0x"@ + hex_text(self.dex_header_file_size_offset as nat)
            + ", CodeItem.insns_size=0x"@ + hex_text(self.code_item_insns_size_offset as nat)
            + ", CodeItem.insns=0x"@ + hex_text(self.code_item_insns_offset as nat)
    }

    /// The layout in one line.
    pub fn summary(&self) -> (r: String)
        ensures
            r@ == self.text(),
    {
        let mut r: String = "ShadowFrame.method=0x".to_owned();
        push_hex(&mut r, self.shadow_frame_method_offset as u64);
        r.append(", ArtMethod.declaring_class=0x");
        push_hex(&mut r, self.art_method_declaring_class_offset as u64);
        r.append(", ArtMethod.dex_method_index=0x");
        push_hex(&mut r, self.art_method_dex_method_index_offset as u64);
        r.append(", ArtMethod.data=0x");
        push_hex(&mut r, self.art_method_data_offset as u64);
        r.append(", Class.dex_cache=0x");
        push_hex(&mut r, self.class_dex_cache_offset as u64);
        r.append(", DexCache.dex_file=0x");
        push_hex(&mut r, self.dex_cache_dex_file_offset as u64);
        r.append(", DexFile.begin=0x");
        push_hex(&mut r, self.dex_file_begin_offset as u64);
        r.append(", DexHeader.file_size=0x");
        push_hex(&mut r, self.dex_header_file_size_offset as u64);
        r.append(", CodeItem.insns_size=0x");
        push_hex(&mut r, self.code_item_insns_size_offset as u64);
        r.append(", CodeItem.insns=0x");
        push_hex(&mut r, self.code_item_insns_offset as u64);
        r
    }
}

/// How a hook point was found.
#[derive(Clone, Copy, Debug, PartialEq, Eq, Structural)]
pub enum TargetSource {
    Manual,
    Symbol,
    Pattern,
    StringRef,
}

impl TargetSource {
    /// The name of the source.
    pub open spec fn text(self) -> Seq<char> {
        match self {
            TargetSource::Manual => "manual"@,
            TargetSource::Symbol => "symbol"@,
            TargetSource::Pattern => "pattern"@,
            TargetSource::StringRef => "string-ref"@,
        }
    }

    /// The name of the source.
    pub fn label(&self) -> (r: &'static str)
        ensures
            r@ == self.text(),
    {
        match self {
            TargetSource::Manual => "manual",
            TargetSource::Symbol => "symbol",
            TargetSource::Pattern => "pattern",
            TargetSource::StringRef => "string-ref",
        }
    }
}

/// A hook point.
#[derive(Clone, Copy, Debug, PartialEq, Eq, Structural)]
pub struct ResolvedTarget {
    pub addr: u64,
    pub source: TargetSource,
}

impl ResolvedTarget {
    /// A hook point at an address.
    pub fn new(addr: u64, source: TargetSource) -> (r: Self)
        ensures
            r == (ResolvedTarget { addr, source }),
    {
        ResolvedTarget { addr, source }
    }
}

/// The hook points that were found.
#[derive(Clone, Debug, PartialEq, Eq)]
pub struct ArtHookTargets {
    pub execute: Option<ResolvedTarget>,
    pub execute_nterp: Option<ResolvedTarget>,
    pub execute_nterp_with_clinit: Option<ResolvedTarget>,
    pub verify_class: Option<ResolvedTarget>,
    pub nterp_invoke_addrs: Vec<ResolvedTarget>,
}

/// What hook points there are.
pub struct TargetsText {
    pub execute: Option<ResolvedTarget>,
    pub execute_nterp: Option<ResolvedTarget>,
    pub execute_nterp_with_clinit: Option<ResolvedTarget>,
    pub verify_class: Option<ResolvedTarget>,
    pub nterp_invoke_addrs: Seq<ResolvedTarget>,
}

impl View for ArtHookTargets {
    type V = TargetsText;

    open spec fn view(&self) -> TargetsText {
        TargetsText {
            execute: self.execute,
            execute_nterp: self.execute_nterp,
            execute_nterp_with_clinit: self.execute_nterp_with_clinit,
            verify_class: self.verify_class,
            nterp_invoke_addrs: self.nterp_invoke_addrs@,
        }
    }
}

impl TargetsText {
    /// One of the functions that run a method was found.
    pub open spec fn has_main_entry(self) -> bool {
        self.execute is Some || self.execute_nterp is Some || self.execute_nterp_with_clinit is Some
    }
}

/// No hook points.
pub open spec fn no_targets() -> TargetsText {
    TargetsText {
        execute: None,
        execute_nterp: None,
        execute_nterp_with_clinit: None,
        verify_class: None,
        nterp_invoke_addrs: seq![],
    }
}

impl Default for ArtHookTargets {
    fn default() -> (r: Self)
        ensures
            r@ == no_targets(),
    {
        let r = ArtHookTargets {
            execute: None,
            execute_nterp: None,
            execute_nterp_with_clinit: None,
            verify_class: None,
            nterp_invoke_addrs: Vec::new(),
        };
        assert(r@.nterp_invoke_addrs =~= no_targets().nterp_invoke_addrs);
        r
    }
}

impl ArtHookTargets {
    /// Whether one of the functions that run a method was found.
    pub fn has_main_entry(&self) -> (r: bool)
        ensures
            r == self@.has_main_entry(),
    {
        self.execute.is_some() || self.execute_nterp.is_some()
            || self.execute_nterp_with_clinit.is_some()
    }
}

/// The layout for a runtime library. Every supported version has the same one.
pub fn resolve_runtime_layout(_libart_path: &str) -> (r: Result<ArtRuntimeLayout, ArtError>)
    ensures
        r == Ok::<ArtRuntimeLayout, ArtError>(android_13_plus()),
{
    Ok(ArtRuntimeLayout::android_13_plus_default())
}

/// Why the hook points could not be determined.
#[derive(Clone, Debug, PartialEq, Eq)]
pub enum ArtError {
    /// The library is no ELF file, with the reason.
    InvalidElf(String),
    /// None of the functions that run a method was found.
    NoMainEntry,
    /// A branch scan would run past the end of a code segment.
    CodeOverrun,
}

// ---------------------------------------------------------------------------
// Symbols
// ---------------------------------------------------------------------------

/// The mangled name of `art::interpreter::Execute`.
pub open spec fn is_execute_name(name: Seq<char>) -> bool {
    contains_text(name, "3art"@) && contains_text(name, "11interpreter"@) && contains_text(
        name,
        "7Execute"@,
    )
}

/// The mangled name of `art::verifier::ClassVerifier::VerifyClass`.
pub open spec fn is_verify_class_name(name: Seq<char>) -> bool {
    contains_text(name, "3art"@) && contains_text(name, "8verifier"@) && contains_text(
        name,
        "13ClassVerifier"@,
    ) && contains_text(name, "11VerifyClass"@)
}

/// The name of a function that can be hooked.
pub open spec fn is_target_name(name: Seq<char>) -> bool {
    is_execute_name(name) || name == "ExecuteNterpImpl"@ || name == "ExecuteNterpWithClinitImpl"@
        || is_verify_class_name(name)
}

fn has_parts(name: &[char], a: &str, b: &str, c: &str) -> (r: bool)
    ensures
        r == (contains_text(name@, a@) && contains_text(name@, b@) && contains_text(name@, c@)),
{
    contains(name, chars_of(a).as_slice()) && contains(name, chars_of(b).as_slice()) && contains(
        name,
        chars_of(c).as_slice(),
    )
}

fn execute_name(name: &[char]) -> (r: bool)
    ensures
        r == is_execute_name(name@),
{
    has_parts(name, "3art", "11interpreter", "7Execute")
}

fn verify_class_name(name: &[char]) -> (r: bool)
    ensures
        r == is_verify_class_name(name@),
{
    has_parts(name, "3art", "8verifier", "13ClassVerifier") && contains(
        name,
        chars_of("11VerifyClass").as_slice(),
    )
}

/// Whether a function of this name can be hooked.
pub fn is_target_art_symbol(name: &str) -> (r: bool)
    ensures
        r == is_target_name(name@),
{
    let chars = chars_of(name);
    let s = chars.as_slice();
    execute_name(s) || same_text(s, chars_of("ExecuteNterpImpl").as_slice()) || same_text(
        s,
        chars_of("ExecuteNterpWithClinitImpl").as_slice(),
    ) || verify_class_name(s)
}

/// Where a name stands in a table.
pub open spec fn name_position(table: Seq<(Seq<char>, u64)>, name: Seq<char>) -> Option<int>
    decreases table.len(),
{
    if table.len() == 0 {
        None
    } else if table.last().0 == name {
        Some(table.len() - 1)
    } else {
        name_position(table.drop_last(), name)
    }
}

/// The table with a value for a name: a name that is there keeps its place.
pub open spec fn with_symbol(table: Seq<(Seq<char>, u64)>, name: Seq<char>, value: u64) -> Seq<
    (Seq<char>, u64),
> {
    match name_position(table, name) {
        Some(i) => table.update(i, (name, value)),
        None => table.push((name, value)),
    }
}

/// The table with the symbols that can be hooked. A symbol without a value or without a
/// name adds nothing.
pub open spec fn with_symbols(table: Seq<(Seq<char>, u64)>, symbols: Seq<SymbolText>) -> Seq<
    (Seq<char>, u64),
>
    decreases symbols.len(),
{
    if symbols.len() == 0 {
        table
    } else {
        let before = with_symbols(table, symbols.drop_last());
        match symbols.last().name {
            Some(name) => if symbols.last().value != 0 && is_target_name(name) {
                with_symbol(before, name, symbols.last().value)
            } else {
                before
            },
            None => before,
        }
    }
}

/// The names that can be hooked, with their values: those of the symbol table, then
/// those of the dynamic one, where the last value of a name counts.
pub open spec fn symbol_table(image: ElfText) -> Seq<(Seq<char>, u64)> {
    with_symbols(with_symbols(seq![], image.symbols), image.dynamic_symbols)
}

/// The names and values of a table.
pub open spec fn entry_texts(table: Seq<(String, u64)>) -> Seq<(Seq<char>, u64)> {
    table.map_values(|e: (String, u64)| (e.0@, e.1))
}

fn add_symbol(table: &mut Vec<(String, u64)>, name: &String, value: u64)
    ensures
        entry_texts(final(table)@) == with_symbol(entry_texts(old(table)@), name@, value),
{
    let ghost before = entry_texts(table@);
    let mut i: usize = table.len();
    assert(before.take(i as int) =~= before);
    while i > 0
        invariant
            i <= table.len(),
            before == entry_texts(table@),
            before == entry_texts(old(table)@),
            name_position(before, name@) == name_position(before.take(i as int), name@),
        decreases i,
    {
        i -= 1;
        assert(before.take(i + 1).drop_last() =~= before.take(i as int));
        if table[i].0 == *name {
            let key = name.as_str().to_owned();
            table.set(i, (key, value));
            assert(entry_texts(table@) =~= before.update(i as int, (name@, value)));
            return;
        }
    }
    let key = name.as_str().to_owned();
    table.push((key, value));
    assert(entry_texts(table@) =~= before.push((name@, value)));
}

fn add_symbols(table: &mut Vec<(String, u64)>, symbols: &Vec<Symbol>)
    ensures
        entry_texts(final(table)@) == with_symbols(
            entry_texts(old(table)@),
            symbol_texts(symbols@),
        ),
{
    let ghost before = entry_texts(table@);
    let ghost all = symbol_texts(symbols@);
    for i in 0..symbols.len()
        invariant
            all == symbol_texts(symbols@),
            before == entry_texts(old(table)@),
            entry_texts(table@) == with_symbols(before, all.take(i as int)),
    {
        assert(all.take(i + 1).drop_last() =~= all.take(i as int));
        assert(all.take(i + 1).last() == symbols@[i as int]@);
        if symbols[i].value != 0 {
            if let Some(name) = &symbols[i].name {
                if is_target_art_symbol(name.as_str()) {
                    add_symbol(table, name, symbols[i].value);
                }
            }
        }
    }
    assert(all.take(all.len() as int) =~= all);
}

/// The symbols that can be hooked, each name once.
pub fn parse_libart_symbols(image: &ElfImage) -> (r: Vec<(String, u64)>)
    ensures
        entry_texts(r@) == symbol_table(image@),
{
    let mut table: Vec<(String, u64)> = Vec::new();
    assert(entry_texts(table@) =~= Seq::<(Seq<char>, u64)>::empty());
    add_symbols(&mut table, &image.symbols);
    add_symbols(&mut table, &image.dynamic_symbols);
    table
}

/// The value that a table gives a name.
pub open spec fn value_in(table: Seq<(Seq<char>, u64)>, name: Seq<char>) -> Option<u64> {
    match name_position(table, name) {
        Some(i) => Some(table[i].1),
        None => None,
    }
}

/// Every name of the table stands in it once.
pub open spec fn names_are_distinct(table: Seq<(Seq<char>, u64)>) -> bool {
    forall|i: int, j: int|
        0 <= i < j < table.len() ==> (#[trigger] table[i]).0 != (#[trigger] table[j]).0
}

proof fn lemma_name_position(table: Seq<(Seq<char>, u64)>, name: Seq<char>)
    ensures
        match name_position(table, name) {
            Some(i) => 0 <= i < table.len() && table[i].0 == name,
            None => forall|i: int| 0 <= i < table.len() ==> (#[trigger] table[i]).0 != name,
        },
    decreases table.len(),
{
    if table.len() > 0 {
        lemma_name_position(table.drop_last(), name);
        assert forall|i: int|
            0 <= i < table.len() && name_position(table, name) is None implies (
        #[trigger] table[i]).0 != name by {
            if i < table.len() - 1 {
                assert(table.drop_last()[i].0 != name);
            }
        }
    }
}

/// Giving a name a value keeps the names distinct, gives that name that value and
/// leaves the values of the others.
pub proof fn law_symbol_is_kept(table: Seq<(Seq<char>, u64)>, name: Seq<char>, value: u64, other: Seq<char>)
    requires
        names_are_distinct(table),
    ensures
        names_are_distinct(with_symbol(table, name, value)),
        value_in(with_symbol(table, name, value), name) == Some(value),
        other != name ==> value_in(with_symbol(table, name, value), other) == value_in(table, other),
{
    let after = with_symbol(table, name, value);
    lemma_name_position(table, name);
    lemma_name_position(after, name);
    lemma_name_position(table, other);
    lemma_name_position(after, other);
    match name_position(table, name) {
        Some(i) => {
            assert(after[i] == (name, value));
        },
        None => {
            assert(after.last() == (name, value));
        },
    }
    if other != name {
        match name_position(table, other) {
            Some(i) => {
                assert(after[i] == table[i]);
            },
            None => {
                assert forall|i: int| 0 <= i < after.len() implies (#[trigger] after[i]).0 != other by {
                    if i < table.len() {
                        assert(table[i].0 != other);
                    }
                }
            },
        }
    }
}

// ---------------------------------------------------------------------------
// Code patterns
// ---------------------------------------------------------------------------

/// How the invoke handlers of the nterp interpreter load and compare a method.
pub const NTERP_OP_INVOKE_SIG: [u8; 8] = [0x03, 0x0c, 0x40, 0xf9, 0x5f, 0x00, 0x03, 0xeb];

/// How `ExecuteNterpImpl` starts.
pub const EXECUTE_NTERP_IMPL_SIG: [u8; 56] = [
    0xf0, 0x0b, 0x40, 0xd1, 0x1f, 0x02, 0x40, 0xb9, 0xff, 0x83, 0x02, 0xd1, 0xe8, 0x27, 0x00, 0x6d,
    0xea, 0x2f, 0x01, 0x6d, 0xec, 0x37, 0x02, 0x6d, 0xee, 0x3f, 0x03, 0x6d, 0xf3, 0x53, 0x04, 0xa9,
    0xf5, 0x5b, 0x05, 0xa9, 0xf7, 0x63, 0x06, 0xa9, 0xf9, 0x6b, 0x07, 0xa9, 0xfb, 0x73, 0x08, 0xa9,
    0xfd, 0x7b, 0x09, 0xa9, 0x16, 0x08, 0x40, 0xf9,
];

/// How `ExecuteNterpWithClinitImpl` starts.
pub const EXECUTE_NTERP_WITH_CLINIT_SIG: [u8; 12] = [
    0x08, 0x00, 0x40, 0xb9, 0x09, 0x81, 0x40, 0x39, 0x3f, 0x05, 0x00, 0x71,
];

// ---------------------------------------------------------------------------
// The search
// ---------------------------------------------------------------------------

/// A search that is reported on.
#[derive(Clone, Copy, Debug, PartialEq, Eq, Structural)]
pub enum Site {
    NterpSignature,
    ClinitBranch,
    ClinitSignature,
}

/// Why a search that is reported on came to nothing.
#[derive(Clone, Copy, Debug, PartialEq, Eq, Structural)]
pub enum SiteError {
    Search(SearchError),
    Branch(BranchError),
}

/// What there is to report of the search for hook points.
#[derive(Clone, Copy, Debug, PartialEq, Eq, Structural)]
pub enum ArtNote {
    Execute(ExecuteNote),
    ExecuteFound(u64),
    ExecuteMissing(ExecuteError),
    Matched { site: Site, count: usize, addr: u64 },
    NotMatched { site: Site, error: SiteError },
    InvokeMissing(SearchError),
    VerifyClassMissing,
}

/// The hook points so far, and what there is to report.
pub struct Findings {
    pub targets: TargetsText,
    pub notes: Seq<ArtNote>,
}

/// A hook point that was given by hand.
pub open spec fn manual_target(addr: Option<u64>) -> Option<ResolvedTarget> {
    match addr {
        Some(addr) => Some(ResolvedTarget { addr, source: TargetSource::Manual }),
        None => None,
    }
}

/// Takes a symbol for the first hook point that is still missing and that its name fits.
pub open spec fn with_named(t: TargetsText, name: Seq<char>, value: u64) -> TargetsText {
    let target = Some(ResolvedTarget { addr: value, source: TargetSource::Symbol });
    if t.execute is None && is_execute_name(name) {
        TargetsText { execute: target, ..t }
    } else if t.execute_nterp is None && name == "ExecuteNterpImpl"@ {
        TargetsText { execute_nterp: target, ..t }
    } else if t.execute_nterp_with_clinit is None && name == "ExecuteNterpWithClinitImpl"@ {
        TargetsText { execute_nterp_with_clinit: target, ..t }
    } else if t.verify_class is None && is_verify_class_name(name) {
        TargetsText { verify_class: target, ..t }
    } else {
        t
    }
}

/// Takes the symbols of a table, one after the other.
pub open spec fn with_all_named(t: TargetsText, table: Seq<(Seq<char>, u64)>) -> TargetsText
    decreases table.len(),
{
    if table.len() == 0 {
        t
    } else {
        with_named(with_all_named(t, table.drop_last()), table.last().0, table.last().1)
    }
}

/// The hook points that are given by hand or named by symbols.
pub open spec fn named_targets(
    image: ElfText,
    manual_execute: Option<u64>,
    manual_nterp: Option<u64>,
) -> TargetsText {
    with_all_named(
        TargetsText {
            execute: manual_target(manual_execute),
            execute_nterp: manual_target(manual_nterp),
            ..no_targets()
        },
        symbol_table(image),
    )
}

/// Looks for `Execute` by its string where it is missing.
pub open spec fn with_execute(f: Findings, image: ElfText, bytes: Seq<u8>) -> Findings {
    if f.targets.execute is Some {
        f
    } else {
        let (outcome, notes) = execute_by_string(image.segments, bytes);
        let seen = f.notes + notes.map_values(|n: ExecuteNote| ArtNote::Execute(n));
        match outcome {
            Ok(addr) => Findings {
                targets: TargetsText {
                    execute: Some(ResolvedTarget { addr, source: TargetSource::StringRef }),
                    ..f.targets
                },
                notes: seen.push(ArtNote::ExecuteFound(addr)),
            },
            Err(e) => Findings { notes: seen.push(ArtNote::ExecuteMissing(e)), ..f },
        }
    }
}

/// Looks for `ExecuteNterpImpl` by its code where it is missing, and takes the first
/// match.
pub open spec fn with_nterp(f: Findings, image: ElfText, bytes: Seq<u8>) -> Findings {
    if f.targets.execute_nterp is Some {
        f
    } else {
        match pattern_addresses(image.segments, bytes, EXECUTE_NTERP_IMPL_SIG@) {
            Ok(found) => Findings {
                targets: TargetsText {
                    execute_nterp: Some(
                        ResolvedTarget { addr: found[0], source: TargetSource::Pattern },
                    ),
                    ..f.targets
                },
                notes: f.notes.push(
                    ArtNote::Matched {
                        site: Site::NterpSignature,
                        count: found.len() as usize,
                        addr: found[0],
                    },
                ),
            },
            Err(e) => Findings {
                notes: f.notes.push(
                    ArtNote::NotMatched { site: Site::NterpSignature, error: SiteError::Search(e) },
                ),
                ..f
            },
        }
    }
}

/// The findings with a match of `ExecuteNterpWithClinitImpl`.
pub open spec fn clinit_found(f: Findings, site: Site, found: Seq<u64>) -> Findings {
    Findings {
        targets: TargetsText {
            execute_nterp_with_clinit: Some(
                ResolvedTarget { addr: found[0], source: TargetSource::Pattern },
            ),
            ..f.targets
        },
        notes: f.notes.push(
            ArtNote::Matched { site, count: found.len() as usize, addr: found[0] },
        ),
    }
}

/// Looks for `ExecuteNterpWithClinitImpl` by its code.
pub open spec fn with_clinit_signature(f: Findings, image: ElfText, bytes: Seq<u8>) -> Findings {
    match pattern_addresses(image.segments, bytes, EXECUTE_NTERP_WITH_CLINIT_SIG@) {
        Ok(found) => clinit_found(f, Site::ClinitSignature, found),
        Err(e) => Findings {
            notes: f.notes.push(
                ArtNote::NotMatched { site: Site::ClinitSignature, error: SiteError::Search(e) },
            ),
            ..f
        },
    }
}

/// Looks for `ExecuteNterpWithClinitImpl` where it is missing: by its branch where
/// `ExecuteNterpImpl` is known, and by its code otherwise. There is no answer where the
/// branch scan has none.
pub open spec fn with_clinit(f: Findings, image: ElfText, bytes: Seq<u8>) -> Option<Findings> {
    if f.targets.execute_nterp_with_clinit is Some {
        Some(f)
    } else {
        match f.targets.execute_nterp {
            None => Some(with_clinit_signature(f, image, bytes)),
            Some(nterp) => match clinit_addresses(image.segments, bytes, nterp.addr) {
                None => None,
                Some(Ok(found)) => Some(clinit_found(f, Site::ClinitBranch, found)),
                Some(Err(e)) => Some(
                    with_clinit_signature(
                        Findings {
                            notes: f.notes.push(
                                ArtNote::NotMatched {
                                    site: Site::ClinitBranch,
                                    error: SiteError::Branch(e),
                                },
                            ),
                            ..f
                        },
                        image,
                        bytes,
                    ),
                ),
            },
        }
    }
}

/// Hook points found by a pattern.
pub open spec fn pattern_targets(found: Seq<u64>) -> Seq<ResolvedTarget> {
    found.map_values(|addr: u64| ResolvedTarget { addr, source: TargetSource::Pattern })
}

/// Looks for the invoke handlers.
pub open spec fn with_invokes(f: Findings, image: ElfText, bytes: Seq<u8>) -> Findings {
    match pattern_addresses(image.segments, bytes, NTERP_OP_INVOKE_SIG@) {
        Ok(found) => Findings {
            targets: TargetsText { nterp_invoke_addrs: pattern_targets(found), ..f.targets },
            ..f
        },
        Err(e) => Findings { notes: f.notes.push(ArtNote::InvokeMissing(e)), ..f },
    }
}

/// Reports a missing `VerifyClass`, where the search succeeded otherwise.
pub open spec fn with_verify_note(f: Findings) -> Findings {
    if f.targets.has_main_entry() && f.targets.verify_class is None {
        Findings { notes: f.notes.push(ArtNote::VerifyClassMissing), ..f }
    } else {
        f
    }
}

/// All that the search for hook points finds. There is no answer where the branch scan
/// has none.
pub open spec fn art_findings(
    image: ElfText,
    bytes: Seq<u8>,
    manual_execute: Option<u64>,
    manual_nterp: Option<u64>,
) -> Option<Findings> {
    let named = Findings {
        targets: named_targets(image, manual_execute, manual_nterp),
        notes: seq![],
    };
    match with_clinit(
        with_nterp(with_execute(named, image, bytes), image, bytes),
        image,
        bytes,
    ) {
        None => None,
        Some(f) => Some(with_verify_note(with_invokes(f, image, bytes))),
    }
}

/// What the search for hook points came to. The notes are there either way.
#[derive(Debug, PartialEq, Eq)]
pub struct ArtSearch {
    pub outcome: Result<ArtHookTargets, ArtError>,
    pub notes: Vec<ArtNote>,
}

/// The search came to these findings: it succeeds where a function that runs a method
/// was found.
pub open spec fn is_search_of(s: ArtSearch, f: Findings) -> bool {
    &&& s.notes@ == f.notes
    &&& match s.outcome {
        Ok(targets) => f.targets.has_main_entry() && targets@ == f.targets,
        Err(e) => !f.targets.has_main_entry() && e == ArtError::NoMainEntry,
    }
}

fn manual(addr: Option<u64>) -> (r: Option<ResolvedTarget>)
    ensures
        r == manual_target(addr),
{
    match addr {
        Some(addr) => Some(ResolvedTarget::new(addr, TargetSource::Manual)),
        None => None,
    }
}

fn take_named(targets: &mut ArtHookTargets, name: &str, value: u64)
    ensures
        final(targets)@ == with_named(old(targets)@, name@, value),
{
    let chars = chars_of(name);
    let s = chars.as_slice();
    let target = Some(ResolvedTarget::new(value, TargetSource::Symbol));
    if targets.execute.is_none() && execute_name(s) {
        targets.execute = target;
    } else if targets.execute_nterp.is_none() && same_text(
        s,
        chars_of("ExecuteNterpImpl").as_slice(),
    ) {
        targets.execute_nterp = target;
    } else if targets.execute_nterp_with_clinit.is_none() && same_text(
        s,
        chars_of("ExecuteNterpWithClinitImpl").as_slice(),
    ) {
        targets.execute_nterp_with_clinit = target;
    } else if targets.verify_class.is_none() && verify_class_name(s) {
        targets.verify_class = target;
    }
}

fn find_named(image: &ElfImage, manual_execute: Option<u64>, manual_nterp: Option<u64>) -> (r:
    ArtHookTargets)
    ensures
        r@ == named_targets(image@, manual_execute, manual_nterp),
{
    let table = parse_libart_symbols(image);
    let ghost all = entry_texts(table@);
    let mut targets = ArtHookTargets::default();
    targets.execute = manual(manual_execute);
    targets.execute_nterp = manual(manual_nterp);
    let ghost first = targets@;
    for i in 0..table.len()
        invariant
            all == entry_texts(table@),
            targets@ == with_all_named(first, all.take(i as int)),
    {
        assert(all.take(i + 1).drop_last() =~= all.take(i as int));
        take_named(&mut targets, table[i].0.as_str(), table[i].1);
    }
    assert(all.take(all.len() as int) =~= all);
    targets
}

fn find_execute(targets: &mut ArtHookTargets, notes: &mut Vec<ArtNote>, image: &ElfImage, bytes: &[u8])
    ensures
        (Findings { targets: final(targets)@, notes: final(notes)@ }) == with_execute(
            Findings { targets: old(targets)@, notes: old(notes)@ },
            image@,
            bytes@,
        ),
{
    if targets.execute.is_some() {
        return;
    }
    let ghost before = notes@;
    let (outcome, seen) = find_execute_by_interpreting_string(image, bytes);
    let ghost all = seen@.map_values(|n: ExecuteNote| ArtNote::Execute(n));
    for i in 0..seen.len()
        invariant
            all == seen@.map_values(|n: ExecuteNote| ArtNote::Execute(n)),
            notes@ == before + all.take(i as int),
    {
        notes.push(ArtNote::Execute(seen[i]));
        assert(notes@ =~= before + all.take(i + 1));
    }
    assert(all.take(all.len() as int) =~= all);
    match outcome {
        Ok(addr) => {
            targets.execute = Some(ResolvedTarget::new(addr, TargetSource::StringRef));
            notes.push(ArtNote::ExecuteFound(addr));
        },
        Err(e) => {
            notes.push(ArtNote::ExecuteMissing(e));
        },
    }
}

fn find_nterp(targets: &mut ArtHookTargets, notes: &mut Vec<ArtNote>, image: &ElfImage, bytes: &[u8])
    ensures
        (Findings { targets: final(targets)@, notes: final(notes)@ }) == with_nterp(
            Findings { targets: old(targets)@, notes: old(notes)@ },
            image@,
            bytes@,
        ),
{
    if targets.execute_nterp.is_some() {
        return;
    }
    let signature: [u8; 56] = EXECUTE_NTERP_IMPL_SIG;
    match find_pattern_uaddrs(image, bytes, signature.as_slice()) {
        Ok(found) => {
            let addr: u64 = found[0];
            targets.execute_nterp = Some(ResolvedTarget::new(addr, TargetSource::Pattern));
            notes.push(ArtNote::Matched { site: Site::NterpSignature, count: found.len(), addr });
        },
        Err(e) => {
            notes.push(
                ArtNote::NotMatched { site: Site::NterpSignature, error: SiteError::Search(e) },
            );
        },
    }
}

fn take_clinit(targets: &mut ArtHookTargets, notes: &mut Vec<ArtNote>, site: Site, found: &Vec<u64>)
    requires
        found@.len() > 0,
    ensures
        (Findings { targets: final(targets)@, notes: final(notes)@ }) == clinit_found(
            Findings { targets: old(targets)@, notes: old(notes)@ },
            site,
            found@,
        ),
{
    let addr: u64 = found[0];
    targets.execute_nterp_with_clinit = Some(ResolvedTarget::new(addr, TargetSource::Pattern));
    notes.push(ArtNote::Matched { site, count: found.len(), addr });
}

fn find_clinit(targets: &mut ArtHookTargets, notes: &mut Vec<ArtNote>, image: &ElfImage, bytes: &[u8]) -> (r:
    bool)
    ensures
        match with_clinit(
            Findings { targets: old(targets)@, notes: old(notes)@ },
            image@,
            bytes@,
        ) {
            None => !r,
            Some(f) => r && (Findings { targets: final(targets)@, notes: final(notes)@ }) == f,
        },
{
    if targets.execute_nterp_with_clinit.is_some() {
        return true;
    }
    if let Some(nterp) = targets.execute_nterp {
        match try_clinit_scan(image, bytes, nterp.addr) {
            None => return false,
            Some(Ok(found)) => {
                take_clinit(targets, notes, Site::ClinitBranch, &found);
                return true;
            },
            Some(Err(e)) => {
                notes.push(
                    ArtNote::NotMatched { site: Site::ClinitBranch, error: SiteError::Branch(e) },
                );
            },
        }
    }
    let signature: [u8; 12] = EXECUTE_NTERP_WITH_CLINIT_SIG;
    match find_pattern_uaddrs(image, bytes, signature.as_slice()) {
        Ok(found) => take_clinit(targets, notes, Site::ClinitSignature, &found),
        Err(e) => {
            notes.push(
                ArtNote::NotMatched { site: Site::ClinitSignature, error: SiteError::Search(e) },
            );
        },
    }
    true
}

fn find_invokes(targets: &mut ArtHookTargets, notes: &mut Vec<ArtNote>, image: &ElfImage, bytes: &[u8])
    ensures
        (Findings { targets: final(targets)@, notes: final(notes)@ }) == with_invokes(
            Findings { targets: old(targets)@, notes: old(notes)@ },
            image@,
            bytes@,
        ),
{
    let signature: [u8; 8] = NTERP_OP_INVOKE_SIG;
    match find_pattern_uaddrs(image, bytes, signature.as_slice()) {
        Ok(found) => {
            let mut invokes: Vec<ResolvedTarget> = Vec::new();
            for i in 0..found.len()
                invariant
                    invokes@ == pattern_targets(found@.take(i as int)),
            {
                invokes.push(ResolvedTarget::new(found[i], TargetSource::Pattern));
                assert(invokes@ =~= pattern_targets(found@.take(i + 1)));
            }
            assert(found@.take(found@.len() as int) =~= found@);
            targets.nterp_invoke_addrs = invokes;
        },
        Err(e) => {
            notes.push(ArtNote::InvokeMissing(e));
        },
    }
}

/// The search, with no answer where the branch scan has none.
fn try_find(image: &ElfImage, bytes: &[u8], manual_execute: Option<u64>, manual_nterp: Option<u64>) -> (r:
    Option<ArtSearch>)
    ensures
        match art_findings(image@, bytes@, manual_execute, manual_nterp) {
            None => r is None,
            Some(f) => r matches Some(s) && is_search_of(s, f),
        },
{
    let mut targets = find_named(image, manual_execute, manual_nterp);
    let mut notes: Vec<ArtNote> = Vec::new();
    assert(notes@ =~= Seq::<ArtNote>::empty());
    find_execute(&mut targets, &mut notes, image, bytes);
    find_nterp(&mut targets, &mut notes, image, bytes);
    if !find_clinit(&mut targets, &mut notes, image, bytes) {
        return None;
    }
    find_invokes(&mut targets, &mut notes, image, bytes);
    if !targets.has_main_entry() {
        return Some(ArtSearch { outcome: Err(ArtError::NoMainEntry), notes });
    }
    if targets.verify_class.is_none() {
        notes.push(ArtNote::VerifyClassMissing);
    }
    Some(ArtSearch { outcome: Ok(targets), notes })
}

/// Finds the hook points in the segments and symbols of a runtime library. A hook point
/// given by hand is taken as it is. The others are looked up by symbol, and `Execute`,
/// `ExecuteNterpImpl` and `ExecuteNterpWithClinitImpl` also by their code.
pub fn find_art_offsets_in(
    image: &ElfImage,
    bytes: &[u8],
    manual_execute_offset: Option<u64>,
    manual_nterp_offset: Option<u64>,
) -> (r: ArtSearch)
    requires
        art_findings(image@, bytes@, manual_execute_offset, manual_nterp_offset) is Some,
    ensures
        is_search_of(
            r,
            art_findings(image@, bytes@, manual_execute_offset, manual_nterp_offset)->Some_0,
        ),
{
    try_find(image, bytes, manual_execute_offset, manual_nterp_offset).unwrap()
}

/// Finds the hook points in the bytes of a runtime library.
pub fn find_art_offsets(
    bytes: &[u8],
    manual_execute_offset: Option<u64>,
    manual_nterp_offset: Option<u64>,
) -> (r: ArtSearch)
    ensures
        match elf_of(bytes@) {
            Err(text) => r.outcome matches Err(ArtError::InvalidElf(reason)) && reason@ == text
                && r.notes@.len() == 0,
            Ok(image) => match art_findings(
                image,
                bytes@,
                manual_execute_offset,
                manual_nterp_offset,
            ) {
                None => r.outcome == Err::<ArtHookTargets, ArtError>(ArtError::CodeOverrun)
                    && r.notes@.len() == 0,
                Some(f) => is_search_of(r, f),
            },
        },
{
    match parse_elf(bytes) {
        Err(reason) => ArtSearch {
            outcome: Err(ArtError::InvalidElf(reason)),
            notes: Vec::new(),
        },
        Ok(image) => match try_find(&image, bytes, manual_execute_offset, manual_nterp_offset) {
            None => ArtSearch { outcome: Err(ArtError::CodeOverrun), notes: Vec::new() },
            Some(search) => search,
        },
    }
}

/// A hook point that was given by hand is what the search returns for it.
pub proof fn law_manual_targets_win(
    image: ElfText,
    bytes: Seq<u8>,
    manual_execute: Option<u64>,
    manual_nterp: Option<u64>,
)
    ensures
        art_findings(image, bytes, manual_execute, manual_nterp) matches Some(f) ==> {
            &&& manual_execute is Some ==> f.targets.execute == manual_target(manual_execute)
            &&& manual_nterp is Some ==> f.targets.execute_nterp == manual_target(manual_nterp)
            &&& manual_execute is Some || manual_nterp is Some ==> f.targets.has_main_entry()
        },
{
    let t = TargetsText {
        execute: manual_target(manual_execute),
        execute_nterp: manual_target(manual_nterp),
        ..no_targets()
    };
    lemma_named_targets_stay(t, symbol_table(image));
}

proof fn lemma_named_targets_stay(t: TargetsText, table: Seq<(Seq<char>, u64)>)
    ensures
        t.execute is Some ==> with_all_named(t, table).execute == t.execute,
        t.execute_nterp is Some ==> with_all_named(t, table).execute_nterp == t.execute_nterp,
    decreases table.len(),
{
    if table.len() > 0 {
        lemma_named_targets_stay(t, table.drop_last());
    }
}

// ---------------------------------------------------------------------------
// Hook points by symbol
// ---------------------------------------------------------------------------

/// A hook point that a symbol can name.
pub enum Hook {
    Execute,
    Nterp,
    NterpWithClinit,
    VerifyClass,
}

impl Hook {
    /// The hook point among those found.
    pub open spec fn of(self, t: TargetsText) -> Option<ResolvedTarget> {
        match self {
            Hook::Execute => t.execute,
            Hook::Nterp => t.execute_nterp,
            Hook::NterpWithClinit => t.execute_nterp_with_clinit,
            Hook::VerifyClass => t.verify_class,
        }
    }

    /// The name is that of the function.
    pub open spec fn is_named(self, name: Seq<char>) -> bool {
        match self {
            Hook::Execute => contains_text(name, "3art"@) && contains_text(name, "11interpreter"@)
                && contains_text(name, "7Execute"@),
            Hook::Nterp => name == "ExecuteNterpImpl"@,
            Hook::NterpWithClinit => name == "ExecuteNterpWithClinitImpl"@,
            Hook::VerifyClass => contains_text(name, "3art"@) && contains_text(name, "8verifier"@)
                && contains_text(name, "13ClassVerifier"@) && contains_text(name, "11VerifyClass"@),
        }
    }

    /// The name is that of the function and not that of `Execute`, unless that is the one.
    pub open spec fn is_named_alone(self, name: Seq<char>) -> bool {
        self.is_named(name) && (self is Execute || !Hook::Execute.is_named(name))
    }
}

/// A table of symbols lists the name with the value, which is not zero.
pub open spec fn lists(symbols: Seq<SymbolText>, name: Seq<char>, value: u64) -> bool {
    value != 0 && exists|i: int|
        0 <= i < symbols.len() && (#[trigger] symbols[i]).name == Some(name) && symbols[i].value
            == value
}

/// One of the two tables of symbols lists the name with the value.
pub open spec fn is_symbol(image: ElfText, name: Seq<char>, value: u64) -> bool {
    lists(image.symbols, name, value) || lists(image.dynamic_symbols, name, value)
}

/// The name has an entry in the table.
pub open spec fn has_entry(table: Seq<(Seq<char>, u64)>, name: Seq<char>) -> bool {
    exists|i: int| 0 <= i < table.len() && (#[trigger] table[i]).0 == name
}

proof fn lemma_with_symbol(table: Seq<(Seq<char>, u64)>, name: Seq<char>, value: u64)
    ensures
        ({
            let after = with_symbol(table, name, value);
            &&& has_entry(after, name)
            &&& forall|n: Seq<char>| #[trigger] has_entry(table, n) ==> has_entry(after, n)
            &&& forall|i: int|
                0 <= i < after.len() ==> #[trigger] after[i] == (name, value) || exists|j: int|
                    0 <= j < table.len() && after[i] == #[trigger] table[j]
        }),
{
    let after = with_symbol(table, name, value);
    lemma_name_position(table, name);
    match name_position(table, name) {
        Some(i) => {
            assert(after[i] == (name, value));
        },
        None => {
            assert(after.last() == (name, value));
        },
    }
    assert forall|n: Seq<char>| #[trigger] has_entry(table, n) implies has_entry(after, n) by {
        let i = choose|i: int| 0 <= i < table.len() && (#[trigger] table[i]).0 == n;
        assert(after[i].0 == n);
    }
    assert forall|i: int| 0 <= i < after.len() && after[i] != (name, value) implies exists|j: int|
        0 <= j < table.len() && after[i] == #[trigger] table[j] by {
        assert(after[i] == table[i]);
    }
}

proof fn lemma_with_symbols(table: Seq<(Seq<char>, u64)>, symbols: Seq<SymbolText>)
    ensures
        ({
            let after = with_symbols(table, symbols);
            &&& forall|n: Seq<char>| #[trigger] has_entry(table, n) ==> has_entry(after, n)
            &&& forall|n: Seq<char>, v: u64| #[trigger]
                lists(symbols, n, v) && is_target_name(n) ==> has_entry(after, n)
            &&& forall|i: int|
                0 <= i < after.len() ==> lists(symbols, (#[trigger] after[i]).0, after[i].1)
                    || exists|j: int| 0 <= j < table.len() && after[i] == #[trigger] table[j]
        }),
    decreases symbols.len(),
{
    if symbols.len() > 0 {
        let rest = symbols.drop_last();
        let last = symbols.last();
        lemma_with_symbols(table, rest);
        let before = with_symbols(table, rest);
        let after = with_symbols(table, symbols);
        assert forall|n: Seq<char>, v: u64| #[trigger] lists(rest, n, v) implies lists(
            symbols,
            n,
            v,
        ) by {
            let i = choose|i: int|
                0 <= i < rest.len() && (#[trigger] rest[i]).name == Some(n) && rest[i].value == v;
            assert(symbols[i] == rest[i]);
        }
        assert forall|n: Seq<char>, v: u64| #[trigger] lists(symbols, n, v) implies lists(rest, n, v)
            || (last.name == Some(n) && last.value == v) by {
            let i = choose|i: int|
                0 <= i < symbols.len() && (#[trigger] symbols[i]).name == Some(n)
                    && symbols[i].value == v;
            if i < rest.len() {
                assert(rest[i] == symbols[i]);
            }
        }
        if last.name is Some && last.value != 0 && is_target_name(last.name->Some_0) {
            let name = last.name->Some_0;
            lemma_with_symbol(before, name, last.value);
            assert(symbols[symbols.len() - 1] == last);
            assert(lists(symbols, name, last.value));
            assert forall|i: int| 0 <= i < after.len() implies lists(
                symbols,
                (#[trigger] after[i]).0,
                after[i].1,
            ) || exists|j: int| 0 <= j < table.len() && after[i] == #[trigger] table[j] by {
                if after[i] != (name, last.value) {
                    let j = choose|j: int| 0 <= j < before.len() && after[i] == #[trigger] before[j];
                    assert(lists(rest, before[j].0, before[j].1) || exists|x: int|
                        0 <= x < table.len() && before[j] == #[trigger] table[x]);
                }
            }
        } else {
            assert(after == before);
        }
    }
}

/// The table holds the names that can be hooked, with values that symbols have.
proof fn lemma_symbol_table(image: ElfText)
    ensures
        forall|n: Seq<char>, v: u64| #[trigger]
            is_symbol(image, n, v) && is_target_name(n) ==> has_entry(symbol_table(image), n),
        forall|i: int|
            0 <= i < symbol_table(image).len() ==> is_symbol(
                image,
                (#[trigger] symbol_table(image)[i]).0,
                symbol_table(image)[i].1,
            ),
{
    let none = Seq::<(Seq<char>, u64)>::empty();
    let some = with_symbols(none, image.symbols);
    lemma_with_symbols(none, image.symbols);
    lemma_with_symbols(some, image.dynamic_symbols);
    let all = symbol_table(image);
    assert forall|i: int| 0 <= i < all.len() implies is_symbol(
        image,
        (#[trigger] all[i]).0,
        all[i].1,
    ) by {
        if !lists(image.dynamic_symbols, all[i].0, all[i].1) {
            let j = choose|j: int| 0 <= j < some.len() && all[i] == #[trigger] some[j];
            assert(lists(image.symbols, some[j].0, some[j].1));
        }
    }
}

/// The two plain names contain no digit, so they are not that of `Execute`.
proof fn lemma_plain_names()
    ensures
        !contains_text("ExecuteNterpImpl"@, "3art"@),
        !contains_text("ExecuteNterpWithClinitImpl"@, "3art"@),
        "ExecuteNterpImpl"@ != "ExecuteNterpWithClinitImpl"@,
{
    reveal_strlit("ExecuteNterpImpl");
    reveal_strlit("ExecuteNterpWithClinitImpl");
    reveal_strlit("3art");
    let a = "ExecuteNterpImpl"@;
    let b = "ExecuteNterpWithClinitImpl"@;
    let n = "3art"@;
    assert(n[0] == '3');
    assert forall|i: int| !crate::bytes::occurs_at(a, n, i) by {
        if crate::bytes::occurs_at(a, n, i) {
            assert(a.subrange(i, i + 4)[0] == a[i]);
        }
    }
    assert forall|i: int| !crate::bytes::occurs_at(b, n, i) by {
        if crate::bytes::occurs_at(b, n, i) {
            assert(b.subrange(i, i + 4)[0] == b[i]);
        }
    }
    assert(a.len() != b.len());
}

proof fn lemma_named_hook(t: TargetsText, table: Seq<(Seq<char>, u64)>, hook: Hook)
    ensures
        hook.of(t) is Some ==> hook.of(with_all_named(t, table)) == hook.of(t),
        hook.of(with_all_named(t, table)) is Some && hook.of(t) is None ==> {
            let r = hook.of(with_all_named(t, table))->Some_0;
            r.source == TargetSource::Symbol && exists|i: int|
                0 <= i < table.len() && hook.is_named((#[trigger] table[i]).0) && table[i].1 == r.addr
        },
        forall|i: int|
            0 <= i < table.len() && hook.is_named_alone((#[trigger] table[i]).0) ==> hook.of(
                with_all_named(t, table),
            ) is Some,
    decreases table.len(),
{
    if table.len() > 0 {
        let rest = table.drop_last();
        lemma_named_hook(t, rest, hook);
        lemma_plain_names();
        let before = with_all_named(t, rest);
        let after = with_all_named(t, table);
        let (name, value) = table.last();
        assert(table[table.len() - 1] == (name, value));
        if hook.of(after) is Some && hook.of(t) is None {
            let r = hook.of(after)->Some_0;
            if hook.of(before) is Some {
                let i = choose|i: int|
                    0 <= i < rest.len() && hook.is_named((#[trigger] rest[i]).0) && rest[i].1
                        == r.addr;
                assert(table[i] == rest[i]);
            } else {
                assert(hook.is_named(table[table.len() - 1].0));
            }
        }
        assert forall|i: int| 0 <= i < table.len() && hook.is_named_alone(
            (#[trigger] table[i]).0,
        ) implies hook.of(after) is Some by {
            if i < rest.len() {
                assert(rest[i] == table[i]);
            }
        }
    }
}

/// The searches by code leave a hook point that is known.
proof fn lemma_known_hooks_stay(
    image: ElfText,
    bytes: Seq<u8>,
    manual_execute: Option<u64>,
    manual_nterp: Option<u64>,
    hook: Hook,
)
    ensures
        ({
            let named = hook.of(named_targets(image, manual_execute, manual_nterp));
            named is Some ==> (art_findings(image, bytes, manual_execute, manual_nterp) matches Some(f)
                ==> hook.of(f.targets) == named)
        }),
        hook is VerifyClass ==> (art_findings(image, bytes, manual_execute, manual_nterp) matches Some(
            f,
        ) ==> hook.of(f.targets) == hook.of(named_targets(image, manual_execute, manual_nterp))),
{
}

/// Where one of the tables of symbols has a symbol for a hook point that is not given by hand,
/// the search takes the value of such a symbol for it. Where the hook point runs methods,
/// the search succeeds.
pub proof fn law_symbols_are_taken(
    image: ElfText,
    bytes: Seq<u8>,
    manual_execute: Option<u64>,
    manual_nterp: Option<u64>,
    hook: Hook,
    name: Seq<char>,
    value: u64,
    search: ArtSearch,
)
    requires
        is_symbol(image, name, value),
        hook.is_named_alone(name),
        hook is Execute ==> manual_execute is None,
        hook is Nterp ==> manual_nterp is None,
        art_findings(image, bytes, manual_execute, manual_nterp) is Some,
        is_search_of(
            search,
            art_findings(image, bytes, manual_execute, manual_nterp)->Some_0,
        ),
    ensures
        hook !is VerifyClass ==> search.outcome is Ok,
        search.outcome matches Ok(targets) ==> {
            &&& hook.of(targets@) matches Some(found) && found.source == TargetSource::Symbol
                && exists|n: Seq<char>| #[trigger]
                is_symbol(image, n, found.addr) && hook.is_named(n)
        },
{
    let first = TargetsText {
        execute: manual_target(manual_execute),
        execute_nterp: manual_target(manual_nterp),
        ..no_targets()
    };
    let table = symbol_table(image);
    lemma_symbol_table(image);
    assert(has_entry(table, name));
    let i = choose|i: int| 0 <= i < table.len() && (#[trigger] table[i]).0 == name;
    lemma_named_hook(first, table, hook);
    assert(hook.is_named_alone(table[i].0));
    let named = named_targets(image, manual_execute, manual_nterp);
    let found = hook.of(named)->Some_0;
    let j = choose|j: int|
        0 <= j < table.len() && hook.is_named((#[trigger] table[j]).0) && table[j].1 == found.addr;
    assert(is_symbol(image, table[j].0, found.addr));
    lemma_known_hooks_stay(image, bytes, manual_execute, manual_nterp, hook);
}

/// A hook point that has the source of a symbol has the value of a symbol that names it.
pub proof fn law_symbols_are_not_made_up(
    image: ElfText,
    bytes: Seq<u8>,
    manual_execute: Option<u64>,
    manual_nterp: Option<u64>,
    hook: Hook,
)
    ensures
        art_findings(image, bytes, manual_execute, manual_nterp) matches Some(f) ==> (hook.of(
            f.targets,
        ) matches Some(found) ==> (found.source == TargetSource::Symbol ==> exists|n: Seq<char>|
            #[trigger] is_symbol(image, n, found.addr) && hook.is_named(n))),
        hook is VerifyClass ==> (art_findings(image, bytes, manual_execute, manual_nterp) matches Some(
            f,
        ) ==> (hook.of(f.targets) matches Some(found) ==> found.source == TargetSource::Symbol)),
{
    let first = TargetsText {
        execute: manual_target(manual_execute),
        execute_nterp: manual_target(manual_nterp),
        ..no_targets()
    };
    let table = symbol_table(image);
    lemma_symbol_table(image);
    lemma_named_hook(first, table, hook);
    lemma_known_hooks_stay(image, bytes, manual_execute, manual_nterp, hook);
    if art_findings(image, bytes, manual_execute, manual_nterp) is Some {
        let f = art_findings(image, bytes, manual_execute, manual_nterp)->Some_0;
        if let Some(found) = hook.of(f.targets) {
            if found.source == TargetSource::Symbol {
                assert(hook.of(named_targets(image, manual_execute, manual_nterp)) is Some);
                let j = choose|j: int|
                    0 <= j < table.len() && hook.is_named((#[trigger] table[j]).0) && table[j].1
                        == found.addr;
                assert(is_symbol(image, table[j].0, found.addr));
            }
        }
    }
}

// ---------------------------------------------------------------------------
// Hook points by code
// ---------------------------------------------------------------------------

/// The code of an invoke handler: `ldr x3, [x0, #0x18]` and `cmp x2, x3`.
pub open spec fn invoke_code() -> Seq<u8> {
    seq![0x03u8, 0x0cu8, 0x40u8, 0xf9u8, 0x5fu8, 0x00u8, 0x03u8, 0xebu8]
}

/// The first instructions of `ExecuteNterpWithClinitImpl`.
pub open spec fn clinit_code() -> Seq<u8> {
    seq![
        0x08u8,
        0x00u8,
        0x40u8,
        0xb9u8,
        0x09u8,
        0x81u8,
        0x40u8,
        0x39u8,
        0x3fu8,
        0x05u8,
        0x00u8,
        0x71u8,
    ]
}

/// The first instructions of `ExecuteNterpImpl`.
pub open spec fn nterp_code() -> Seq<u8> {
    seq![
        0xf0u8, 0x0bu8, 0x40u8, 0xd1u8, 0x1fu8, 0x02u8, 0x40u8, 0xb9u8,
        0xffu8, 0x83u8, 0x02u8, 0xd1u8, 0xe8u8, 0x27u8, 0x00u8, 0x6du8,
        0xeau8, 0x2fu8, 0x01u8, 0x6du8, 0xecu8, 0x37u8, 0x02u8, 0x6du8,
        0xeeu8, 0x3fu8, 0x03u8, 0x6du8, 0xf3u8, 0x53u8, 0x04u8, 0xa9u8,
        0xf5u8, 0x5bu8, 0x05u8, 0xa9u8, 0xf7u8, 0x63u8, 0x06u8, 0xa9u8,
        0xf9u8, 0x6bu8, 0x07u8, 0xa9u8, 0xfbu8, 0x73u8, 0x08u8, 0xa9u8,
        0xfdu8, 0x7bu8, 0x09u8, 0xa9u8, 0x16u8, 0x08u8, 0x40u8, 0xf9u8,
    ]
}

/// Every code segment can be read.
pub open spec fn code_is_there(image: ElfText, bytes: Seq<u8>) -> bool {
    forall|i: int|
        0 <= i < image.segments.len() && (#[trigger] image.segments[i]).is_code()
            ==> image.segments[i].content(bytes) is Ok
}

proof fn lemma_pattern_addresses(image: ElfText, bytes: Seq<u8>, pattern: Seq<u8>, a: u64)
    requires
        code_is_there(image, bytes),
        pattern.len() > 0,
    ensures
        match pattern_addresses(image.segments, bytes, pattern) {
            Ok(found) => found.len() > 0 && is_hit(image.segments, bytes, pattern, found[0]) && (
            found.contains(a) <==> is_hit(image.segments, bytes, pattern, a)),
            Err(e) => e == SearchError::PatternNotFound && !is_hit(
                image.segments,
                bytes,
                pattern,
                a,
            ),
        },
{
    lemma_hits_are_there(image.segments, bytes, pattern);
    law_pattern_search_is_exact(image.segments, bytes, pattern);
    let found = pattern_hits(image.segments, bytes, pattern)->Ok_0;
    if found.len() > 0 {
        assert(found.contains(found[0]));
    }
    assert(found.contains(a) <==> is_hit(image.segments, bytes, pattern, a));
}

proof fn lemma_hits_are_there(segments: Seq<Segment>, bytes: Seq<u8>, pattern: Seq<u8>)
    requires
        forall|i: int|
            0 <= i < segments.len() && (#[trigger] segments[i]).is_code() ==> segments[i].content(
                bytes,
            ) is Ok,
    ensures
        pattern_hits(segments, bytes, pattern) is Ok,
    decreases segments.len(),
{
    if segments.len() > 0 {
        let rest = segments.drop_last();
        assert forall|i: int| 0 <= i < rest.len() && (#[trigger] rest[i]).is_code() implies rest[i].content(
            bytes,
        ) is Ok by {
            assert(segments[i] == rest[i]);
        }
        lemma_hits_are_there(rest, bytes, pattern);
        assert(segments[segments.len() - 1] == segments.last());
    }
}

/// The invoke handlers are found at all the addresses of their code, and at no others.
pub proof fn law_invoke_handlers_are_found(
    image: ElfText,
    bytes: Seq<u8>,
    manual_execute: Option<u64>,
    manual_nterp: Option<u64>,
    a: u64,
)
    requires
        code_is_there(image, bytes),
    ensures
        art_findings(image, bytes, manual_execute, manual_nterp) matches Some(f) ==> (
        f.targets.nterp_invoke_addrs.contains(
            ResolvedTarget { addr: a, source: TargetSource::Pattern },
        ) <==> is_hit(image.segments, bytes, invoke_code(), a)) && forall|i: int|
            0 <= i < f.targets.nterp_invoke_addrs.len() ==> (
            #[trigger] f.targets.nterp_invoke_addrs[i]).source == TargetSource::Pattern,
{
    assert(NTERP_OP_INVOKE_SIG@ =~= invoke_code());
    lemma_pattern_addresses(image, bytes, invoke_code(), a);
    lemma_named_keep_invokes(
        TargetsText {
            execute: manual_target(manual_execute),
            execute_nterp: manual_target(manual_nterp),
            ..no_targets()
        },
        symbol_table(image),
    );
    let target = ResolvedTarget { addr: a, source: TargetSource::Pattern };
    if let Ok(found) = pattern_addresses(image.segments, bytes, invoke_code()) {
        let all = pattern_targets(found);
        if found.contains(a) {
            let i = found.index_of(a);
            assert(all[i] == target);
        }
        if all.contains(target) {
            let i = all.index_of(target);
            assert(found[i] == a);
        }
    }
}

proof fn lemma_named_keep_invokes(t: TargetsText, table: Seq<(Seq<char>, u64)>)
    ensures
        with_all_named(t, table).nterp_invoke_addrs == t.nterp_invoke_addrs,
    decreases table.len(),
{
    if table.len() > 0 {
        lemma_named_keep_invokes(t, table.drop_last());
    }
}

/// `ExecuteNterpImpl`, where it is neither given by hand nor named by a symbol, is found by its
/// code where that stands in a code segment, and otherwise not at all.
pub proof fn law_nterp_is_found_by_its_code(
    image: ElfText,
    bytes: Seq<u8>,
    manual_execute: Option<u64>,
    a: u64,
)
    requires
        code_is_there(image, bytes),
        forall|value: u64| !#[trigger] is_symbol(image, "ExecuteNterpImpl"@, value),
    ensures
        art_findings(image, bytes, manual_execute, None) matches Some(f) ==> match f.targets.execute_nterp {
            Some(found) => found.source == TargetSource::Pattern && is_hit(
                image.segments,
                bytes,
                nterp_code(),
                found.addr,
            ),
            None => !is_hit(image.segments, bytes, nterp_code(), a),
        },
{
    assert(EXECUTE_NTERP_IMPL_SIG@ =~= nterp_code());
    lemma_pattern_addresses(image, bytes, nterp_code(), a);
    lemma_unnamed_hook(image, manual_execute, None, Hook::Nterp, "ExecuteNterpImpl"@);
}

/// A hook point whose only name no symbol has is not named.
proof fn lemma_unnamed_hook(
    image: ElfText,
    manual_execute: Option<u64>,
    manual_nterp: Option<u64>,
    hook: Hook,
    name: Seq<char>,
)
    requires
        forall|value: u64| !#[trigger] is_symbol(image, name, value),
        forall|n: Seq<char>| #[trigger] hook.is_named(n) ==> n == name,
        hook is Execute ==> manual_execute is None,
        hook is Nterp ==> manual_nterp is None,
    ensures
        hook.of(named_targets(image, manual_execute, manual_nterp)) is None,
{
    let first = TargetsText {
        execute: manual_target(manual_execute),
        execute_nterp: manual_target(manual_nterp),
        ..no_targets()
    };
    let table = symbol_table(image);
    lemma_symbol_table(image);
    lemma_named_hook(first, table, hook);
    let named = named_targets(image, manual_execute, manual_nterp);
    if hook.of(named) is Some {
        let r = hook.of(named)->Some_0;
        let j = choose|j: int|
            0 <= j < table.len() && hook.is_named((#[trigger] table[j]).0) && table[j].1 == r.addr;
        assert(is_symbol(image, table[j].0, table[j].1));
    }
}

/// `ExecuteNterpWithClinitImpl`, where no symbol names it, is found by its branch to
/// `ExecuteNterpImpl` where that is known and such code stands in a code segment. Otherwise
/// it is found by its first instructions, where those stand in one.
pub proof fn law_clinit_is_found_by_its_code(
    image: ElfText,
    bytes: Seq<u8>,
    manual_execute: Option<u64>,
    manual_nterp: Option<u64>,
    a: u64,
)
    requires
        code_is_whole(image.segments, bytes),
        forall|value: u64| !#[trigger] is_symbol(image, "ExecuteNterpWithClinitImpl"@, value),
    ensures
        art_findings(image, bytes, manual_execute, manual_nterp) matches Some(f) && match f.targets.execute_nterp_with_clinit {
            Some(found) => found.source == TargetSource::Pattern && if f.targets.execute_nterp is Some
                && is_clinit_hit(
                image.segments,
                bytes,
                f.targets.execute_nterp->Some_0.addr,
                a,
            ) {
                is_clinit_hit(
                    image.segments,
                    bytes,
                    f.targets.execute_nterp->Some_0.addr,
                    found.addr,
                )
            } else {
                (f.targets.execute_nterp is Some && is_clinit_hit(
                    image.segments,
                    bytes,
                    f.targets.execute_nterp->Some_0.addr,
                    found.addr,
                )) || is_hit(image.segments, bytes, clinit_code(), found.addr)
            },
            None => !is_hit(image.segments, bytes, clinit_code(), a) && (
            f.targets.execute_nterp matches Some(nterp) ==> !is_clinit_hit(
                image.segments,
                bytes,
                nterp.addr,
                a,
            )),
        },
{
    assert(code_is_there(image, bytes)) by {
        assert forall|i: int|
            0 <= i < image.segments.len() && (
            #[trigger] image.segments[i]).is_code() implies image.segments[i].content(bytes) is Ok by {
            assert(image.segments[i].kind == 1);
        }
    }
    assert(EXECUTE_NTERP_WITH_CLINIT_SIG@ =~= clinit_code());
    lemma_pattern_addresses(image, bytes, clinit_code(), a);
    lemma_unnamed_hook(
        image,
        manual_execute,
        manual_nterp,
        Hook::NterpWithClinit,
        "ExecuteNterpWithClinitImpl"@,
    );
    let named = Findings {
        targets: named_targets(image, manual_execute, manual_nterp),
        notes: seq![],
    };
    let before = with_nterp(with_execute(named, image, bytes), image, bytes);
    assert(before.targets.execute_nterp_with_clinit is None);
    if let Some(nterp) = before.targets.execute_nterp {
        law_branch_scan_is_exact(image.segments, bytes, nterp.addr, a);
        if let Some(Ok(found)) = clinit_addresses(image.segments, bytes, nterp.addr) {
            law_branch_scan_is_exact(image.segments, bytes, nterp.addr, found[0]);
            assert(found.contains(found[0]));
        }
    }
}

/// `Execute`, where it is neither given by hand nor named by a symbol, is found by the text
/// that it logs, where that leads to it.
pub proof fn law_execute_is_found_by_string(
    image: ElfText,
    bytes: Seq<u8>,
    manual_nterp: Option<u64>,
)
    requires
        forall|name: Seq<char>, value: u64| #[trigger]
            is_symbol(image, name, value) ==> !Hook::Execute.is_named(name),
    ensures
        art_findings(image, bytes, None, manual_nterp) matches Some(f) ==> f.targets.execute == (
        match execute_by_string(image.segments, bytes).0 {
            Ok(addr) => Some(ResolvedTarget { addr, source: TargetSource::StringRef }),
            Err(_) => None,
        }),
{
    let first = TargetsText {
        execute: manual_target(None),
        execute_nterp: manual_target(manual_nterp),
        ..no_targets()
    };
    let table = symbol_table(image);
    lemma_symbol_table(image);
    lemma_named_hook(first, table, Hook::Execute);
    let named = named_targets(image, None, manual_nterp);
    if named.execute is Some {
        let r = named.execute->Some_0;
        let j = choose|j: int|
            0 <= j < table.len() && Hook::Execute.is_named((#[trigger] table[j]).0) && table[j].1
                == r.addr;
        assert(is_symbol(image, table[j].0, table[j].1));
    }
}

/// The search succeeds where one of the functions that run methods was found, and fails
/// otherwise.
pub proof fn law_search_needs_a_main_entry(search: ArtSearch, f: Findings)
    requires
        is_search_of(search, f),
    ensures
        search.outcome is Ok <==> f.targets.execute is Some || f.targets.execute_nterp is Some
            || f.targets.execute_nterp_with_clinit is Some,
        search.outcome matches Ok(targets) ==> targets@ == f.targets,
        search.notes@ == f.notes,
{
}

/// A hook point that was given by hand is taken as it is, and marked as such; then the search
/// succeeds.
pub proof fn law_manual_targets_are_taken(
    image: ElfText,
    bytes: Seq<u8>,
    manual_execute: Option<u64>,
    manual_nterp: Option<u64>,
    search: ArtSearch,
)
    requires
        art_findings(image, bytes, manual_execute, manual_nterp) is Some,
        is_search_of(
            search,
            art_findings(image, bytes, manual_execute, manual_nterp)->Some_0,
        ),
        manual_execute is Some || manual_nterp is Some,
    ensures
        search.outcome matches Ok(targets) && {
            &&& manual_execute matches Some(addr) ==> targets.execute == Some(
                ResolvedTarget { addr, source: TargetSource::Manual },
            )
            &&& manual_nterp matches Some(addr) ==> targets.execute_nterp == Some(
                ResolvedTarget { addr, source: TargetSource::Manual },
            )
        },
{
    law_manual_targets_win(image, bytes, manual_execute, manual_nterp);
}

/// Where the code of `ExecuteNterpImpl` stands in several places, the first of them is taken.
pub proof fn law_first_nterp_is_taken(
    image: ElfText,
    bytes: Seq<u8>,
    manual_execute: Option<u64>,
    i: int,
    at: int,
)
    requires
        code_is_there(image, bytes),
        forall|value: u64| !#[trigger] is_symbol(image, "ExecuteNterpImpl"@, value),
        is_first_place(image.segments, bytes, nterp_code(), i, at),
    ensures
        art_findings(image, bytes, manual_execute, None) matches Some(f) ==> f.targets.execute_nterp
            == Some(
            ResolvedTarget {
                addr: wrap64(image.segments[i].vaddr + at),
                source: TargetSource::Pattern,
            },
        ),
{
    assert(EXECUTE_NTERP_IMPL_SIG@ =~= nterp_code());
    lemma_hits_are_there(image.segments, bytes, nterp_code());
    law_first_place_comes_first(image.segments, bytes, nterp_code(), i, at);
    lemma_unnamed_hook(image, manual_execute, None, Hook::Nterp, "ExecuteNterpImpl"@);
}

/// Where `ExecuteNterpImpl` is not known, the first place where the code of
/// `ExecuteNterpWithClinitImpl` stands is taken.
pub proof fn law_first_clinit_is_taken(
    image: ElfText,
    bytes: Seq<u8>,
    manual_execute: Option<u64>,
    i: int,
    at: int,
)
    requires
        code_is_there(image, bytes),
        forall|value: u64| !#[trigger] is_symbol(image, "ExecuteNterpWithClinitImpl"@, value),
        is_first_place(image.segments, bytes, clinit_code(), i, at),
    ensures
        art_findings(image, bytes, manual_execute, None) matches Some(f) ==> (
        f.targets.execute_nterp is None ==> f.targets.execute_nterp_with_clinit == Some(
            ResolvedTarget {
                addr: wrap64(image.segments[i].vaddr + at),
                source: TargetSource::Pattern,
            },
        )),
{
    assert(EXECUTE_NTERP_WITH_CLINIT_SIG@ =~= clinit_code());
    lemma_hits_are_there(image.segments, bytes, clinit_code());
    law_first_place_comes_first(image.segments, bytes, clinit_code(), i, at);
    lemma_unnamed_hook(
        image,
        manual_execute,
        None,
        Hook::NterpWithClinit,
        "ExecuteNterpWithClinitImpl"@,
    );
}

/// A missing `VerifyClass` is reported last, where a function that runs methods was found, and
/// only there.
pub proof fn law_missing_verify_class_is_reported(
    image: ElfText,
    bytes: Seq<u8>,
    manual_execute: Option<u64>,
    manual_nterp: Option<u64>,
)
    ensures
        art_findings(image, bytes, manual_execute, manual_nterp) matches Some(f) ==> (f.notes.len() > 0
            && f.notes.last() == ArtNote::VerifyClassMissing <==> f.targets.verify_class is None && (
        f.targets.execute is Some || f.targets.execute_nterp is Some
            || f.targets.execute_nterp_with_clinit is Some)),
{
}

/// Where `ExecuteNterpImpl` is known, the first code that loads a class status and then branches
/// to it is taken for `ExecuteNterpWithClinitImpl`.
pub proof fn law_first_branch_is_taken(
    image: ElfText,
    bytes: Seq<u8>,
    manual_execute: Option<u64>,
    manual_nterp: Option<u64>,
    i: int,
    k: int,
)
    requires
        code_is_whole(image.segments, bytes),
        forall|value: u64| !#[trigger] is_symbol(image, "ExecuteNterpWithClinitImpl"@, value),
    ensures
        art_findings(image, bytes, manual_execute, manual_nterp) matches Some(f) && (
        f.targets.execute_nterp is Some && is_first_clinit(
            image.segments,
            bytes,
            f.targets.execute_nterp->Some_0.addr,
            i,
            k,
        ) ==> f.targets.execute_nterp_with_clinit == Some(
            ResolvedTarget {
                addr: wrap64(image.segments[i].vaddr + 4 * k),
                source: TargetSource::Pattern,
            },
        )),
{
    lemma_unnamed_hook(
        image,
        manual_execute,
        manual_nterp,
        Hook::NterpWithClinit,
        "ExecuteNterpWithClinitImpl"@,
    );
    let named = Findings {
        targets: named_targets(image, manual_execute, manual_nterp),
        notes: seq![],
    };
    let before = with_nterp(with_execute(named, image, bytes), image, bytes);
    if let Some(nterp) = before.targets.execute_nterp {
        law_branch_scan_is_exact(image.segments, bytes, nterp.addr, 0);
        if is_first_clinit(image.segments, bytes, nterp.addr, i, k) {
            law_first_branch_comes_first(image.segments, bytes, nterp.addr, i, k);
        }
    }
}

} // verus!
