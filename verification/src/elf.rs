//! The parts of an ELF file that hook points are looked up in.
use crate::arm64::{add_wrapping, wrap64};
use crate::bytes::{find_from, find_subslice, first_occurrence, lemma_next_of, next_of, occurs_at};
use crate::text::{hex_text, push_hex};
use goblin::elf::Elf;
use std::collections::HashSet;
use vstd::prelude::*;
use vstd::slice::{slice_subrange, slice_to_vec};

verus! {

broadcast use vstd::std_specs::hash::group_hash_axioms;

/// The type of a segment that is loaded into memory.
pub const PT_LOAD: u32 = 1;

/// A segment of an ELF file, as its program header describes it.
#[derive(Clone, Copy, Debug, PartialEq, Eq, Structural)]
pub struct Segment {
    pub kind: u32,
    pub flags: u32,
    pub offset: u64,
    pub vaddr: u64,
    pub file_size: u64,
}

/// A symbol of an ELF file. Its name is missing where the string table lacks it.
#[derive(Clone, Debug, PartialEq, Eq)]
pub struct Symbol {
    pub name: Option<String>,
    pub value: u64,
}

/// The segments and symbols of an ELF file.
#[derive(Clone, Debug, PartialEq, Eq)]
pub struct ElfImage {
    pub segments: Vec<Segment>,
    pub symbols: Vec<Symbol>,
    pub dynamic_symbols: Vec<Symbol>,
}

/// What a symbol is.
pub struct SymbolText {
    pub name: Option<Seq<char>>,
    pub value: u64,
}

/// What an ELF file holds.
pub struct ElfText {
    pub segments: Seq<Segment>,
    pub symbols: Seq<SymbolText>,
    pub dynamic_symbols: Seq<SymbolText>,
}

impl View for Symbol {
    type V = SymbolText;

    open spec fn view(&self) -> SymbolText {
        SymbolText {
            name: match self.name {
                Some(name) => Some(name@),
                None => None,
            },
            value: self.value,
        }
    }
}

/// What some symbols are.
pub open spec fn symbol_texts(s: Seq<Symbol>) -> Seq<SymbolText> {
    s.map_values(|x: Symbol| x@)
}

impl View for ElfImage {
    type V = ElfText;

    open spec fn view(&self) -> ElfText {
        ElfText {
            segments: self.segments@,
            symbols: symbol_texts(self.symbols@),
            dynamic_symbols: symbol_texts(self.dynamic_symbols@),
        }
    }
}

/// The program headers and symbols that `goblin` finds in some bytes, or what its error says
/// where it does not take them for an ELF file.
pub uninterp spec fn elf_of(bytes: Seq<u8>) -> Result<ElfText, Seq<char>>;

/// Calls `goblin::elf::Elf::parse` and hands out its program headers, and its symbols
/// with the names that `Strtab::get_at` finds for them, or the text of its error. The result
/// depends on the bytes alone; what it is for given bytes is left open.
#[verifier::external_body]
pub(crate) fn parse_elf(bytes: &[u8]) -> (r: Result<ElfImage, String>)
    ensures
        match r {
            Ok(image) => elf_of(bytes@) == Ok::<ElfText, Seq<char>>(image@),
            Err(text) => elf_of(bytes@) == Err::<ElfText, Seq<char>>(text@),
        },
{
    let elf = Elf::parse(bytes).map_err(|e| e.to_string())?;
    let named = |name: Option<&str>, value: u64| Symbol { name: name.map(str::to_owned), value };
    Ok(ElfImage {
        segments: elf.program_headers.iter().map(|p| Segment {
            kind: p.p_type, flags: p.p_flags, offset: p.p_offset, vaddr: p.p_vaddr, file_size: p.p_filesz,
        }).collect(),
        symbols: elf.syms.iter().map(|s| named(elf.strtab.get_at(s.st_name), s.st_value)).collect(),
        dynamic_symbols: elf.dynsyms.iter().map(|s| named(elf.dynstrtab.get_at(s.st_name), s.st_value)).collect(),
    })
}

// ---------------------------------------------------------------------------
// Segments
// ---------------------------------------------------------------------------

/// Why a segment's bytes cannot be had.
#[derive(Clone, Copy, Debug, PartialEq, Eq, Structural)]
pub enum SegmentError {
    Overflow,
    OutOfBounds(u64),
}

impl SegmentError {
    /// What the error says.
    pub open spec fn text(self) -> Seq<char> {
        match self {
            SegmentError::Overflow => "segment size overflow"@,
            SegmentError::OutOfBounds(offset) => "segment out of bounds at file offset 0x"@
                + hex_text(offset as nat),
        }
    }

    /// The message of the error.
    pub fn message(&self) -> (r: String)
        ensures
            r@ == self.text(),
    {
        match self {
            SegmentError::Overflow => "segment size overflow".to_owned(),
            SegmentError::OutOfBounds(offset) => {
                let mut r: String = "segment out of bounds at file offset 0x".to_owned();
                push_hex(&mut r, *offset);
                r
            },
        }
    }
}

impl Segment {
    /// The segment is loaded.
    pub open spec fn is_load(self) -> bool {
        self.kind == PT_LOAD
    }

    /// The segment is loaded, and its code can be executed: the lowest flag is set.
    pub open spec fn is_code(self) -> bool {
        self.kind == PT_LOAD && self.flags % 2 == 1
    }

    /// The segment's bytes in the file.
    pub open spec fn content(self, bytes: Seq<u8>) -> Result<Seq<u8>, SegmentError> {
        if self.offset + self.file_size > u64::MAX {
            Err(SegmentError::Overflow)
        } else if self.offset + self.file_size > bytes.len() {
            Err(SegmentError::OutOfBounds(self.offset))
        } else {
            Ok(bytes.subrange(self.offset as int, self.offset + self.file_size))
        }
    }

    /// The address of a place in the segment.
    pub open spec fn address(self, offset: int) -> u64 {
        wrap64(self.vaddr + offset)
    }

    /// Whether the segment's code can be executed.
    pub fn executable(&self) -> (r: bool)
        ensures
            r == self.is_code(),
    {
        self.kind == PT_LOAD && self.flags % 2 == 1
    }
}

/// The segment's bytes in the file.
pub fn segment_data<'a>(bytes: &'a [u8], segment: &Segment) -> (r: Result<&'a [u8], SegmentError>)
    ensures
        match r {
            Ok(data) => segment.content(bytes@) == Ok::<Seq<u8>, SegmentError>(data@),
            Err(e) => segment.content(bytes@) == Err::<Seq<u8>, SegmentError>(e),
        },
{
    if segment.file_size > u64::MAX - segment.offset {
        return Err(SegmentError::Overflow);
    }
    let end: u64 = segment.offset + segment.file_size;
    if end > bytes.len() as u64 {
        return Err(SegmentError::OutOfBounds(segment.offset));
    }
    Ok(slice_subrange(bytes, segment.offset as usize, end as usize))
}

// ---------------------------------------------------------------------------
// Searches
// ---------------------------------------------------------------------------

/// Why a search in an ELF file came to nothing.
#[derive(Clone, Copy, Debug, PartialEq, Eq, Structural)]
pub enum SearchError {
    Segment(SegmentError),
    PatternEmpty,
    PatternNotFound,
}

/// Why a string has no address.
pub enum StringFault {
    Segment(SegmentError),
    NotFound,
}

/// Why a search for a string came to nothing.
#[derive(Clone, Debug, PartialEq, Eq)]
pub enum StringError {
    Segment(SegmentError),
    /// No loaded segment holds these bytes.
    NotFound(Vec<u8>),
}

/// `found`, and behind it the addresses below offset `n` of a segment where the pattern
/// stands, as far as they are new.
pub open spec fn with_hits(
    found: Seq<u64>,
    segment: Segment,
    data: Seq<u8>,
    pattern: Seq<u8>,
    n: nat,
) -> Seq<u64>
    decreases n,
{
    if n == 0 {
        found
    } else {
        let before = with_hits(found, segment, data, pattern, (n - 1) as nat);
        let address = segment.address(n - 1);
        if occurs_at(data, pattern, n - 1) && !before.contains(address) {
            before.push(address)
        } else {
            before
        }
    }
}

/// The addresses in code segments where the pattern stands, each once, in the order of
/// the segments.
pub open spec fn pattern_hits(segments: Seq<Segment>, bytes: Seq<u8>, pattern: Seq<u8>) -> Result<
    Seq<u64>,
    SegmentError,
>
    decreases segments.len(),
{
    if segments.len() == 0 {
        Ok(seq![])
    } else {
        match pattern_hits(segments.drop_last(), bytes, pattern) {
            Err(e) => Err(e),
            Ok(found) => if !segments.last().is_code() {
                Ok(found)
            } else {
                match segments.last().content(bytes) {
                    Err(e) => Err(e),
                    Ok(data) => Ok(with_hits(found, segments.last(), data, pattern, data.len())),
                }
            },
        }
    }
}

/// What a search for a pattern comes to.
pub open spec fn pattern_addresses(segments: Seq<Segment>, bytes: Seq<u8>, pattern: Seq<u8>) -> Result<
    Seq<u64>,
    SearchError,
> {
    if pattern.len() == 0 {
        Err(SearchError::PatternEmpty)
    } else {
        match pattern_hits(segments, bytes, pattern) {
            Err(e) => Err(SearchError::Segment(e)),
            Ok(found) => if found.len() == 0 {
                Err(SearchError::PatternNotFound)
            } else {
                Ok(found)
            },
        }
    }
}

/// Offsets without an occurrence add nothing.
proof fn lemma_no_hits_between(
    found: Seq<u64>,
    segment: Segment,
    data: Seq<u8>,
    pattern: Seq<u8>,
    a: nat,
    b: nat,
)
    requires
        a <= b,
        forall|j: int| a <= j < b ==> !occurs_at(data, pattern, j),
    ensures
        with_hits(found, segment, data, pattern, a) == with_hits(found, segment, data, pattern, b),
    decreases b,
{
    if a < b {
        lemma_no_hits_between(found, segment, data, pattern, a, (b - 1) as nat);
    }
}

/// An error in an earlier segment stays.
proof fn lemma_pattern_error(segments: Seq<Segment>, n: int, bytes: Seq<u8>, pattern: Seq<u8>)
    requires
        0 <= n <= segments.len(),
        pattern_hits(segments.take(n), bytes, pattern) is Err,
    ensures
        pattern_hits(segments, bytes, pattern) == pattern_hits(segments.take(n), bytes, pattern),
    decreases segments.len() - n,
{
    if n < segments.len() {
        assert(segments.take(n + 1).drop_last() =~= segments.take(n));
        lemma_pattern_error(segments, n + 1, bytes, pattern);
    } else {
        assert(segments.take(n) =~= segments);
    }
}

/// Adds the addresses of a segment where the pattern stands.
fn add_hits(
    found: &mut Vec<u64>,
    seen: &mut HashSet<u64>,
    segment: &Segment,
    data: &[u8],
    pattern: &[u8],
)
    requires
        pattern@.len() > 0,
        old(seen)@ == old(found)@.to_set(),
    ensures
        final(found)@ == with_hits(old(found)@, *segment, data@, pattern@, data@.len()),
        final(seen)@ == final(found)@.to_set(),
{
    let ghost before = found@;
    let mut off: usize = 0;
    while off < data.len()
        invariant
            off <= data.len(),
            pattern@.len() > 0,
            before == old(found)@,
            found@ == with_hits(before, *segment, data@, pattern@, off as nat),
            seen@ == found@.to_set(),
        decreases data.len() - off,
    {
        match find_from(data, pattern, off) {
            None => {
                proof {
                    lemma_no_hits_between(before, *segment, data@, pattern@, off as nat, data@.len());
                }
                return;
            },
            Some(at) => {
                proof {
                    lemma_no_hits_between(before, *segment, data@, pattern@, off as nat, at as nat);
                }
                let address: u64 = add_wrapping(segment.vaddr, at as u64);
                let ghost earlier = found@;
                if seen.insert(address) {
                    found.push(address);
                    assert(found@.to_set() =~= earlier.to_set().insert(address)) by {
                        assert(found@.last() == address);
                        assert forall|x: u64| earlier.contains(x) implies found@.contains(x) by {
                            let j = earlier.index_of(x);
                            assert(found@[j] == x);
                        }
                    }
                } else {
                    assert(seen@ =~= earlier.to_set());
                }
                off = at + 1;
            },
        }
    }
}

/// The addresses in code segments where the pattern stands.
pub fn find_pattern_uaddrs(image: &ElfImage, bytes: &[u8], pattern: &[u8]) -> (r: Result<
    Vec<u64>,
    SearchError,
>)
    ensures
        match r {
            Ok(found) => pattern_addresses(image@.segments, bytes@, pattern@) == Ok::<
                Seq<u64>,
                SearchError,
            >(found@),
            Err(e) => pattern_addresses(image@.segments, bytes@, pattern@) == Err::<
                Seq<u64>,
                SearchError,
            >(e),
        },
{
    if pattern.len() == 0 {
        return Err(SearchError::PatternEmpty);
    }
    let mut found: Vec<u64> = Vec::new();
    let mut seen: HashSet<u64> = HashSet::new();
    let ghost all = image@.segments;
    assert(seen@ =~= found@.to_set());
    for i in 0..image.segments.len()
        invariant
            all == image.segments@,
            pattern@.len() > 0,
            seen@ == found@.to_set(),
            pattern_hits(all.take(i as int), bytes@, pattern@) == Ok::<Seq<u64>, SegmentError>(
                found@,
            ),
    {
        assert(all.take(i + 1).drop_last() =~= all.take(i as int));
        let segment = image.segments[i];
        if segment.executable() {
            match segment_data(bytes, &segment) {
                Ok(data) => add_hits(&mut found, &mut seen, &segment, data, pattern),
                Err(e) => {
                    proof {
                        lemma_pattern_error(all, i + 1, bytes@, pattern@);
                    }
                    return Err(SearchError::Segment(e));
                },
            }
        }
    }
    assert(all.take(all.len() as int) =~= all);
    if found.len() == 0 {
        Err(SearchError::PatternNotFound)
    } else {
        Ok(found)
    }
}

/// The pattern stands in a code segment at this address.
pub open spec fn is_hit(segments: Seq<Segment>, bytes: Seq<u8>, pattern: Seq<u8>, address: u64) -> bool {
    exists|i: int, off: int|
        0 <= i < segments.len() && #[trigger] is_hit_at(segments[i], bytes, pattern, off)
            && address == segments[i].address(off)
}

/// The pattern stands in the segment, a code segment, at this offset.
pub open spec fn is_hit_at(segment: Segment, bytes: Seq<u8>, pattern: Seq<u8>, off: int) -> bool {
    segment.is_code() && (segment.content(bytes) matches Ok(data) && occurs_at(data, pattern, off))
}

proof fn lemma_with_hits(
    found: Seq<u64>,
    segment: Segment,
    data: Seq<u8>,
    pattern: Seq<u8>,
    n: nat,
)
    requires
        found.no_duplicates(),
    ensures
        with_hits(found, segment, data, pattern, n).no_duplicates(),
        forall|a: u64|
            #![trigger with_hits(found, segment, data, pattern, n).contains(a)]
            with_hits(found, segment, data, pattern, n).contains(a) <==> found.contains(a)
                || exists|off: int|
                0 <= off < n && #[trigger] occurs_at(data, pattern, off) && a == segment.address(off),
    decreases n,
{
    if n > 0 {
        lemma_with_hits(found, segment, data, pattern, (n - 1) as nat);
        let before = with_hits(found, segment, data, pattern, (n - 1) as nat);
        let after = with_hits(found, segment, data, pattern, n);
        let address = segment.address(n - 1);
        assert forall|a: u64| #[trigger] after.contains(a) <==> found.contains(a) || exists|off: int|
            0 <= off < n && #[trigger] occurs_at(data, pattern, off) && a == segment.address(off) by {
            if before.contains(a) {
                let j = before.index_of(a);
                assert(after[j] == a);
            }
            if occurs_at(data, pattern, n - 1) && a == address && !before.contains(a) {
                assert(after.last() == a);
            }
            if after.contains(a) && !before.contains(a) {
                assert(occurs_at(data, pattern, n - 1) && a == address);
            }
        }
    }
}

/// A search for a pattern finds the addresses in code segments where it stands, all of
/// them and each once.
pub proof fn law_pattern_search_is_exact(segments: Seq<Segment>, bytes: Seq<u8>, pattern: Seq<u8>)
    requires
        pattern.len() > 0,
    ensures
        pattern_hits(segments, bytes, pattern) matches Ok(found) ==> found.no_duplicates()
            && forall|a: u64| #[trigger] found.contains(a) <==> is_hit(segments, bytes, pattern, a),
    decreases segments.len(),
{
    if segments.len() > 0 && pattern_hits(segments, bytes, pattern) is Ok {
        let rest = segments.drop_last();
        law_pattern_search_is_exact(rest, bytes, pattern);
        let some = pattern_hits(rest, bytes, pattern)->Ok_0;
        let found = pattern_hits(segments, bytes, pattern)->Ok_0;
        let last = segments.last();
        if last.is_code() {
            let data = last.content(bytes)->Ok_0;
            lemma_with_hits(some, last, data, pattern, data.len());
        }
        assert forall|a: u64| #[trigger] found.contains(a) <==> is_hit(segments, bytes, pattern, a) by {
            if found.contains(a) {
                if some.contains(a) {
                    let (i, off) = choose|i: int, off: int|
                        0 <= i < rest.len() && #[trigger] is_hit_at(rest[i], bytes, pattern, off) && a
                            == rest[i].address(off);
                    assert(is_hit_at(segments[i], bytes, pattern, off));
                } else {
                    let data = last.content(bytes)->Ok_0;
                    let off = choose|off: int|
                        0 <= off < data.len() && #[trigger] occurs_at(data, pattern, off) && a
                            == last.address(off);
                    assert(is_hit_at(segments[segments.len() - 1], bytes, pattern, off));
                }
            }
            if is_hit(segments, bytes, pattern, a) {
                let (i, off) = choose|i: int, off: int|
                    0 <= i < segments.len() && #[trigger] is_hit_at(
                        segments[i],
                        bytes,
                        pattern,
                        off,
                    ) && a == segments[i].address(off);
                if i < rest.len() {
                    assert(is_hit_at(rest[i], bytes, pattern, off));
                    assert(some.contains(a));
                } else {
                    let data = last.content(bytes)->Ok_0;
                    assert(occurs_at(data, pattern, off) && 0 <= off < data.len());
                }
            }
        }
    } else if segments.len() == 0 {
        assert forall|a: u64| !is_hit(segments, bytes, pattern, a) by {}
    }
}

/// The address of a string: its first position in the first loaded segment, from number
/// `i` on, that holds it.
pub open spec fn string_address(segments: Seq<Segment>, bytes: Seq<u8>, target: Seq<u8>, i: int) -> Result<
    u64,
    StringFault,
>
    decreases segments.len() - i,
{
    if i >= segments.len() {
        Err(StringFault::NotFound)
    } else if !segments[i].is_load() {
        string_address(segments, bytes, target, i + 1)
    } else {
        match segments[i].content(bytes) {
            Err(e) => Err(StringFault::Segment(e)),
            Ok(data) => match next_of(data, target, 0) {
                Some(at) => Ok(segments[i].address(at)),
                None => string_address(segments, bytes, target, i + 1),
            },
        }
    }
}

/// The address of a string in a loaded segment.
pub fn find_string_in_elf(image: &ElfImage, bytes: &[u8], target: &[u8]) -> (r: Result<
    u64,
    StringError,
>)
    ensures
        match r {
            Ok(address) => string_address(image@.segments, bytes@, target@, 0) == Ok::<
                u64,
                StringFault,
            >(address),
            Err(StringError::Segment(e)) => string_address(image@.segments, bytes@, target@, 0)
                == Err::<u64, StringFault>(StringFault::Segment(e)),
            Err(StringError::NotFound(wanted)) => wanted@ == target@ && string_address(
                image@.segments,
                bytes@,
                target@,
                0,
            ) == Err::<u64, StringFault>(StringFault::NotFound),
        },
{
    for i in 0..image.segments.len()
        invariant
            string_address(image@.segments, bytes@, target@, 0) == string_address(
                image@.segments,
                bytes@,
                target@,
                i as int,
            ),
    {
        let segment = image.segments[i];
        if segment.kind == PT_LOAD {
            match segment_data(bytes, &segment) {
                Ok(data) => {
                    if let Some(at) = find_subslice(data, target) {
                        return Ok(add_wrapping(segment.vaddr, at as u64));
                    }
                },
                Err(e) => return Err(StringError::Segment(e)),
            }
        }
    }
    Err(StringError::NotFound(slice_to_vec(target)))
}

/// The bytes of a segment are those of the file from its offset on, as many as it states, where
/// the file has them. A segment that is loaded has kind 1, and its code can be executed where
/// the lowest of its flags is set.
pub proof fn law_what_a_segment_holds(s: Segment, bytes: Seq<u8>, flags: u32)
    requires
        bytes.len() <= u64::MAX,
    ensures
        s.content(bytes) is Ok <==> s.offset + s.file_size <= bytes.len(),
        s.content(bytes) matches Ok(data) ==> data.len() == s.file_size && forall|i: int|
            0 <= i < data.len() ==> #[trigger] data[i] == bytes[s.offset + i],
        s.content(bytes) matches Err(e) ==> e == (if s.offset + s.file_size > u64::MAX {
            SegmentError::Overflow
        } else {
            SegmentError::OutOfBounds(s.offset)
        }),
        s.is_load() <==> s.kind == 1,
        flags < 0x8000_0000 && s.flags == 2 * flags + 1 ==> (s.is_code() <==> s.kind == 1),
        flags < 0x8000_0000 && s.flags == 2 * flags ==> !s.is_code(),
{
}

/// The address of a string is that of its first occurrence in the first loaded segment that
/// holds it, and the segments before can be read and do not hold it. A search without
/// result has read all loaded segments, and none holds the string.
pub proof fn law_first_string_is_found(segments: Seq<Segment>, bytes: Seq<u8>, target: Seq<u8>, from: int)
    requires
        0 <= from <= segments.len(),
    ensures
        match string_address(segments, bytes, target, from) {
            Ok(address) => exists|i: int, at: int|
                {
                    &&& from <= i < segments.len()
                    &&& #[trigger] holds_string(segments[i], bytes, target, at)
                    &&& address == wrap64(segments[i].vaddr + at)
                    &&& forall|j: int|
                        from <= j < i && (#[trigger] segments[j]).kind == 1 ==> (segments[j].content(
                            bytes,
                        ) matches Ok(data) && forall|k: int| !#[trigger] occurs_at(data, target, k))
                },
            Err(StringFault::NotFound) => forall|j: int|
                from <= j < segments.len() && (#[trigger] segments[j]).kind == 1 ==> (
                segments[j].content(bytes) matches Ok(data) && forall|k: int|
                    !#[trigger] occurs_at(data, target, k)),
            Err(StringFault::Segment(e)) => exists|j: int|
                from <= j < segments.len() && (#[trigger] segments[j]).kind == 1
                    && segments[j].content(bytes) == Err::<Seq<u8>, SegmentError>(e),
        },
    decreases segments.len() - from,
{
    if from < segments.len() {
        let s = segments[from];
        law_first_string_is_found(segments, bytes, target, from + 1);
        let rest = string_address(segments, bytes, target, from + 1);
        if !s.is_load() {
            if let Ok(address) = rest {
                let (i, at) = choose|i: int, at: int|
                    {
                        &&& from + 1 <= i < segments.len()
                        &&& #[trigger] holds_string(segments[i], bytes, target, at)
                        &&& address == wrap64(segments[i].vaddr + at)
                        &&& forall|j: int|
                            from + 1 <= j < i && (#[trigger] segments[j]).kind == 1 ==> (
                            segments[j].content(bytes) matches Ok(data) && forall|k: int|
                                !#[trigger] occurs_at(data, target, k))
                    };
                assert(holds_string(segments[i], bytes, target, at));
            }
        } else if let Ok(data) = s.content(bytes) {
            match next_of(data, target, 0) {
                Some(at) => {
                    lemma_next_of(data, target, 0, at);
                    assert(holds_string(segments[from], bytes, target, at));
                },
                None => {
                    lemma_no_occurrence(data, target);
                    if let Ok(address) = rest {
                        let (i, at) = choose|i: int, at: int|
                            {
                                &&& from + 1 <= i < segments.len()
                                &&& #[trigger] holds_string(segments[i], bytes, target, at)
                                &&& address == wrap64(segments[i].vaddr + at)
                                &&& forall|j: int|
                                    from + 1 <= j < i && (#[trigger] segments[j]).kind == 1 ==> (
                                    segments[j].content(bytes) matches Ok(data) && forall|k: int|
                                        !#[trigger] occurs_at(data, target, k))
                            };
                        assert(holds_string(segments[i], bytes, target, at));
                    }
                },
            }
        } else {
            assert(segments[from].kind == 1);
        }
    }
}

/// The loaded segment holds the string at `at` first.
pub open spec fn holds_string(s: Segment, bytes: Seq<u8>, target: Seq<u8>, at: int) -> bool {
    s.kind == 1 && (s.content(bytes) matches Ok(data) && first_occurrence(data, target, 0, at))
}

/// Where there is no first position, there is none.
proof fn lemma_no_occurrence(data: Seq<u8>, target: Seq<u8>)
    requires
        next_of(data, target, 0) is None,
    ensures
        forall|k: int| !#[trigger] occurs_at(data, target, k),
{
    assert forall|k: int| !#[trigger] occurs_at(data, target, k) by {
        if occurs_at(data, target, k) {
            lemma_some_occurrence(data, target, k);
        }
    }
}

proof fn lemma_some_occurrence(data: Seq<u8>, target: Seq<u8>, k: int)
    requires
        occurs_at(data, target, k),
    ensures
        next_of(data, target, 0) is Some,
    decreases k,
{
    if exists|j: int| 0 <= j < k && occurs_at(data, target, j) {
        let j = choose|j: int| 0 <= j < k && occurs_at(data, target, j);
        lemma_some_occurrence(data, target, j);
    } else {
        assert(first_occurrence(data, target, 0, k));
    }
}

proof fn lemma_hits_keep_what_was_found(
    found: Seq<u64>,
    segment: Segment,
    data: Seq<u8>,
    pattern: Seq<u8>,
    from: nat,
    n: nat,
)
    requires
        from <= n,
        with_hits(found, segment, data, pattern, from).len() > 0,
    ensures
        with_hits(found, segment, data, pattern, n).len() > 0,
        with_hits(found, segment, data, pattern, n)[0] == with_hits(
            found,
            segment,
            data,
            pattern,
            from,
        )[0],
    decreases n,
{
    if from < n {
        lemma_hits_keep_what_was_found(found, segment, data, pattern, from, (n - 1) as nat);
    }
}

proof fn lemma_no_hits(found: Seq<u64>, segment: Segment, data: Seq<u8>, pattern: Seq<u8>, n: nat)
    requires
        forall|k: int| 0 <= k < n ==> !#[trigger] occurs_at(data, pattern, k),
    ensures
        with_hits(found, segment, data, pattern, n) == found,
    decreases n,
{
    if n > 0 {
        lemma_no_hits(found, segment, data, pattern, (n - 1) as nat);
        assert(!occurs_at(data, pattern, n - 1));
    }
}

/// The pattern stands in no executable segment.
spec fn stands_nowhere(segments: Seq<Segment>, bytes: Seq<u8>, pattern: Seq<u8>) -> bool {
    forall|j: int, k: int|
        0 <= j < segments.len() && (#[trigger] segments[j]).kind == 1 && segments[j].flags % 2 == 1
            && k >= 0 && segments[j].content(bytes) is Ok ==> !#[trigger] occurs_at(
            segments[j].content(bytes)->Ok_0,
            pattern,
            k,
        )
}

proof fn lemma_nothing_found(segments: Seq<Segment>, bytes: Seq<u8>, pattern: Seq<u8>)
    requires
        pattern_hits(segments, bytes, pattern) is Ok,
        stands_nowhere(segments, bytes, pattern),
    ensures
        pattern_hits(segments, bytes, pattern)->Ok_0.len() == 0,
    decreases segments.len(),
{
    if segments.len() > 0 {
        let before = segments.drop_last();
        assert forall|j: int, k: int|
            0 <= j < before.len() && (#[trigger] before[j]).kind == 1 && before[j].flags % 2 == 1 && k
                >= 0 && before[j].content(bytes) is Ok implies !#[trigger] occurs_at(
            before[j].content(bytes)->Ok_0,
            pattern,
            k,
        ) by {
            assert(segments[j] == before[j]);
        }
        lemma_nothing_found(before, bytes, pattern);
        let last = segments[segments.len() - 1];
        if last.is_code() {
            let data = last.content(bytes)->Ok_0;
            assert forall|k: int| 0 <= k < data.len() implies !#[trigger] occurs_at(
                data,
                pattern,
                k,
            ) by {
                assert(segments[segments.len() - 1].kind == 1);
            }
            lemma_no_hits(seq![], last, data, pattern, data.len());
            assert(pattern_hits(before, bytes, pattern)->Ok_0 =~= seq![]);
        }
    }
}

/// The pattern stands at an offset of an executable segment (its kind is 1 and its first flag is
/// set), not before in it, and in no executable segment before.
pub open spec fn is_first_place(
    segments: Seq<Segment>,
    bytes: Seq<u8>,
    pattern: Seq<u8>,
    i: int,
    at: int,
) -> bool {
    &&& 0 <= i < segments.len()
    &&& segments[i].kind == 1 && segments[i].flags % 2 == 1
    &&& segments[i].content(bytes) is Ok
    &&& occurs_at(segments[i].content(bytes)->Ok_0, pattern, at)
    &&& forall|k: int|
        0 <= k < at ==> !#[trigger] occurs_at(segments[i].content(bytes)->Ok_0, pattern, k)
    &&& forall|j: int, k: int|
        0 <= j < i && (#[trigger] segments[j]).kind == 1 && segments[j].flags % 2 == 1 && k >= 0
            && segments[j].content(bytes) is Ok ==> !#[trigger] occurs_at(
            segments[j].content(bytes)->Ok_0,
            pattern,
            k,
        )
}

/// The first place where a pattern stands, in the first executable segment that holds it, comes
/// first among the places that are found.
pub proof fn law_first_place_comes_first(
    segments: Seq<Segment>,
    bytes: Seq<u8>,
    pattern: Seq<u8>,
    i: int,
    at: int,
)
    requires
        pattern_hits(segments, bytes, pattern) is Ok,
        pattern.len() > 0,
        is_first_place(segments, bytes, pattern, i, at),
    ensures
        pattern_addresses(segments, bytes, pattern) matches Ok(found) && found.len() > 0 && found[0]
            == wrap64(segments[i].vaddr + at),
    decreases segments.len(),
{
    let before = segments.drop_last();
    let last = segments[segments.len() - 1];
    let earlier = pattern_hits(before, bytes, pattern)->Ok_0;
    if i < segments.len() - 1 {
        assert(before[i] == segments[i]);
        assert forall|j: int, k: int|
            0 <= j < i && (#[trigger] before[j]).kind == 1 && before[j].flags % 2 == 1 && k >= 0
                && before[j].content(bytes) is Ok implies !#[trigger] occurs_at(
            before[j].content(bytes)->Ok_0,
            pattern,
            k,
        ) by {
            assert(segments[j] == before[j]);
        }
        law_first_place_comes_first(before, bytes, pattern, i, at);
        if last.is_code() {
            let data = last.content(bytes)->Ok_0;
            lemma_hits_keep_what_was_found(earlier, last, data, pattern, 0, data.len());
        }
    } else {
        let data = last.content(bytes)->Ok_0;
        assert forall|j: int, k: int|
            0 <= j < before.len() && (#[trigger] before[j]).kind == 1 && before[j].flags % 2 == 1 && k
                >= 0 && before[j].content(bytes) is Ok implies !#[trigger] occurs_at(
            before[j].content(bytes)->Ok_0,
            pattern,
            k,
        ) by {
            assert(segments[j] == before[j]);
        }
        lemma_nothing_found(before, bytes, pattern);
        assert(earlier =~= seq![]);
        lemma_no_hits(earlier, last, data, pattern, at as nat);
        let first = with_hits(earlier, last, data, pattern, (at + 1) as nat);
        assert(first =~= seq![last.address(at)]);
        lemma_hits_keep_what_was_found(earlier, last, data, pattern, (at + 1) as nat, data.len());
    }
}

} // verus!
