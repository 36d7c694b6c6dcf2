//! Finding the DEX file around a code item.
use crate::bytes::{first_occurrence, lemma_next_of, occurs_at};
use crate::dex::DexHeader;
use crate::dexlayout::header_bytes;
use crate::scan::{
    before_end, dex_mark, dex_size_over, find_magic, is_dex, is_plausible,
    law_dex_files_start_with_the_mark, law_plausible_header_tells_the_size, next_magic,
    parses_as_dex, read_view, validate_dex_header_contains, DexHit, FoundDex, Memory, ScanStep,
    DEX_MAGIC_BYTES, HEADER_LEN, SCAN_STEP,
};
use vstd::prelude::*;
use vstd::slice::slice_subrange;

verus! {

/// How far back from a code item its DEX file is looked for.
pub const CODE_ITEM_BACKSCAN_LIMIT: u64 = 0x400_0000;

/// What a backward scan comes to: a file, nothing, or the address and size of a file that
/// could not be read.
pub type BackResult = Result<Option<DexHit>, (u64, u32)>;

/// The header at offset `i` of a page at `pos`: out of the page where it holds all of it,
/// out of memory otherwise.
pub open spec fn header_in(mem: Memory, page: Seq<u8>, pos: u64, i: int) -> Option<Seq<u8>> {
    if i + HEADER_LEN <= page.len() {
        Some(page.subrange(i, i + HEADER_LEN))
    } else {
        mem((pos + i) as u64, HEADER_LEN)
    }
}

/// The size of a file that starts at offset `i` of a page and reaches over `ptr`.
pub open spec fn size_in(mem: Memory, page: Seq<u8>, pos: u64, i: int, ptr: u64) -> Option<u32> {
    match header_in(mem, page, pos, i) {
        Some(header) => dex_size_over(header, (pos + i) as u64, ptr),
        None => None,
    }
}

/// What reading the file at `begin` leads to; `otherwise` follows where it is no DEX file.
pub open spec fn body_over(mem: Memory, begin: u64, size: u32, otherwise: BackResult) -> BackResult {
    match mem(begin, size) {
        None => Err((begin, size)),
        Some(bytes) => if is_dex(bytes) {
            Ok(Some(DexHit { begin, size, bytes }))
        } else {
            otherwise
        },
    }
}

/// The first file in a page, from offset `off` on, that starts at or before `ptr` and
/// reaches over it; `otherwise` follows where there is none.
pub open spec fn page_over(
    mem: Memory,
    page: Seq<u8>,
    pos: u64,
    off: int,
    ptr: u64,
    otherwise: BackResult,
) -> BackResult
    decreases page.len() - off + 4,
{
    match next_magic(page, off) {
        None => otherwise,
        Some(i) => if i < off || i > page.len() - 4 || pos + i > ptr {
            otherwise
        } else {
            let next = page_over(mem, page, pos, i + 4, ptr, otherwise);
            match size_in(mem, page, pos, i, ptr) {
                Some(size) => body_over(mem, (pos + i) as u64, size, next),
                None => next,
            }
        },
    }
}

/// The file around `ptr`: pages are searched from `pos` back to `floor`, and the first
/// file found counts.
pub open spec fn dex_over(mem: Memory, pos: int, floor: int, ptr: u64) -> BackResult
    decreases pos + SCAN_STEP,
{
    if pos < 0 || pos < floor {
        Ok(None)
    } else {
        let next = dex_over(mem, pos - SCAN_STEP, floor, ptr);
        match mem(pos as u64, SCAN_STEP as u32) {
            Some(page) => page_over(mem, page, pos as u64, 0, ptr, next),
            None => next,
        }
    }
}

/// The file around a code item. There is none for a null pointer.
pub open spec fn dex_of_code_item(mem: Memory, ptr: u64) -> BackResult {
    if ptr == 0 {
        Ok(None)
    } else {
        dex_over(mem, ptr - ptr as int % SCAN_STEP as int, ptr - CODE_ITEM_BACKSCAN_LIMIT, ptr)
    }
}

/// Where a backward scan is.
#[derive(Clone, Debug, PartialEq, Eq)]
pub enum BackPhase {
    Page,
    Header { page: Vec<u8>, at: usize },
    Body { page: Vec<u8>, at: usize, size: u32 },
    Found { dex: FoundDex },
    Failed { begin: u64, size: u32 },
    NotFound,
}

/// A scan for the DEX file around a code item.
#[derive(Clone, Debug, PartialEq, Eq)]
pub struct CodeItemScan {
    pub ptr: u64,
    pub floor: u64,
    pub pos: u64,
    pub phase: BackPhase,
}

impl CodeItemScan {
    /// The place that the scan is at lies between the floor and the code item.
    pub open spec fn wf(&self) -> bool {
        &&& self.floor <= self.pos <= self.ptr
        &&& match self.phase {
            BackPhase::Header { page, at } => at + 4 <= page.len() && self.pos + at <= self.ptr && at
                + HEADER_LEN > page.len(),
            BackPhase::Body { page, at, size } => at + 4 <= page.len() && self.pos + at <= self.ptr,
            _ => true,
        }
    }

    /// What the scan comes to in a memory.
    pub open spec fn outcome(&self, mem: Memory) -> BackResult {
        let next = dex_over(mem, self.pos - SCAN_STEP, self.floor as int, self.ptr);
        match self.phase {
            BackPhase::Page => dex_over(mem, self.pos as int, self.floor as int, self.ptr),
            BackPhase::Header { page, at } => {
                let rest = page_over(mem, page@, self.pos, at + 4, self.ptr, next);
                match size_in(mem, page@, self.pos, at as int, self.ptr) {
                    Some(size) => body_over(mem, (self.pos + at) as u64, size, rest),
                    None => rest,
                }
            },
            BackPhase::Body { page, at, size } => body_over(
                mem,
                (self.pos + at) as u64,
                size,
                page_over(mem, page@, self.pos, at + 4, self.ptr, next),
            ),
            BackPhase::Found { dex } => Ok(Some(dex@)),
            BackPhase::Failed { begin, size } => Err((begin, size)),
            BackPhase::NotFound => Ok(None),
        }
    }

    /// The read that the scan needs next.
    pub open spec fn step(&self) -> ScanStep {
        match self.phase {
            BackPhase::Page => ScanStep::Read { addr: self.pos, len: SCAN_STEP as u32 },
            BackPhase::Header { page, at } => ScanStep::Read {
                addr: (self.pos + at) as u64,
                len: HEADER_LEN,
            },
            BackPhase::Body { page, at, size } => ScanStep::Read {
                addr: (self.pos + at) as u64,
                len: size,
            },
            _ => ScanStep::Done,
        }
    }

    /// How far the scan is from its end.
    pub open spec fn left(&self) -> (int, int, int) {
        match self.phase {
            BackPhase::Page => (self.pos + 1, 0, 0),
            BackPhase::Header { page, at } => (self.pos as int, page@.len() - at, 1),
            BackPhase::Body { page, at, size } => (self.pos as int, page@.len() - at, 0),
            _ => (0, 0, 0),
        }
    }

    /// Starts a scan from a code item.
    pub fn new(code_item_ptr: u64) -> (r: Self)
        ensures
            r.wf(),
            forall|mem: Memory| #[trigger] r.outcome(mem) == dex_of_code_item(mem, code_item_ptr),
    {
        let floor: u64 = if code_item_ptr < CODE_ITEM_BACKSCAN_LIMIT {
            0
        } else {
            code_item_ptr - CODE_ITEM_BACKSCAN_LIMIT
        };
        let pos: u64 = code_item_ptr - code_item_ptr % SCAN_STEP;
        let r = if code_item_ptr == 0 {
            CodeItemScan { ptr: code_item_ptr, floor, pos, phase: BackPhase::NotFound }
        } else {
            CodeItemScan { ptr: code_item_ptr, floor, pos, phase: BackPhase::Page }
        };
        assert forall|mem: Memory| #[trigger] r.outcome(mem) == dex_of_code_item(mem, code_item_ptr) by {
            if code_item_ptr != 0 {
                lemma_floor(mem, pos as int, code_item_ptr - CODE_ITEM_BACKSCAN_LIMIT, code_item_ptr);
            }
        }
        r
    }

    /// The scan is before a page, where it can be stopped.
    pub open spec fn at_page(&self) -> bool {
        self.phase is Page
    }

    /// Whether the scan is before a page, where it can be stopped.
    pub fn may_stop(&self) -> (r: bool)
        ensures
            r == self.at_page(),
    {
        match self.phase {
            BackPhase::Page => true,
            _ => false,
        }
    }

    /// Stops the scan before a page. It finds nothing.
    pub fn stop(&mut self)
        requires
            old(self).wf(),
            old(self).at_page(),
        ensures
            final(self).wf(),
            final(self).step() == ScanStep::Done,
            forall|mem: Memory| #[trigger] final(self).outcome(mem) == Ok::<
                Option<DexHit>,
                (u64, u32),
            >(None),
    {
        self.phase = BackPhase::NotFound;
    }

    /// The read that the scan needs next.
    pub fn next(&self) -> (r: ScanStep)
        requires
            self.wf(),
        ensures
            r == self.step(),
    {
        match &self.phase {
            BackPhase::Page => ScanStep::Read { addr: self.pos, len: SCAN_STEP as u32 },
            BackPhase::Header { page: _, at } => ScanStep::Read {
                addr: self.pos + *at as u64,
                len: HEADER_LEN,
            },
            BackPhase::Body { page: _, at, size } => ScanStep::Read {
                addr: self.pos + *at as u64,
                len: *size,
            },
            _ => ScanStep::Done,
        }
    }

    /// Goes to the page before.
    fn previous_page(&mut self)
        requires
            old(self).floor <= old(self).pos <= old(self).ptr,
        ensures
            final(self).wf(),
            final(self).ptr == old(self).ptr,
            forall|mem: Memory| #[trigger]
                final(self).outcome(mem) == dex_over(
                    mem,
                    old(self).pos - SCAN_STEP,
                    old(self).floor as int,
                    old(self).ptr,
                ),
            final(self).left().0 <= old(self).pos,
            final(self).left().1 == 0 && final(self).left().2 == 0,
            final(self).left().0 >= 0,
    {
        if self.pos >= SCAN_STEP && self.pos - SCAN_STEP >= self.floor {
            self.pos = self.pos - SCAN_STEP;
            self.phase = BackPhase::Page;
        } else {
            self.phase = BackPhase::NotFound;
        }
    }

    /// Goes to the next magic number in the page, from `off` on, or to the page before.
    fn seek(&mut self, page: Vec<u8>, off: usize)
        requires
            old(self).floor <= old(self).pos <= old(self).ptr,
            off <= page@.len(),
        ensures
            final(self).wf(),
            final(self).ptr == old(self).ptr,
            forall|mem: Memory| #[trigger]
                final(self).outcome(mem) == page_over(
                    mem,
                    page@,
                    old(self).pos,
                    off as int,
                    old(self).ptr,
                    dex_over(
                        mem,
                        old(self).pos - SCAN_STEP,
                        old(self).floor as int,
                        old(self).ptr,
                    ),
                ),
            final(self).left().0 <= old(self).pos,
            final(self).left().1 <= page@.len() - off,
            final(self).left().0 >= 0 && final(self).left().1 >= 0 && final(self).left().2 >= 0,
    {
        let ghost before = *self;
        let ghost p = page@;
        let mut at: usize = off;
        while at <= page.len()
            invariant
                before == *old(self),
                before == *self,
                self.floor <= self.pos <= self.ptr,
                p == page@,
                off <= at <= page.len(),
                forall|mem: Memory, otherwise: BackResult|
                    #![trigger page_over(mem, p, before.pos, off as int, before.ptr, otherwise)]
                    page_over(mem, p, before.pos, off as int, before.ptr, otherwise) == page_over(
                        mem,
                        p,
                        before.pos,
                        at as int,
                        before.ptr,
                        otherwise,
                    ),
            ensures
                before == *self,
                forall|mem: Memory, otherwise: BackResult|
                    #![trigger page_over(mem, p, before.pos, off as int, before.ptr, otherwise)]
                    page_over(mem, p, before.pos, off as int, before.ptr, otherwise) == otherwise,
            decreases page.len() - at,
        {
            match find_magic(page.as_slice(), at) {
                None => {
                    break;
                },
                Some(i) => {
                    if i as u64 > self.ptr - self.pos {
                        break;
                    }
                    if page.len() - i < HEADER_LEN as usize {
                        self.phase = BackPhase::Header { page, at: i };
                        return;
                    }
                    let begin: u64 = self.pos + i as u64;
                    let header = slice_subrange(page.as_slice(), i, i + HEADER_LEN as usize);
                    if let Some(size) = validate_dex_header_contains(header, begin, self.ptr) {
                        self.phase = BackPhase::Body { page, at: i, size };
                        return;
                    }
                    at = i + 4;
                },
            }
        }
        self.previous_page();
    }

    /// Takes what the read gave, which the scan asked for.
    pub fn supply(&mut self, data: Option<Vec<u8>>)
        requires
            old(self).wf(),
        ensures
            final(self).wf(),
            forall|mem: Memory|
                #![trigger final(self).outcome(mem)]
                (old(self).step() matches ScanStep::Read { addr, len } && mem(addr, len) == read_view(
                    data,
                )) ==> final(self).outcome(mem) == old(self).outcome(mem),
            old(self).step() != ScanStep::Done ==> before_end(final(self).left(), old(self).left()),
            old(self).step() == ScanStep::Done ==> *final(self) == *old(self),
    {
        let ghost before = *self;
        let ghost given = read_view(data);
        let mut phase = BackPhase::NotFound;
        std::mem::swap(&mut phase, &mut self.phase);
        match phase {
            BackPhase::Page => {
                match data {
                    Some(page) => self.seek(page, 0),
                    None => self.previous_page(),
                }
                assert forall|mem: Memory| mem(before.pos, SCAN_STEP as u32) == given implies
                    #[trigger] self.outcome(mem) == before.outcome(mem) by {}
            },
            BackPhase::Header { page, at } => {
                let begin: u64 = self.pos + at as u64;
                let size: Option<u32> = match &data {
                    Some(header) => validate_dex_header_contains(header.as_slice(), begin, self.ptr),
                    None => None,
                };
                match size {
                    Some(size) => {
                        self.phase = BackPhase::Body { page, at, size };
                    },
                    None => self.seek(page, at + 4),
                }
                assert forall|mem: Memory| mem(begin, HEADER_LEN) == given implies
                    #[trigger] self.outcome(mem) == before.outcome(mem) by {}
            },
            BackPhase::Body { page, at, size } => {
                let begin: u64 = self.pos + at as u64;
                match data {
                    None => {
                        self.phase = BackPhase::Failed { begin, size };
                    },
                    Some(bytes) => {
                        if parses_as_dex(bytes.as_slice()) {
                            self.phase = BackPhase::Found { dex: FoundDex { begin, size, bytes } };
                        } else {
                            self.seek(page, at + 4);
                        }
                    },
                }
                assert forall|mem: Memory| mem(begin, size) == given implies #[trigger] self.outcome(
                    mem,
                ) == before.outcome(mem) by {}
            },
            other => {
                self.phase = other;
            },
        }
    }

    /// What the scan came to, once it is done.
    pub fn finish(self) -> (r: Result<Option<FoundDex>, (u64, u32)>)
        requires
            self.step() == ScanStep::Done,
        ensures
            forall|mem: Memory| #[trigger]
                self.outcome(mem) == (match r {
                    Ok(Some(dex)) => Ok::<Option<DexHit>, (u64, u32)>(Some(dex@)),
                    Ok(None) => Ok(None),
                    Err(e) => Err(e),
                }),
    {
        match self.phase {
            BackPhase::Found { dex } => Ok(Some(dex)),
            BackPhase::Failed { begin, size } => Err((begin, size)),
            _ => Ok(None),
        }
    }
}

/// A floor below zero is no floor.
proof fn lemma_floor(mem: Memory, pos: int, floor: int, ptr: u64)
    ensures
        dex_over(mem, pos, floor, ptr) == dex_over(
            mem,
            pos,
            if floor < 0 {
                0
            } else {
                floor
            },
            ptr,
        ),
    decreases pos + SCAN_STEP,
{
    if pos >= 0 && pos >= floor {
        lemma_floor(mem, pos - SCAN_STEP, floor, ptr);
    }
}

// ---------------------------------------------------------------------------
// Laws
// ---------------------------------------------------------------------------

/// A file that starts at or before `ptr` and reaches over it, as the memory holds it.
pub open spec fn is_file_over(mem: Memory, hit: DexHit, ptr: u64) -> bool {
    &&& hit.begin <= ptr < hit.begin + hit.size
    &&& mem(hit.begin, hit.size) == Some(hit.bytes)
    &&& is_dex(hit.bytes)
}

proof fn lemma_page_over_is_valid(
    mem: Memory,
    page: Seq<u8>,
    pos: u64,
    off: int,
    ptr: u64,
    otherwise: BackResult,
)
    requires
        0 <= off,
        otherwise matches Ok(Some(hit)) ==> is_file_over(mem, hit, ptr),
    ensures
        page_over(mem, page, pos, off, ptr, otherwise) matches Ok(Some(hit)) ==> is_file_over(
            mem,
            hit,
            ptr,
        ),
    decreases page.len() - off + 4,
{
    if let Some(i) = next_magic(page, off) {
        if !(i < off || i > page.len() - 4 || pos + i > ptr) {
            lemma_page_over_is_valid(mem, page, pos, i + 4, ptr, otherwise);
        }
    }
}

proof fn lemma_dex_over_is_valid(mem: Memory, pos: int, floor: int, ptr: u64)
    ensures
        dex_over(mem, pos, floor, ptr) matches Ok(Some(hit)) ==> is_file_over(mem, hit, ptr),
    decreases pos + SCAN_STEP,
{
    if !(pos < 0 || pos < floor) {
        lemma_dex_over_is_valid(mem, pos - SCAN_STEP, floor, ptr);
        if let Some(page) = mem(pos as u64, SCAN_STEP as u32) {
            lemma_page_over_is_valid(
                mem,
                page,
                pos as u64,
                0,
                ptr,
                dex_over(mem, pos - SCAN_STEP, floor, ptr),
            );
        }
    }
}

/// The file that a scan from a code item finds is one that holds the code item.
pub proof fn law_found_file_holds_the_code_item(mem: Memory, ptr: u64)
    ensures
        dex_of_code_item(mem, ptr) matches Ok(Some(hit)) ==> is_file_over(mem, hit, ptr),
{
    if ptr != 0 {
        lemma_dex_over_is_valid(
            mem,
            ptr - ptr as int % SCAN_STEP as int,
            ptr - CODE_ITEM_BACKSCAN_LIMIT,
            ptr,
        );
    }
}

/// A page without a mark at or before the code item leads on to the next one.
proof fn lemma_page_is_passed_over(
    mem: Memory,
    page: Seq<u8>,
    pos: u64,
    ptr: u64,
    otherwise: BackResult,
)
    requires
        forall|j: int| #[trigger] occurs_at(page, dex_mark(), j) ==> pos + j > ptr,
    ensures
        page_over(mem, page, pos, 0, ptr, otherwise) == otherwise,
{
    assert(DEX_MAGIC_BYTES@ =~= dex_mark());
    if let Some(i) = next_magic(page, 0) {
        lemma_next_of(page, DEX_MAGIC_BYTES@, 0, i);
        assert(occurs_at(page, dex_mark(), i));
    }
}

/// Pages without a mark, and pages that cannot be read, are passed over.
proof fn lemma_pages_are_passed_over(mem: Memory, pos: int, to: int, floor: int, ptr: u64)
    requires
        0 <= to <= pos <= ptr,
        floor <= to,
        pos % 0x1000 == 0,
        to % 0x1000 == 0,
        forall|p: u64, j: int|
            to < p <= pos && p % 0x1000 == 0 && mem(p, 0x1000) is Some && #[trigger] occurs_at(
                mem(p, 0x1000)->Some_0,
                dex_mark(),
                j,
            ) ==> p + j > ptr,
    ensures
        dex_over(mem, pos, floor, ptr) == dex_over(mem, to, floor, ptr),
    decreases pos - to,
{
    if to < pos {
        lemma_pages_are_passed_over(mem, pos - 0x1000, to, floor, ptr);
        if let Some(page) = mem(pos as u64, 0x1000) {
            lemma_page_is_passed_over(
                mem,
                page,
                pos as u64,
                ptr,
                dex_over(mem, pos - 0x1000, floor, ptr),
            );
        }
    }
}

/// The first mark of a page leads to the file that starts there.
proof fn lemma_first_mark_leads_to_file(
    mem: Memory,
    page: Seq<u8>,
    pos: u64,
    i: int,
    ptr: u64,
    h: DexHeader,
    otherwise: BackResult,
)
    requires
        is_plausible(h),
        0 <= i,
        pos + i <= ptr < pos + i + h.file_size <= u64::MAX,
        occurs_at(page, dex_mark(), i),
        forall|j: int| 0 <= j < i ==> !occurs_at(page, dex_mark(), j),
        header_in(mem, page, pos, i) == Some(header_bytes(h)),
    ensures
        page_over(mem, page, pos, 0, ptr, otherwise) == body_over(
            mem,
            (pos + i) as u64,
            h.file_size,
            page_over(mem, page, pos, i + 4, ptr, otherwise),
        ),
{
    assert(DEX_MAGIC_BYTES@ =~= dex_mark());
    assert(first_occurrence(page, DEX_MAGIC_BYTES@, 0, i));
    lemma_next_of(page, DEX_MAGIC_BYTES@, 0, i);
    law_plausible_header_tells_the_size(h, seq![]);
    assert(header_bytes(h) + Seq::<u8>::empty() =~= header_bytes(h));
    assert(size_in(mem, page, pos, i, ptr) == Some(h.file_size));
}

/// The file around a code item is found: it has a plausible header, its mark lies whole in a
/// page that is at most 64 MiB before the code item, and no other mark stands in that page
/// before it or in a page between it and the code item. Pages between that cannot be read do
/// not matter. A file that cannot be read is reported.
pub proof fn law_file_around_code_item_is_found(
    mem: Memory,
    ptr: u64,
    begin: u64,
    page: Seq<u8>,
    h: DexHeader,
    bytes: Seq<u8>,
)
    requires
        is_plausible(h),
        begin <= ptr < begin + h.file_size <= u64::MAX,
        ptr != 0,
        ptr - (begin - begin as int % 0x1000) <= 0x400_0000,
        mem((begin - begin as int % 0x1000) as u64, 0x1000) == Some(page),
        ({
            let i = begin as int % 0x1000;
            &&& occurs_at(page, dex_mark(), i)
            &&& forall|j: int| 0 <= j < i ==> !occurs_at(page, dex_mark(), j)
            &&& if i + 0x70 <= page.len() {
                page.subrange(i, i + 0x70) == header_bytes(h)
            } else {
                mem(begin, 0x70) == Some(header_bytes(h))
            }
        }),
        forall|p: u64, j: int|
            begin < p <= ptr && p % 0x1000 == 0 && mem(p, 0x1000) is Some && #[trigger] occurs_at(
                mem(p, 0x1000)->Some_0,
                dex_mark(),
                j,
            ) ==> p + j > ptr,
        bytes.len() >= 0x70,
        bytes.take(4) == dex_mark(),
    ensures
        mem(begin, h.file_size) == Some(bytes) ==> dex_of_code_item(mem, ptr) == Ok::<
            Option<DexHit>,
            (u64, u32),
        >(Some(DexHit { begin, size: h.file_size, bytes })),
        mem(begin, h.file_size) is None ==> dex_of_code_item(mem, ptr) == Err::<
            Option<DexHit>,
            (u64, u32),
        >((begin, h.file_size)),
{
    let i = begin as int % 0x1000;
    let to = begin - i;
    let pos = ptr - ptr as int % 0x1000;
    let floor = ptr - 0x400_0000;
    let next = dex_over(mem, to - 0x1000, floor, ptr);
    lemma_pages_are_passed_over(mem, pos, to, floor, ptr);
    lemma_first_mark_leads_to_file(mem, page, to as u64, i, ptr, h, next);
    law_dex_files_start_with_the_mark(bytes);
}

proof fn lemma_page_over_is_near(
    mem: Memory,
    page: Seq<u8>,
    pos: u64,
    off: int,
    ptr: u64,
    low: int,
    otherwise: BackResult,
)
    requires
        0 <= off,
        low <= pos,
        otherwise matches Ok(Some(hit)) ==> low <= hit.begin <= ptr,
    ensures
        page_over(mem, page, pos, off, ptr, otherwise) matches Ok(Some(hit)) ==> low <= hit.begin
            <= ptr,
    decreases page.len() - off + 4,
{
    if let Some(i) = next_magic(page, off) {
        if !(i < off || i > page.len() - 4 || pos + i > ptr) {
            lemma_page_over_is_near(mem, page, pos, i + 4, ptr, low, otherwise);
        }
    }
}

proof fn lemma_dex_over_is_near(mem: Memory, pos: int, floor: int, ptr: u64)
    requires
        pos <= ptr,
    ensures
        dex_over(mem, pos, floor, ptr) matches Ok(Some(hit)) ==> floor <= hit.begin <= ptr,
    decreases pos + SCAN_STEP,
{
    if !(pos < 0 || pos < floor) {
        lemma_dex_over_is_near(mem, pos - SCAN_STEP, floor, ptr);
        if let Some(page) = mem(pos as u64, SCAN_STEP as u32) {
            lemma_page_over_is_near(
                mem,
                page,
                pos as u64,
                0,
                ptr,
                floor,
                dex_over(mem, pos - SCAN_STEP, floor, ptr),
            );
        }
    }
}

/// The file that a scan finds starts at most 64 MiB before the code item.
pub proof fn law_found_file_is_near(mem: Memory, ptr: u64)
    ensures
        dex_of_code_item(mem, ptr) matches Ok(Some(hit)) ==> ptr - 0x400_0000 <= hit.begin <= ptr,
{
    if ptr != 0 {
        lemma_dex_over_is_near(
            mem,
            ptr - ptr as int % SCAN_STEP as int,
            ptr - CODE_ITEM_BACKSCAN_LIMIT,
            ptr,
        );
    }
}

} // verus!
