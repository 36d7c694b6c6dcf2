//! Looking for DEX files in the memory of another process.
//!
//! A scan does not read memory itself. It names the next read, and takes what the read
//! gave. Its outcome is stated for any memory: as long as every read gives what that
//! memory holds, the scan ends with the files that stand there.
use crate::bytes::{find_from, first_occurrence, le32_at, next_of, occurs_at, read_le32};
use crate::dex::{has_dex_magic, DexHeader, DexParser, DEX_FILE_MAGIC, DEX_HEADER_SIZE};
use crate::dexlayout::{header_bytes, law_header_is_read_back, lemma_header_fields};
use vstd::prelude::*;

verus! {

/// What a read of memory gives at an address for a length: the bytes, which may be fewer
/// than asked for, or nothing.
pub type Memory = spec_fn(u64, u32) -> Option<Seq<u8>>;

/// The bytes that a DEX file starts with, `dex\n`.
pub const DEX_MAGIC_BYTES: [u8; 4] = [0x64, 0x65, 0x78, 0x0a];

/// The size of a DEX header, as a read asks for it.
pub const HEADER_LEN: u32 = 0x70;

/// The byte order mark of a DEX header.
pub const DEX_ENDIAN_CONSTANT: u32 = 0x1234_5678;

/// The largest DEX file that is taken for one.
pub const MAX_DEX_FILE_SIZE: u32 = 0x4000_0000;

/// The distance between two reads of a scan.
pub const SCAN_STEP: u64 = 0x1000;

// ---------------------------------------------------------------------------
// Headers
// ---------------------------------------------------------------------------

/// The file size that a plausible DEX header states.
pub open spec fn dex_size(header: Seq<u8>) -> Option<u32> {
    let file_size = le32_at(header, 0x20);
    let map_off = le32_at(header, 0x34);
    if header.len() >= DEX_HEADER_SIZE && has_dex_magic(header) && DEX_HEADER_SIZE <= file_size
        <= MAX_DEX_FILE_SIZE && le32_at(header, 0x24) == DEX_HEADER_SIZE && le32_at(header, 0x28)
        == DEX_ENDIAN_CONSTANT && (map_off == 0 || map_off < file_size) {
        Some(file_size)
    } else {
        None
    }
}

/// The file size that a plausible DEX header at `begin` states, if the file reaches over
/// `addr`.
pub open spec fn dex_size_over(header: Seq<u8>, begin: u64, addr: u64) -> Option<u32> {
    match dex_size(header) {
        Some(size) => if begin + size <= u64::MAX && begin <= addr < begin + size {
            Some(size)
        } else {
            None
        },
        None => None,
    }
}

/// Tests a DEX header, and gives the file size that it states.
pub fn validate_dex_header(header: &[u8]) -> (r: Option<u32>)
    ensures
        r == dex_size(header@),
{
    if header.len() < DEX_HEADER_SIZE || read_le32(header, 0) != DEX_FILE_MAGIC {
        return None;
    }
    let file_size: u32 = read_le32(header, 0x20);
    let map_off: u32 = read_le32(header, 0x34);
    if file_size < HEADER_LEN || file_size > MAX_DEX_FILE_SIZE || read_le32(header, 0x24)
        != HEADER_LEN || read_le32(header, 0x28) != DEX_ENDIAN_CONSTANT || (map_off != 0 && map_off
        >= file_size) {
        return None;
    }
    Some(file_size)
}

/// Tests a DEX header at `begin`, and gives the file size that it states, if the file
/// reaches over `addr`.
pub fn validate_dex_header_contains(header: &[u8], begin: u64, addr: u64) -> (r: Option<u32>)
    ensures
        r == dex_size_over(header@, begin, addr),
{
    match validate_dex_header(header) {
        None => None,
        Some(size) => {
            if size as u64 > u64::MAX - begin || addr < begin || addr >= begin + size as u64 {
                None
            } else {
                Some(size)
            }
        },
    }
}

/// The bytes can be parsed as a DEX file.
pub open spec fn is_dex(bytes: Seq<u8>) -> bool {
    bytes.len() >= DEX_HEADER_SIZE && has_dex_magic(bytes)
}

/// Whether the bytes can be parsed as a DEX file.
pub fn parses_as_dex(bytes: &[u8]) -> (r: bool)
    ensures
        r == is_dex(bytes@),
{
    DexParser::new(bytes).is_ok()
}

// ---------------------------------------------------------------------------
// Finds
// ---------------------------------------------------------------------------

/// A DEX file that was found in memory.
#[derive(Clone, Debug, PartialEq, Eq)]
pub struct FoundDex {
    pub begin: u64,
    pub size: u32,
    pub bytes: Vec<u8>,
}

/// What a find is.
pub struct DexHit {
    pub begin: u64,
    pub size: u32,
    pub bytes: Seq<u8>,
}

impl View for FoundDex {
    type V = DexHit;

    open spec fn view(&self) -> DexHit {
        DexHit { begin: self.begin, size: self.size, bytes: self.bytes@ }
    }
}

/// What some finds are.
pub open spec fn hits_of(found: Seq<FoundDex>) -> Seq<DexHit> {
    found.map_values(|f: FoundDex| f@)
}

/// What a read gave.
pub open spec fn read_view(data: Option<Vec<u8>>) -> Option<Seq<u8>> {
    match data {
        Some(v) => Some(v@),
        None => None,
    }
}

/// A step of a scan: the next read, or nothing more.
#[derive(Clone, Copy, Debug, PartialEq, Eq, Structural)]
pub enum ScanStep {
    Read { addr: u64, len: u32 },
    Done,
}

/// The position of the next magic number in a page, from `off` on.
pub open spec fn next_magic(page: Seq<u8>, off: int) -> Option<int> {
    next_of(page, DEX_MAGIC_BYTES@, off)
}

/// The position of the next magic number in a page.
pub fn find_magic(page: &[u8], off: usize) -> (r: Option<usize>)
    ensures
        match r {
            Some(i) => next_magic(page@, off as int) == Some(i as int) && off <= i && i + 4
                <= page@.len(),
            None => next_magic(page@, off as int) is None,
        },
{
    let magic: [u8; 4] = DEX_MAGIC_BYTES;
    find_from(page, magic.as_slice(), off)
}

// ---------------------------------------------------------------------------
// Forward scan of a region
// ---------------------------------------------------------------------------

/// The file of a stated size at `begin`, if it can be read and parsed.
pub open spec fn body_hit(mem: Memory, begin: u64, size: u32) -> Seq<DexHit> {
    match mem(begin, size) {
        Some(bytes) => if is_dex(bytes) {
            seq![DexHit { begin, size, bytes }]
        } else {
            seq![]
        },
        None => seq![],
    }
}

/// The file at `begin`, if its header can be read and is plausible, and it ends by `end`.
pub open spec fn hit_at(mem: Memory, begin: u64, end: u64) -> Seq<DexHit> {
    match mem(begin, HEADER_LEN) {
        Some(header) => match dex_size(header) {
            Some(size) => if begin + size <= end {
                body_hit(mem, begin, size)
            } else {
                seq![]
            },
            None => seq![],
        },
        None => seq![],
    }
}

/// The files that start in a page at `pos`, from offset `off` on: one for each magic
/// number behind which a header still fits before `end`.
pub open spec fn page_hits(mem: Memory, page: Seq<u8>, pos: u64, off: int, end: u64) -> Seq<DexHit>
    decreases page.len() - off + 4,
{
    match next_magic(page, off) {
        None => seq![],
        Some(i) => if i < off || i > page.len() - 4 || pos + i + HEADER_LEN > end {
            seq![]
        } else {
            hit_at(mem, (pos + i) as u64, end) + page_hits(mem, page, pos, i + 4, end)
        },
    }
}

/// The length of the read at `pos`: a step, or less where `clip` is set and the region
/// ends before.
pub open spec fn page_len(pos: int, end: u64, clip: bool) -> u32 {
    if clip && end - pos < SCAN_STEP {
        (end - pos) as u32
    } else {
        SCAN_STEP as u32
    }
}

/// The files in a region from `pos` on, page by page.
pub open spec fn region_hits(mem: Memory, pos: int, end: u64, clip: bool) -> Seq<DexHit>
    decreases end - pos + SCAN_STEP,
{
    if pos < 0 || pos + HEADER_LEN > end {
        seq![]
    } else {
        let rest = region_hits(mem, pos + SCAN_STEP, end, clip);
        match mem(pos as u64, page_len(pos, end, clip)) {
            Some(page) => page_hits(mem, page, pos as u64, 0, end) + rest,
            None => rest,
        }
    }
}

/// Where a scan is: before a page, a header or a file is read, or at its end.
#[derive(Clone, Debug, PartialEq, Eq)]
pub enum RegionPhase {
    Page,
    Header { page: Vec<u8>, at: usize },
    Body { page: Vec<u8>, at: usize, size: u32 },
    Finished,
}

/// A scan of a region.
#[derive(Clone, Debug, PartialEq, Eq)]
pub struct RegionScan {
    pub pos: u64,
    pub end: u64,
    pub clip: bool,
    pub phase: RegionPhase,
    pub found: Vec<FoundDex>,
}

impl RegionScan {
    /// The place that the scan is at lies in the region.
    pub open spec fn wf(&self) -> bool {
        match self.phase {
            RegionPhase::Page => self.pos + HEADER_LEN <= self.end,
            RegionPhase::Header { page, at } => at + 4 <= page.len() && self.pos + at + HEADER_LEN
                <= self.end,
            RegionPhase::Body { page, at, size } => at + 4 <= page.len() && self.pos + at
                + HEADER_LEN <= self.end,
            RegionPhase::Finished => true,
        }
    }

    /// The files that the scan has yet to find.
    pub open spec fn rest(&self, mem: Memory) -> Seq<DexHit> {
        let next = region_hits(mem, self.pos + SCAN_STEP, self.end, self.clip);
        match self.phase {
            RegionPhase::Page => region_hits(mem, self.pos as int, self.end, self.clip),
            RegionPhase::Header { page, at } => hit_at(mem, (self.pos + at) as u64, self.end) + (
            page_hits(mem, page@, self.pos, at + 4, self.end) + next),
            RegionPhase::Body { page, at, size } => body_hit(mem, (self.pos + at) as u64, size) + (
            page_hits(mem, page@, self.pos, at + 4, self.end) + next),
            RegionPhase::Finished => seq![],
        }
    }

    /// All files that the scan finds in a memory: those found, and those yet to find.
    pub open spec fn outcome(&self, mem: Memory) -> Seq<DexHit> {
        hits_of(self.found@) + self.rest(mem)
    }

    /// How far the scan is from its end: the pages that are left, the place in the page,
    /// and the reads for that place.
    pub open spec fn left(&self) -> (int, int, int) {
        match self.phase {
            RegionPhase::Page => (self.end - self.pos + 1, 0, 0),
            RegionPhase::Header { page, at } => (self.end - self.pos, page@.len() - at, 1),
            RegionPhase::Body { page, at, size } => (self.end - self.pos, page@.len() - at, 0),
            RegionPhase::Finished => (0, 0, 0),
        }
    }

    /// The read that the scan needs next.
    pub open spec fn step(&self) -> ScanStep {
        match self.phase {
            RegionPhase::Page => ScanStep::Read {
                addr: self.pos,
                len: page_len(self.pos as int, self.end, self.clip),
            },
            RegionPhase::Header { page, at } => ScanStep::Read {
                addr: (self.pos + at) as u64,
                len: HEADER_LEN,
            },
            RegionPhase::Body { page, at, size } => ScanStep::Read {
                addr: (self.pos + at) as u64,
                len: size,
            },
            RegionPhase::Finished => ScanStep::Done,
        }
    }

    /// Starts a scan from `start` up to `end`. With `clip`, no read reaches beyond `end`.
    pub fn new(start: u64, end: u64, clip: bool) -> (r: Self)
        ensures
            r.wf(),
            forall|mem: Memory| #[trigger] r.outcome(mem) == region_hits(mem, start as int, end, clip),
    {
        let phase = if end >= HEADER_LEN as u64 && start <= end - HEADER_LEN as u64 {
            RegionPhase::Page
        } else {
            RegionPhase::Finished
        };
        let r = RegionScan { pos: start, end, clip, phase, found: Vec::new() };
        assert forall|mem: Memory| #[trigger] r.outcome(mem) == region_hits(mem, start as int, end, clip) by {
            assert(r.outcome(mem) =~= region_hits(mem, start as int, end, clip));
        }
        r
    }

    /// The scan is before a page, where it can be stopped.
    pub open spec fn at_page(&self) -> bool {
        self.phase is Page
    }

    /// Whether the scan is before a page, where it can be stopped.
    pub fn may_stop(&self) -> (r: bool)
        ensures
            r == self.at_page(),
    {
        match self.phase {
            RegionPhase::Page => true,
            _ => false,
        }
    }

    /// Stops the scan before a page. What it has found so far is all it finds.
    pub fn stop(&mut self)
        requires
            old(self).at_page(),
        ensures
            final(self).wf(),
            final(self).step() == ScanStep::Done,
            final(self).found == old(self).found,
            forall|mem: Memory| #[trigger]
                final(self).outcome(mem) == hits_of(old(self).found@),
    {
        self.phase = RegionPhase::Finished;
        assert forall|mem: Memory| #[trigger] self.outcome(mem) == hits_of(self.found@) by {
            assert(self.outcome(mem) =~= hits_of(self.found@));
        }
    }

    /// The read that the scan needs next.
    pub fn next(&self) -> (r: ScanStep)
        requires
            self.wf(),
        ensures
            r == self.step(),
            r == ScanStep::Done ==> forall|mem: Memory| #[trigger]
                self.outcome(mem) == hits_of(self.found@),
    {
        match &self.phase {
            RegionPhase::Page => {
                let len: u32 = if self.clip && self.end - self.pos < SCAN_STEP {
                    (self.end - self.pos) as u32
                } else {
                    SCAN_STEP as u32
                };
                ScanStep::Read { addr: self.pos, len }
            },
            RegionPhase::Header { page: _, at } => ScanStep::Read {
                addr: self.pos + *at as u64,
                len: HEADER_LEN,
            },
            RegionPhase::Body { page: _, at, size } => ScanStep::Read {
                addr: self.pos + *at as u64,
                len: *size,
            },
            RegionPhase::Finished => {
                assert forall|mem: Memory| #[trigger] self.outcome(mem) == hits_of(self.found@) by {
                    assert(self.outcome(mem) =~= hits_of(self.found@));
                }
                ScanStep::Done
            },
        }
    }

    /// Goes to the next page.
    fn next_page(&mut self)
        requires
            old(self).pos + HEADER_LEN <= old(self).end,
        ensures
            final(self).wf(),
            final(self).found == old(self).found,
            final(self).end == old(self).end,
            final(self).clip == old(self).clip,
            forall|mem: Memory| #[trigger]
                final(self).rest(mem) == region_hits(
                    mem,
                    old(self).pos + SCAN_STEP,
                    old(self).end,
                    old(self).clip,
                ),
            final(self).left().0 < old(self).end - old(self).pos,
            final(self).left().0 >= 0,
    {
        let room: u64 = self.end - self.pos;
        if room >= SCAN_STEP + HEADER_LEN as u64 {
            self.pos = self.pos + SCAN_STEP;
            self.phase = RegionPhase::Page;
        } else {
            self.phase = RegionPhase::Finished;
            assert forall|mem: Memory| #[trigger]
                self.rest(mem) == region_hits(mem, self.pos + SCAN_STEP, self.end, self.clip) by {
                assert(self.rest(mem) =~= region_hits(
                    mem,
                    self.pos + SCAN_STEP,
                    self.end,
                    self.clip,
                ));
            }
        }
    }

    /// Goes to the next magic number in the page, from `off` on, or to the next page.
    fn seek(&mut self, page: Vec<u8>, off: usize)
        requires
            old(self).pos + HEADER_LEN <= old(self).end,
        ensures
            final(self).wf(),
            final(self).found == old(self).found,
            final(self).end == old(self).end,
            final(self).clip == old(self).clip,
            forall|mem: Memory| #[trigger]
                final(self).rest(mem) == page_hits(
                    mem,
                    page@,
                    old(self).pos,
                    off as int,
                    old(self).end,
                ) + region_hits(mem, old(self).pos + SCAN_STEP, old(self).end, old(self).clip),
            final(self).left().0 < old(self).end - old(self).pos || (final(self).left().0
                == old(self).end - old(self).pos && final(self).left().1 <= page@.len() - off),
            final(self).left().0 >= 0 && final(self).left().1 >= 0 && final(self).left().2 >= 0,
    {
        let ghost before = *self;
        let ghost p = page@;
        match find_magic(page.as_slice(), off) {
            Some(at) => {
                let room: u64 = self.end - self.pos - HEADER_LEN as u64;
                if at as u64 <= room {
                    self.phase = RegionPhase::Header { page, at };
                    assert forall|mem: Memory| #[trigger]
                        self.rest(mem) == page_hits(mem, p, before.pos, off as int, before.end)
                            + region_hits(mem, before.pos + SCAN_STEP, before.end, before.clip) by {
                        let next = region_hits(
                            mem,
                            before.pos + SCAN_STEP,
                            before.end,
                            before.clip,
                        );
                        let first = hit_at(mem, (before.pos + at) as u64, before.end);
                        let more = page_hits(mem, p, before.pos, at + 4, before.end);
                        assert((first + more) + next =~= first + (more + next));
                    }
                    return;
                }
            },
            None => {},
        }
        self.next_page();
        assert forall|mem: Memory| #[trigger]
            self.rest(mem) == page_hits(mem, p, before.pos, off as int, before.end) + region_hits(
                mem,
                before.pos + SCAN_STEP,
                before.end,
                before.clip,
            ) by {
            assert(page_hits(mem, p, before.pos, off as int, before.end) =~= Seq::<DexHit>::empty());
            assert(self.rest(mem) =~= Seq::<DexHit>::empty() + self.rest(mem));
        }
    }

    /// Takes what the read gave, which the scan asked for.
    pub fn supply(&mut self, data: Option<Vec<u8>>)
        requires
            old(self).wf(),
        ensures
            final(self).wf(),
            forall|mem: Memory|
                #![trigger final(self).outcome(mem)]
                (old(self).step() matches ScanStep::Read { addr, len } && mem(addr, len) == read_view(
                    data,
                )) ==> final(self).outcome(mem) == old(self).outcome(mem),
            old(self).step() != ScanStep::Done ==> before_end(final(self).left(), old(self).left()),
            old(self).step() == ScanStep::Done ==> *final(self) == *old(self),
    {
        let ghost before = *self;
        let ghost given = read_view(data);
        let mut phase = RegionPhase::Finished;
        std::mem::swap(&mut phase, &mut self.phase);
        match phase {
            RegionPhase::Finished => {},
            RegionPhase::Page => {
                match data {
                    Some(page) => {
                        self.seek(page, 0);
                        assert forall|mem: Memory| mem(before.pos, page_len(before.pos as int, before.end, before.clip))
                            == given implies #[trigger] self.outcome(mem) == before.outcome(mem) by {}
                    },
                    None => {
                        self.next_page();
                        assert forall|mem: Memory| mem(before.pos, page_len(before.pos as int, before.end, before.clip))
                            == given implies #[trigger] self.outcome(mem) == before.outcome(mem) by {}
                    },
                }
            },
            RegionPhase::Header { page, at } => {
                let size: Option<u32> = match &data {
                    Some(header) => validate_dex_header(header.as_slice()),
                    None => None,
                };
                let begin: u64 = self.pos + at as u64;
                match size {
                    Some(size) if size as u64 <= self.end - begin => {
                        self.phase = RegionPhase::Body { page, at, size };
                        assert forall|mem: Memory| mem(begin, HEADER_LEN) == given implies
                            #[trigger] self.outcome(mem) == before.outcome(mem) by {}
                    },
                    _ => {
                        let ghost p = page@;
                        self.seek(page, at + 4);
                        assert forall|mem: Memory| mem(begin, HEADER_LEN) == given implies
                            #[trigger] self.outcome(mem) == before.outcome(mem) by {
                            assert(hit_at(mem, begin, before.end) =~= Seq::<DexHit>::empty());
                            assert(before.rest(mem) =~= self.rest(mem));
                        }
                    },
                }
            },
            RegionPhase::Body { page, at, size } => {
                let begin: u64 = self.pos + at as u64;
                if let Some(bytes) = data {
                    if parses_as_dex(bytes.as_slice()) {
                        let ghost found = self.found@;
                        let hit = FoundDex { begin, size, bytes };
                        self.found.push(hit);
                        assert(hits_of(self.found@) =~= hits_of(found).push(hit@));
                    }
                }
                self.seek(page, at + 4);
                assert forall|mem: Memory| mem(begin, size) == given implies #[trigger] self.outcome(
                    mem,
                ) == before.outcome(mem) by {
                    assert(hits_of(self.found@) =~= hits_of(before.found@) + body_hit(mem, begin, size));
                    assert(before.outcome(mem) =~= self.outcome(mem));
                }
            },
        }
    }
}

/// One place of a scan is nearer to the end than another.
pub open spec fn before_end(a: (int, int, int), b: (int, int, int)) -> bool {
    &&& a.0 >= 0 && a.1 >= 0 && a.2 >= 0
    &&& a.0 < b.0 || (a.0 == b.0 && (a.1 < b.1 || (a.1 == b.1 && a.2 < b.2)))
}

// ---------------------------------------------------------------------------
// Laws
// ---------------------------------------------------------------------------

/// A find is a DEX file whose header states its size, that lies between `start` and `end`,
/// and that is what the memory holds there.
pub open spec fn is_valid_hit(mem: Memory, hit: DexHit, start: int, end: u64) -> bool {
    &&& start <= hit.begin
    &&& hit.begin + hit.size <= end
    &&& mem(hit.begin, HEADER_LEN) matches Some(header) && dex_size(header) == Some(hit.size)
    &&& mem(hit.begin, hit.size) == Some(hit.bytes)
    &&& is_dex(hit.bytes)
}

proof fn lemma_page_hits_are_valid(mem: Memory, page: Seq<u8>, pos: u64, off: int, end: u64)
    requires
        0 <= off,
    ensures
        forall|k: int|
            0 <= k < page_hits(mem, page, pos, off, end).len() ==> is_valid_hit(
                mem,
                #[trigger] page_hits(mem, page, pos, off, end)[k],
                pos as int,
                end,
            ),
    decreases page.len() - off + 4,
{
    if let Some(i) = next_magic(page, off) {
        if !(i < off || i > page.len() - 4 || pos + i + HEADER_LEN > end) {
            lemma_page_hits_are_valid(mem, page, pos, i + 4, end);
            let all = page_hits(mem, page, pos, off, end);
            let first = hit_at(mem, (pos + i) as u64, end);
            let rest = page_hits(mem, page, pos, i + 4, end);
            assert forall|k: int| 0 <= k < all.len() implies is_valid_hit(
                mem,
                #[trigger] all[k],
                pos as int,
                end,
            ) by {
                if k < first.len() {
                    assert(all[k] == first[k]);
                } else {
                    assert(all[k] == rest[k - first.len()]);
                }
            }
        }
    }
}

/// Every file that a scan of a region finds is a valid one inside the region.
pub proof fn law_region_hits_are_valid(mem: Memory, pos: int, end: u64, clip: bool)
    ensures
        forall|k: int|
            0 <= k < region_hits(mem, pos, end, clip).len() ==> is_valid_hit(
                mem,
                #[trigger] region_hits(mem, pos, end, clip)[k],
                pos,
                end,
            ),
    decreases end - pos + SCAN_STEP,
{
    if !(pos < 0 || pos + HEADER_LEN > end) {
        law_region_hits_are_valid(mem, pos + SCAN_STEP, end, clip);
        let all = region_hits(mem, pos, end, clip);
        let rest = region_hits(mem, pos + SCAN_STEP, end, clip);
        match mem(pos as u64, page_len(pos, end, clip)) {
            Some(page) => {
                lemma_page_hits_are_valid(mem, page, pos as u64, 0, end);
                let first = page_hits(mem, page, pos as u64, 0, end);
                assert forall|k: int| 0 <= k < all.len() implies is_valid_hit(
                    mem,
                    #[trigger] all[k],
                    pos,
                    end,
                ) by {
                    if k < first.len() {
                        assert(all[k] == first[k]);
                    } else {
                        assert(all[k] == rest[k - first.len()]);
                    }
                }
            },
            None => {
                assert forall|k: int| 0 <= k < all.len() implies is_valid_hit(
                    mem,
                    #[trigger] all[k],
                    pos,
                    end,
                ) by {
                    assert(all[k] == rest[k]);
                }
            },
        }
    }
}

/// Two magic numbers do not overlap.
proof fn lemma_magic_does_not_overlap(page: Seq<u8>, i: int, j: int)
    requires
        occurs_at(page, DEX_MAGIC_BYTES@, i),
        occurs_at(page, DEX_MAGIC_BYTES@, j),
        i < j,
    ensures
        i + 4 <= j,
{
    let m = DEX_MAGIC_BYTES@;
    assert(m[0] == 0x64 && m[1] == 0x65 && m[2] == 0x78 && m[3] == 0x0a);
    let (a, b) = (page.subrange(i, i + 4), page.subrange(j, j + 4));
    if j < i + 4 {
        assert(b[0] == page[j]);
        assert(a[j - i] == page[j]);
        assert(j - i == 1 || j - i == 2 || j - i == 3);
    }
}

/// A magic number in a page, behind which a header fits before the end, is not passed over.
proof fn lemma_page_misses_nothing(
    mem: Memory,
    page: Seq<u8>,
    pos: u64,
    off: int,
    end: u64,
    i: int,
    hit: DexHit,
)
    requires
        0 <= off <= i,
        occurs_at(page, DEX_MAGIC_BYTES@, i),
        pos + i + HEADER_LEN <= end,
        hit_at(mem, (pos + i) as u64, end).contains(hit),
    ensures
        page_hits(mem, page, pos, off, end).contains(hit),
    decreases i - off,
{
    lemma_next_exists(page, off, i);
    let j = next_of(page, DEX_MAGIC_BYTES@, off)->Some_0;
    let first = hit_at(mem, (pos + j) as u64, end);
    let rest = page_hits(mem, page, pos, j + 4, end);
    let all = page_hits(mem, page, pos, off, end);
    assert(all == first + rest);
    if i == j {
        let k = first.index_of(hit);
        assert(all[k] == hit);
    } else {
        lemma_magic_does_not_overlap(page, j, i);
        lemma_page_misses_nothing(mem, page, pos, j + 4, end, i, hit);
        let k = rest.index_of(hit);
        assert(all[first.len() + k] == hit);
    }
}

/// Where the magic number stands, there is a first one at or before it.
proof fn lemma_next_exists(page: Seq<u8>, off: int, i: int)
    requires
        off <= i,
        occurs_at(page, DEX_MAGIC_BYTES@, i),
    ensures
        next_of(page, DEX_MAGIC_BYTES@, off) matches Some(j) && off <= j <= i && j <= page.len() - 4
            && occurs_at(page, DEX_MAGIC_BYTES@, j),
    decreases i - off,
{
    let m = DEX_MAGIC_BYTES@;
    if exists|k: int| off <= k < i && occurs_at(page, m, k) {
        let k = choose|k: int| off <= k < i && occurs_at(page, m, k);
        lemma_next_exists(page, off, k);
    } else {
        assert(first_occurrence(page, m, off, i));
    }
    let j = next_of(page, m, off)->Some_0;
    assert(first_occurrence(page, m, off, j));
}

/// A scan of a region misses no file whose magic number lies whole in a page that could be
/// read, whose header is plausible and that ends inside the region.
pub proof fn law_region_scan_misses_nothing(
    mem: Memory,
    pos: int,
    end: u64,
    clip: bool,
    at: int,
    page: Seq<u8>,
    i: int,
    hit: DexHit,
)
    requires
        0 <= pos <= at,
        (at - pos) % (SCAN_STEP as int) == 0,
        at + HEADER_LEN <= end,
        mem(at as u64, page_len(at, end, clip)) == Some(page),
        occurs_at(page, DEX_MAGIC_BYTES@, i),
        at + i + HEADER_LEN <= end,
        hit_at(mem, (at + i) as u64, end).contains(hit),
    ensures
        region_hits(mem, pos, end, clip).contains(hit),
    decreases at - pos,
{
    let all = region_hits(mem, pos, end, clip);
    let rest = region_hits(mem, pos + SCAN_STEP, end, clip);
    if at == pos {
        lemma_page_misses_nothing(mem, page, pos as u64, 0, end, i, hit);
        let first = page_hits(mem, page, pos as u64, 0, end);
        let k = first.index_of(hit);
        assert(all[k] == hit);
    } else {
        law_region_scan_misses_nothing(mem, pos + SCAN_STEP, end, clip, at, page, i, hit);
        let k = rest.index_of(hit);
        match mem(pos as u64, page_len(pos, end, clip)) {
            Some(first_page) => {
                let first = page_hits(mem, first_page, pos as u64, 0, end);
                assert(all[first.len() + k] == hit);
            },
            None => {
                assert(all[k] == hit);
            },
        }
    }
}

/// The bytes that a DEX file starts with.
pub open spec fn dex_mark() -> Seq<u8> {
    seq![0x64u8, 0x65u8, 0x78u8, 0x0au8]
}

/// A header that a DEX file can have: it starts with the mark, states its own size, the byte
/// order, a size between that of a header and one GiB, and a map inside the file, if any.
pub open spec fn is_plausible(h: DexHeader) -> bool {
    &&& h.magic@.take(4) == dex_mark()
    &&& 0x70 <= h.file_size <= 0x4000_0000
    &&& h.header_size == 0x70
    &&& h.endian_tag == 0x1234_5678
    &&& h.map_off == 0 || h.map_off < h.file_size
}

/// A magic number that is read as a number is the mark.
proof fn lemma_magic_is_mark(data: Seq<u8>)
    requires
        data.len() >= 4,
    ensures
        has_dex_magic(data) <==> data.take(4) == dex_mark(),
{
    let m = data.take(4);
    if has_dex_magic(data) {
        assert(data[0] + 0x100 * data[1] + 0x1_0000 * data[2] + 0x100_0000 * data[3] == 0x0a78_6564);
        assert(m =~= dex_mark());
    }
    if m == dex_mark() {
        assert(data[0] == m[0] && data[1] == m[1] && data[2] == m[2] && data[3] == m[3]);
    }
}

/// The search looks for the mark.
proof fn lemma_magic_bytes()
    ensures
        DEX_MAGIC_BYTES@ == dex_mark(),
{
    assert(DEX_MAGIC_BYTES@ =~= dex_mark());
}

/// A header tells the size of its file where it is plausible, and nowhere else.
pub proof fn law_plausible_header_tells_the_size(h: DexHeader, rest: Seq<u8>)
    ensures
        dex_size(header_bytes(h) + rest) == (if is_plausible(h) {
            Some(h.file_size)
        } else {
            None
        }),
{
    let data = header_bytes(h) + rest;
    law_header_is_read_back(h, rest);
    lemma_header_fields(h, rest);
    lemma_magic_is_mark(data);
    assert(data.take(4) =~= h.magic@.take(4));
}

/// Bytes can be parsed as a DEX file where they are as long as a header and start with the
/// mark.
pub proof fn law_dex_files_start_with_the_mark(data: Seq<u8>)
    ensures
        is_dex(data) <==> data.len() >= 0x70 && data.take(4) == dex_mark(),
{
    if data.len() >= 4 {
        lemma_magic_is_mark(data);
    }
}

/// Files of a region that stand in no page that can be read are passed over; the others are
/// found: one with a plausible header, whose mark lies whole in a page, that ends inside the
/// region, can be read and starts with the mark.
pub proof fn law_region_scan_finds_files(
    mem: Memory,
    start: u64,
    end: u64,
    clip: bool,
    at: u64,
    page: Seq<u8>,
    i: int,
    h: DexHeader,
    bytes: Seq<u8>,
)
    requires
        start <= at,
        (at - start) % 0x1000 == 0,
        mem(
            at,
            if clip && end - at < 0x1000 {
                (end - at) as u32
            } else {
                0x1000
            },
        ) == Some(page),
        0 <= i <= page.len() - 4,
        page.subrange(i, i + 4) == dex_mark(),
        at + i + h.file_size <= end,
        mem((at + i) as u64, 0x70) == Some(header_bytes(h)),
        is_plausible(h),
        mem((at + i) as u64, h.file_size) == Some(bytes),
        bytes.len() >= 0x70,
        bytes.take(4) == dex_mark(),
    ensures
        region_hits(mem, start as int, end, clip).contains(
            DexHit { begin: (at + i) as u64, size: h.file_size, bytes },
        ),
{
    let begin = (at + i) as u64;
    let hit = DexHit { begin, size: h.file_size, bytes };
    lemma_magic_bytes();
    law_plausible_header_tells_the_size(h, seq![]);
    assert(header_bytes(h) + Seq::<u8>::empty() =~= header_bytes(h));
    law_dex_files_start_with_the_mark(bytes);
    assert(hit_at(mem, begin, end) =~= seq![hit]);
    assert(hit_at(mem, begin, end)[0] == hit);
    assert(occurs_at(page, DEX_MAGIC_BYTES@, i));
    law_region_scan_misses_nothing(mem, start as int, end, clip, at as int, page, i, hit);
}

} // verus!
