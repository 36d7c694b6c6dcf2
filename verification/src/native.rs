//! Finding DEX files and ELF images in native buffers.
use crate::arm64::{add_wrapping, wrap64};
use crate::bytes::{
    find_from, first_occurrence, holds_at, le16, le16_at, le16_bytes, le32_at, le32_bytes, le64_at, le64_bytes,
    lemma_holds_both, lemma_le16_held, lemma_le32_held, lemma_le64_held, lemma_next_of, next_of, occurs_at, read_le16,
    read_le32, read_le64,
};
use crate::dex::DexHeader;
use crate::dexlayout::header_bytes;
use crate::events::ELF64_HEADER_SIZE;
use crate::scan::{
    before_end, dex_mark, dex_size, hits_of, is_plausible, law_dex_files_start_with_the_mark,
    law_plausible_header_tells_the_size, is_dex, parses_as_dex, read_view, region_hits,
    validate_dex_header, DexHit, FoundDex, Memory, RegionScan, ScanStep, HEADER_LEN, SCAN_STEP,
};
use vstd::prelude::*;
use vstd::slice::slice_subrange;

verus! {

/// How much of a native buffer is scanned for DEX files.
pub const NATIVE_BUFFER_SCAN_LIMIT: u64 = 0x400_0000;

/// The size of a program header of a 64-bit ELF file.
pub const ELF64_PROGRAM_HEADER_SIZE: u16 = 0x38;

/// The file type of a shared object.
pub const ELF_ET_DYN: u16 = 3;

/// The machine of AArch64.
pub const ELF_EM_AARCH64: u16 = 183;

/// The largest ELF image that is dumped.
pub const MAX_NATIVE_ELF_SIZE: u64 = 0x1000_0000;

/// How far before an event's address an ELF image is looked for.
pub const NATIVE_ELF_BACKSCAN_LIMIT: u64 = 0x10_0000;

/// How far behind an event's address an ELF image is looked for, and the longest read.
pub const NATIVE_ELF_SCAN_LIMIT: u64 = 0x40_0000;

/// The largest offset at which program headers end.
pub const PROGRAM_HEADERS_LIMIT: u64 = 0x10_0000;

// ---------------------------------------------------------------------------
// DEX files in a buffer
// ---------------------------------------------------------------------------

/// The files in a buffer: the one that fills it from its start, or else those that a scan
/// finds. It fails where a file at the start cannot be read.
pub open spec fn buffer_hits(mem: Memory, addr: u64, end: u64) -> Result<Seq<DexHit>, u64> {
    let all = Ok(region_hits(mem, addr as int, end, true));
    match mem(addr, HEADER_LEN) {
        None => all,
        Some(header) => match dex_size(header) {
            None => all,
            Some(size) => if addr + size > end {
                all
            } else {
                match mem(addr, size) {
                    None => Err(addr),
                    Some(bytes) => if is_dex(bytes) {
                        Ok(seq![DexHit { begin: addr, size, bytes }])
                    } else {
                        all
                    },
                }
            },
        },
    }
}

/// What the scan of a buffer of a stated size comes to: its first 64 MiB are scanned. There is
/// nothing to scan at address zero or in an empty buffer, and no scan where the buffer wraps
/// around the end of the address space.
pub open spec fn buffer_outcome(mem: Memory, addr: u64, size: u64) -> Option<
    Result<Seq<DexHit>, u64>,
> {
    let scanned = if size < NATIVE_BUFFER_SCAN_LIMIT {
        size
    } else {
        NATIVE_BUFFER_SCAN_LIMIT
    };
    if addr == 0 || size == 0 {
        Some(Ok(seq![]))
    } else if addr + scanned > u64::MAX {
        None
    } else {
        Some(buffer_hits(mem, addr, (addr + scanned) as u64))
    }
}

/// Where a scan of a buffer is.
#[derive(Clone, Debug, PartialEq, Eq)]
pub enum BufferPhase {
    Header,
    Body { size: u32 },
    Region { scan: RegionScan },
    Found { dex: FoundDex },
    Failed,
}

/// A scan of a buffer for DEX files.
#[derive(Clone, Debug, PartialEq, Eq)]
pub struct BufferScan {
    pub addr: u64,
    pub end: u64,
    pub phase: BufferPhase,
}

impl BufferScan {
    /// The scan of the region, where there is one, is at a proper place.
    pub open spec fn wf(&self) -> bool {
        self.phase matches BufferPhase::Region { scan } ==> scan.wf()
    }

    /// What the scan comes to in a memory.
    pub open spec fn outcome(&self, mem: Memory) -> Result<Seq<DexHit>, u64> {
        match self.phase {
            BufferPhase::Header => buffer_hits(mem, self.addr, self.end),
            BufferPhase::Body { size } => match mem(self.addr, size) {
                None => Err(self.addr),
                Some(bytes) => if is_dex(bytes) {
                    Ok(seq![DexHit { begin: self.addr, size, bytes }])
                } else {
                    Ok(region_hits(mem, self.addr as int, self.end, true))
                },
            },
            BufferPhase::Region { scan } => Ok(scan.outcome(mem)),
            BufferPhase::Found { dex } => Ok(seq![dex@]),
            BufferPhase::Failed => Err(self.addr),
        }
    }

    /// The read that the scan needs next.
    pub open spec fn step(&self) -> ScanStep {
        match self.phase {
            BufferPhase::Header => ScanStep::Read { addr: self.addr, len: HEADER_LEN },
            BufferPhase::Body { size } => ScanStep::Read { addr: self.addr, len: size },
            BufferPhase::Region { scan } => scan.step(),
            _ => ScanStep::Done,
        }
    }

    /// How far the scan is from its end.
    pub open spec fn left(&self) -> (int, (int, int, int)) {
        match self.phase {
            BufferPhase::Header => (3, (0, 0, 0)),
            BufferPhase::Body { size } => (2, (0, 0, 0)),
            BufferPhase::Region { scan } => (1, scan.left()),
            _ => (0, (0, 0, 0)),
        }
    }

    /// Starts a scan of a buffer, of its first 64 MiB at most. There is nothing to scan at
    /// address zero or in an empty buffer, and no scan where the buffer wraps around the
    /// end of the address space.
    pub fn new(addr: u64, size: u64) -> (r: Option<Self>)
        ensures
            ({
                let scanned = if size < NATIVE_BUFFER_SCAN_LIMIT {
                    size
                } else {
                    NATIVE_BUFFER_SCAN_LIMIT
                };
                match r {
                    None => addr != 0 && addr + scanned > u64::MAX,
                    Some(scan) => {
                        &&& scan.wf()
                        &&& addr == 0 || addr + scanned <= u64::MAX
                        &&& forall|mem: Memory| #[trigger]
                            scan.outcome(mem) == (if addr == 0 || size == 0 {
                                Ok::<Seq<DexHit>, u64>(seq![])
                            } else {
                                buffer_hits(mem, addr, (addr + scanned) as u64)
                            })
                    },
                }
            }),
            forall|mem: Memory| #[trigger]
                buffer_outcome(mem, addr, size) == (match r {
                    None => None,
                    Some(scan) => Some(scan.outcome(mem)),
                }),
    {
        if addr == 0 || size == 0 {
            let scan = RegionScan::new(0, 0, true);
            let r = BufferScan { addr, end: addr, phase: BufferPhase::Region { scan } };
            assert forall|mem: Memory| #[trigger]
                r.outcome(mem) == Ok::<Seq<DexHit>, u64>(seq![]) by {
                assert(scan.outcome(mem) =~= Seq::<DexHit>::empty());
            }
            return Some(r);
        }
        let scanned: u64 = if size < NATIVE_BUFFER_SCAN_LIMIT {
            size
        } else {
            NATIVE_BUFFER_SCAN_LIMIT
        };
        if scanned > u64::MAX - addr {
            return None;
        }
        Some(BufferScan { addr, end: addr + scanned, phase: BufferPhase::Header })
    }

    /// The scan is before a page, where it can be stopped.
    pub open spec fn at_page(&self) -> bool {
        self.phase matches BufferPhase::Region { scan } && scan.at_page()
    }

    /// Whether the scan is before a page, where it can be stopped.
    pub fn may_stop(&self) -> (r: bool)
        ensures
            r == self.at_page(),
    {
        match &self.phase {
            BufferPhase::Region { scan } => scan.may_stop(),
            _ => false,
        }
    }

    /// Stops the scan before a page. What it has found so far is all it finds.
    pub fn stop(&mut self)
        requires
            old(self).at_page(),
        ensures
            final(self).wf(),
            final(self).step() == ScanStep::Done,
            forall|mem: Memory| #[trigger]
                final(self).outcome(mem) == Ok::<Seq<DexHit>, u64>(
                    hits_of(old(self).phase->scan.found@),
                ),
    {
        let mut phase = BufferPhase::Failed;
        std::mem::swap(&mut phase, &mut self.phase);
        if let BufferPhase::Region { scan } = phase {
            let mut scan = scan;
            let ghost found = scan.found@;
            scan.stop();
            self.phase = BufferPhase::Region { scan };
            assert forall|mem: Memory| #[trigger] self.outcome(mem) == Ok::<Seq<DexHit>, u64>(
                hits_of(found),
            ) by {
                assert(scan.outcome(mem) == hits_of(found));
            }
        }
    }

    /// The read that the scan needs next.
    pub fn next(&self) -> (r: ScanStep)
        requires
            self.wf(),
        ensures
            r == self.step(),
    {
        match &self.phase {
            BufferPhase::Header => ScanStep::Read { addr: self.addr, len: HEADER_LEN },
            BufferPhase::Body { size } => ScanStep::Read { addr: self.addr, len: *size },
            BufferPhase::Region { scan } => scan.next(),
            _ => ScanStep::Done,
        }
    }

    /// Takes what the read gave, which the scan asked for.
    pub fn supply(&mut self, data: Option<Vec<u8>>)
        requires
            old(self).wf(),
        ensures
            final(self).wf(),
            forall|mem: Memory|
                #![trigger final(self).outcome(mem)]
                (old(self).step() matches ScanStep::Read { addr, len } && mem(addr, len) == read_view(
                    data,
                )) ==> final(self).outcome(mem) == old(self).outcome(mem),
            old(self).step() != ScanStep::Done ==> {
                let (a, b) = (final(self).left(), old(self).left());
                0 <= a.0 && (a.0 < b.0 || (a.0 == b.0 && before_end(a.1, b.1)))
            },
            old(self).step() == ScanStep::Done ==> *final(self) == *old(self),
    {
        let ghost before = *self;
        let ghost given = read_view(data);
        let mut phase = BufferPhase::Failed;
        std::mem::swap(&mut phase, &mut self.phase);
        match phase {
            BufferPhase::Header => {
                let size: Option<u32> = match &data {
                    Some(header) => validate_dex_header(header.as_slice()),
                    None => None,
                };
                match size {
                    Some(size) if self.addr <= self.end && size as u64 <= self.end - self.addr => {
                        self.phase = BufferPhase::Body { size };
                    },
                    _ => {
                        let scan = RegionScan::new(self.addr, self.end, true);
                        self.phase = BufferPhase::Region { scan };
                    },
                }
                assert forall|mem: Memory| mem(before.addr, HEADER_LEN) == given implies
                    #[trigger] self.outcome(mem) == before.outcome(mem) by {}
            },
            BufferPhase::Body { size } => {
                match data {
                    None => {
                        self.phase = BufferPhase::Failed;
                    },
                    Some(bytes) => {
                        if parses_as_dex(bytes.as_slice()) {
                            self.phase = BufferPhase::Found {
                                dex: FoundDex { begin: self.addr, size, bytes },
                            };
                        } else {
                            let scan = RegionScan::new(self.addr, self.end, true);
                            self.phase = BufferPhase::Region { scan };
                        }
                    },
                }
                assert forall|mem: Memory| mem(before.addr, size) == given implies
                    #[trigger] self.outcome(mem) == before.outcome(mem) by {}
            },
            BufferPhase::Region { scan } => {
                let mut scan = scan;
                scan.supply(data);
                self.phase = BufferPhase::Region { scan };
                assert forall|mem: Memory|
                    (before.step() matches ScanStep::Read { addr, len } && mem(addr, len) == given)
                        implies #[trigger] self.outcome(mem) == before.outcome(mem) by {
                    let now = scan.outcome(mem);
                }
            },
            other => {
                self.phase = other;
            },
        }
    }

    /// What the scan came to, once it is done: the files, or the address of one that could
    /// not be read.
    pub fn finish(self) -> (r: Result<Vec<FoundDex>, u64>)
        requires
            self.wf(),
            self.step() == ScanStep::Done,
        ensures
            forall|mem: Memory| #[trigger]
                self.outcome(mem) == (match r {
                    Ok(found) => Ok::<Seq<DexHit>, u64>(hits_of(found@)),
                    Err(e) => Err(e),
                }),
    {
        match self.phase {
            BufferPhase::Region { scan } => {
                let done: ScanStep = scan.next();
                Ok(scan.found)
            },
            BufferPhase::Found { dex } => {
                let mut found: Vec<FoundDex> = Vec::new();
                found.push(dex);
                assert(hits_of(found@) =~= seq![dex@]);
                Ok(found)
            },
            _ => Err(self.addr),
        }
    }
}

// ---------------------------------------------------------------------------
// ELF headers
// ---------------------------------------------------------------------------

/// The program headers of an ELF image: their offset, the size of all, the size of one
/// and their number.
#[derive(Clone, Copy, Debug, PartialEq, Eq, Structural)]
pub struct ProgramHeaders {
    pub offset: u64,
    pub size: u32,
    pub entry_size: u16,
    pub count: u16,
}

/// Where the program headers are, if the bytes start with the header of a little-endian
/// 64-bit shared object for AArch64, with at most 128 program headers that lie within its
/// first MiB.
pub open spec fn program_headers(header: Seq<u8>) -> Option<ProgramHeaders> {
    let offset = le64_at(header, 0x20);
    let entry_size = le16_at(header, 0x36);
    let count = le16_at(header, 0x38);
    if header.len() >= ELF64_HEADER_SIZE && le32_at(header, 0) == 0x464c_457f && header[4] == 2
        && header[5] == 1 && le16_at(header, 0x10) == ELF_ET_DYN && le16_at(header, 0x12)
        == ELF_EM_AARCH64 && offset != 0 && entry_size >= ELF64_PROGRAM_HEADER_SIZE && 1 <= count
        <= 128 && offset + entry_size * count <= PROGRAM_HEADERS_LIMIT {
        Some(ProgramHeaders { offset, size: (entry_size * count) as u32, entry_size, count })
    } else {
        None
    }
}

/// The number of loaded segments among the first `n` program headers, and where the last
/// of them ends in the file. There is no answer where the headers are cut off.
pub open spec fn load_extent(phdr: Seq<u8>, entry_size: int, n: nat) -> Option<(int, int)>
    decreases n,
{
    if n == 0 {
        Some((0, 0))
    } else {
        match load_extent(phdr, entry_size, (n - 1) as nat) {
            None => None,
            Some((count, end)) => {
                let at = entry_size * (n - 1);
                if at + entry_size > phdr.len() {
                    None
                } else if le32_at(phdr, at) != 1 {
                    Some((count, end))
                } else {
                    let size = le64_at(phdr, at + 0x20);
                    let segment_end = le64_at(phdr, at + 0x08) + size;
                    Some(
                        (
                            count + 1,
                            if size != 0 && segment_end <= u64::MAX && segment_end > end {
                                segment_end
                            } else {
                                end
                            },
                        ),
                    )
                }
            },
        }
    }
}

/// `value` rounded up by masking with `align`, or itself where that does not fit.
pub open spec fn aligned_up(value: u64, align: u64) -> u64 {
    if align == 0 || value + (align - 1) > u64::MAX {
        value
    } else {
        ((value + (align - 1)) as u64) & !((align - 1) as u64)
    }
}

/// Rounds up to a multiple of `align`, a power of two.
pub fn align_up(value: u64, align: u64) -> (r: u64)
    ensures
        r == aligned_up(value, align),
{
    if align == 0 || value > u64::MAX - (align - 1) {
        return value;
    }
    (value + (align - 1)) & !(align - 1)
}

/// Rounding up to a page gives the least multiple of the page size that is not smaller.
pub proof fn law_align_up_to_page(value: u64)
    requires
        value <= u64::MAX - 0xfff,
    ensures
        aligned_up(value, 0x1000) as int % 0x1000 == 0,
        value <= aligned_up(value, 0x1000) < value + 0x1000,
{
    let v: u64 = (value + 0xfff) as u64;
    assert(v & !0xfffu64 == v - v % 0x1000) by (bit_vector);
}

/// The size of an ELF image: where the last of its loaded segments ends in the file, in
/// whole pages. There is none without a loaded segment, or for one too small or too large.
pub open spec fn elf_size(phdr: Seq<u8>, p: ProgramHeaders) -> Option<u64> {
    match load_extent(phdr, p.entry_size as int, p.count as nat) {
        None => None,
        Some((count, end)) => if count == 0 || end < ELF64_HEADER_SIZE || aligned_up(
            end as u64,
            0x1000,
        ) > MAX_NATIVE_ELF_SIZE {
            None
        } else {
            Some(aligned_up(end as u64, 0x1000))
        },
    }
}

/// Where the program headers of an ELF image are.
pub fn find_program_headers(header: &[u8]) -> (r: Option<ProgramHeaders>)
    ensures
        r == program_headers(header@),
{
    if header.len() < ELF64_HEADER_SIZE as usize || read_le32(header, 0) != 0x464c_457f || header[4]
        != 2 || header[5] != 1 {
        return None;
    }
    if read_le16(header, 0x10) != ELF_ET_DYN || read_le16(header, 0x12) != ELF_EM_AARCH64 {
        return None;
    }
    let offset: u64 = read_le64(header, 0x20);
    let entry_size: u16 = le16(header, 0x36).unwrap_or(0);
    let count: u16 = le16(header, 0x38).unwrap_or(0);
    if offset == 0 || entry_size < ELF64_PROGRAM_HEADER_SIZE || count == 0 || count > 128 {
        return None;
    }
    assert(0 <= entry_size * count <= 0xffff * 128) by (nonlinear_arith)
        requires
            0 <= entry_size <= 0xffff,
            0 <= count <= 128,
    ;
    let size: u64 = (entry_size as u64) * (count as u64);
    if offset > PROGRAM_HEADERS_LIMIT || size > PROGRAM_HEADERS_LIMIT - offset {
        return None;
    }
    Some(ProgramHeaders { offset, size: size as u32, entry_size, count })
}

proof fn lemma_extent_cut_off(phdr: Seq<u8>, entry_size: int, n: nat, m: nat)
    requires
        n <= m,
        load_extent(phdr, entry_size, n) is None,
    ensures
        load_extent(phdr, entry_size, m) is None,
    decreases m,
{
    if n < m {
        lemma_extent_cut_off(phdr, entry_size, n, (m - 1) as nat);
    }
}

/// The size of an ELF image, from its program headers.
pub fn measure_elf(phdr: &[u8], p: ProgramHeaders) -> (r: Option<u64>)
    requires
        p.entry_size >= ELF64_PROGRAM_HEADER_SIZE,
    ensures
        r == elf_size(phdr@, p),
{
    let mut count: u32 = 0;
    let mut end: u64 = 0;
    let mut at: usize = 0;
    let entry_size: usize = p.entry_size as usize;
    assert(entry_size * 0 == 0) by (nonlinear_arith);
    for i in 0..p.count
        invariant
            entry_size == p.entry_size,
            entry_size >= ELF64_PROGRAM_HEADER_SIZE,
            at == entry_size * i,
            at <= phdr.len(),
            count <= i,
            load_extent(phdr@, entry_size as int, i as nat) == Some((count as int, end as int)),
    {
        if phdr.len() - at < entry_size {
            proof {
                lemma_extent_cut_off(
                    phdr@,
                    entry_size as int,
                    (i + 1) as nat,
                    p.count as nat,
                );
            }
            return None;
        }
        if read_le32(phdr, at) == 1 {
            count += 1;
            let offset: u64 = read_le64(phdr, at + 0x08);
            let size: u64 = read_le64(phdr, at + 0x20);
            if size != 0 && size <= u64::MAX - offset && offset + size > end {
                end = offset + size;
            }
        }
        assert(entry_size * (i + 1) == entry_size * i + entry_size) by (nonlinear_arith);
        at = at + entry_size;
    }
    if count == 0 || end < ELF64_HEADER_SIZE as u64 {
        return None;
    }
    let size: u64 = align_up(end, 0x1000);
    if size > MAX_NATIVE_ELF_SIZE {
        None
    } else {
        Some(size)
    }
}

// ---------------------------------------------------------------------------
// ELF images
// ---------------------------------------------------------------------------

/// The bytes that an ELF file starts with.
pub const ELF_MAGIC_BYTES: [u8; 4] = [0x7f, 0x45, 0x4c, 0x46];

/// What of an ELF image could not be read, with the address of the image.
#[derive(Clone, Copy, Debug, PartialEq, Eq, Structural)]
pub enum ElfReadError {
    ProgramHeaders(u64),
    Header(u64),
    Image(u64),
}

/// An ELF image that was found in memory.
#[derive(Clone, Debug, PartialEq, Eq)]
pub struct FoundElf {
    pub base: u64,
    pub size: u64,
    pub bytes: Vec<u8>,
}

/// What an ELF image is.
pub struct ElfHit {
    pub base: u64,
    pub size: u64,
    pub bytes: Seq<u8>,
}

impl View for FoundElf {
    type V = ElfHit;

    open spec fn view(&self) -> ElfHit {
        ElfHit { base: self.base, size: self.size, bytes: self.bytes@ }
    }
}

/// What a scan for an ELF image comes to.
pub type ElfResult = Result<Option<ElfHit>, ElfReadError>;

/// The size of the ELF image at `base`, if its header is plausible and its program headers
/// tell it.
pub open spec fn elf_size_at(mem: Memory, base: u64, header: Seq<u8>) -> Result<
    Option<u64>,
    ElfReadError,
> {
    match program_headers(header) {
        None => Ok(None),
        Some(p) => match mem(wrap64(base + p.offset), p.size) {
            None => Err(ElfReadError::ProgramHeaders(base)),
            Some(phdr) => Ok(elf_size(phdr, p)),
        },
    }
}

/// The image at `base`: its header and its program headers are read, and then all of it.
pub open spec fn image_at(mem: Memory, base: u64) -> ElfResult {
    match mem(base, ELF64_HEADER_SIZE) {
        None => Err(ElfReadError::Header(base)),
        Some(header) => match elf_size_at(mem, base, header) {
            Err(e) => Err(e),
            Ok(None) => Ok(None),
            Ok(Some(size)) => match mem(base, size as u32) {
                None => Err(ElfReadError::Image(base)),
                Some(bytes) => Ok(Some(ElfHit { base, size, bytes })),
            },
        },
    }
}

/// The first image that starts in a page at `pos`, from offset `off` on, with its header
/// inside the page and before `end`; `otherwise` follows where there is none.
pub open spec fn page_image(
    mem: Memory,
    page: Seq<u8>,
    pos: u64,
    off: int,
    end: u64,
    otherwise: ElfResult,
) -> ElfResult
    decreases page.len() - off + 4,
{
    match next_of(page, ELF_MAGIC_BYTES@, off) {
        None => otherwise,
        Some(i) => if i < off || i > page.len() - 4 {
            otherwise
        } else {
            let next = page_image(mem, page, pos, i + 4, end, otherwise);
            if pos + i + ELF64_HEADER_SIZE > end || i + ELF64_HEADER_SIZE > page.len() {
                next
            } else {
                let base = (pos + i) as u64;
                match elf_size_at(mem, base, page.subrange(i, i + ELF64_HEADER_SIZE)) {
                    Err(e) => Err(e),
                    Ok(Some(_)) => image_at(mem, base),
                    Ok(None) => next,
                }
            }
        },
    }
}

/// The length of the read at `pos`.
pub open spec fn elf_page_len(pos: int, end: u64) -> u32 {
    if end - pos < NATIVE_ELF_SCAN_LIMIT {
        (end - pos) as u32
    } else {
        NATIVE_ELF_SCAN_LIMIT as u32
    }
}

/// The first image between `pos` and `end`. Every page is a place to read from, up to the
/// end or to the longest read.
pub open spec fn image_between(mem: Memory, pos: int, end: u64) -> ElfResult
    decreases end - pos + SCAN_STEP,
{
    if pos < 0 || pos + ELF64_HEADER_SIZE > end {
        Ok(None)
    } else {
        let next = image_between(mem, pos + SCAN_STEP, end);
        match mem(pos as u64, elf_page_len(pos, end)) {
            Some(page) => page_image(mem, page, pos as u64, 0, end, next),
            None => next,
        }
    }
}

/// The image around a buffer at `addr`: it is looked for from the page one MiB before it
/// up to `end`.
pub open spec fn image_around(mem: Memory, addr: u64, end: u64) -> ElfResult {
    let start = if addr < NATIVE_ELF_BACKSCAN_LIMIT {
        0
    } else {
        addr - NATIVE_ELF_BACKSCAN_LIMIT
    };
    image_between(mem, start - start % SCAN_STEP as int, end)
}

/// What the scan for an image around a buffer of a stated size comes to: up to four MiB behind
/// its address are scanned. There is nothing to scan at address zero or in a buffer smaller
/// than an ELF header, and no scan where the buffer wraps around the end of the address space.
pub open spec fn elf_outcome(mem: Memory, addr: u64, size: u64) -> Option<ElfResult> {
    let scanned = if size < NATIVE_ELF_SCAN_LIMIT {
        size
    } else {
        NATIVE_ELF_SCAN_LIMIT
    };
    if addr == 0 || size < ELF64_HEADER_SIZE {
        Some(Ok(None))
    } else if addr + scanned > u64::MAX {
        None
    } else {
        Some(image_around(mem, addr, (addr + scanned) as u64))
    }
}

/// Where a scan for an ELF image is: before a page, the program headers of a candidate,
/// the header of an image, its program headers or all of it is read, or at its end.
#[derive(Clone, Debug, PartialEq, Eq)]
pub enum ElfPhase {
    Page,
    Candidate { page: Vec<u8>, at: usize, headers: ProgramHeaders },
    Header { base: u64 },
    ProgramHeaders { base: u64, headers: ProgramHeaders },
    Image { base: u64, size: u64 },
    Found { elf: FoundElf },
    Failed { error: ElfReadError },
    NotFound,
}

/// A scan for an ELF image.
#[derive(Clone, Debug, PartialEq, Eq)]
pub struct ElfScan {
    pub pos: u64,
    pub end: u64,
    pub phase: ElfPhase,
}

impl ElfScan {
    /// The place that the scan is at lies before the end.
    pub open spec fn wf(&self) -> bool {
        match self.phase {
            ElfPhase::Page => self.pos + ELF64_HEADER_SIZE <= self.end,
            ElfPhase::Candidate { page, at, headers } => {
                &&& at + ELF64_HEADER_SIZE <= page.len()
                &&& self.pos + at + ELF64_HEADER_SIZE <= self.end
                &&& program_headers(page@.subrange(at as int, at + ELF64_HEADER_SIZE)) == Some(headers)
            },
            ElfPhase::ProgramHeaders { base, headers } => headers.entry_size
                >= ELF64_PROGRAM_HEADER_SIZE,
            ElfPhase::Image { base, size } => size <= MAX_NATIVE_ELF_SIZE,
            _ => true,
        }
    }

    /// What the scan comes to in a memory.
    pub open spec fn outcome(&self, mem: Memory) -> ElfResult {
        match self.phase {
            ElfPhase::Page => image_between(mem, self.pos as int, self.end),
            ElfPhase::Candidate { page, at, headers } => {
                let base = (self.pos + at) as u64;
                match elf_size_at(mem, base, page@.subrange(at as int, at + ELF64_HEADER_SIZE)) {
                    Err(e) => Err(e),
                    Ok(Some(_)) => image_at(mem, base),
                    Ok(None) => page_image(
                        mem,
                        page@,
                        self.pos,
                        at + 4,
                        self.end,
                        image_between(mem, self.pos + SCAN_STEP, self.end),
                    ),
                }
            },
            ElfPhase::Header { base } => image_at(mem, base),
            ElfPhase::ProgramHeaders { base, headers } => match mem(
                wrap64(base + headers.offset),
                headers.size,
            ) {
                None => Err(ElfReadError::ProgramHeaders(base)),
                Some(phdr) => match elf_size(phdr, headers) {
                    None => Ok(None),
                    Some(size) => match mem(base, size as u32) {
                        None => Err(ElfReadError::Image(base)),
                        Some(bytes) => Ok(Some(ElfHit { base, size, bytes })),
                    },
                },
            },
            ElfPhase::Image { base, size } => match mem(base, size as u32) {
                None => Err(ElfReadError::Image(base)),
                Some(bytes) => Ok(Some(ElfHit { base, size, bytes })),
            },
            ElfPhase::Found { elf } => Ok(Some(elf@)),
            ElfPhase::Failed { error } => Err(error),
            ElfPhase::NotFound => Ok(None),
        }
    }

    /// The read that the scan needs next.
    pub open spec fn step(&self) -> ScanStep {
        match self.phase {
            ElfPhase::Page => ScanStep::Read {
                addr: self.pos,
                len: elf_page_len(self.pos as int, self.end),
            },
            ElfPhase::Candidate { page, at, headers } => ScanStep::Read {
                addr: wrap64(self.pos + at + headers.offset),
                len: headers.size,
            },
            ElfPhase::Header { base } => ScanStep::Read { addr: base, len: ELF64_HEADER_SIZE },
            ElfPhase::ProgramHeaders { base, headers } => ScanStep::Read {
                addr: wrap64(base + headers.offset),
                len: headers.size,
            },
            ElfPhase::Image { base, size } => ScanStep::Read { addr: base, len: size as u32 },
            _ => ScanStep::Done,
        }
    }

    /// How far the scan is from its end.
    pub open spec fn left(&self) -> (int, int, int) {
        match self.phase {
            ElfPhase::Page => (self.end - self.pos + 1, 0, 0),
            ElfPhase::Candidate { page, at, headers } => (self.end - self.pos, page@.len() - at, 0),
            ElfPhase::Header { base } => (0, 0, 3),
            ElfPhase::ProgramHeaders { base, headers } => (0, 0, 2),
            ElfPhase::Image { base, size } => (0, 0, 1),
            _ => (0, 0, 0),
        }
    }

    /// Starts a scan around a buffer, of four MiB behind its address at most. There is
    /// nothing to scan at address zero or in a buffer smaller than an ELF header, and no
    /// scan where the buffer wraps around the end of the address space.
    pub fn new(addr: u64, size: u64) -> (r: Option<Self>)
        ensures
            ({
                let scanned = if size < NATIVE_ELF_SCAN_LIMIT {
                    size
                } else {
                    NATIVE_ELF_SCAN_LIMIT
                };
                let nothing = addr == 0 || size < ELF64_HEADER_SIZE;
                match r {
                    None => !nothing && addr + scanned > u64::MAX,
                    Some(scan) => {
                        &&& scan.wf()
                        &&& nothing || addr + scanned <= u64::MAX
                        &&& forall|mem: Memory| #[trigger]
                            scan.outcome(mem) == (if nothing {
                                Ok::<Option<ElfHit>, ElfReadError>(None)
                            } else {
                                image_around(mem, addr, (addr + scanned) as u64)
                            })
                    },
                }
            }),
            forall|mem: Memory| #[trigger]
                elf_outcome(mem, addr, size) == (match r {
                    None => None,
                    Some(scan) => Some(scan.outcome(mem)),
                }),
    {
        if addr == 0 || size < ELF64_HEADER_SIZE as u64 {
            return Some(ElfScan { pos: 0, end: 0, phase: ElfPhase::NotFound });
        }
        let scanned: u64 = if size < NATIVE_ELF_SCAN_LIMIT {
            size
        } else {
            NATIVE_ELF_SCAN_LIMIT
        };
        if scanned > u64::MAX - addr {
            return None;
        }
        let end: u64 = addr + scanned;
        let start: u64 = if addr < NATIVE_ELF_BACKSCAN_LIMIT {
            0
        } else {
            addr - NATIVE_ELF_BACKSCAN_LIMIT
        };
        let pos: u64 = start - start % SCAN_STEP;
        Some(ElfScan { pos, end, phase: ElfPhase::Page })
    }

    /// The scan is before a page, where it can be stopped.
    pub open spec fn at_page(&self) -> bool {
        self.phase is Page
    }

    /// Whether the scan is before a page, where it can be stopped.
    pub fn may_stop(&self) -> (r: bool)
        ensures
            r == self.at_page(),
    {
        match self.phase {
            ElfPhase::Page => true,
            _ => false,
        }
    }

    /// Stops the scan before a page. It finds nothing.
    pub fn stop(&mut self)
        requires
            old(self).at_page(),
        ensures
            final(self).wf(),
            final(self).step() == ScanStep::Done,
            forall|mem: Memory| #[trigger] final(self).outcome(mem) == Ok::<
                Option<ElfHit>,
                ElfReadError,
            >(None),
    {
        self.phase = ElfPhase::NotFound;
    }

    /// The read that the scan needs next.
    pub fn next(&self) -> (r: ScanStep)
        requires
            self.wf(),
        ensures
            r == self.step(),
    {
        match &self.phase {
            ElfPhase::Page => {
                let len: u32 = if self.end - self.pos < NATIVE_ELF_SCAN_LIMIT {
                    (self.end - self.pos) as u32
                } else {
                    NATIVE_ELF_SCAN_LIMIT as u32
                };
                ScanStep::Read { addr: self.pos, len }
            },
            ElfPhase::Candidate { page: _, at, headers } => ScanStep::Read {
                addr: add_wrapping(self.pos + *at as u64, headers.offset),
                len: headers.size,
            },
            ElfPhase::Header { base } => ScanStep::Read { addr: *base, len: ELF64_HEADER_SIZE },
            ElfPhase::ProgramHeaders { base, headers } => ScanStep::Read {
                addr: add_wrapping(*base, headers.offset),
                len: headers.size,
            },
            ElfPhase::Image { base, size } => ScanStep::Read { addr: *base, len: *size as u32 },
            _ => ScanStep::Done,
        }
    }

    /// Goes to the next page.
    fn next_page(&mut self)
        requires
            old(self).pos + ELF64_HEADER_SIZE <= old(self).end,
        ensures
            final(self).wf(),
            forall|mem: Memory| #[trigger]
                final(self).outcome(mem) == image_between(
                    mem,
                    old(self).pos + SCAN_STEP,
                    old(self).end,
                ),
            final(self).left().0 < old(self).end - old(self).pos,
            final(self).left().0 >= 0 && final(self).left().1 >= 0 && final(self).left().2 >= 0,
    {
        let room: u64 = self.end - self.pos;
        if room >= SCAN_STEP + ELF64_HEADER_SIZE as u64 {
            self.pos = self.pos + SCAN_STEP;
            self.phase = ElfPhase::Page;
        } else {
            self.phase = ElfPhase::NotFound;
        }
    }

    /// Goes to the next plausible header in the page, from `off` on, or to the next page.
    fn seek(&mut self, page: Vec<u8>, off: usize)
        requires
            old(self).pos + ELF64_HEADER_SIZE <= old(self).end,
            off <= page@.len(),
        ensures
            final(self).wf(),
            forall|mem: Memory| #[trigger]
                final(self).outcome(mem) == page_image(
                    mem,
                    page@,
                    old(self).pos,
                    off as int,
                    old(self).end,
                    image_between(mem, old(self).pos + SCAN_STEP, old(self).end),
                ),
            final(self).left().0 < old(self).end - old(self).pos || (final(self).left().0
                == old(self).end - old(self).pos && final(self).left().1 <= page@.len() - off),
            final(self).left().0 >= 0 && final(self).left().1 >= 0 && final(self).left().2 >= 0,
    {
        let ghost before = *self;
        let ghost p = page@;
        let magic: [u8; 4] = ELF_MAGIC_BYTES;
        let mut at: usize = off;
        while at <= page.len()
            invariant
                before == *old(self),
                before == *self,
                magic@ == ELF_MAGIC_BYTES@,
                self.pos + ELF64_HEADER_SIZE <= self.end,
                p == page@,
                off <= at <= page.len(),
                forall|mem: Memory, otherwise: ElfResult|
                    #![trigger page_image(mem, p, before.pos, off as int, before.end, otherwise)]
                    page_image(mem, p, before.pos, off as int, before.end, otherwise)
                        == page_image(mem, p, before.pos, at as int, before.end, otherwise),
            ensures
                before == *self,
                forall|mem: Memory, otherwise: ElfResult|
                    #![trigger page_image(mem, p, before.pos, off as int, before.end, otherwise)]
                    page_image(mem, p, before.pos, off as int, before.end, otherwise) == otherwise,
            decreases page.len() - at,
        {
            match find_from(page.as_slice(), magic.as_slice(), at) {
                None => {
                    break;
                },
                Some(i) => {
                    let room: u64 = self.end - self.pos - ELF64_HEADER_SIZE as u64;
                    if i as u64 <= room && page.len() - i >= ELF64_HEADER_SIZE as usize {
                        let header = slice_subrange(
                            page.as_slice(),
                            i,
                            i + ELF64_HEADER_SIZE as usize,
                        );
                        if let Some(headers) = find_program_headers(header) {
                            self.phase = ElfPhase::Candidate { page, at: i, headers };
                            return;
                        }
                    }
                    at = i + 4;
                },
            }
        }
        self.next_page();
    }

    /// Takes what the read gave, which the scan asked for.
    pub fn supply(&mut self, data: Option<Vec<u8>>)
        requires
            old(self).wf(),
        ensures
            final(self).wf(),
            forall|mem: Memory|
                #![trigger final(self).outcome(mem)]
                (old(self).step() matches ScanStep::Read { addr, len } && mem(addr, len) == read_view(
                    data,
                )) ==> final(self).outcome(mem) == old(self).outcome(mem),
            old(self).step() != ScanStep::Done ==> before_end(final(self).left(), old(self).left()),
            old(self).step() == ScanStep::Done ==> *final(self) == *old(self),
    {
        let ghost before = *self;
        let ghost given = read_view(data);
        let mut phase = ElfPhase::NotFound;
        std::mem::swap(&mut phase, &mut self.phase);
        match phase {
            ElfPhase::Page => {
                match data {
                    Some(page) => self.seek(page, 0),
                    None => self.next_page(),
                }
                assert forall|mem: Memory| mem(
                    before.pos,
                    elf_page_len(before.pos as int, before.end),
                ) == given implies #[trigger] self.outcome(mem) == before.outcome(mem) by {}
            },
            ElfPhase::Candidate { page, at, headers } => {
                let base: u64 = self.pos + at as u64;
                match data {
                    None => {
                        self.phase = ElfPhase::Failed {
                            error: ElfReadError::ProgramHeaders(base),
                        };
                    },
                    Some(phdr) => {
                        if measure_elf(phdr.as_slice(), headers).is_some() {
                            self.phase = ElfPhase::Header { base };
                        } else {
                            self.seek(page, at + 4);
                        }
                    },
                }
                assert forall|mem: Memory| mem(wrap64(base + headers.offset), headers.size) == given
                    implies #[trigger] self.outcome(mem) == before.outcome(mem) by {}
            },
            ElfPhase::Header { base } => {
                match data {
                    None => {
                        self.phase = ElfPhase::Failed { error: ElfReadError::Header(base) };
                    },
                    Some(header) => {
                        match find_program_headers(header.as_slice()) {
                            None => {
                                self.phase = ElfPhase::NotFound;
                            },
                            Some(headers) => {
                                self.phase = ElfPhase::ProgramHeaders { base, headers };
                            },
                        }
                    },
                }
                assert forall|mem: Memory| mem(base, ELF64_HEADER_SIZE) == given implies
                    #[trigger] self.outcome(mem) == before.outcome(mem) by {}
            },
            ElfPhase::ProgramHeaders { base, headers } => {
                match data {
                    None => {
                        self.phase = ElfPhase::Failed {
                            error: ElfReadError::ProgramHeaders(base),
                        };
                    },
                    Some(phdr) => {
                        match measure_elf(phdr.as_slice(), headers) {
                            None => {
                                self.phase = ElfPhase::NotFound;
                            },
                            Some(size) => {
                                self.phase = ElfPhase::Image { base, size };
                            },
                        }
                    },
                }
                assert forall|mem: Memory| mem(wrap64(base + headers.offset), headers.size) == given
                    implies #[trigger] self.outcome(mem) == before.outcome(mem) by {}
            },
            ElfPhase::Image { base, size } => {
                match data {
                    None => {
                        self.phase = ElfPhase::Failed { error: ElfReadError::Image(base) };
                    },
                    Some(bytes) => {
                        self.phase = ElfPhase::Found { elf: FoundElf { base, size, bytes } };
                    },
                }
                assert forall|mem: Memory| mem(base, size as u32) == given implies
                    #[trigger] self.outcome(mem) == before.outcome(mem) by {}
            },
            other => {
                self.phase = other;
            },
        }
    }

    /// What the scan came to, once it is done.
    pub fn finish(self) -> (r: Result<Option<FoundElf>, ElfReadError>)
        requires
            self.step() == ScanStep::Done,
        ensures
            forall|mem: Memory| #[trigger]
                self.outcome(mem) == (match r {
                    Ok(Some(elf)) => Ok::<Option<ElfHit>, ElfReadError>(Some(elf@)),
                    Ok(None) => Ok(None),
                    Err(e) => Err(e),
                }),
    {
        match self.phase {
            ElfPhase::Found { elf } => Ok(Some(elf)),
            ElfPhase::Failed { error } => Err(error),
            _ => Ok(None),
        }
    }
}

/// The image that a scan finds has the size that its program headers tell: whole pages, not
/// more than the limit.
pub proof fn law_found_image_is_bounded(phdr: Seq<u8>, p: ProgramHeaders)
    ensures
        elf_size(phdr, p) matches Some(size) ==> ELF64_HEADER_SIZE <= size <= MAX_NATIVE_ELF_SIZE
            && size as int % 0x1000 == 0,
{
    if let Some((count, end)) = load_extent(phdr, p.entry_size as int, p.count as nat) {
        lemma_extent_fits(phdr, p.entry_size as int, p.count as nat);
        if end <= u64::MAX - 0xfff {
            law_align_up_to_page(end as u64);
        }
    }
}

proof fn lemma_extent_fits(phdr: Seq<u8>, entry_size: int, n: nat)
    ensures
        load_extent(phdr, entry_size, n) matches Some((count, end)) ==> 0 <= end <= u64::MAX,
    decreases n,
{
    if n > 0 {
        lemma_extent_fits(phdr, entry_size, (n - 1) as nat);
    }
}

// ---------------------------------------------------------------------------
// Headers as they are written
// ---------------------------------------------------------------------------

/// A program header.
pub struct ProgramHeader {
    pub kind: u32,
    pub flags: u32,
    pub offset: u64,
    pub vaddr: u64,
    pub paddr: u64,
    pub file_size: u64,
    pub mem_size: u64,
    pub align: u64,
}

/// The bytes of a program header.
pub open spec fn program_header_bytes(p: ProgramHeader) -> Seq<u8> {
    le32_bytes(p.kind) + (le32_bytes(p.flags) + (le64_bytes(p.offset) + (le64_bytes(p.vaddr) + (
    le64_bytes(p.paddr) + (le64_bytes(p.file_size) + (le64_bytes(p.mem_size) + le64_bytes(
        p.align,
    )))))))
}

/// The program headers stand in the bytes, each at a multiple of the entry size.
pub open spec fn holds_program_headers(
    phdr: Seq<u8>,
    entry_size: u16,
    headers: Seq<ProgramHeader>,
) -> bool {
    &&& entry_size >= 0x38
    &&& phdr.len() >= entry_size * headers.len()
    &&& forall|i: int|
        0 <= i < headers.len() ==> holds_at(
            phdr,
            entry_size * i,
            program_header_bytes(#[trigger] headers[i]),
        )
}

/// The segment is loaded (its kind is 1), is not empty, and ends at an offset that fits in 64
/// bits.
pub open spec fn is_loaded(p: ProgramHeader) -> bool {
    p.kind == 1 && p.file_size != 0 && p.offset + p.file_size <= u64::MAX
}

/// Where the segment ends in the file.
pub open spec fn segment_end(p: ProgramHeader) -> int {
    p.offset + p.file_size
}

proof fn lemma_parts_held(
    data: Seq<u8>,
    at: int,
    a: Seq<u8>,
    b: Seq<u8>,
    c: Seq<u8>,
    d: Seq<u8>,
    e: Seq<u8>,
    f: Seq<u8>,
    rest: Seq<u8>,
)
    requires
        holds_at(data, at, a + (b + (c + (d + (e + (f + rest)))))),
        a.len() == 4 && b.len() == 4 && c.len() == 8 && d.len() == 8 && e.len() == 8,
    ensures
        holds_at(data, at, a),
        holds_at(data, at + 8, c),
        holds_at(data, at + 32, f),
{
    lemma_holds_both(data, at, a, b + (c + (d + (e + (f + rest)))));
    lemma_holds_both(data, at + 4, b, c + (d + (e + (f + rest))));
    lemma_holds_both(data, at + 8, c, d + (e + (f + rest)));
    lemma_holds_both(data, at + 16, d, e + (f + rest));
    lemma_holds_both(data, at + 24, e, f + rest);
    lemma_holds_both(data, at + 32, f, rest);
}

#[verifier::rlimit(40)]
proof fn lemma_program_header_held(phdr: Seq<u8>, at: int, p: ProgramHeader)
    requires
        holds_at(phdr, at, program_header_bytes(p)),
    ensures
        le32_at(phdr, at) == p.kind,
        le64_at(phdr, at + 0x08) == p.offset,
        le64_at(phdr, at + 0x20) == p.file_size,
{
    lemma_parts_held(
        phdr,
        at,
        le32_bytes(p.kind),
        le32_bytes(p.flags),
        le64_bytes(p.offset),
        le64_bytes(p.vaddr),
        le64_bytes(p.paddr),
        le64_bytes(p.file_size),
        le64_bytes(p.mem_size) + le64_bytes(p.align),
    );
    lemma_le32_held(phdr, at, p.kind);
    lemma_le64_held(phdr, at + 8, p.offset);
    lemma_le64_held(phdr, at + 32, p.file_size);
}

proof fn lemma_extent(phdr: Seq<u8>, entry_size: u16, headers: Seq<ProgramHeader>, n: nat)
    requires
        holds_program_headers(phdr, entry_size, headers),
        n <= headers.len(),
    ensures
        load_extent(phdr, entry_size as int, n) matches Some((count, end)) && {
            &&& 0 <= end <= u64::MAX
            &&& count > 0 <==> exists|i: int| 0 <= i < n && (#[trigger] headers[i]).kind == 1
            &&& count >= 0
            &&& forall|i: int|
                0 <= i < n && is_loaded(#[trigger] headers[i]) ==> segment_end(headers[i]) <= end
            &&& end > 0 ==> exists|i: int|
                0 <= i < n && is_loaded(#[trigger] headers[i]) && segment_end(headers[i]) == end
        },
    decreases n,
{
    if n > 0 {
        lemma_extent(phdr, entry_size, headers, (n - 1) as nat);
        let h = headers[n - 1];
        lemma_program_header_held(phdr, entry_size * (n - 1), h);
        assert(entry_size * (n - 1) + entry_size <= phdr.len()) by (nonlinear_arith)
            requires
                phdr.len() >= entry_size * headers.len(),
                n <= headers.len(),
                entry_size >= 0,
        ;
        let (count0, end0) = load_extent(phdr, entry_size as int, (n - 1) as nat)->Some_0;
        let (count, end) = load_extent(phdr, entry_size as int, n)->Some_0;
        if h.kind == 1 {
            assert(headers[n - 1].kind == 1);
        }
        if count > 0 && h.kind != 1 {
            let i = choose|i: int| 0 <= i < n - 1 && (#[trigger] headers[i]).kind == 1;
            assert(headers[i].kind == 1);
        }
        if end > 0 {
            if end == end0 {
                let i = choose|i: int|
                    0 <= i < n - 1 && is_loaded(#[trigger] headers[i]) && segment_end(headers[i])
                        == end0;
                assert(is_loaded(headers[i]) && segment_end(headers[i]) == end);
            } else {
                assert(is_loaded(headers[n - 1]) && segment_end(headers[n - 1]) == end);
            }
        }
    }
}

proof fn lemma_elf_size(phdr: Seq<u8>, p: ProgramHeaders, count: int, end: int)
    requires
        load_extent(phdr, p.entry_size as int, p.count as nat) == Some((count, end)),
        0 <= end <= u64::MAX,
    ensures
        elf_size(phdr, p) is None <==> count == 0 || end < 0x40 || end > 0x1000_0000,
        elf_size(phdr, p) matches Some(size) ==> size as int % 0x1000 == 0 && end <= size < end
            + 0x1000,
{
    if end <= u64::MAX - 0xfff {
        law_align_up_to_page(end as u64);
    }
}

/// The size of an image is the least number of whole pages that takes in every loaded segment,
/// whatever its flags. There is one where some loaded segment ends behind the ELF header
/// and all of them end within 256 MiB, and nowhere else.
pub proof fn law_image_takes_in_every_segment(
    phdr: Seq<u8>,
    p: ProgramHeaders,
    headers: Seq<ProgramHeader>,
)
    requires
        p.count == headers.len(),
        holds_program_headers(phdr, p.entry_size, headers),
    ensures
        elf_size(phdr, p) matches Some(size) ==> {
            &&& size as int % 0x1000 == 0
            &&& forall|i: int|
                0 <= i < headers.len() && is_loaded(#[trigger] headers[i]) ==> segment_end(headers[i])
                    <= size
            &&& exists|i: int|
                0 <= i < headers.len() && is_loaded(#[trigger] headers[i]) && size < segment_end(
                    headers[i],
                ) + 0x1000
        },
        elf_size(phdr, p) is Some <==> (exists|i: int|
            0 <= i < headers.len() && is_loaded(#[trigger] headers[i]) && segment_end(headers[i])
                >= 0x40) && forall|i: int|
            0 <= i < headers.len() && is_loaded(#[trigger] headers[i]) ==> segment_end(headers[i])
                <= 0x1000_0000,
{
    lemma_extent(phdr, p.entry_size, headers, p.count as nat);
    let (count, end) = load_extent(phdr, p.entry_size as int, p.count as nat)->Some_0;
    lemma_elf_size(phdr, p, count, end);
    if end > 0 {
        let i = choose|i: int|
            0 <= i < p.count && is_loaded(#[trigger] headers[i]) && segment_end(headers[i]) == end;
        assert(is_loaded(headers[i]) && segment_end(headers[i]) == end);
        assert(headers[i].kind == 1);
    }
}

/// Program headers that are cut off tell no size.
pub proof fn law_program_headers_that_are_cut_off(phdr: Seq<u8>, p: ProgramHeaders)
    requires
        phdr.len() < p.entry_size * p.count,
    ensures
        elf_size(phdr, p) is None,
{
    lemma_extent_within(phdr, p.entry_size as int, p.count as nat);
}

proof fn lemma_extent_within(phdr: Seq<u8>, entry_size: int, n: nat)
    requires
        entry_size >= 0,
    ensures
        load_extent(phdr, entry_size, n) is Some ==> entry_size * n <= phdr.len(),
    decreases n,
{
    if n > 0 {
        lemma_extent_within(phdr, entry_size, (n - 1) as nat);
        assert(entry_size * (n - 1) + entry_size == entry_size * n) by (nonlinear_arith);
    } else {
        assert(entry_size * 0 == 0);
    }
}

/// The fields of a 64-bit ELF header.
pub struct ElfHeader {
    pub class: u8,
    pub byte_order: u8,
    pub rest_of_ident: Seq<u8>,
    pub kind: u16,
    pub machine: u16,
    pub version: u32,
    pub entry: u64,
    pub headers_off: u64,
    pub sections_off: u64,
    pub flags: u32,
    pub header_size: u16,
    pub header_entry_size: u16,
    pub header_count: u16,
    pub section_entry_size: u16,
    pub section_count: u16,
    pub names_section: u16,
}

/// The bytes of an ELF header behind its mark.
pub open spec fn elf_header_rest(h: ElfHeader) -> Seq<u8> {
    seq![h.class, h.byte_order] + (h.rest_of_ident + (le16_bytes(h.kind) + (le16_bytes(h.machine) + (
    le32_bytes(h.version) + (le64_bytes(h.entry) + (le64_bytes(h.headers_off) + (le64_bytes(
        h.sections_off,
    ) + (le32_bytes(h.flags) + (le16_bytes(h.header_size) + (le16_bytes(h.header_entry_size) + (
    le16_bytes(h.header_count) + (le16_bytes(h.section_entry_size) + (le16_bytes(h.section_count)
        + le16_bytes(h.names_section))))))))))))))
}

/// The bytes that an ELF file starts with.
pub open spec fn elf_mark() -> Seq<u8> {
    seq![0x7fu8, 0x45u8, 0x4cu8, 0x46u8]
}

/// The bytes of an ELF header.
#[verifier::opaque]
pub open spec fn elf_header_bytes(h: ElfHeader) -> Seq<u8> {
    elf_mark() + elf_header_rest(h)
}

/// An image is taken for a shared object where its header says that it is a little-endian
/// 64-bit one for AArch64, and that it has 1 to 128 program headers, which are not at its
/// start and end within its first MiB. They are looked for where the header says.
#[verifier::rlimit(40)]
pub proof fn law_elf_header_is_read_back(h: ElfHeader, rest: Seq<u8>)
    requires
        h.rest_of_ident.len() == 10,
    ensures
        ({
            let (entry, count) = (h.header_entry_size, h.header_count);
            program_headers(elf_header_bytes(h) + rest) == (if h.class == 2 && h.byte_order == 1
                && h.kind == 3 && h.machine == 183 && h.headers_off != 0 && entry >= 0x38 && 1 <= count
                <= 128 && h.headers_off + entry * count <= 0x10_0000 {
                Some(
                    ProgramHeaders {
                        offset: h.headers_off,
                        size: (entry * count) as u32,
                        entry_size: entry,
                        count,
                    },
                )
            } else {
                None
            })
        }),
        elf_header_bytes(h).len() == 0x40,
{
    let data = elf_header_bytes(h) + rest;
    reveal(elf_header_bytes);
    let magic = elf_mark();
    let ident = seq![h.class, h.byte_order];
    let t14 = le16_bytes(h.section_count) + le16_bytes(h.names_section);
    let t13 = le16_bytes(h.section_entry_size) + t14;
    let t12 = le16_bytes(h.header_count) + t13;
    let t11 = le16_bytes(h.header_entry_size) + t12;
    let t10 = le16_bytes(h.header_size) + t11;
    let t9 = le32_bytes(h.flags) + t10;
    let t8 = le64_bytes(h.sections_off) + t9;
    let t7 = le64_bytes(h.headers_off) + t8;
    let t6 = le64_bytes(h.entry) + t7;
    let t5 = le32_bytes(h.version) + t6;
    let t4 = le16_bytes(h.machine) + t5;
    let t3 = le16_bytes(h.kind) + t4;
    let t2 = h.rest_of_ident + t3;
    let t1 = ident + t2;
    assert(elf_header_bytes(h) == magic + t1);
    assert(data.subrange(0, (magic + t1).len() as int) =~= magic + t1);
    lemma_holds_both(data, 0, magic, t1);
    lemma_holds_both(data, 4, ident, t2);
    lemma_holds_both(data, 6, h.rest_of_ident, t3);
    lemma_holds_both(data, 0x10, le16_bytes(h.kind), t4);
    lemma_holds_both(data, 0x12, le16_bytes(h.machine), t5);
    lemma_holds_both(data, 0x14, le32_bytes(h.version), t6);
    lemma_holds_both(data, 0x18, le64_bytes(h.entry), t7);
    lemma_holds_both(data, 0x20, le64_bytes(h.headers_off), t8);
    lemma_holds_both(data, 0x28, le64_bytes(h.sections_off), t9);
    lemma_holds_both(data, 0x30, le32_bytes(h.flags), t10);
    lemma_holds_both(data, 0x34, le16_bytes(h.header_size), t11);
    lemma_holds_both(data, 0x36, le16_bytes(h.header_entry_size), t12);
    lemma_holds_both(data, 0x38, le16_bytes(h.header_count), t13);
    lemma_le16_held(data, 0x10, h.kind);
    lemma_le16_held(data, 0x12, h.machine);
    lemma_le64_held(data, 0x20, h.headers_off);
    lemma_le16_held(data, 0x36, h.header_entry_size);
    lemma_le16_held(data, 0x38, h.header_count);
    let m = data.subrange(0, 4);
    assert(m[0] == magic[0] && m[1] == magic[1] && m[2] == magic[2] && m[3] == magic[3]);
    assert(le32_at(data, 0) == 0x464c_457f);
    let i = data.subrange(4, 6);
    assert(i[0] == ident[0] && i[1] == ident[1]);
    assert(data[4] == h.class && data[5] == h.byte_order);
}

// ---------------------------------------------------------------------------
// What the scans find
// ---------------------------------------------------------------------------

/// The end of the part of a buffer that is scanned: at most so many bytes behind its start.
pub open spec fn end_within(addr: u64, size: u64, limit: int) -> int {
    if size < limit {
        addr + size
    } else {
        addr + limit
    }
}

/// A DEX file at the start of a buffer, with a plausible header and inside the first 64 MiB,
/// is all that is found there; where it cannot be read, the scan fails.
pub proof fn law_file_at_the_start_is_found(
    mem: Memory,
    addr: u64,
    size: u64,
    h: DexHeader,
    bytes: Seq<u8>,
)
    requires
        addr != 0,
        size != 0,
        end_within(addr, size, 0x400_0000) <= u64::MAX,
        mem(addr, 0x70) == Some(header_bytes(h)),
        is_plausible(h),
        addr + h.file_size <= end_within(addr, size, 0x400_0000),
        bytes.len() >= 0x70,
        bytes.take(4) == dex_mark(),
    ensures
        mem(addr, h.file_size) == Some(bytes) ==> buffer_outcome(mem, addr, size) == Some(
            Ok::<Seq<DexHit>, u64>(seq![DexHit { begin: addr, size: h.file_size, bytes }]),
        ),
        mem(addr, h.file_size) is None ==> buffer_outcome(mem, addr, size) == Some(
            Err::<Seq<DexHit>, u64>(addr),
        ),
{
    law_plausible_header_tells_the_size(h, seq![]);
    assert(header_bytes(h) + Seq::<u8>::empty() =~= header_bytes(h));
    law_dex_files_start_with_the_mark(bytes);
}

/// A buffer that starts with no DEX file is scanned page by page, and never beyond its end or
/// its first 64 MiB.
pub proof fn law_other_buffers_are_scanned(
    mem: Memory,
    addr: u64,
    size: u64,
    h: DexHeader,
)
    requires
        addr != 0,
        size != 0,
        end_within(addr, size, 0x400_0000) <= u64::MAX,
        mem(addr, 0x70) is None || (mem(addr, 0x70) == Some(header_bytes(h)) && (!is_plausible(h)
            || addr + h.file_size > end_within(addr, size, 0x400_0000) || (mem(
            addr,
            h.file_size,
        ) matches Some(bytes) && bytes.len() < 0x70))),
    ensures
        buffer_outcome(mem, addr, size) == Some(
            Ok::<Seq<DexHit>, u64>(
                region_hits(
                    mem,
                    addr as int,
                    end_within(addr, size, 0x400_0000) as u64,
                    true,
                ),
            ),
        ),
{
    law_plausible_header_tells_the_size(h, seq![]);
    assert(header_bytes(h) + Seq::<u8>::empty() =~= header_bytes(h));
}

/// A buffer at address zero and an empty one hold nothing; one that wraps around the end of the
/// address space is not scanned.
pub proof fn law_buffers_that_are_not_scanned(mem: Memory, addr: u64, size: u64)
    ensures
        addr == 0 || size == 0 ==> buffer_outcome(mem, addr, size) == Some(
            Ok::<Seq<DexHit>, u64>(seq![]),
        ),
        addr != 0 && size != 0 ==> (buffer_outcome(mem, addr, size) is None <==> end_within(
            addr,
            size,
            0x400_0000,
        ) > u64::MAX),
        addr == 0 || size < 64 ==> elf_outcome(mem, addr, size) == Some(
            Ok::<Option<ElfHit>, ElfReadError>(None),
        ),
        addr != 0 && size >= 64 ==> (elf_outcome(mem, addr, size) is None <==> end_within(
            addr,
            size,
            0x40_0000,
        ) > u64::MAX),
{
}

/// Where the search for an image around an address starts: at the page one MiB before it.
pub open spec fn search_start(addr: u64) -> int {
    let start = if addr < 0x10_0000 {
        0
    } else {
        addr - 0x10_0000
    };
    start - start % 0x1000
}

/// The length of a read of the search: up to its end, and at most four MiB.
pub open spec fn read_length(pos: int, end: int) -> u32 {
    if end - pos < 0x40_0000 {
        (end - pos) as u32
    } else {
        0x40_0000
    }
}

/// The header is that of an image that can be measured.
pub open spec fn is_shared_object(h: ElfHeader) -> bool {
    &&& h.rest_of_ident.len() == 10
    &&& h.class == 2 && h.byte_order == 1 && h.kind == 3 && h.machine == 183
    &&& h.headers_off != 0 && h.header_entry_size >= 0x38 && 1 <= h.header_count <= 128
    &&& h.headers_off + h.header_entry_size * h.header_count <= 0x10_0000
}

proof fn lemma_elf_pages_are_passed_over(mem: Memory, pos: int, to: int, end: u64)
    requires
        0 <= pos <= to,
        (to - pos) % 0x1000 == 0,
        to + 64 <= end,
        forall|p: u64, j: int|
            pos <= p < to && (p - pos) % 0x1000 == 0 && mem(p, read_length(p as int, end as int)) is Some
                ==> !#[trigger] occurs_at(
                mem(p, read_length(p as int, end as int))->Some_0,
                elf_mark(),
                j,
            ),
    ensures
        image_between(mem, pos, end) == image_between(mem, to, end),
    decreases to - pos,
{
    if pos < to {
        assert forall|p: u64, j: int|
            pos + 0x1000 <= p < to && (p - (pos + 0x1000)) % 0x1000 == 0 && mem(
                p,
                read_length(p as int, end as int),
            ) is Some implies !#[trigger] occurs_at(
            mem(p, read_length(p as int, end as int))->Some_0,
            elf_mark(),
            j,
        ) by {
            assert((p - pos) % 0x1000 == 0);
        }
        lemma_elf_pages_are_passed_over(mem, pos + 0x1000, to, end);
        let next = image_between(mem, pos + 0x1000, end);
        assert(ELF_MAGIC_BYTES@ =~= elf_mark());
        if let Some(page) = mem(pos as u64, read_length(pos, end as int)) {
            if let Some(i) = next_of(page, ELF_MAGIC_BYTES@, 0) {
                lemma_next_of(page, ELF_MAGIC_BYTES@, 0, i);
                assert(occurs_at(
                    mem(pos as u64, read_length(pos as u64 as int, end as int))->Some_0,
                    elf_mark(),
                    i,
                ));
            }
        }
    }
}

/// The image at an address, from its header on.
proof fn lemma_image_at(mem: Memory, base: u64, h: ElfHeader, phdr: Seq<u8>, size: u64)
    requires
        is_shared_object(h),
        mem(base, 0x40) == Some(elf_header_bytes(h)),
        mem(wrap64(base + h.headers_off), (h.header_entry_size * h.header_count) as u32) == Some(phdr),
        elf_size(
            phdr,
            ProgramHeaders {
                offset: h.headers_off,
                size: (h.header_entry_size * h.header_count) as u32,
                entry_size: h.header_entry_size,
                count: h.header_count,
            },
        ) == Some(size),
    ensures
        elf_size_at(mem, base, elf_header_bytes(h)) == Ok::<Option<u64>, ElfReadError>(Some(size)),
        image_at(mem, base) == (match mem(base, size as u32) {
            None => Err::<Option<ElfHit>, ElfReadError>(ElfReadError::Image(base)),
            Some(bytes) => Ok(Some(ElfHit { base, size, bytes })),
        }),
{
    law_elf_header_is_read_back(h, seq![]);
    assert(elf_header_bytes(h) + Seq::<u8>::empty() =~= elf_header_bytes(h));
}

/// The image around a buffer is found: it has the header of a shared object, its program headers
/// tell its size, and no other mark stands before it in what is read, from the page one
/// MiB before the buffer on. Reads before that fail do not matter. An image that cannot
/// be read is reported.
#[verifier::spinoff_prover]
#[verifier::rlimit(50)]
pub proof fn law_image_around_a_buffer_is_found(
    mem: Memory,
    addr: u64,
    size: u64,
    pos: int,
    page: Seq<u8>,
    i: int,
    h: ElfHeader,
    phdr: Seq<u8>,
    headers: Seq<ProgramHeader>,
)
    requires
        addr != 0,
        size >= 64,
        end_within(addr, size, 0x40_0000) <= u64::MAX,
        search_start(addr) <= pos,
        (pos - search_start(addr)) % 0x1000 == 0,
        mem(pos as u64, read_length(pos, end_within(addr, size, 0x40_0000))) == Some(page),
        0 <= i,
        i + 64 <= page.len(),
        pos + i + 64 <= end_within(addr, size, 0x40_0000),
        page.subrange(i, i + 64) == elf_header_bytes(h),
        forall|j: int| 0 <= j < i ==> !occurs_at(page, elf_mark(), j),
        forall|p: u64, j: int|
            search_start(addr) <= p < pos && (p - search_start(addr)) % 0x1000 == 0 && mem(
                p,
                read_length(p as int, end_within(addr, size, 0x40_0000)),
            ) is Some ==> !#[trigger] occurs_at(
                mem(p, read_length(p as int, end_within(addr, size, 0x40_0000)))->Some_0,
                elf_mark(),
                j,
            ),
        is_shared_object(h),
        mem((pos + i) as u64, 64) == Some(elf_header_bytes(h)),
        mem(
            wrap64(pos + i + h.headers_off),
            (h.header_entry_size * h.header_count) as u32,
        ) == Some(phdr),
        h.header_count == headers.len(),
        holds_program_headers(phdr, h.header_entry_size, headers),
        exists|k: int|
            0 <= k < headers.len() && is_loaded(#[trigger] headers[k]) && segment_end(headers[k])
                >= 0x40,
        forall|k: int|
            0 <= k < headers.len() && is_loaded(#[trigger] headers[k]) ==> segment_end(headers[k])
                <= 0x1000_0000,
    ensures
        match elf_outcome(mem, addr, size) {
            Some(Ok(Some(hit))) => hit.base == pos + i && mem(hit.base, hit.size as u32) == Some(
                hit.bytes,
            ) && forall|k: int|
                0 <= k < headers.len() && is_loaded(#[trigger] headers[k]) ==> segment_end(headers[k])
                    <= hit.size,
            Some(Err(e)) => e == ElfReadError::Image((pos + i) as u64),
            _ => false,
        },
{
    let end = end_within(addr, size, 0x40_0000) as u64;
    let p = ProgramHeaders {
        offset: h.headers_off,
        size: (h.header_entry_size * h.header_count) as u32,
        entry_size: h.header_entry_size,
        count: h.header_count,
    };
    law_image_takes_in_every_segment(phdr, p, headers);
    let image_size = elf_size(phdr, p)->Some_0;
    lemma_image_is_found(mem, search_start(addr), end, pos, page, i, h, phdr, image_size);
    lemma_elf_outcome(mem, addr, size);
}

#[verifier::rlimit(40)]
proof fn lemma_image_is_found(
    mem: Memory,
    start: int,
    end: u64,
    pos: int,
    page: Seq<u8>,
    i: int,
    h: ElfHeader,
    phdr: Seq<u8>,
    size: u64,
)
    requires
        0 <= start <= pos,
        (pos - start) % 0x1000 == 0,
        mem(pos as u64, read_length(pos, end as int)) == Some(page),
        0 <= i,
        i + 64 <= page.len(),
        pos + i + 64 <= end,
        page.subrange(i, i + 64) == elf_header_bytes(h),
        forall|j: int| 0 <= j < i ==> !occurs_at(page, elf_mark(), j),
        forall|p: u64, j: int|
            start <= p < pos && (p - start) % 0x1000 == 0 && mem(
                p,
                read_length(p as int, end as int),
            ) is Some ==> !#[trigger] occurs_at(
                mem(p, read_length(p as int, end as int))->Some_0,
                elf_mark(),
                j,
            ),
        is_shared_object(h),
        mem((pos + i) as u64, 64) == Some(elf_header_bytes(h)),
        mem(wrap64(pos + i + h.headers_off), (h.header_entry_size * h.header_count) as u32) == Some(
            phdr,
        ),
        elf_size(
            phdr,
            ProgramHeaders {
                offset: h.headers_off,
                size: (h.header_entry_size * h.header_count) as u32,
                entry_size: h.header_entry_size,
                count: h.header_count,
            },
        ) == Some(size),
    ensures
        image_between(mem, start, end) == (match mem((pos + i) as u64, size as u32) {
            None => Err::<Option<ElfHit>, ElfReadError>(ElfReadError::Image((pos + i) as u64)),
            Some(bytes) => Ok(Some(ElfHit { base: (pos + i) as u64, size, bytes })),
        }),
{
    let base = (pos + i) as u64;
    lemma_elf_pages_are_passed_over(mem, start, pos, end);
    lemma_image_at(mem, base, h, phdr, size);
    let next = image_between(mem, pos + 0x1000, end);
    lemma_first_elf_mark(mem, page, pos as u64, i, end, h, next);
    lemma_image_step(mem, pos, end, page);
}

proof fn lemma_image_step(mem: Memory, pos: int, end: u64, page: Seq<u8>)
    requires
        0 <= pos,
        pos + 64 <= end,
        mem(pos as u64, read_length(pos, end as int)) == Some(page),
    ensures
        image_between(mem, pos, end) == page_image(
            mem,
            page,
            pos as u64,
            0,
            end,
            image_between(mem, pos + 0x1000, end),
        ),
{
}

proof fn lemma_elf_outcome(mem: Memory, addr: u64, size: u64)
    requires
        addr != 0,
        size >= 64,
        end_within(addr, size, 0x40_0000) <= u64::MAX,
    ensures
        elf_outcome(mem, addr, size) == Some(
            image_between(mem, search_start(addr), end_within(addr, size, 0x40_0000) as u64),
        ),
{
}

proof fn lemma_first_elf_mark(
    mem: Memory,
    page: Seq<u8>,
    pos: u64,
    i: int,
    end: u64,
    h: ElfHeader,
    otherwise: ElfResult,
)
    requires
        0 <= i,
        i + 64 <= page.len(),
        pos + i + 64 <= end,
        page.subrange(i, i + 64) == elf_header_bytes(h),
        h.rest_of_ident.len() == 10,
        forall|j: int| 0 <= j < i ==> !occurs_at(page, elf_mark(), j),
        elf_size_at(mem, (pos + i) as u64, elf_header_bytes(h)) matches Ok(Some(_)),
    ensures
        page_image(mem, page, pos, 0, end, otherwise) == image_at(mem, (pos + i) as u64),
{
    assert(ELF_MAGIC_BYTES@ =~= elf_mark());
    assert(occurs_at(page, elf_mark(), i)) by {
        reveal(elf_header_bytes);
        lemma_holds_both(page, i, elf_mark(), elf_header_rest(h));
    }
    assert(first_occurrence(page, ELF_MAGIC_BYTES@, 0, i));
    lemma_next_of(page, ELF_MAGIC_BYTES@, 0, i);
}

} // verus!
