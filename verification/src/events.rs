//! The events that the probes send.
use crate::bytes::{
    holds_at, le32, le32_at, le32_bytes, le64, le64_at, le64_bytes, lemma_holds_both,
    lemma_le32_held, lemma_le64_held, read_le32, read_le64,
};
use vstd::prelude::*;

verus! {

/// The size of the header before a chunk's bytes.
pub const DEX_CHUNK_HEADER_SIZE: usize = 24;

/// The size of the header before a method's bytecode.
pub const METHOD_EVENT_HEADER_SIZE: usize = 40;

/// The size of a report of a failed read.
pub const READ_FAILURE_HEADER_SIZE: usize = 24;

/// The size of a report on the runtime layout.
pub const LAYOUT_DEBUG_EVENT_SIZE: usize = 40;

/// The size of a report on a native buffer.
pub const NATIVE_BUFFER_EVENT_SIZE: usize = 32;

/// The size of a 64-bit ELF header.
pub const ELF64_HEADER_SIZE: u32 = 0x40;

/// A DEX file was seen.
#[derive(Clone, Copy, Debug, PartialEq, Eq, Structural)]
pub struct DexEvent {
    pub begin: u64,
    pub size: u32,
}

impl DexEvent {
    /// The event in some bytes.
    pub open spec fn of(data: Seq<u8>) -> Option<DexEvent> {
        if data.len() < 16 {
            None
        } else {
            Some(DexEvent { begin: le64_at(data, 0), size: le32_at(data, 12) })
        }
    }

    /// Reads the event.
    pub fn parse(data: &[u8]) -> (r: Option<Self>)
        ensures
            r == DexEvent::of(data@),
    {
        match (le64(data, 0), le32(data, 12)) {
            (Some(begin), Some(size)) => Some(DexEvent { begin, size }),
            _ => None,
        }
    }
}

/// A chunk of a DEX file.
#[derive(Clone, Copy, Debug, PartialEq, Eq, Structural)]
pub struct DexChunkEvent {
    pub begin: u64,
    pub pid: u32,
    pub size: u32,
    pub offset: u32,
    pub data_len: u32,
}

impl DexChunkEvent {
    /// The event in some bytes.
    pub open spec fn of(data: Seq<u8>) -> Option<DexChunkEvent> {
        if data.len() < DEX_CHUNK_HEADER_SIZE {
            None
        } else {
            Some(
                DexChunkEvent {
                    begin: le64_at(data, 0),
                    pid: le32_at(data, 8),
                    size: le32_at(data, 12),
                    offset: le32_at(data, 16),
                    data_len: le32_at(data, 20),
                },
            )
        }
    }

    /// Reads the event.
    pub fn parse(data: &[u8]) -> (r: Option<Self>)
        ensures
            r == DexChunkEvent::of(data@),
    {
        if data.len() < DEX_CHUNK_HEADER_SIZE {
            return None;
        }
        Some(
            DexChunkEvent {
                begin: read_le64(data, 0),
                pid: read_le32(data, 8),
                size: read_le32(data, 12),
                offset: read_le32(data, 16),
                data_len: read_le32(data, 20),
            },
        )
    }
}

/// A method was run.
#[derive(Clone, Copy, Debug, PartialEq, Eq, Structural)]
pub struct MethodEvent {
    pub begin: u64,
    pub pid: u32,
    pub art_method_ptr: u64,
    pub method_index: u32,
    pub codeitem_size: u32,
}

impl MethodEvent {
    /// The event in some bytes.
    pub open spec fn of(data: Seq<u8>) -> Option<MethodEvent> {
        if data.len() < METHOD_EVENT_HEADER_SIZE {
            None
        } else {
            Some(
                MethodEvent {
                    begin: le64_at(data, 0),
                    pid: le32_at(data, 8),
                    art_method_ptr: le64_at(data, 24),
                    method_index: le32_at(data, 32),
                    codeitem_size: le32_at(data, 36),
                },
            )
        }
    }

    /// Reads the event.
    pub fn parse(data: &[u8]) -> (r: Option<Self>)
        ensures
            r == MethodEvent::of(data@),
    {
        if data.len() < METHOD_EVENT_HEADER_SIZE {
            return None;
        }
        Some(
            MethodEvent {
                begin: read_le64(data, 0),
                pid: read_le32(data, 8),
                art_method_ptr: read_le64(data, 24),
                method_index: read_le32(data, 32),
                codeitem_size: read_le32(data, 36),
            },
        )
    }
}

/// A probe could not read a DEX file.
#[derive(Clone, Copy, Debug, PartialEq, Eq, Structural)]
pub struct ReadFailureEvent {
    pub begin: u64,
    pub pid: u32,
    pub size: u32,
    pub failed_offset: u32,
}

impl ReadFailureEvent {
    /// The event in some bytes.
    pub open spec fn of(data: Seq<u8>) -> Option<ReadFailureEvent> {
        if data.len() < READ_FAILURE_HEADER_SIZE {
            None
        } else {
            Some(
                ReadFailureEvent {
                    begin: le64_at(data, 0),
                    pid: le32_at(data, 8),
                    size: le32_at(data, 12),
                    failed_offset: le32_at(data, 16),
                },
            )
        }
    }

    /// Reads the event.
    pub fn parse(data: &[u8]) -> (r: Option<Self>)
        ensures
            r == ReadFailureEvent::of(data@),
    {
        if data.len() < READ_FAILURE_HEADER_SIZE {
            return None;
        }
        Some(
            ReadFailureEvent {
                begin: read_le64(data, 0),
                pid: read_le32(data, 8),
                size: read_le32(data, 12),
                failed_offset: read_le32(data, 16),
            },
        )
    }
}

/// A probe could not follow the runtime's structures.
#[derive(Clone, Copy, Debug, PartialEq, Eq, Structural)]
pub struct LayoutDebugEvent {
    pub art_method_ptr: u64,
    pub code_item_ptr: u64,
    pub begin: u64,
    pub pid: u32,
    pub size: u32,
    pub reason: u32,
    pub source: u32,
}

impl LayoutDebugEvent {
    /// The event in some bytes.
    pub open spec fn of(data: Seq<u8>) -> Option<LayoutDebugEvent> {
        if data.len() < LAYOUT_DEBUG_EVENT_SIZE {
            None
        } else {
            Some(
                LayoutDebugEvent {
                    art_method_ptr: le64_at(data, 0),
                    code_item_ptr: le64_at(data, 8),
                    begin: le64_at(data, 16),
                    pid: le32_at(data, 24),
                    size: le32_at(data, 28),
                    reason: le32_at(data, 32),
                    source: le32_at(data, 36),
                },
            )
        }
    }

    /// Reads the event.
    pub fn parse(data: &[u8]) -> (r: Option<Self>)
        ensures
            r == LayoutDebugEvent::of(data@),
    {
        if data.len() < LAYOUT_DEBUG_EVENT_SIZE {
            return None;
        }
        Some(
            LayoutDebugEvent {
                art_method_ptr: read_le64(data, 0),
                code_item_ptr: read_le64(data, 8),
                begin: read_le64(data, 16),
                pid: read_le32(data, 24),
                size: read_le32(data, 28),
                reason: read_le32(data, 32),
                source: read_le32(data, 36),
            },
        )
    }
}

/// A buffer was copied, mapped or protected.
#[derive(Clone, Copy, Debug, PartialEq, Eq, Structural)]
pub struct NativeBufferEvent {
    pub addr: u64,
    pub size: u64,
    pub pid: u32,
    pub source: u32,
    pub prot: u32,
    pub flags: u32,
}

/// The source of an event on `mmap`.
pub const NATIVE_SOURCE_MMAP: u32 = 1;

/// The source of an event on `mprotect`.
pub const NATIVE_SOURCE_MPROTECT: u32 = 2;

impl NativeBufferEvent {
    /// The event in some bytes.
    pub open spec fn of(data: Seq<u8>) -> Option<NativeBufferEvent> {
        if data.len() < NATIVE_BUFFER_EVENT_SIZE {
            None
        } else {
            Some(
                NativeBufferEvent {
                    addr: le64_at(data, 0),
                    size: le64_at(data, 8),
                    pid: le32_at(data, 16),
                    source: le32_at(data, 20),
                    prot: le32_at(data, 24),
                    flags: le32_at(data, 28),
                },
            )
        }
    }

    /// Reads the event.
    pub fn parse(data: &[u8]) -> (r: Option<Self>)
        ensures
            r == NativeBufferEvent::of(data@),
    {
        if data.len() < NATIVE_BUFFER_EVENT_SIZE {
            return None;
        }
        Some(
            NativeBufferEvent {
                addr: read_le64(data, 0),
                size: read_le64(data, 8),
                pid: read_le32(data, 16),
                source: read_le32(data, 20),
                prot: read_le32(data, 24),
                flags: read_le32(data, 28),
            },
        )
    }

    /// The buffer was mapped or protected, holds at least an ELF header, and can be
    /// executed: bit 2 of the protection is set.
    pub open spec fn may_be_executable(self) -> bool {
        &&& self.source == NATIVE_SOURCE_MMAP || self.source == NATIVE_SOURCE_MPROTECT
        &&& self.size >= ELF64_HEADER_SIZE
        &&& (self.prot / 4) % 2 == 1
    }

    /// Whether an executable mapping can be in the buffer.
    pub fn may_contain_executable_mapping(self) -> (r: bool)
        ensures
            r == self.may_be_executable(),
    {
        (self.source == NATIVE_SOURCE_MMAP || self.source == NATIVE_SOURCE_MPROTECT) && self.size
            >= ELF64_HEADER_SIZE as u64 && (self.prot / 4) % 2 == 1
    }
}

// ---------------------------------------------------------------------------
// Events as they are written
// ---------------------------------------------------------------------------

/// The bytes of some numbers, one behind the other.
pub open spec fn words(numbers: Seq<u32>) -> Seq<u8>
    decreases numbers.len(),
{
    if numbers.len() == 0 {
        seq![]
    } else {
        words(numbers.drop_last()) + le32_bytes(numbers.last())
    }
}

proof fn lemma_words_held(data: Seq<u8>, at: int, numbers: Seq<u32>)
    requires
        holds_at(data, at, words(numbers)),
    ensures
        words(numbers).len() == 4 * numbers.len(),
        forall|i: int| 0 <= i < numbers.len() ==> le32_at(data, at + 4 * i) == #[trigger] numbers[i],
    decreases numbers.len(),
{
    if numbers.len() > 0 {
        let rest = numbers.drop_last();
        lemma_holds_both(data, at, words(rest), le32_bytes(numbers.last()));
        lemma_words_held(data, at, rest);
        lemma_le32_held(data, at + 4 * rest.len(), numbers.last());
        assert forall|i: int| 0 <= i < numbers.len() implies le32_at(data, at + 4 * i)
            == #[trigger] numbers[i] by {
            if i < rest.len() {
                assert(rest[i] == numbers[i]);
            }
        }
    }
}

/// A report on a DEX file is read back: its address, the process and its size.
pub proof fn law_dex_event_is_read_back(begin: u64, pid: u32, size: u32, rest: Seq<u8>)
    ensures
        DexEvent::of(le64_bytes(begin) + words(seq![pid, size]) + rest) == Some(
            DexEvent { begin, size },
        ),
{
    let numbers = seq![pid, size];
    let body = le64_bytes(begin) + words(numbers);
    let data = body + rest;
    assert(data.subrange(0, body.len() as int) =~= body);
    lemma_holds_both(data, 0, le64_bytes(begin), words(numbers));
    lemma_le64_held(data, 0, begin);
    lemma_words_held(data, 8, numbers);
    assert(numbers[1] == size);
}

/// The header of a chunk is read back, whatever follows.
#[verifier::rlimit(40)]
pub proof fn law_chunk_event_is_read_back(e: DexChunkEvent, rest: Seq<u8>)
    ensures
        DexChunkEvent::of(
            le64_bytes(e.begin) + words(seq![e.pid, e.size, e.offset, e.data_len]) + rest,
        ) == Some(e),
        (le64_bytes(e.begin) + words(seq![e.pid, e.size, e.offset, e.data_len])).len()
            == DEX_CHUNK_HEADER_SIZE,
{
    let numbers = seq![e.pid, e.size, e.offset, e.data_len];
    let body = le64_bytes(e.begin) + words(numbers);
    let data = body + rest;
    assert(data.subrange(0, body.len() as int) =~= body);
    lemma_holds_both(data, 0, le64_bytes(e.begin), words(numbers));
    lemma_le64_held(data, 0, e.begin);
    lemma_words_held(data, 8, numbers);
    assert(numbers[0] == e.pid && numbers[1] == e.size && numbers[2] == e.offset && numbers[3]
        == e.data_len);
}

/// The header of a method's bytecode is read back, whatever follows. Twelve bytes behind the
/// process are not read.
#[verifier::rlimit(40)]
pub proof fn law_method_event_is_read_back(e: MethodEvent, gap: Seq<u8>, rest: Seq<u8>)
    requires
        gap.len() == 12,
    ensures
        MethodEvent::of(
            le64_bytes(e.begin) + (le32_bytes(e.pid) + (gap + (le64_bytes(e.art_method_ptr) + words(
                seq![e.method_index, e.codeitem_size],
            )))) + rest,
        ) == Some(e),
        (le64_bytes(e.begin) + (le32_bytes(e.pid) + (gap + (le64_bytes(e.art_method_ptr) + words(
            seq![e.method_index, e.codeitem_size],
        ))))).len() == METHOD_EVENT_HEADER_SIZE,
{
    let numbers = seq![e.method_index, e.codeitem_size];
    let t3 = le64_bytes(e.art_method_ptr) + words(numbers);
    let t2 = gap + t3;
    let t1 = le32_bytes(e.pid) + t2;
    let body = le64_bytes(e.begin) + t1;
    let data = body + rest;
    assert(data.subrange(0, body.len() as int) =~= body);
    lemma_holds_both(data, 0, le64_bytes(e.begin), t1);
    lemma_holds_both(data, 8, le32_bytes(e.pid), t2);
    lemma_holds_both(data, 12, gap, t3);
    lemma_holds_both(data, 24, le64_bytes(e.art_method_ptr), words(numbers));
    lemma_le64_held(data, 0, e.begin);
    lemma_le32_held(data, 8, e.pid);
    lemma_le64_held(data, 24, e.art_method_ptr);
    lemma_words_held(data, 32, numbers);
    assert(numbers[0] == e.method_index && numbers[1] == e.codeitem_size);
}

/// A report of a failed read is read back. Its last four bytes are not read.
#[verifier::rlimit(40)]
pub proof fn law_read_failure_is_read_back(e: ReadFailureEvent, last: u32, rest: Seq<u8>)
    ensures
        ReadFailureEvent::of(
            le64_bytes(e.begin) + words(seq![e.pid, e.size, e.failed_offset, last]) + rest,
        ) == Some(e),
        (le64_bytes(e.begin) + words(seq![e.pid, e.size, e.failed_offset, last])).len()
            == READ_FAILURE_HEADER_SIZE,
{
    let numbers = seq![e.pid, e.size, e.failed_offset, last];
    let body = le64_bytes(e.begin) + words(numbers);
    let data = body + rest;
    assert(data.subrange(0, body.len() as int) =~= body);
    lemma_holds_both(data, 0, le64_bytes(e.begin), words(numbers));
    lemma_le64_held(data, 0, e.begin);
    lemma_words_held(data, 8, numbers);
    assert(numbers[0] == e.pid && numbers[1] == e.size && numbers[2] == e.failed_offset);
}

/// A report on the runtime layout is read back.
#[verifier::rlimit(40)]
pub proof fn law_layout_event_is_read_back(e: LayoutDebugEvent, rest: Seq<u8>)
    ensures
        LayoutDebugEvent::of(
            le64_bytes(e.art_method_ptr) + (le64_bytes(e.code_item_ptr) + (le64_bytes(e.begin)
                + words(seq![e.pid, e.size, e.reason, e.source]))) + rest,
        ) == Some(e),
        (le64_bytes(e.art_method_ptr) + (le64_bytes(e.code_item_ptr) + (le64_bytes(e.begin) + words(
            seq![e.pid, e.size, e.reason, e.source],
        )))).len() == LAYOUT_DEBUG_EVENT_SIZE,
{
    let numbers = seq![e.pid, e.size, e.reason, e.source];
    let t2 = le64_bytes(e.begin) + words(numbers);
    let t1 = le64_bytes(e.code_item_ptr) + t2;
    let body = le64_bytes(e.art_method_ptr) + t1;
    let data = body + rest;
    assert(data.subrange(0, body.len() as int) =~= body);
    lemma_holds_both(data, 0, le64_bytes(e.art_method_ptr), t1);
    lemma_holds_both(data, 8, le64_bytes(e.code_item_ptr), t2);
    lemma_holds_both(data, 16, le64_bytes(e.begin), words(numbers));
    lemma_le64_held(data, 0, e.art_method_ptr);
    lemma_le64_held(data, 8, e.code_item_ptr);
    lemma_le64_held(data, 16, e.begin);
    lemma_words_held(data, 24, numbers);
    assert(numbers[0] == e.pid && numbers[1] == e.size && numbers[2] == e.reason && numbers[3]
        == e.source);
}

/// A report on a native buffer is read back.
#[verifier::rlimit(40)]
pub proof fn law_native_event_is_read_back(e: NativeBufferEvent, rest: Seq<u8>)
    ensures
        NativeBufferEvent::of(
            le64_bytes(e.addr) + (le64_bytes(e.size) + words(
                seq![e.pid, e.source, e.prot, e.flags],
            )) + rest,
        ) == Some(e),
        (le64_bytes(e.addr) + (le64_bytes(e.size) + words(seq![e.pid, e.source, e.prot, e.flags]))).len()
            == NATIVE_BUFFER_EVENT_SIZE,
{
    let numbers = seq![e.pid, e.source, e.prot, e.flags];
    let t1 = le64_bytes(e.size) + words(numbers);
    let body = le64_bytes(e.addr) + t1;
    let data = body + rest;
    assert(data.subrange(0, body.len() as int) =~= body);
    lemma_holds_both(data, 0, le64_bytes(e.addr), t1);
    lemma_holds_both(data, 8, le64_bytes(e.size), words(numbers));
    lemma_le64_held(data, 0, e.addr);
    lemma_le64_held(data, 8, e.size);
    lemma_words_held(data, 16, numbers);
    assert(numbers[0] == e.pid && numbers[1] == e.source && numbers[2] == e.prot && numbers[3]
        == e.flags);
}

/// Too few bytes hold no event.
pub proof fn law_short_events_are_refused(data: Seq<u8>)
    ensures
        data.len() < 16 ==> DexEvent::of(data) is None,
        data.len() < 24 ==> DexChunkEvent::of(data) is None && ReadFailureEvent::of(data) is None,
        data.len() < 32 ==> NativeBufferEvent::of(data) is None,
        data.len() < 40 ==> MethodEvent::of(data) is None && LayoutDebugEvent::of(data) is None,
{
}

/// An executable mapping can be in a buffer that `mmap` (source 1) or `mprotect` (source 2)
/// gave, that holds an ELF header of 64 bytes, and whose protection has bit 2, and in no other.
pub proof fn law_executable_mappings(e: NativeBufferEvent, low: u32, high: u32)
    requires
        low < 4,
        high < 0x2000_0000,
    ensures
        e.prot == low + 4 + 8 * high ==> (e.may_be_executable() <==> (e.source == 1 || e.source == 2)
            && e.size >= 64),
        e.prot == low + 8 * high ==> !e.may_be_executable(),
{
}

} // verus!
