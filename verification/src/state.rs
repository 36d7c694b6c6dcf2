//! What a dump has gathered so far, and what each event adds to it.
use crate::bytes::{le32_bytes, le64_bytes, stands_at};
use crate::capture::{
    covers, holds_part_of, law_chunk_is_added, law_chunk_of_file_is_kept,
    law_complete_buffer_is_the_file, law_complete_means_every_byte, DexRecvState, RecvText,
};
use crate::dex::{
    class_text, header_of, method_at, type_list_text, type_text, DexError, DexHeader,
    DexParser, DEX_HEADER_SIZE,
};
use crate::dexlayout::{
    header_bytes, holds_tables, law_header_is_read_back, law_methods_are_read_back, named_type,
    parameter_names, refers_inside, Tables,
};
use crate::digest::{sha1_digest, sha1_of};
use crate::events::{
    law_chunk_event_is_read_back, law_dex_event_is_read_back, law_layout_event_is_read_back,
    law_method_event_is_read_back, law_native_event_is_read_back, law_read_failure_is_read_back,
    words, DexChunkEvent, DexEvent, LayoutDebugEvent, MethodEvent, NativeBufferEvent,
    ReadFailureEvent, DEX_CHUNK_HEADER_SIZE, METHOD_EVENT_HEADER_SIZE,
};
use crate::fix::MethodCodeRecord;
use crate::hexcode::{encode_hex, hex_of};
use crate::maps::MapsRegions;
use crate::names::{dex_file_name, dump_base, elf_file_name, elf_name};
use crate::platform::{is_system_dex_path, is_system_path};
use crate::scan::{dex_mark, is_dex, law_dex_files_start_with_the_mark};
use crate::sort::sort_pairs;
use crate::text::{dec_text, hex_text, push_dec, push_hex};
use std::collections::{HashMap, HashSet};
use vstd::prelude::*;
use vstd::slice::slice_subrange;
use vstd::string::StringExecFns;

verus! {

broadcast use vstd::std_specs::hash::group_hash_axioms;

/// The options of a dump.
#[derive(Clone, Copy, Debug, PartialEq, Eq, Structural)]
pub struct DumpOptions {
    pub trace: bool,
    pub native_buffer_scan: bool,
    pub native_elf_scan: bool,
}

/// What a dump has gathered.
pub struct DumpState {
    options: DumpOptions,
    dex_cache: HashMap<u64, Vec<u8>>,
    dex_hashes: Vec<[u8; 20]>,
    native_elf_cache: HashSet<u64>,
    dex_sizes: HashMap<u64, u32>,
    pending_dex: HashMap<u64, DexRecvState>,
    method_records: HashMap<u64, Vec<MethodCodeRecord>>,
    method_sig_cache: HashMap<u128, String>,
    maps_cache: HashMap<u32, MapsRegions>,
}

/// A recorded method.
#[verifier::ext_equal]
pub struct RecordText {
    pub name: Seq<char>,
    pub method_idx: u32,
    pub code: Seq<char>,
}

/// What a dump has gathered: the DEX files by address, their digests, the addresses of
/// native images, the sizes of DEX files by address, the files that are still being
/// received, the recorded methods by file, and the names of methods.
#[verifier::ext_equal]
pub struct DumpText {
    pub dexes: Map<u64, Seq<u8>>,
    pub digests: Set<Seq<u8>>,
    pub elfs: Set<u64>,
    pub sizes: Map<u64, u32>,
    pub pending: Map<u64, RecvText>,
    pub records: Map<u64, Seq<RecordText>>,
    pub names: Map<(u64, u32), Seq<char>>,
}

/// What a record is.
pub open spec fn record_text(r: MethodCodeRecord) -> RecordText {
    RecordText { name: r.name@, method_idx: r.method_idx, code: r.code@ }
}

/// The state once a native image was noted, and whether it is new.
pub open spec fn after_native_elf(t: DumpText, base: u64) -> (DumpText, bool) {
    (DumpText { elfs: t.elfs.insert(base), ..t }, !t.elfs.contains(base))
}

/// What some records are.
pub open spec fn record_texts(s: Seq<MethodCodeRecord>) -> Seq<RecordText> {
    s.map_values(|r: MethodCodeRecord| record_text(r))
}

/// The key of a method of a file.
spec fn method_key(begin: u64, method_idx: u32) -> u128 {
    (begin * 0x1_0000_0000 + method_idx) as u128
}

/// The bytes are one of the digests.
spec fn is_digest(v: Seq<[u8; 20]>, d: Seq<u8>) -> bool {
    exists|i: int| 0 <= i < v.len() && (#[trigger] v[i])@ == d
}

impl View for DumpState {
    type V = DumpText;

    closed spec fn view(&self) -> DumpText {
        DumpText {
            dexes: self.dex_cache@.map_values(|v: Vec<u8>| v@),
            digests: Set::new(|d: Seq<u8>| is_digest(self.dex_hashes@, d)),
            elfs: self.native_elf_cache@,
            sizes: self.dex_sizes@,
            pending: self.pending_dex@.map_values(|s: DexRecvState| s@),
            records: self.method_records@.map_values(|v: Vec<MethodCodeRecord>| record_texts(v@)),
            names: Map::new(
                |k: (u64, u32)| self.method_sig_cache@.contains_key(method_key(k.0, k.1)),
                |k: (u64, u32)| self.method_sig_cache@[method_key(k.0, k.1)]@,
            ),
        }
    }
}

impl DumpText {
    /// Nothing was gathered.
    pub open spec fn empty() -> DumpText {
        DumpText {
            dexes: Map::empty(),
            digests: Set::empty(),
            elfs: Set::empty(),
            sizes: Map::empty(),
            pending: Map::empty(),
            records: Map::empty(),
            names: Map::empty(),
        }
    }

    /// What is being received is in order; every stored file can be parsed; its digest is
    /// known; and no two stored files have the same digest.
    pub open spec fn wf(self) -> bool {
        &&& forall|b: u64| #[trigger] self.pending.contains_key(b) ==> self.pending[b].wf()
        &&& forall|b: u64| #[trigger]
            self.dexes.contains_key(b) ==> is_dex(self.dexes[b]) && self.digests.contains(
                sha1_of(self.dexes[b])@,
            )
        &&& forall|a: u64, b: u64|
            #![trigger self.dexes.contains_key(a), self.dexes.contains_key(b)]
            self.dexes.contains_key(a) && self.dexes.contains_key(b) && a != b ==> sha1_of(
                self.dexes[a],
            )@ != sha1_of(self.dexes[b])@
    }
}

impl DumpState {
    /// The parts of the state are in order.
    pub closed spec fn wf(&self) -> bool {
        &&& self@.wf()
        &&& forall|p: u32| #[trigger] self.maps_cache@.contains_key(p) ==> self.maps_cache@[p].wf()
    }

    /// The memory map that is known of a process.
    pub closed spec fn maps_of(&self, pid: u32) -> Option<MapsRegions> {
        if self.maps_cache@.contains_key(pid) {
            Some(self.maps_cache@[pid])
        } else {
            None
        }
    }

    /// Starts a dump.
    pub fn new(options: DumpOptions) -> (r: Self)
        ensures
            r.setting() == options,
            r@ == DumpText::empty(),
            forall|pid: u32| r.maps_of(pid) is None,
            r.wf(),
    {
        let r = DumpState {
            options,
            dex_cache: HashMap::new(),
            dex_hashes: Vec::new(),
            native_elf_cache: HashSet::new(),
            dex_sizes: HashMap::new(),
            pending_dex: HashMap::new(),
            method_records: HashMap::new(),
            method_sig_cache: HashMap::new(),
            maps_cache: HashMap::new(),
        };
        assert(r@ =~= DumpText::empty());
        r
    }

    /// The options of the dump.
    pub closed spec fn setting(&self) -> DumpOptions {
        self.options
    }

    /// The options of the dump.
    pub fn options(&self) -> (r: DumpOptions)
        ensures
            r == self.setting(),
    {
        self.options
    }

    /// The options and the memory maps are the same.
    pub open spec fn same_setting(&self, other: &DumpState) -> bool {
        self.setting() == other.setting() && forall|pid: u32| #[trigger]
            self.maps_of(pid) == other.maps_of(pid)
    }

    // -----------------------------------------------------------------------
    // DEX files
    // -----------------------------------------------------------------------

    /// Notes the size of a DEX file. Says whether the event was long enough.
    pub fn handle_dex_event(&mut self, data: &[u8]) -> (r: bool)
        requires
            old(self).wf(),
        ensures
            final(self).wf(),
            final(self).same_setting(old(self)),
            final(self)@ == after_dex_event(old(self)@, data@),
            match DexEvent::of(data@) {
                None => !r && final(self)@ == old(self)@,
                Some(e) => r && final(self)@ == (DumpText {
                    sizes: old(self)@.sizes.insert(e.begin, e.size),
                    ..old(self)@
                }),
            },
    {
        match DexEvent::parse(data) {
            None => false,
            Some(e) => {
                let ghost before = self@;
                self.dex_sizes.insert(e.begin, e.size);
                assert(self@ =~= (DumpText { sizes: before.sizes.insert(e.begin, e.size), ..before }));
                true
            },
        }
    }
}

/// The state once the size of a DEX file was reported.
pub open spec fn after_dex_event(t: DumpText, data: Seq<u8>) -> DumpText {
    match DexEvent::of(data) {
        None => t,
        Some(e) => DumpText { sizes: t.sizes.insert(e.begin, e.size), ..t },
    }
}

/// What became of a chunk.
#[derive(Clone, Debug, PartialEq, Eq)]
pub enum ChunkOutcome {
    /// The event is too short.
    TooShort,
    /// The event holds fewer bytes than it states.
    OutOfBounds,
    /// The file is not complete yet.
    Incomplete,
    /// The file is complete, and is to be saved.
    Complete { pid: u32, begin: u64, size: u32, bytes: Vec<u8> },
}

/// What a chunk leads to: the first chunk of a file notes the file's size; a file that is
/// complete is handed out and no longer being received.
pub open spec fn is_chunk_step(before: DumpText, data: Seq<u8>, after: DumpText, r: ChunkOutcome) -> bool {
    match DexChunkEvent::of(data) {
        None => r == ChunkOutcome::TooShort && after == before,
        Some(e) => if DEX_CHUNK_HEADER_SIZE + e.data_len > data.len() {
            r == ChunkOutcome::OutOfBounds && after == before
        } else {
            let known = before.pending.contains_key(e.begin);
            let received = (if known {
                before.pending[e.begin]
            } else {
                RecvText::fresh(e.size)
            }).with_chunk(
                e.offset,
                data.subrange(
                    DEX_CHUNK_HEADER_SIZE as int,
                    DEX_CHUNK_HEADER_SIZE + e.data_len,
                ),
            );
            let sized = DumpText {
                sizes: if known {
                    before.sizes
                } else {
                    before.sizes.insert(e.begin, e.size)
                },
                ..before
            };
            if received.complete() {
                &&& r matches ChunkOutcome::Complete { pid, begin, size, bytes } && pid == e.pid
                    && begin == e.begin && size == e.size && bytes@ == received.buf
                &&& after == (DumpText { pending: before.pending.remove(e.begin), ..sized })
            } else {
                &&& r == ChunkOutcome::Incomplete
                &&& after == (DumpText { pending: before.pending.insert(e.begin, received), ..sized })
            }
        },
    }
}

impl DumpState {
    /// Takes a chunk of a DEX file.
    pub fn handle_dex_chunk(&mut self, data: &[u8]) -> (r: ChunkOutcome)
        requires
            old(self).wf(),
        ensures
            final(self).wf(),
            final(self).same_setting(old(self)),
            is_chunk_step(old(self)@, data@, final(self)@, r),
    {
        let ghost before = self@;
        let e = match DexChunkEvent::parse(data) {
            None => return ChunkOutcome::TooShort,
            Some(e) => e,
        };
        if e.data_len as u64 > (data.len() - DEX_CHUNK_HEADER_SIZE) as u64 {
            return ChunkOutcome::OutOfBounds;
        }
        let payload = slice_subrange(
            data,
            DEX_CHUNK_HEADER_SIZE,
            DEX_CHUNK_HEADER_SIZE + e.data_len as usize,
        );
        let known: Option<DexRecvState> = self.pending_dex.remove(&e.begin);
        let mut received = match known {
            Some(s) => {
                assert(before.pending.contains_key(e.begin) && before.pending[e.begin] == s@);
                s
            },
            None => {
                assert(!before.pending.contains_key(e.begin));
                self.dex_sizes.insert(e.begin, e.size);
                DexRecvState::new(e.size)
            },
        };
        received.receive(e.offset, payload);
        let ghost text = received@;
        if received.is_complete() {
            assert(self@ =~= (DumpText {
                pending: before.pending.remove(e.begin),
                sizes: self@.sizes,
                ..before
            }));
            ChunkOutcome::Complete { pid: e.pid, begin: e.begin, size: e.size, bytes: received.buf }
        } else {
            self.pending_dex.insert(e.begin, received);
            assert(self@ =~= (DumpText {
                pending: before.pending.insert(e.begin, text),
                sizes: self@.sizes,
                ..before
            }));
            ChunkOutcome::Incomplete
        }
    }
}

// ---------------------------------------------------------------------------
// Saving a DEX file
// ---------------------------------------------------------------------------

/// What became of a DEX file that was to be saved.
#[derive(Clone, Debug, PartialEq, Eq)]
pub enum SaveOutcome {
    /// It belongs to the system and is left out.
    System,
    /// A file at this address was saved before.
    Known,
    /// It cannot be parsed.
    Malformed { error: DexError },
    /// A file with the same content was saved before; the digest is its SHA-1.
    Duplicate { sha1: String },
    /// It was stored, and is to be written to a file of this name.
    Saved { file_name: String },
}

/// Why some bytes cannot be parsed as a DEX file.
pub open spec fn dex_error(bytes: Seq<u8>) -> DexError {
    if bytes.len() < DEX_HEADER_SIZE {
        DexError::TooSmall
    } else {
        DexError::InvalidMagic(crate::bytes::le32_at(bytes, 0))
    }
}

/// What saving a file leads to. It is stored unless it belongs to the system, a file at its
/// address is stored, it cannot be parsed, or a file of the same content is stored; then it
/// is no longer being received.
pub open spec fn is_save_step(
    before: DumpText,
    system: bool,
    begin: u64,
    size: u32,
    bytes: Seq<u8>,
    after: DumpText,
    r: SaveOutcome,
) -> bool {
    if system {
        r == SaveOutcome::System && after == before
    } else if before.dexes.contains_key(begin) {
        r == SaveOutcome::Known && after == before
    } else if !is_dex(bytes) {
        r == (SaveOutcome::Malformed { error: dex_error(bytes) }) && after == before
    } else if before.digests.contains(sha1_of(bytes)@) {
        &&& r matches SaveOutcome::Duplicate { sha1 } && sha1@ == hex_of(sha1_of(bytes)@)
        &&& after == before
    } else {
        &&& r matches SaveOutcome::Saved { file_name } && file_name@ == dump_base(begin, size)
            + ".dex"@
        &&& after == (DumpText {
            dexes: before.dexes.insert(begin, bytes),
            digests: before.digests.insert(sha1_of(bytes)@),
            pending: before.pending.remove(begin),
            sizes: before.sizes.insert(begin, size),
            ..before
        })
    }
}

fn has_digest(v: &Vec<[u8; 20]>, d: &[u8; 20]) -> (r: bool)
    ensures
        r == is_digest(v@, d@),
{
    for i in 0..v.len()
        invariant
            forall|j: int| 0 <= j < i ==> (#[trigger] v@[j])@ != d@,
    {
        let one: [u8; 20] = v[i];
        if stands_at(one.as_slice(), d.as_slice(), 0) {
            assert(one@.subrange(0, 20) =~= one@);
            assert(v@[i as int]@ == d@);
            return true;
        }
        assert(one@.subrange(0, 20) =~= one@);
    }
    false
}

impl DumpState {
    /// Saves a DEX file. `system` says that it belongs to the system.
    pub fn save_dex(&mut self, system: bool, begin: u64, size: u32, bytes: Vec<u8>) -> (r: SaveOutcome)
        requires
            old(self).wf(),
        ensures
            final(self).wf(),
            final(self).same_setting(old(self)),
            is_save_step(old(self)@, system, begin, size, bytes@, final(self)@, r),
    {
        let ghost before = self@;
        let ghost content = bytes@;
        if system {
            return SaveOutcome::System;
        }
        if self.dex_cache.contains_key(&begin) {
            assert(before.dexes.contains_key(begin));
            return SaveOutcome::Known;
        }
        assert(!before.dexes.contains_key(begin));
        if let Err(error) = DexParser::new(bytes.as_slice()) {
            return SaveOutcome::Malformed { error };
        }
        let hash: [u8; 20] = sha1_digest(bytes.as_slice());
        if has_digest(&self.dex_hashes, &hash) {
            assert(before.digests.contains(sha1_of(content)@));
            return SaveOutcome::Duplicate { sha1: encode_hex(hash.as_slice()) };
        }
        assert(!before.digests.contains(sha1_of(content)@));
        let ghost hashes = self.dex_hashes@;
        self.dex_hashes.push(hash);
        self.pending_dex.remove(&begin);
        self.dex_cache.insert(begin, bytes);
        self.dex_sizes.insert(begin, size);
        proof {
            assert forall|d: Seq<u8>| is_digest(self.dex_hashes@, d) <==> is_digest(hashes, d) || d
                == hash@ by {
                if is_digest(hashes, d) {
                    let i = choose|i: int| 0 <= i < hashes.len() && (#[trigger] hashes[i])@ == d;
                    assert(self.dex_hashes@[i]@ == d);
                }
                assert(self.dex_hashes@[hashes.len() as int]@ == hash@);
                if is_digest(self.dex_hashes@, d) && d != hash@ {
                    let i = choose|i: int|
                        0 <= i < self.dex_hashes@.len() && (#[trigger] self.dex_hashes@[i])@ == d;
                    assert(hashes[i]@ == d);
                }
            }
            let after = DumpText {
                dexes: before.dexes.insert(begin, content),
                digests: before.digests.insert(sha1_of(content)@),
                pending: before.pending.remove(begin),
                sizes: before.sizes.insert(begin, size),
                ..before
            };
            assert(self@.digests =~= after.digests);
            assert(self@ =~= after);
            assert(after.wf());
        }
        SaveOutcome::Saved { file_name: dex_file_name(begin, size) }
    }

    /// The stored DEX file at an address.
    pub fn dex_bytes(&self, begin: u64) -> (r: Option<&Vec<u8>>)
        ensures
            match r {
                Some(v) => self@.dexes.contains_key(begin) && v@ == self@.dexes[begin],
                None => !self@.dexes.contains_key(begin),
            },
    {
        self.dex_cache.get(&begin)
    }

    /// Drops what was received so far of a DEX file, because all of it was read at once.
    pub fn forget_pending(&mut self, begin: u64)
        requires
            old(self).wf(),
        ensures
            final(self).wf(),
            final(self).same_setting(old(self)),
            final(self)@ == (DumpText { pending: old(self)@.pending.remove(begin), ..old(self)@ }),
    {
        let ghost before = self@;
        self.pending_dex.remove(&begin);
        assert(self@ =~= (DumpText { pending: before.pending.remove(begin), ..before }));
    }

    /// Notes a native image. Gives the name of the file that it is to be written to, unless
    /// one at this address was noted before.
    pub fn save_native_elf(&mut self, pid: u32, base: u64, size: u64) -> (r: Option<String>)
        requires
            old(self).wf(),
        ensures
            final(self).wf(),
            final(self).same_setting(old(self)),
            (final(self)@, r is Some) == after_native_elf(old(self)@, base),
            if old(self)@.elfs.contains(base) {
                r is None && final(self)@ == old(self)@
            } else {
                &&& r matches Some(name) && name@ == elf_name(pid, base, size)
                &&& final(self)@ == (DumpText { elfs: old(self)@.elfs.insert(base), ..old(self)@ })
            },
    {
        let ghost before = self@;
        if !self.native_elf_cache.insert(base) {
            assert(self@ =~= before);
            assert(after_native_elf(before, base).0 =~= before);
            return None;
        }
        assert(self@ =~= (DumpText { elfs: before.elfs.insert(base), ..before }));
        Some(elf_file_name(pid, base, size))
    }

    // -----------------------------------------------------------------------
    // Memory maps
    // -----------------------------------------------------------------------

    /// What is known of the path that an address of a process was mapped from.
    pub open spec fn is_known_path(&self, pid: u32, addr: u64, r: Option<String>) -> bool {
        match self.maps_of(pid) {
            None => r is None,
            Some(maps) => path_found(maps, addr, r),
        }
    }

    /// The path that an address of a process was mapped from, as far as its memory map is
    /// known.
    pub fn known_path(&self, pid: u32, addr: u64) -> (r: Option<String>)
        requires
            self.wf(),
        ensures
            self.is_known_path(pid, addr, r),
    {
        match self.maps_cache.get(&pid) {
            None => None,
            Some(maps) => match maps.lookup(addr) {
                None => None,
                Some(path) => Some(path.to_owned()),
            },
        }
    }

    /// Takes the memory map of a process, where it could be read.
    pub fn refresh_maps(&mut self, pid: u32, content: Option<&str>)
        requires
            old(self).wf(),
        ensures
            final(self).wf(),
            final(self)@ == old(self)@,
            final(self).setting() == old(self).setting(),
            maps_refreshed(old(self), final(self), pid, content),
    {
        let ghost before = *self;
        let mut maps = match self.maps_cache.remove(&pid) {
            Some(maps) => maps,
            None => MapsRegions::default(),
        };
        maps.refresh(content);
        self.maps_cache.insert(pid, maps);
        assert(self@ =~= before@);
    }
}

/// Whether a DEX file is left alone because it belongs to the system.
#[derive(Clone, Debug, PartialEq, Eq)]
pub enum SystemCheck {
    /// It does, and was mapped from this path.
    Skip(String),
    /// It does not.
    Keep,
    /// The memory map has to be read first.
    ReadMaps,
}

/// What follows from the path that an address was mapped from.
pub open spec fn is_check_of(r: SystemCheck, path: String) -> bool {
    if is_system_path(path@) {
        r matches SystemCheck::Skip(same) && same@ == path@
    } else {
        r == SystemCheck::Keep
    }
}

impl DumpState {
    /// Says whether the file at an address belongs to the system, as far as the memory map of
    /// the process is known.
    pub fn check_system(&self, pid: u32, addr: u64) -> (r: SystemCheck)
        requires
            self.wf(),
        ensures
            exists|path: Option<String>| #[trigger]
                self.is_known_path(pid, addr, path) && match path {
                    Some(path) => is_check_of(r, path),
                    None => r == SystemCheck::ReadMaps,
                },
    {
        let path = self.known_path(pid, addr);
        let ghost found = path;
        assert(self.is_known_path(pid, addr, found));
        match path {
            None => SystemCheck::ReadMaps,
            Some(path) => if is_system_dex_path(path.as_str()) {
                SystemCheck::Skip(path)
            } else {
                SystemCheck::Keep
            },
        }
    }

    /// Takes the memory map of the process, where it could be read, and says whether the file
    /// belongs to the system. A file at an address that was still not mapped does not.
    pub fn check_system_again(&mut self, pid: u32, addr: u64, content: Option<&str>) -> (r:
        SystemCheck)
        requires
            old(self).wf(),
        ensures
            final(self).wf(),
            final(self)@ == old(self)@,
            final(self).setting() == old(self).setting(),
            maps_refreshed(old(self), final(self), pid, content),
            exists|path: Option<String>| #[trigger]
                final(self).is_known_path(pid, addr, path) && match path {
                    Some(path) => is_check_of(r, path),
                    None => r == SystemCheck::Keep,
                },
    {
        self.refresh_maps(pid, content);
        match self.check_system(pid, addr) {
            SystemCheck::ReadMaps => SystemCheck::Keep,
            found => found,
        }
    }
}

/// The memory map of a process was read again: where that failed the earlier one stays, or an
/// empty one stands for it. The maps of other processes stay.
pub open spec fn maps_refreshed(
    before: &DumpState,
    after: &DumpState,
    pid: u32,
    content: Option<&str>,
) -> bool {
    &&& forall|other: u32|
        #![trigger after.maps_of(other)]
        other != pid ==> after.maps_of(other) == before.maps_of(other)
    &&& after.maps_of(pid) matches Some(maps) && match content {
        None => match before.maps_of(pid) {
            Some(earlier) => maps == earlier,
            None => maps.regions@.len() == 0,
        },
        Some(text) => crate::maps::is_sorted_from(
            crate::maps::regions_of(
                crate::text::lines_of(text@),
                crate::text::lines_of(text@).len(),
            ),
            crate::maps::region_texts(maps.regions@),
        ),
    }
}

/// What a lookup of an address in a memory map gives.
pub open spec fn path_found(maps: MapsRegions, addr: u64, r: Option<String>) -> bool {
    let s = crate::maps::region_texts(maps.regions@);
    match r {
        Some(path) => exists|i: int| #[trigger]
            crate::maps::is_candidate(s, addr, i) && addr < s[i].end && path@ == s[i].path,
        None => forall|i: int| #[trigger]
            crate::maps::is_candidate(s, addr, i) ==> addr >= s[i].end,
    }
}

// ---------------------------------------------------------------------------
// Methods
// ---------------------------------------------------------------------------

/// The name of a method: the one that was given before; the one in the stored DEX file; or
/// else its index.
pub open spec fn name_of(t: DumpText, begin: u64, method_idx: u32) -> Seq<char> {
    if t.names.contains_key((begin, method_idx)) {
        t.names[(begin, method_idx)]
    } else if t.dexes.contains_key(begin) && method_at(
        t.dexes[begin],
        header_of(t.dexes[begin]),
        method_idx,
    ) is Ok {
        method_at(t.dexes[begin], header_of(t.dexes[begin]), method_idx)->Ok_0.pretty()
    } else {
        "method_idx_"@ + dec_text(method_idx as nat)
    }
}

/// The state once a method was named.
pub open spec fn with_name(t: DumpText, begin: u64, method_idx: u32) -> DumpText {
    DumpText {
        names: t.names.insert((begin, method_idx), name_of(t, begin, method_idx)),
        ..t
    }
}

/// The bytecode that an event carries. It is empty where the event states none or holds
/// less than it states.
pub open spec fn bytecode_of(data: Seq<u8>, e: MethodEvent) -> Seq<u8> {
    if METHOD_EVENT_HEADER_SIZE + e.codeitem_size <= data.len() {
        data.subrange(
            METHOD_EVENT_HEADER_SIZE as int,
            METHOD_EVENT_HEADER_SIZE + e.codeitem_size,
        )
    } else {
        seq![]
    }
}

/// The state once a method was run: it has a name, and its bytecode is recorded if the
/// event carries some.
pub open spec fn with_method(t: DumpText, data: Seq<u8>, e: MethodEvent) -> DumpText {
    let named = with_name(t, e.begin, e.method_index);
    let code = bytecode_of(data, e);
    if code.len() == 0 {
        named
    } else {
        let record = RecordText {
            name: name_of(t, e.begin, e.method_index),
            method_idx: e.method_index,
            code: hex_of(code),
        };
        let earlier = if t.records.contains_key(e.begin) {
            t.records[e.begin]
        } else {
            seq![]
        };
        DumpText { records: t.records.insert(e.begin, earlier.push(record)), ..named }
    }
}

/// The line that traces a method.
pub open spec fn trace_text(name: Seq<char>, e: MethodEvent) -> Seq<char> {
    let head = name + " (pid="@ + dec_text(e.pid as nat) + ", dex=0x"@ + hex_text(e.begin as nat)
        + ", method_idx="@ + dec_text(e.method_index as nat) + ", art_method=0x"@ + hex_text(
        e.art_method_ptr as nat,
    );
    if e.codeitem_size > 0 {
        head + ", bytecode_size="@ + dec_text(e.codeitem_size as nat) + ")"@
    } else {
        head + ")"@
    }
}

fn trace_line(name: &str, e: &MethodEvent) -> (r: String)
    ensures
        r@ == trace_text(name@, *e),
{
    let mut r: String = name.to_owned();
    r.append(" (pid=");
    push_dec(&mut r, e.pid as u64);
    r.append(", dex=0x");
    push_hex(&mut r, e.begin);
    r.append(", method_idx=");
    push_dec(&mut r, e.method_index as u64);
    r.append(", art_method=0x");
    push_hex(&mut r, e.art_method_ptr);
    if e.codeitem_size > 0 {
        r.append(", bytecode_size=");
        push_dec(&mut r, e.codeitem_size as u64);
    }
    r.append(")");
    r
}

fn find_name(dexes: &HashMap<u64, Vec<u8>>, begin: u64, method_idx: u32) -> (r: Option<String>)
    requires
        dexes@.contains_key(begin) ==> is_dex(dexes@[begin]@),
    ensures
        match r {
            Some(name) => dexes@.contains_key(begin) && (method_at(
                dexes@[begin]@,
                header_of(dexes@[begin]@),
                method_idx,
            ) matches Ok(info) && name@ == info.pretty()),
            None => !dexes@.contains_key(begin) || method_at(
                dexes@[begin]@,
                header_of(dexes@[begin]@),
                method_idx,
            ) is Err,
        },
{
    match dexes.get(&begin) {
        None => None,
        Some(dex) => match DexParser::new(dex.as_slice()) {
            Err(_) => None,
            Ok(parser) => match parser.get_method_info(method_idx) {
                Err(_) => None,
                Ok(info) => Some(info.pretty_method()),
            },
        },
    }
}

/// Different methods have different keys.
proof fn lemma_method_keys(a: (u64, u32), b: (u64, u32))
    ensures
        method_key(a.0, a.1) == method_key(b.0, b.1) ==> a == b,
{
}

impl DumpState {
    /// The name of a method.
    pub fn method_name(&mut self, begin: u64, method_idx: u32) -> (r: String)
        requires
            old(self).wf(),
        ensures
            final(self).wf(),
            final(self).same_setting(old(self)),
            r@ == name_of(old(self)@, begin, method_idx),
            final(self)@ == with_name(old(self)@, begin, method_idx),
    {
        let ghost before = self@;
        let key: u128 = begin as u128 * 0x1_0000_0000 + method_idx as u128;
        assert(key == method_key(begin, method_idx));
        if let Some(cached) = self.method_sig_cache.get(&key) {
            assert(before.names.contains_key((begin, method_idx)));
            assert(before =~= with_name(before, begin, method_idx));
            return cached.as_str().to_owned();
        }
        assert(!before.names.contains_key((begin, method_idx)));
        assert(self.dex_cache@.contains_key(begin) ==> before.dexes.contains_key(begin));
        let name: String = match find_name(&self.dex_cache, begin, method_idx) {
            Some(name) => name,
            None => {
                let mut name: String = "method_idx_".to_owned();
                push_dec(&mut name, method_idx as u64);
                name
            },
        };
        let stored: String = name.as_str().to_owned();
        self.method_sig_cache.insert(key, stored);
        proof {
            let after = with_name(before, begin, method_idx);
            assert forall|k: (u64, u32)| #[trigger]
                self@.names.contains_key(k) <==> after.names.contains_key(k) by {
                lemma_method_keys(k, (begin, method_idx));
            }
            assert forall|k: (u64, u32)| #[trigger] after.names.contains_key(k) implies self@.names[k]
                == after.names[k] by {
                lemma_method_keys(k, (begin, method_idx));
            }
            assert(self@.names =~= after.names);
            assert(self@ =~= after);
        }
        name
    }

    /// Records a method that was run. Gives the line that traces it, unless the event is too
    /// short.
    pub fn handle_method_event(&mut self, data: &[u8]) -> (r: Option<String>)
        requires
            old(self).wf(),
        ensures
            final(self).wf(),
            final(self).same_setting(old(self)),
            match MethodEvent::of(data@) {
                None => r is None && final(self)@ == old(self)@,
                Some(e) => {
                    &&& r matches Some(line) && line@ == trace_text(
                        name_of(old(self)@, e.begin, e.method_index),
                        e,
                    )
                    &&& final(self)@ == with_method(old(self)@, data@, e)
                },
            },
    {
        let ghost before = self@;
        let e = match MethodEvent::parse(data) {
            None => return None,
            Some(e) => e,
        };
        let name: String = self.method_name(e.begin, e.method_index);
        let line: String = trace_line(name.as_str(), &e);
        let room: usize = data.len() - METHOD_EVENT_HEADER_SIZE;
        if e.codeitem_size > 0 && e.codeitem_size as u64 <= room as u64 {
            let code = slice_subrange(
                data,
                METHOD_EVENT_HEADER_SIZE,
                METHOD_EVENT_HEADER_SIZE + e.codeitem_size as usize,
            );
            let ghost middle = *self;
            let record = MethodCodeRecord {
                name,
                method_idx: e.method_index,
                code: encode_hex(code),
            };
            let mut list = match self.method_records.remove(&e.begin) {
                Some(list) => {
                    assert(before.records.contains_key(e.begin));
                    list
                },
                None => {
                    assert(!before.records.contains_key(e.begin));
                    Vec::new()
                },
            };
            let ghost earlier = record_texts(list@);
            let ghost text = record_text(record);
            list.push(record);
            assert(record_texts(list@) =~= earlier.push(text));
            self.method_records.insert(e.begin, list);
            proof {
                let after = with_method(before, data@, e);
                assert(bytecode_of(data@, e) == code@);
                assert(earlier =~= (if before.records.contains_key(e.begin) {
                    before.records[e.begin]
                } else {
                    seq![]
                }));
                assert(self@.records =~= after.records);
                assert(self@ =~= after);
                assert forall|pid: u32| #[trigger] self.maps_of(pid) == old(self).maps_of(pid) by {
                    assert(middle.maps_of(pid) == old(self).maps_of(pid));
                }
            }
        }
        Some(line)
    }
}

// ---------------------------------------------------------------------------
// Other events
// ---------------------------------------------------------------------------

/// What a report of a failed read asks for.
#[derive(Clone, Copy, Debug, PartialEq, Eq, Structural)]
pub enum ReadFailureAction {
    TooShort,
    /// The dump is being stopped.
    Stopping,
    /// The whole file is to be read and saved.
    Fetch { event: ReadFailureEvent },
}

/// What a report on the layout asks for.
#[derive(Clone, Copy, Debug, PartialEq, Eq, Structural)]
pub enum LayoutAction {
    TooShort,
    /// The dump is being stopped.
    Stopping,
    /// There is no code item to go by.
    Nothing { event: LayoutDebugEvent },
    /// The DEX file around the code item is to be looked for.
    Scan { event: LayoutDebugEvent },
}

/// What a report on a native buffer asks for.
#[derive(Clone, Copy, Debug, PartialEq, Eq, Structural)]
pub enum NativeAction {
    TooShort,
    /// The dump is being stopped.
    Stopping,
    /// The buffer is to be scanned for DEX files, for an ELF image, for both or neither.
    Scan { event: NativeBufferEvent, dex: bool, elf: bool },
}

/// What follows from a report of a failed read.
pub open spec fn read_failure_action(data: Seq<u8>, running: bool) -> ReadFailureAction {
    match ReadFailureEvent::of(data) {
        None => ReadFailureAction::TooShort,
        Some(event) => if running {
            ReadFailureAction::Fetch { event }
        } else {
            ReadFailureAction::Stopping
        },
    }
}

/// What follows from a report on the layout.
pub open spec fn layout_action(data: Seq<u8>, running: bool) -> LayoutAction {
    match LayoutDebugEvent::of(data) {
        None => LayoutAction::TooShort,
        Some(event) => if !running {
            LayoutAction::Stopping
        } else if event.code_item_ptr == 0 {
            LayoutAction::Nothing { event }
        } else {
            LayoutAction::Scan { event }
        },
    }
}

/// What follows from a report on a native buffer.
pub open spec fn native_action(options: DumpOptions, data: Seq<u8>, running: bool) -> NativeAction {
    match NativeBufferEvent::of(data) {
        None => NativeAction::TooShort,
        Some(event) => if running {
            NativeAction::Scan {
                event,
                dex: options.native_buffer_scan,
                elf: options.native_elf_scan && event.may_be_executable(),
            }
        } else {
            NativeAction::Stopping
        },
    }
}

impl DumpState {
    /// Decides what follows from a report of a failed read.
    pub fn handle_read_failure(&self, data: &[u8], running: bool) -> (r: ReadFailureAction)
        ensures
            r == read_failure_action(data@, running),
            r == (match ReadFailureEvent::of(data@) {
                None => ReadFailureAction::TooShort,
                Some(event) => if !running {
                    ReadFailureAction::Stopping
                } else {
                    ReadFailureAction::Fetch { event }
                },
            }),
    {
        match ReadFailureEvent::parse(data) {
            None => ReadFailureAction::TooShort,
            Some(event) => if !running {
                ReadFailureAction::Stopping
            } else {
                ReadFailureAction::Fetch { event }
            },
        }
    }

    /// Decides what follows from a report on the layout.
    pub fn handle_layout_debug_event(&self, data: &[u8], running: bool) -> (r: LayoutAction)
        ensures
            r == layout_action(data@, running),
            r == (match LayoutDebugEvent::of(data@) {
                None => LayoutAction::TooShort,
                Some(event) => if !running {
                    LayoutAction::Stopping
                } else if event.code_item_ptr == 0 {
                    LayoutAction::Nothing { event }
                } else {
                    LayoutAction::Scan { event }
                },
            }),
    {
        match LayoutDebugEvent::parse(data) {
            None => LayoutAction::TooShort,
            Some(event) => if !running {
                LayoutAction::Stopping
            } else if event.code_item_ptr == 0 {
                LayoutAction::Nothing { event }
            } else {
                LayoutAction::Scan { event }
            },
        }
    }

    /// Decides what follows from a report on a native buffer.
    pub fn handle_native_buffer_event(&self, data: &[u8], running: bool) -> (r: NativeAction)
        ensures
            r == native_action(self.setting(), data@, running),
            r == (match NativeBufferEvent::of(data@) {
                None => NativeAction::TooShort,
                Some(event) => if !running {
                    NativeAction::Stopping
                } else {
                    NativeAction::Scan {
                        event,
                        dex: self.setting().native_buffer_scan,
                        elf: self.setting().native_elf_scan && event.may_be_executable(),
                    }
                },
            }),
    {
        match NativeBufferEvent::parse(data) {
            None => NativeAction::TooShort,
            Some(event) => if !running {
                NativeAction::Stopping
            } else {
                NativeAction::Scan {
                    event,
                    dex: self.options.native_buffer_scan,
                    elf: self.options.native_elf_scan && event.may_contain_executable_mapping(),
                }
            },
        }
    }
}

// ---------------------------------------------------------------------------
// Writing the records
// ---------------------------------------------------------------------------

/// The recorded methods of a DEX file, and the size that its files are named by. Without
/// a size no file of records is written: no dumped file would belong to it.
#[derive(Clone, Debug, PartialEq, Eq)]
pub struct FlushEntry {
    pub begin: u64,
    pub size: Option<u32>,
    pub records: Vec<MethodCodeRecord>,
}

/// The size that the files of a DEX file are named by: the one that was noted, or else the
/// one in the stored file's header.
pub open spec fn size_of(t: DumpText, begin: u64) -> Option<u32> {
    if t.sizes.contains_key(begin) {
        Some(t.sizes[begin])
    } else if t.dexes.contains_key(begin) {
        Some(header_of(t.dexes[begin]).file_size)
    } else {
        None
    }
}

/// The entries list the files with recorded methods by address, each once and with all its
/// records.
pub open spec fn is_flush(entries: Seq<FlushEntry>, t: DumpText) -> bool {
    &&& forall|i: int, j: int|
        0 <= i < j < entries.len() ==> (#[trigger] entries[i]).begin < (#[trigger] entries[j]).begin
    &&& forall|i: int|
        0 <= i < entries.len() ==> ({
            let e = #[trigger] entries[i];
            &&& t.records.contains_key(e.begin)
            &&& record_texts(e.records@) == t.records[e.begin]
            &&& e.records@.len() > 0
            &&& e.size == size_of(t, e.begin)
        })
    &&& forall|b: u64| #[trigger]
        t.records.contains_key(b) && t.records[b].len() > 0 ==> exists|i: int|
            0 <= i < entries.len() && (#[trigger] entries[i]).begin == b
}

/// The keys of a map, in order.
fn sorted_keys(m: &HashMap<u64, Vec<MethodCodeRecord>>) -> (r: Vec<(u64, u64)>)
    ensures
        forall|i: int| 0 <= i < r@.len() ==> m@.contains_key((#[trigger] r@[i]).0) && r@[i].1 == 0,
        forall|k: u64| #[trigger] m@.contains_key(k) ==> r@.contains((k, 0u64)),
        forall|i: int, j: int| 0 <= i < j < r@.len() ==> (#[trigger] r@[i]).0 < (#[trigger] r@[j]).0,
{
    let mut keys: Vec<(u64, u64)> = Vec::new();
    let ghost map = m@;
    let ghost mut seen: Set<u64> = Set::empty();
    for entry in it: m.iter()
        invariant
            map == m@,
            it.seq().no_duplicates(),
            forall|i: int|
                0 <= i < it.seq().len() ==> map.contains_key(*(#[trigger] it.seq()[i]).0)
                    && map[*it.seq()[i].0] == *it.seq()[i].1,
            forall|k: u64| #[trigger] map.contains_key(k) ==> it.seq().contains((&k, &map[k])),
            keys@.len() == it.index(),
            forall|i: int| 0 <= i < it.index() ==> #[trigger] keys@[i] == (*it.seq()[i].0, 0u64),
            forall|k: u64|
                seen.contains(k) <==> exists|i: int|
                    0 <= i < it.index() && *(#[trigger] it.seq()[i]).0 == k,
            forall|k: u64| #[trigger] seen.contains(k) ==> keys@.contains((k, 0u64)),
    {
        let ghost at = it.index() as int;
        let ghost earlier = keys@;
        let key: u64 = *entry.0;
        keys.push((key, 0));
        proof {
            assert(*it.seq()[at].0 == key);
            let more = seen.insert(key);
            assert forall|k: u64|
                more.contains(k) <==> exists|i: int|
                    0 <= i < at + 1 && *(#[trigger] it.seq()[i]).0 == k by {
                if seen.contains(k) {
                    let i = choose|i: int| 0 <= i < at && *(#[trigger] it.seq()[i]).0 == k;
                    assert(*it.seq()[i].0 == k);
                }
            }
            assert forall|k: u64| #[trigger] more.contains(k) implies keys@.contains((k, 0u64)) by {
                if k == key {
                    assert(keys@[at] == (k, 0u64));
                } else {
                    let j = earlier.index_of((k, 0u64));
                    assert(keys@[j] == (k, 0u64));
                }
            }
            seen = more;
        }
    }
    proof {
        assert forall|i: int, j: int| 0 <= i < keys@.len() && 0 <= j < keys@.len() && i != j
            implies keys@[i] != keys@[j] by {}
        assert forall|k: u64| #[trigger] map.contains_key(k) implies keys@.contains((k, 0u64)) by {
            assert(seen.contains(k));
        }
    }
    let r = sort_pairs(&keys);
    proof {
        keys@.lemma_multiset_has_no_duplicates();
        r@.lemma_multiset_has_no_duplicates_conv();
        assert forall|i: int| 0 <= i < r@.len() implies m@.contains_key((#[trigger] r@[i]).0)
            && r@[i].1 == 0 by {
            assert(r@.contains(r@[i]));
            assert(keys@.contains(r@[i]));
        }
        assert forall|i: int, j: int| 0 <= i < j < r@.len() implies (#[trigger] r@[i]).0 < (
        #[trigger] r@[j]).0 by {
            assert(crate::sort::pair_le(r@[i], r@[j]));
            assert(r@[i] != r@[j]);
        }
    }
    r
}

impl DumpState {
    /// The size that the files of a DEX file are named by.
    pub fn file_size(&self, begin: u64) -> (r: Option<u32>)
        requires
            self.wf(),
        ensures
            r == size_of(self@, begin),
    {
        if let Some(size) = self.dex_sizes.get(&begin) {
            return Some(*size);
        }
        assert(!self@.sizes.contains_key(begin));
        match self.dex_cache.get(&begin) {
            None => {
                assert(!self@.dexes.contains_key(begin));
                None
            },
            Some(dex) => {
                assert(self@.dexes.contains_key(begin));
                match DexParser::new(dex.as_slice()) {
                    Ok(parser) => Some(parser.header().file_size),
                    Err(_) => None,
                }
            },
        }
    }

    /// Hands out the recorded methods of every DEX file that has some, and forgets them.
    pub fn flush_json(&mut self) -> (r: Vec<FlushEntry>)
        requires
            old(self).wf(),
        ensures
            final(self).wf(),
            final(self).same_setting(old(self)),
            final(self)@ == (DumpText { records: Map::empty(), ..old(self)@ }),
            is_flush(r@, old(self)@),
    {
        let ghost before = self@;
        let ghost orig = self.method_records@;
        let keys = sorted_keys(&self.method_records);
        let mut all: HashMap<u64, Vec<MethodCodeRecord>> = HashMap::new();
        std::mem::swap(&mut all, &mut self.method_records);
        assert(self@ =~= (DumpText { records: Map::empty(), ..before }));
        assert forall|b: u64| size_of(self@, b) == size_of(before, b) by {}
        let mut entries: Vec<FlushEntry> = Vec::new();
        for i in 0..keys.len()
            invariant
                self.wf(),
                self.same_setting(old(self)),
                self@ == (DumpText { records: Map::empty(), ..before }),
                before == old(self)@,
                before.records == orig.map_values(|v: Vec<MethodCodeRecord>| record_texts(v@)),
                forall|i: int| 0 <= i < keys@.len() ==> orig.contains_key((#[trigger] keys@[i]).0),
                forall|i: int, j: int|
                    0 <= i < j < keys@.len() ==> (#[trigger] keys@[i]).0 < (#[trigger] keys@[j]).0,
                forall|j: int|
                    i <= j < keys@.len() ==> all@.contains_key((#[trigger] keys@[j]).0)
                        && all@[keys@[j].0] == orig[keys@[j].0],
                forall|a: int, b: int|
                    0 <= a < b < entries@.len() ==> (#[trigger] entries@[a]).begin < (
                    #[trigger] entries@[b]).begin,
                forall|a: int, j: int|
                    0 <= a < entries@.len() && i <= j < keys@.len() ==> (
                    #[trigger] entries@[a]).begin < (#[trigger] keys@[j]).0,
                forall|a: int|
                    0 <= a < entries@.len() ==> ({
                        let e = #[trigger] entries@[a];
                        &&& orig.contains_key(e.begin)
                        &&& e.records@ == orig[e.begin]@
                        &&& e.records@.len() > 0
                        &&& e.size == size_of(before, e.begin)
                    }),
                forall|j: int|
                    0 <= j < i && orig[(#[trigger] keys@[j]).0]@.len() > 0 ==> exists|a: int|
                        0 <= a < entries@.len() && (#[trigger] entries@[a]).begin == keys@[j].0,
        {
            let begin: u64 = keys[i].0;
            assert(all@.contains_key(keys@[i as int].0));
            let ghost earlier = entries@;
            let ghost held = all@;
            match all.remove(&begin) {
                Some(records) => {
                    if records.len() > 0 {
                        let size: Option<u32> = self.file_size(begin);
                        entries.push(FlushEntry { begin, size, records });
                        assert(entries@[earlier.len() as int].begin == begin);
                    }
                },
                None => {},
            }
            assert forall|j: int|
                0 <= j < i + 1 && orig[(#[trigger] keys@[j]).0]@.len() > 0 implies exists|a: int|
                0 <= a < entries@.len() && (#[trigger] entries@[a]).begin == keys@[j].0 by {
                if j < i {
                    let a = choose|a: int|
                        0 <= a < earlier.len() && (#[trigger] earlier[a]).begin == keys@[j].0;
                    assert(entries@[a].begin == keys@[j].0);
                }
            }
        }
        proof {
            assert forall|b: u64| #[trigger]
                before.records.contains_key(b) && before.records[b].len() > 0 implies exists|i: int|
                0 <= i < entries@.len() && (#[trigger] entries@[i]).begin == b by {
                assert(orig.contains_key(b));
                let j = keys@.index_of((b, 0u64));
                assert(keys@[j].0 == b);
            }
        }
        entries
    }
}

/// Whatever was gathered, no two stored files have the same content.
pub proof fn law_no_file_is_stored_twice(t: DumpText, a: u64, b: u64)
    requires
        t.wf(),
        t.dexes.contains_key(a),
        t.dexes.contains_key(b),
        t.dexes[a] == t.dexes[b],
    ensures
        a == b,
{
}

/// The bytecode that an event carries is what its record gives back.
pub proof fn law_record_holds_the_bytecode(t: DumpText, data: Seq<u8>, e: MethodEvent)
    requires
        bytecode_of(data, e).len() > 0,
    ensures
        ({
            let after = with_method(t, data, e);
            &&& after.records.contains_key(e.begin)
            &&& after.records[e.begin].len() > 0
            &&& after.records[e.begin].last().method_idx == e.method_index
            &&& crate::hexcode::is_hex(after.records[e.begin].last().code)
            &&& crate::hexcode::hex_bytes(after.records[e.begin].last().code) == bytecode_of(data, e)
        }),
{
    crate::hexcode::law_hex_round_trip(bytecode_of(data, e));
}

/// A method that was named keeps its name.
pub proof fn law_name_is_kept(t: DumpText, begin: u64, method_idx: u32)
    ensures
        name_of(with_name(t, begin, method_idx), begin, method_idx) == name_of(t, begin, method_idx),
        with_name(with_name(t, begin, method_idx), begin, method_idx) == with_name(
            t,
            begin,
            method_idx,
        ),
{
    let named = with_name(t, begin, method_idx);
    assert(with_name(named, begin, method_idx) =~= named);
}

// ---------------------------------------------------------------------------
// Laws
// ---------------------------------------------------------------------------

/// The first bytes of a chunk.
pub open spec fn chunk_head(e: DexChunkEvent) -> Seq<u8> {
    le64_bytes(e.begin) + words(seq![e.pid, e.size, e.offset, e.data_len])
}

/// The first bytes of the event of a method that was run.
#[verifier::opaque]
pub open spec fn method_head(e: MethodEvent, gap: Seq<u8>) -> Seq<u8> {
    le64_bytes(e.begin) + (le32_bytes(e.pid) + (gap + (le64_bytes(e.art_method_ptr) + words(
        seq![e.method_index, e.codeitem_size],
    ))))
}

/// The reported size of a file is the one that its files are named by, whatever was known
/// before; all else stays.
pub proof fn law_reported_size_is_noted(t: DumpText, begin: u64, pid: u32, size: u32, rest: Seq<u8>, b: u64)
    ensures
        ({
            let after = after_dex_event(t, le64_bytes(begin) + words(seq![pid, size]) + rest);
            &&& size_of(after, begin) == Some(size)
            &&& b != begin ==> size_of(after, b) == size_of(t, b)
            &&& after.dexes == t.dexes && after.digests == t.digests && after.elfs == t.elfs
            &&& after.pending == t.pending && after.records == t.records && after.names == t.names
        }),
{
    law_dex_event_is_read_back(begin, pid, size, rest);
}

/// The size that the files of a DEX file are named by is the one that was noted, else the one
/// in the header of the stored file, else there is none.
pub proof fn law_sizes_of_files(t: DumpText, begin: u64, h: DexHeader, rest: Seq<u8>)
    ensures
        t.sizes.contains_key(begin) ==> size_of(t, begin) == Some(t.sizes[begin]),
        !t.sizes.contains_key(begin) && t.dexes.contains_key(begin) && t.dexes[begin]
            == header_bytes(h) + rest ==> size_of(t, begin) == Some(h.file_size),
        !t.sizes.contains_key(begin) && !t.dexes.contains_key(begin) ==> size_of(t, begin) is None,
{
    law_header_is_read_back(h, rest);
}

/// What was received of a file before a chunk.
pub open spec fn received_before(t: DumpText, e: DexChunkEvent) -> RecvText {
    if t.pending.contains_key(e.begin) {
        t.pending[e.begin]
    } else {
        RecvText::fresh(e.size)
    }
}

/// A chunk that is a part of a file completes it where all other bytes were received, and then
/// the file itself is handed out; till then the file is being received, with the bytes of the
/// chunk added.
#[verifier::rlimit(40)]
pub proof fn law_chunks_make_up_a_file(
    before: DumpText,
    e: DexChunkEvent,
    payload: Seq<u8>,
    rest: Seq<u8>,
    file: Seq<u8>,
    after: DumpText,
    r: ChunkOutcome,
)
    requires
        before.wf(),
        is_chunk_step(before, chunk_head(e) + payload + rest, after, r),
        payload.len() == e.data_len,
        0 < file.len() == e.size,
        e.offset + payload.len() <= file.len(),
        payload == file.subrange(e.offset as int, e.offset + payload.len()),
        received_before(before, e).total == file.len(),
        holds_part_of(received_before(before, e), file),
    ensures
        ({
            let earlier = received_before(before, e).intervals;
            &&& r is Complete <==> forall|x: int|
                0 <= x < file.len() ==> #[trigger] covers(earlier, x) || e.offset <= x < e.offset
                    + payload.len()
            &&& r matches ChunkOutcome::Complete { pid, begin, size, bytes } ==> pid == e.pid && begin
                == e.begin && size == e.size && bytes@ == file && !after.pending.contains_key(begin)
            &&& r !is Complete ==> r == ChunkOutcome::Incomplete && after.pending.contains_key(
                e.begin,
            ) && holds_part_of(after.pending[e.begin], file) && forall|x: int| #[trigger]
                covers(after.pending[e.begin].intervals, x) <==> covers(earlier, x) || e.offset <= x
                    < e.offset + payload.len()
        }),
{
    let data = chunk_head(e) + payload + rest;
    let earlier = received_before(before, e);
    law_chunk_event_is_read_back(e, payload + rest);
    assert(data =~= chunk_head(e) + (payload + rest));
    assert(data.subrange(24, 24 + e.data_len) =~= payload);
    law_chunk_is_added(earlier, e.offset, payload);
    law_chunk_of_file_is_kept(earlier, e.offset, payload, file);
    let received = earlier.with_chunk(e.offset, payload);
    law_complete_means_every_byte(received);
    assert(received.total == file.len());
    if received.complete() {
        law_complete_buffer_is_the_file(received, file);
        assert forall|x: int| 0 <= x < file.len() implies #[trigger] covers(earlier.intervals, x)
            || e.offset <= x < e.offset + payload.len() by {
            assert(covers(received.intervals, x));
        }
    }
    if forall|x: int|
        0 <= x < file.len() ==> #[trigger] covers(earlier.intervals, x) || e.offset <= x < e.offset
            + payload.len() {
        assert forall|x: int| 0 <= x < received.total implies #[trigger] covers(
            received.intervals,
            x,
        ) by {
            assert(covers(earlier.intervals, x) || e.offset <= x < e.offset + payload.len());
        }
    }
}

/// A chunk leaves all other files alone, and what is stored; the size of a file is noted with
/// its first chunk.
pub proof fn law_chunks_concern_one_file(
    before: DumpText,
    e: DexChunkEvent,
    payload: Seq<u8>,
    rest: Seq<u8>,
    after: DumpText,
    r: ChunkOutcome,
    b: u64,
)
    requires
        is_chunk_step(before, chunk_head(e) + payload + rest, after, r),
        payload.len() == e.data_len,
    ensures
        r is Complete || r == ChunkOutcome::Incomplete,
        b != e.begin ==> after.pending.contains_key(b) == before.pending.contains_key(b)
            && after.pending[b] == before.pending[b] && size_of(after, b) == size_of(before, b),
        !before.pending.contains_key(e.begin) ==> size_of(after, e.begin) == Some(e.size),
        before.pending.contains_key(e.begin) ==> after.sizes == before.sizes,
        after.dexes == before.dexes && after.digests == before.digests && after.elfs == before.elfs,
        after.records == before.records && after.names == before.names,
{
    let data = chunk_head(e) + payload + rest;
    law_chunk_event_is_read_back(e, payload + rest);
    assert(data =~= chunk_head(e) + (payload + rest));
}

/// A chunk without its head, or with fewer bytes than its head states, changes nothing.
pub proof fn law_chunks_that_are_cut_off(
    before: DumpText,
    e: DexChunkEvent,
    payload: Seq<u8>,
    data: Seq<u8>,
    after: DumpText,
    r: ChunkOutcome,
)
    requires
        is_chunk_step(before, data, after, r),
    ensures
        data.len() < 24 ==> r == ChunkOutcome::TooShort && after == before,
        data == chunk_head(e) + payload && payload.len() < e.data_len ==> r
            == ChunkOutcome::OutOfBounds && after == before,
{
    law_chunk_event_is_read_back(e, payload);
}

/// A file is saved where it does not belong to the system, nothing is stored at its address,
/// it starts with the mark of DEX files and holds a header, and nothing of the same digest is
/// stored. Otherwise nothing changes.
#[verifier::rlimit(40)]
pub proof fn law_files_that_are_saved(
    before: DumpText,
    system: bool,
    begin: u64,
    size: u32,
    bytes: Seq<u8>,
    after: DumpText,
    r: SaveOutcome,
    b: u64,
)
    requires
        is_save_step(before, system, begin, size, bytes, after, r),
    ensures
        r is Saved <==> !system && !before.dexes.contains_key(begin) && bytes.len() >= 0x70
            && bytes.take(4) == dex_mark() && !before.digests.contains(sha1_of(bytes)@),
        r !is Saved ==> after == before,
        r matches SaveOutcome::Saved { file_name } ==> {
            &&& file_name@ == "dex_"@ + hex_text(begin as nat) + "_"@ + hex_text(size as nat) + ".dex"@
            &&& after.dexes.contains_key(begin) && after.dexes[begin] == bytes
            &&& size_of(after, begin) == Some(size)
            &&& !after.pending.contains_key(begin)
            &&& b != begin ==> {
                &&& after.dexes.contains_key(b) == before.dexes.contains_key(b)
                &&& after.dexes[b] == before.dexes[b]
                &&& after.pending.contains_key(b) == before.pending.contains_key(b)
                &&& after.pending[b] == before.pending[b]
                &&& size_of(after, b) == size_of(before, b)
            }
            &&& after.records == before.records && after.names == before.names && after.elfs
                == before.elfs
        },
        r is System <==> system,
        r is Known <==> !system && before.dexes.contains_key(begin),
        r matches SaveOutcome::Malformed { error } ==> error == (if bytes.len() < 0x70 {
            DexError::TooSmall
        } else {
            DexError::InvalidMagic(crate::bytes::le32_at(bytes, 0))
        }),
{
    law_dex_files_start_with_the_mark(bytes);
}

/// A file that was saved is not saved again, at no address and under no size.
pub proof fn law_saved_files_are_not_saved_again(
    before: DumpText,
    begin: u64,
    size: u32,
    bytes: Seq<u8>,
    after: DumpText,
    r: SaveOutcome,
    again: u64,
    again_size: u32,
    last: DumpText,
    s: SaveOutcome,
)
    requires
        is_save_step(before, false, begin, size, bytes, after, r),
        r is Saved,
        is_save_step(after, false, again, again_size, bytes, last, s),
    ensures
        s is Known || s is Duplicate,
        again == begin ==> s is Known,
        last == after,
        s matches SaveOutcome::Duplicate { sha1 } ==> crate::hexcode::hex_bytes(sha1@) == sha1_of(
            bytes,
        )@,
{
    crate::hexcode::law_hex_round_trip(sha1_of(bytes)@);
}

/// A native image is new once for each address.
pub proof fn law_native_images_are_noted_once(t: DumpText, base: u64, other: u64)
    ensures
        after_native_elf(t, base).1 == !t.elfs.contains(base),
        !after_native_elf(after_native_elf(t, base).0, base).1,
        other != base ==> after_native_elf(after_native_elf(t, base).0, other).1 == after_native_elf(
            t,
            other,
        ).1,
{
}

proof fn lemma_method_event(e: MethodEvent, gap: Seq<u8>, code: Seq<u8>, rest: Seq<u8>)
    requires
        gap.len() == 12,
        code.len() == e.codeitem_size,
    ensures
        method_head(e, gap).len() == 40,
        MethodEvent::of(method_head(e, gap) + code + rest) == Some(e),
        bytecode_of(method_head(e, gap) + code + rest, e) == code,
{
    reveal(method_head);
    let data = method_head(e, gap) + code + rest;
    law_method_event_is_read_back(e, gap, code + rest);
    assert(data =~= method_head(e, gap) + (code + rest));
    assert(data.subrange(40, 40 + e.codeitem_size) =~= code);
}

/// The code that stands behind the head of an event is recorded, in hexadecimal, behind the
/// earlier records of its file, under the method's index and name. Records of other files
/// stay. An event without code, or with less than its head states, adds no record.
#[verifier::rlimit(40)]
pub proof fn law_code_that_was_run_is_recorded(
    t: DumpText,
    e: MethodEvent,
    gap: Seq<u8>,
    code: Seq<u8>,
    rest: Seq<u8>,
    part: Seq<u8>,
    b: u64,
)
    requires
        gap.len() == 12,
        code.len() == e.codeitem_size,
    ensures
        ({
            let data = method_head(e, gap) + code + rest;
            let after = with_method(t, data, e);
            let earlier = if t.records.contains_key(e.begin) {
                t.records[e.begin]
            } else {
                seq![]
            };
            &&& MethodEvent::of(data) == Some(e)
            &&& code.len() == 0 ==> after.records == t.records
            &&& code.len() > 0 ==> after.records.contains_key(e.begin) && after.records[e.begin]
                == earlier.push(
                RecordText {
                    name: name_of(t, e.begin, e.method_index),
                    method_idx: e.method_index,
                    code: hex_of(code),
                },
            )
            &&& b != e.begin ==> after.records.contains_key(b) == t.records.contains_key(b)
                && after.records[b] == t.records[b]
            &&& name_of(after, e.begin, e.method_index) == name_of(t, e.begin, e.method_index)
            &&& after.dexes == t.dexes && after.digests == t.digests && after.elfs == t.elfs
            &&& after.sizes == t.sizes && after.pending == t.pending
        }),
        part.len() < code.len() ==> with_method(t, method_head(e, gap) + part, e).records
            == t.records,
{
    lemma_method_event(e, gap, code, rest);
}

/// A method that has no name yet, of a file that is not stored, is named by its index.
pub proof fn law_methods_of_unknown_files(t: DumpText, begin: u64, method_idx: u32)
    requires
        !t.names.contains_key((begin, method_idx)),
        !t.dexes.contains_key(begin),
    ensures
        name_of(t, begin, method_idx) == "method_idx_"@ + dec_text(method_idx as nat),
{
}

/// A method that has no name yet, of a file whose tables are in order, is named as Java writes
/// it: its return type, its class, its own name and its parameters, as the tables have them.
pub proof fn law_methods_have_their_names(t: DumpText, begin: u64, tables: Tables, method_idx: u32)
    requires
        !t.names.contains_key((begin, method_idx)),
        t.dexes.contains_key(begin),
        holds_tables(t.dexes[begin], header_of(t.dexes[begin]), tables),
        refers_inside(tables),
        method_idx < tables.methods.len(),
    ensures
        ({
            let m = tables.methods[method_idx as int];
            let p = tables.protos[m.proto as int];
            let parameters = parameter_names(tables, p);
            name_of(t, begin, method_idx) == type_text(named_type(tables, p.return_type as int))
                + seq![' '] + class_text(named_type(tables, m.class as int)) + seq!['.']
                + tables.strings[m.name as int].text + seq!['('] + type_list_text(
                parameters,
                parameters.len(),
            ) + seq![')']
        }),
{
    law_methods_are_read_back(t.dexes[begin], header_of(t.dexes[begin]), tables, method_idx);
    let m = tables.methods[method_idx as int];
    let p = tables.protos[m.proto as int];
    let parameters = parameter_names(tables, p);
    assert(name_of(t, begin, method_idx) =~= type_text(named_type(tables, p.return_type as int))
        + seq![' '] + class_text(named_type(tables, m.class as int)) + seq!['.']
        + tables.strings[m.name as int].text + seq!['('] + type_list_text(
        parameters,
        parameters.len(),
    ) + seq![')']);
}

/// A failed read asks for the whole file, while the dump runs.
pub proof fn law_failed_reads_are_made_up_for(e: ReadFailureEvent, last: u32, rest: Seq<u8>, data: Seq<u8>)
    ensures
        ({
            let event = le64_bytes(e.begin) + words(seq![e.pid, e.size, e.failed_offset, last]) + rest;
            &&& read_failure_action(event, true) == (ReadFailureAction::Fetch { event: e })
            &&& read_failure_action(event, false) == ReadFailureAction::Stopping
        }),
        data.len() < 24 ==> read_failure_action(data, true) == ReadFailureAction::TooShort
            && read_failure_action(data, false) == ReadFailureAction::TooShort,
{
    law_read_failure_is_read_back(e, last, rest);
}

/// A report on the layout asks for a scan around its code item, while the dump runs and where
/// there is a code item.
pub proof fn law_layout_reports_lead_to_scans(e: LayoutDebugEvent, rest: Seq<u8>, data: Seq<u8>)
    ensures
        ({
            let event = le64_bytes(e.art_method_ptr) + (le64_bytes(e.code_item_ptr) + (le64_bytes(
                e.begin,
            ) + words(seq![e.pid, e.size, e.reason, e.source]))) + rest;
            &&& e.code_item_ptr > 0 ==> layout_action(event, true) == (LayoutAction::Scan { event: e })
            &&& e.code_item_ptr == 0 ==> layout_action(event, true) == (LayoutAction::Nothing {
                event: e,
            })
            &&& layout_action(event, false) == LayoutAction::Stopping
        }),
        data.len() < 40 ==> layout_action(data, true) == LayoutAction::TooShort && layout_action(
            data,
            false,
        ) == LayoutAction::TooShort,
{
    law_layout_event_is_read_back(e, rest);
}

/// A report on a native buffer asks for the scans that the options allow, while the dump runs;
/// for an ELF image only a buffer is scanned that may be executable.
pub proof fn law_native_buffers_are_scanned(
    options: DumpOptions,
    e: NativeBufferEvent,
    rest: Seq<u8>,
    data: Seq<u8>,
)
    ensures
        ({
            let event = le64_bytes(e.addr) + (le64_bytes(e.size) + words(
                seq![e.pid, e.source, e.prot, e.flags],
            )) + rest;
            &&& native_action(options, event, true) matches NativeAction::Scan { event, dex, elf }
                && event == e && (dex <==> options.native_buffer_scan) && (elf
                <==> options.native_elf_scan && e.may_be_executable())
            &&& native_action(options, event, false) == NativeAction::Stopping
        }),
        data.len() < 32 ==> native_action(options, data, true) == NativeAction::TooShort
            && native_action(options, data, false) == NativeAction::TooShort,
{
    law_native_event_is_read_back(e, rest);
}

/// The records that are handed out are all that were gathered: each file with records comes
/// once, in the order of addresses, with its records in the order in which they came.
pub proof fn law_all_records_are_handed_out(entries: Seq<FlushEntry>, t: DumpText, b: u64, i: int, j: int)
    requires
        is_flush(entries, t),
        0 <= i < entries.len(),
        0 <= j < entries.len(),
    ensures
        (exists|k: int| 0 <= k < entries.len() && (#[trigger] entries[k]).begin == b)
            <==> t.records.contains_key(b) && t.records[b].len() > 0,
        i < j <==> entries[i].begin < entries[j].begin,
        record_texts(entries[i].records@) == t.records[entries[i].begin],
        entries[i].size == size_of(t, entries[i].begin),
{
    if exists|k: int| 0 <= k < entries.len() && (#[trigger] entries[k]).begin == b {
        let k = choose|k: int| 0 <= k < entries.len() && (#[trigger] entries[k]).begin == b;
        assert(record_texts(entries[k].records@).len() == entries[k].records@.len());
    }
}

/// A file that was mapped from a path of the system is skipped, any other is kept.
pub proof fn law_files_of_the_system_are_skipped(r: SystemCheck, path: String)
    requires
        is_check_of(r, path),
    ensures
        r is Skip <==> is_system_path(path@),
        r is Keep <==> !is_system_path(path@),
        r matches SystemCheck::Skip(same) ==> same@ == path@,
{
}

/// An address inside a region has the region's path, and one in no region has none.
pub proof fn law_paths_of_addresses(maps: MapsRegions, addr: u64, r: Option<String>, i: int)
    requires
        maps.wf(),
        path_found(maps, addr, r),
        ({
            let s = crate::maps::region_texts(maps.regions@);
            forall|j: int, k: int| #![trigger s[j], s[k]] 0 <= j < k < s.len() ==> s[j].end <= s[k].start
        }),
        0 <= i < maps.regions@.len(),
    ensures
        ({
            let s = crate::maps::region_texts(maps.regions@);
            &&& s[i].start <= addr < s[i].end ==> (r matches Some(path) && path@ == s[i].path)
            &&& (forall|k: int| 0 <= k < s.len() ==> !((#[trigger] s[k]).start <= addr < s[k].end))
                ==> r is None
        }),
{
    let s = crate::maps::region_texts(maps.regions@);
    if s[i].start <= addr < s[i].end {
        if i + 1 < s.len() {
            assert(s[i].end <= s[i + 1].start);
        }
        assert(crate::maps::is_candidate(s, addr, i));
        assert forall|k: int| #[trigger] crate::maps::is_candidate(s, addr, k) implies k == i by {
            if k < i {
                assert(s[k + 1].start <= s[i].start);
            } else if k > i {
                assert(s[i].end <= s[k].start);
            }
        }
    }
}

/// A memory map that was read holds the regions that its lines describe, and no others, in the
/// order of their starts. One that could not be read changes nothing that is known. The maps
/// of other processes stay.
pub proof fn law_memory_maps_are_read_again(
    before: &DumpState,
    after: &DumpState,
    pid: u32,
    content: Option<&str>,
    other: u32,
    r: crate::maps::RegionText,
)
    requires
        maps_refreshed(before, after, pid, content),
    ensures
        other != pid ==> after.maps_of(other) == before.maps_of(other),
        after.maps_of(pid) is Some,
        content is None && before.maps_of(pid) is Some ==> after.maps_of(pid) == before.maps_of(pid),
        content is None && before.maps_of(pid) is None ==> after.maps_of(pid)->Some_0.regions@.len()
            == 0,
        content matches Some(text) ==> {
            let known = crate::maps::region_texts(after.maps_of(pid)->Some_0.regions@);
            let all = crate::text::lines_of(text@);
            &&& crate::maps::starts_in_order(known)
            &&& known.contains(r) ==> exists|i: int|
                0 <= i < all.len() && crate::maps::region_of(#[trigger] all[i]) == Some(r)
            &&& known.len() == crate::maps::regions_of(all, all.len()).len()
        },
{
    if let Some(text) = content {
        let known = crate::maps::region_texts(after.maps_of(pid)->Some_0.regions@);
        let all = crate::text::lines_of(text@);
        let s = crate::maps::regions_of(all, all.len());
        let order = choose|order: Seq<int>| #[trigger]
            crate::maps::is_order(s, order) && known == Seq::new(order.len(), |i: int| s[order[i]]);
        crate::maps::law_regions_that_are_looked_up(all, all.len(), r);
        if known.contains(r) {
            let k = known.index_of(r);
            assert(known[k] == s[order[k]]);
            assert(s.contains(r));
        }
    }
}

} // verus!
