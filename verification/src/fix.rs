//! Writing recorded bytecode back into a dumped DEX file.
use crate::bytes::{
    holds_at, le16_bytes, le32_at, le32_bytes, lemma_holds_both, lemma_le32_held, overwrite,
    read_le32, splice,
};
use crate::dex::{
    DexError, DexHeader, DexParser, DEX_HEADER_SIZE, has_dex_magic, header_of, method_at,
    read_uleb128, uleb_at,
};
use crate::digest::{adler32, adler32_of, sha1_digest, sha1_of};
use crate::hexcode::{
    decode_hex, hex_bytes, hex_digit_char, hex_of, is_hex, is_hex_digit, law_hex_round_trip,
};
use crate::scan::{dex_mark, law_dex_files_start_with_the_mark};
use crate::sort::sort_pairs;
use crate::text::{
    chars_of, dec_text, ends_with, has_prefix, has_suffix, part_of, push_dec, starts_with,
    string_of, string_texts,
};
use std::collections::{HashMap, HashSet};
use vstd::prelude::*;
use vstd::string::StringExecFns;

verus! {

broadcast use vstd::std_specs::hash::group_hash_axioms;

/// The bytecode of one method, as it was recorded.
#[derive(Clone, Debug, PartialEq, Eq)]
pub struct MethodCodeRecord {
    pub name: String,
    pub method_idx: u32,
    /// The bytecode as hexadecimal text.
    pub code: String,
}

/// What became of the records.
#[derive(Clone, Debug, Default, PartialEq, Eq)]
pub struct FixStats {
    pub applied: usize,
    pub skipped: usize,
    pub length_mismatch: usize,
}

/// How records are applied.
#[derive(Clone, Copy, Debug)]
pub struct FixOptions {
    /// Accept a record whose length differs from what the code item states, and
    /// truncate it or pad it with zeros. Off by default: padding can corrupt the
    /// bytecode.
    pub force_mismatch: bool,
}

impl Default for FixOptions {
    fn default() -> (r: Self)
        ensures
            !r.force_mismatch,
    {
        FixOptions { force_mismatch: false }
    }
}

/// A method with bytecode that was not recorded.
#[derive(Clone, Debug, PartialEq, Eq)]
pub struct MissedMethod {
    pub method_idx: u32,
    pub code_off: u32,
    /// The method as Java writes it, where the identifier tables lead to its names.
    pub signature: Option<String>,
}

/// How many of a file's methods with bytecode were recorded. Abstract and native
/// methods have none and do not count.
#[derive(Clone, Debug, Default, PartialEq, Eq)]
pub struct CoverageReport {
    pub total_methods: usize,
    pub captured_methods: usize,
    pub missed_methods: Vec<MissedMethod>,
}

/// The outcome of fixing one file.
#[derive(Clone, Debug, Default, PartialEq, Eq)]
pub struct FixOutcome {
    pub stats: FixStats,
    pub coverage: CoverageReport,
}

/// Why a file cannot be fixed.
#[derive(Clone, Debug, PartialEq, Eq)]
pub enum FixError {
    Dex(DexError),
    ClassDefOutOfBounds,
    /// The records could not be read, with the reason.
    Records(String),
}

impl FixError {
    /// What the error says.
    pub open spec fn text(self) -> Seq<char> {
        match self {
            FixError::Dex(e) => e.text(),
            FixError::ClassDefOutOfBounds => "class_def out of bounds"@,
            FixError::Records(reason) => reason@,
        }
    }

    /// The message of the error.
    pub fn message(&self) -> (r: String)
        ensures
            r@ == self.text(),
    {
        match self {
            FixError::Dex(e) => e.message(),
            FixError::ClassDefOutOfBounds => "class_def out of bounds".to_owned(),
            FixError::Records(reason) => reason.as_str().to_owned(),
        }
    }
}

// ---------------------------------------------------------------------------
// Code offsets
// ---------------------------------------------------------------------------

/// Where the data goes on behind `count` encoded fields, two numbers each.
pub open spec fn past_fields(data: Seq<u8>, pos: int, count: nat) -> Result<int, DexError>
    decreases count,
{
    if count == 0 {
        Ok(pos)
    } else {
        match uleb_at(data, pos) {
            Err(e) => Err(e),
            Ok((_, flags)) => match uleb_at(data, flags) {
                Err(e) => Err(e),
                Ok((_, next)) => past_fields(data, next, (count - 1) as nat),
            },
        }
    }
}

/// The code offsets of `count` encoded methods, added to `offsets`, and where the data
/// goes on. Each method has three numbers: the distance of its index from the one
/// before, its flags and its code offset. The index saturates.
pub open spec fn with_methods(
    data: Seq<u8>,
    pos: int,
    count: nat,
    last: u32,
    offsets: Map<u32, u32>,
) -> Result<(int, Map<u32, u32>), DexError>
    decreases count,
{
    if count == 0 {
        Ok((pos, offsets))
    } else {
        match uleb_at(data, pos) {
            Err(e) => Err(e),
            Ok((diff, flags)) => match uleb_at(data, flags) {
                Err(e) => Err(e),
                Ok((_, code)) => match uleb_at(data, code) {
                    Err(e) => Err(e),
                    Ok((code_off, next)) => {
                        let idx = if last + diff > u32::MAX {
                            u32::MAX
                        } else {
                            (last + diff) as u32
                        };
                        with_methods(data, next, (count - 1) as nat, idx, offsets.insert(idx, code_off))
                    },
                },
            },
        }
    }
}

/// The four counts at the start of a class data item, and where it goes on: static
/// fields, instance fields, direct methods and virtual methods.
pub open spec fn class_counts(data: Seq<u8>, pos: int) -> Result<(u32, u32, u32, u32, int), DexError> {
    match uleb_at(data, pos) {
        Err(e) => Err(e),
        Ok((a, p1)) => match uleb_at(data, p1) {
            Err(e) => Err(e),
            Ok((b, p2)) => match uleb_at(data, p2) {
                Err(e) => Err(e),
                Ok((c, p3)) => match uleb_at(data, p3) {
                    Err(e) => Err(e),
                    Ok((d, p4)) => Ok((a, b, c, d, p4)),
                },
            },
        },
    }
}

/// The code offsets of the class data item at `pos`, added to `offsets`.
pub open spec fn with_class_data(data: Seq<u8>, pos: int, offsets: Map<u32, u32>) -> Result<
    Map<u32, u32>,
    DexError,
> {
    match class_counts(data, pos) {
        Err(e) => Err(e),
        Ok((statics, instances, direct, virtuals, start)) => match past_fields(
            data,
            start,
            statics as nat,
        ) {
            Err(e) => Err(e),
            Ok(p1) => match past_fields(data, p1, instances as nat) {
                Err(e) => Err(e),
                Ok(p2) => match with_methods(data, p2, direct as nat, 0, offsets) {
                    Err(e) => Err(e),
                    Ok((p3, some)) => match with_methods(data, p3, virtuals as nat, 0, some) {
                        Err(e) => Err(e),
                        Ok((_, all)) => Ok(all),
                    },
                },
            },
        },
    }
}

/// The code offsets of the classes from number `idx` on, added to `offsets`. A class
/// without data adds none.
pub open spec fn with_classes(
    data: Seq<u8>,
    h: DexHeader,
    idx: int,
    offsets: Map<u32, u32>,
) -> Result<Map<u32, u32>, FixError>
    decreases h.class_defs_size - idx,
{
    if idx >= h.class_defs_size {
        Ok(offsets)
    } else {
        let at = h.class_defs_off + 32 * idx;
        if at + 32 > data.len() {
            Err(FixError::ClassDefOutOfBounds)
        } else if le32_at(data, at + 24) == 0 {
            with_classes(data, h, idx + 1, offsets)
        } else {
            match with_class_data(data, le32_at(data, at + 24) as int, offsets) {
                Err(e) => Err(FixError::Dex(e)),
                Ok(more) => with_classes(data, h, idx + 1, more),
            }
        }
    }
}

/// The code offset of every method that a class of the file defines.
pub open spec fn code_offsets(data: Seq<u8>, h: DexHeader) -> Result<Map<u32, u32>, FixError> {
    with_classes(data, h, 0, Map::empty())
}

/// Steps over encoded fields.
fn skip_fields(data: &[u8], pos: usize, count: u32) -> (r: Result<usize, DexError>)
    ensures
        match r {
            Ok(next) => past_fields(data@, pos as int, count as nat) == Ok::<int, DexError>(
                next as int,
            ),
            Err(e) => past_fields(data@, pos as int, count as nat) == Err::<int, DexError>(e),
        },
{
    let mut at: usize = pos;
    for i in 0..count
        invariant
            past_fields(data@, pos as int, count as nat) == past_fields(
                data@,
                at as int,
                (count - i) as nat,
            ),
    {
        let flags: usize = match read_uleb128(data, at) {
            Ok((_, next)) => next,
            Err(e) => return Err(e),
        };
        at = match read_uleb128(data, flags) {
            Ok((_, next)) => next,
            Err(e) => return Err(e),
        };
    }
    Ok(at)
}

/// Adds the code offsets of encoded methods.
fn read_methods(data: &[u8], pos: usize, count: u32, result: &mut HashMap<u32, u32>) -> (r: Result<
    usize,
    DexError,
>)
    ensures
        match r {
            Ok(next) => with_methods(data@, pos as int, count as nat, 0, old(result)@) == Ok::<
                (int, Map<u32, u32>),
                DexError,
            >((next as int, final(result)@)),
            Err(e) => with_methods(data@, pos as int, count as nat, 0, old(result)@) == Err::<
                (int, Map<u32, u32>),
                DexError,
            >(e),
        },
{
    let ghost before = result@;
    let mut at: usize = pos;
    let mut last: u32 = 0;
    for i in 0..count
        invariant
            before == old(result)@,
            with_methods(data@, pos as int, count as nat, 0, before) == with_methods(
                data@,
                at as int,
                (count - i) as nat,
                last,
                result@,
            ),
    {
        let (diff, flags) = match read_uleb128(data, at) {
            Ok(found) => found,
            Err(e) => return Err(e),
        };
        let code: usize = match read_uleb128(data, flags) {
            Ok((_, next)) => next,
            Err(e) => return Err(e),
        };
        let (code_off, next) = match read_uleb128(data, code) {
            Ok(found) => found,
            Err(e) => return Err(e),
        };
        last = if diff > u32::MAX - last {
            u32::MAX
        } else {
            last + diff
        };
        result.insert(last, code_off);
        at = next;
    }
    Ok(at)
}

/// Adds the code offsets of a class data item.
fn read_class_data(data: &[u8], pos: usize, result: &mut HashMap<u32, u32>) -> (r: Result<
    (),
    DexError,
>)
    ensures
        match r {
            Ok(_) => with_class_data(data@, pos as int, old(result)@) == Ok::<
                Map<u32, u32>,
                DexError,
            >(final(result)@),
            Err(e) => with_class_data(data@, pos as int, old(result)@) == Err::<
                Map<u32, u32>,
                DexError,
            >(e),
        },
{
    let (statics, pos) = match read_uleb128(data, pos) {
        Ok(found) => found,
        Err(e) => return Err(e),
    };
    let (instances, pos) = match read_uleb128(data, pos) {
        Ok(found) => found,
        Err(e) => return Err(e),
    };
    let (direct, pos) = match read_uleb128(data, pos) {
        Ok(found) => found,
        Err(e) => return Err(e),
    };
    let (virtuals, pos) = match read_uleb128(data, pos) {
        Ok(found) => found,
        Err(e) => return Err(e),
    };
    let pos: usize = match skip_fields(data, pos, statics) {
        Ok(next) => next,
        Err(e) => return Err(e),
    };
    let pos: usize = match skip_fields(data, pos, instances) {
        Ok(next) => next,
        Err(e) => return Err(e),
    };
    let pos: usize = match read_methods(data, pos, direct, result) {
        Ok(next) => next,
        Err(e) => return Err(e),
    };
    match read_methods(data, pos, virtuals, result) {
        Ok(_) => Ok(()),
        Err(e) => Err(e),
    }
}

/// Maps each method that a class of the file defines to its code offset.
pub fn build_method_code_off_map(parser: &DexParser<'_>) -> (r: Result<
    HashMap<u32, u32>,
    FixError,
>)
    ensures
        match r {
            Ok(m) => code_offsets(parser.bytes(), parser.head()) == Ok::<Map<u32, u32>, FixError>(
                m@,
            ),
            Err(e) => code_offsets(parser.bytes(), parser.head()) == Err::<
                Map<u32, u32>,
                FixError,
            >(e),
        },
{
    let mut result: HashMap<u32, u32> = HashMap::new();
    let data = parser.data();
    let header = parser.header();
    let size: u64 = data.len() as u64;
    for idx in 0..header.class_defs_size
        invariant
            size == data.len(),
            data@ == parser.bytes(),
            *header == parser.head(),
            code_offsets(data@, *header) == with_classes(data@, *header, idx as int, result@),
    {
        let at: u64 = header.class_defs_off as u64 + 32 * (idx as u64);
        if at + 32 > size {
            return Err(FixError::ClassDefOutOfBounds);
        }
        let class_data_off: u32 = read_le32(data, at as usize + 24);
        if class_data_off != 0 {
            if let Err(e) = read_class_data(data, class_data_off as usize, &mut result) {
                return Err(FixError::Dex(e));
            }
        }
    }
    Ok(result)
}

// ---------------------------------------------------------------------------
// Applying records
// ---------------------------------------------------------------------------

/// A file's bytes while records are applied, and what became of the records so far.
pub struct Progress {
    pub bytes: Seq<u8>,
    pub applied: int,
    pub skipped: int,
    pub length_mismatch: int,
}

/// The first `size` bytes of `code`, padded with zeros.
pub open spec fn fitted(code: Seq<u8>, size: nat) -> Seq<u8> {
    Seq::new(
        size,
        |i: int|
            if i < code.len() {
                code[i]
            } else {
                0
            },
    )
}

/// The number of bytecode bytes that the code item at `code_off` states, two for each
/// of its code units.
pub open spec fn insns_len(bytes: Seq<u8>, code_off: u32) -> nat {
    (2 * le32_at(bytes, code_off + 0x0c)) as nat
}

/// The method has a code item whose bytecode lies inside the file.
pub open spec fn has_code_item(bytes: Seq<u8>, offsets: Map<u32, u32>, method_idx: u32) -> bool {
    &&& offsets.contains_key(method_idx)
    &&& offsets[method_idx] != 0
    &&& offsets[method_idx] + 0x10 <= bytes.len()
    &&& offsets[method_idx] + 0x10 + insns_len(bytes, offsets[method_idx]) <= bytes.len()
}

/// Applies one record: the bytecode replaces that of the method's code item. A record
/// is skipped where there is no such item or the text is not hexadecimal. One of
/// another length is counted, and skipped too unless `force` is set.
pub open spec fn apply_record(
    p: Progress,
    offsets: Map<u32, u32>,
    record: MethodCodeRecord,
    force: bool,
) -> Progress {
    let skip = Progress { skipped: p.skipped + 1, ..p };
    if !has_code_item(p.bytes, offsets, record.method_idx) || !is_hex(record.code@) {
        skip
    } else {
        let off = offsets[record.method_idx];
        let size = insns_len(p.bytes, off);
        let code = hex_bytes(record.code@);
        let written = Progress {
            bytes: splice(p.bytes, off + 0x10, fitted(code, size)),
            applied: p.applied + 1,
            ..p
        };
        if code.len() == size {
            written
        } else if force {
            Progress { length_mismatch: p.length_mismatch + 1, ..written }
        } else {
            Progress { length_mismatch: p.length_mismatch + 1, ..skip }
        }
    }
}

/// Applies the records one after the other.
pub open spec fn apply_records(
    bytes: Seq<u8>,
    offsets: Map<u32, u32>,
    records: Seq<MethodCodeRecord>,
    force: bool,
) -> Progress
    decreases records.len(),
{
    if records.len() == 0 {
        Progress { bytes, applied: 0, skipped: 0, length_mismatch: 0 }
    } else {
        apply_record(
            apply_records(bytes, offsets, records.drop_last(), force),
            offsets,
            records.last(),
            force,
        )
    }
}

/// The counters are those of the progress.
pub open spec fn is_stats(stats: FixStats, p: Progress) -> bool {
    stats.applied == p.applied && stats.skipped == p.skipped && stats.length_mismatch
        == p.length_mismatch
}

fn fit(code: &[u8], size: usize) -> (r: Vec<u8>)
    ensures
        r@ == fitted(code@, size as nat),
{
    let mut r: Vec<u8> = Vec::new();
    for i in 0..size
        invariant
            r@ == fitted(code@, i as nat),
    {
        r.push(
            if i < code.len() {
                code[i]
            } else {
                0
            },
        );
        assert(r@ =~= fitted(code@, (i + 1) as nat));
    }
    r
}

/// Where the bytecode of the method's code item starts, and its length, where it lies
/// inside the file.
fn find_insns(dex_bytes: &[u8], offsets: &HashMap<u32, u32>, method_idx: u32) -> (r: Option<
    (usize, usize),
>)
    ensures
        match r {
            Some((start, size)) => {
                &&& has_code_item(dex_bytes@, offsets@, method_idx)
                &&& start == offsets@[method_idx] + 0x10
                &&& size == insns_len(dex_bytes@, offsets@[method_idx])
                &&& start + size <= dex_bytes@.len()
            },
            None => !has_code_item(dex_bytes@, offsets@, method_idx),
        },
{
    match offsets.get(&method_idx) {
        None => None,
        Some(code_off) => {
            let total: u64 = dex_bytes.len() as u64;
            let start: u64 = *code_off as u64 + 0x10;
            if *code_off == 0 || start > total {
                return None;
            }
            let size: u64 = 2 * (read_le32(dex_bytes, *code_off as usize + 0x0c) as u64);
            if start + size > total {
                return None;
            }
            Some((start as usize, size as usize))
        },
    }
}

/// Writes recorded bytecode over the methods' code items.
pub fn apply_records_to_dex(
    dex_bytes: &mut [u8],
    method2off: &HashMap<u32, u32>,
    records: &[MethodCodeRecord],
    options: FixOptions,
) -> (r: Result<FixStats, FixError>)
    ensures
        ({
            let p = apply_records(old(dex_bytes)@, method2off@, records@, options.force_mismatch);
            &&& final(dex_bytes)@ == p.bytes
            &&& r matches Ok(stats) && is_stats(stats, p)
        }),
{
    let mut stats = FixStats { applied: 0, skipped: 0, length_mismatch: 0 };
    let ghost before = dex_bytes@;
    let ghost force = options.force_mismatch;
    for i in 0..records.len()
        invariant
            before == old(dex_bytes)@,
            force == options.force_mismatch,
            stats.applied + stats.skipped == i,
            stats.length_mismatch <= i,
            ({
                let p = apply_records(before, method2off@, records@.take(i as int), force);
                dex_bytes@ == p.bytes && is_stats(stats, p)
            }),
    {
        assert(records@.take(i + 1).drop_last() =~= records@.take(i as int));
        let record = &records[i];
        match (
            find_insns(dex_bytes, method2off, record.method_idx),
            decode_hex(record.code.as_str()),
        ) {
            (Some((start, size)), Ok(code)) => {
                let mismatch = code.len() != size;
                if mismatch {
                    stats.length_mismatch += 1;
                }
                if mismatch && !options.force_mismatch {
                    stats.skipped += 1;
                } else {
                    let part = fit(code.as_slice(), size);
                    overwrite(dex_bytes, start, part.as_slice());
                    stats.applied += 1;
                }
            },
            _ => {
                stats.skipped += 1;
            },
        }
    }
    assert(records@.take(records@.len() as int) =~= records@);
    Ok(stats)
}

/// Every record is either applied or skipped, the file keeps its length, and without
/// the force option every record of another length is skipped.
pub proof fn law_every_record_counts(
    bytes: Seq<u8>,
    offsets: Map<u32, u32>,
    records: Seq<MethodCodeRecord>,
    force: bool,
)
    ensures
        ({
            let p = apply_records(bytes, offsets, records, force);
            &&& p.applied >= 0 && p.skipped >= 0
            &&& p.applied + p.skipped == records.len()
            &&& 0 <= p.length_mismatch <= records.len()
            &&& !force ==> p.length_mismatch <= p.skipped
            &&& p.bytes.len() == bytes.len()
        }),
    decreases records.len(),
{
    if records.len() > 0 {
        law_every_record_counts(bytes, offsets, records.drop_last(), force);
    }
}

/// A byte that lies before the bytecode of every method stays as it is.
pub proof fn law_bytes_before_code_stay(
    bytes: Seq<u8>,
    offsets: Map<u32, u32>,
    records: Seq<MethodCodeRecord>,
    force: bool,
    at: int,
)
    requires
        0 <= at < bytes.len(),
        forall|k: u32|
            #[trigger] offsets.contains_key(k) && offsets[k] != 0 ==> at < offsets[k] + 0x10,
    ensures
        apply_records(bytes, offsets, records, force).bytes[at] == bytes[at],
    decreases records.len(),
{
    if records.len() > 0 {
        law_bytes_before_code_stay(bytes, offsets, records.drop_last(), force, at);
        law_every_record_counts(bytes, offsets, records.drop_last(), force);
    }
}

/// A code item stands at `off`, and its fixed part lies inside the file.
pub open spec fn is_item(bytes: Seq<u8>, offsets: Map<u32, u32>, off: u32) -> bool {
    off != 0 && off + 0x10 <= bytes.len() && exists|k: u32| #[trigger]
        offsets.contains_key(k) && offsets[k] == off
}

/// No two code items overlap.
pub open spec fn items_are_separate(bytes: Seq<u8>, offsets: Map<u32, u32>) -> bool {
    forall|a: u32, b: u32| #[trigger]
        is_item(bytes, offsets, a) && #[trigger] is_item(bytes, offsets, b) && a != b ==> a + 0x10
            + insns_len(bytes, a) <= b || b + 0x10 + insns_len(bytes, b) <= a
}

/// The four bytes of a number decide it.
proof fn lemma_same_number(a: Seq<u8>, b: Seq<u8>, at: int)
    requires
        a[at] == b[at],
        a[at + 1] == b[at + 1],
        a[at + 2] == b[at + 2],
        a[at + 3] == b[at + 3],
    ensures
        le32_at(a, at) == le32_at(b, at),
{
}

/// A record leaves every code item its size, and the bytes of all items but the one of its
/// method as they are.
proof fn lemma_record_keeps_items(
    p: Progress,
    offsets: Map<u32, u32>,
    record: MethodCodeRecord,
    force: bool,
    off: u32,
)
    requires
        items_are_separate(p.bytes, offsets),
        is_item(p.bytes, offsets, off),
    ensures
        ({
            let q = apply_record(p, offsets, record, force);
            &&& q.bytes.len() == p.bytes.len()
            &&& insns_len(q.bytes, off) == insns_len(p.bytes, off)
            &&& offsets.contains_key(record.method_idx) && offsets[record.method_idx] == off
                || forall|i: int|
                off <= i < off + 0x10 + insns_len(p.bytes, off) && i < p.bytes.len()
                    ==> #[trigger] q.bytes[i] == p.bytes[i]
        }),
{
    let q = apply_record(p, offsets, record, force);
    if has_code_item(p.bytes, offsets, record.method_idx) {
        let at = offsets[record.method_idx];
        assert(is_item(p.bytes, offsets, at));
    }
    lemma_same_number(q.bytes, p.bytes, off + 0x0c);
}

/// Records leave every code item its size, and so keep the items separate.
proof fn lemma_records_keep_items(
    bytes: Seq<u8>,
    offsets: Map<u32, u32>,
    records: Seq<MethodCodeRecord>,
    force: bool,
)
    requires
        items_are_separate(bytes, offsets),
    ensures
        ({
            let q = apply_records(bytes, offsets, records, force).bytes;
            &&& q.len() == bytes.len()
            &&& items_are_separate(q, offsets)
            &&& forall|off: u32| #[trigger]
                is_item(q, offsets, off) ==> insns_len(q, off) == insns_len(bytes, off)
        }),
    decreases records.len(),
{
    if records.len() > 0 {
        lemma_records_keep_items(bytes, offsets, records.drop_last(), force);
        let p = apply_records(bytes, offsets, records.drop_last(), force);
        let q = apply_records(bytes, offsets, records, force);
        law_every_record_counts(bytes, offsets, records, force);
        assert forall|off: u32| #[trigger] is_item(q.bytes, offsets, off) implies insns_len(
            q.bytes,
            off,
        ) == insns_len(bytes, off) by {
            assert(is_item(p.bytes, offsets, off));
            lemma_record_keeps_items(p, offsets, records.last(), force, off);
        }
        assert forall|a: u32, b: u32| #[trigger]
            is_item(q.bytes, offsets, a) && #[trigger] is_item(q.bytes, offsets, b) && a
                != b implies a + 0x10 + insns_len(q.bytes, a) <= b || b + 0x10 + insns_len(
            q.bytes,
            b,
        ) <= a by {
            assert(is_item(p.bytes, offsets, a) && is_item(p.bytes, offsets, b));
        }
    }
}

/// In a file whose code items do not overlap, bytecode of the right length that was recorded
/// as hexadecimal text is what the code item of its method holds in the end, unless a later
/// record is for the same code item.
pub proof fn law_recorded_code_is_written_back(
    bytes: Seq<u8>,
    offsets: Map<u32, u32>,
    records: Seq<MethodCodeRecord>,
    force: bool,
    j: int,
    code: Seq<u8>,
)
    requires
        items_are_separate(bytes, offsets),
        0 <= j < records.len(),
        records[j].code@ == hex_of(code),
        has_code_item(bytes, offsets, records[j].method_idx),
        code.len() == insns_len(bytes, offsets[records[j].method_idx]),
        forall|i: int|
            j < i < records.len() ==> !(offsets.contains_key((#[trigger] records[i]).method_idx)
                && offsets[records[i].method_idx] == offsets[records[j].method_idx]),
    ensures
        ({
            let start = offsets[records[j].method_idx] + 0x10;
            apply_records(bytes, offsets, records, force).bytes.subrange(
                start,
                start + code.len(),
            ) == code
        }),
    decreases records.len(),
{
    let off = offsets[records[j].method_idx];
    let start = off + 0x10;
    let before = records.drop_last();
    let p = apply_records(bytes, offsets, before, force);
    let q = apply_records(bytes, offsets, records, force);
    lemma_records_keep_items(bytes, offsets, before, force);
    assert(is_item(bytes, offsets, off));
    assert(is_item(p.bytes, offsets, off));
    if j == records.len() - 1 {
        law_hex_round_trip(code);
        assert(q.bytes.subrange(start, start + code.len()) =~= code);
    } else {
        assert forall|i: int| j < i < before.len() implies !(offsets.contains_key(
            (#[trigger] before[i]).method_idx,
        ) && offsets[before[i].method_idx] == off) by {
            assert(before[i] == records[i]);
        }
        law_recorded_code_is_written_back(bytes, offsets, before, force, j, code);
        assert(records[records.len() - 1] == records.last());
        lemma_record_keeps_items(p, offsets, records.last(), force, off);
        assert forall|i: int| 0 <= i < code.len() implies q.bytes[start + i] == code[i] by {
            assert(p.bytes.subrange(start, start + code.len())[i] == code[i]);
            assert(q.bytes[start + i] == p.bytes[start + i]);
        }
        assert(q.bytes.subrange(start, start + code.len()) =~= code);
    }
}

// ---------------------------------------------------------------------------
// The header's digests
// ---------------------------------------------------------------------------

/// The file with its SHA-1 signature brought up to date.
pub open spec fn signed(dex: Seq<u8>) -> Seq<u8> {
    splice(dex, 12, sha1_of(dex.skip(32))@)
}

/// The file with its signature, then its Adler-32 checksum, brought up to date. A file
/// too short to hold them stays as it is.
pub open spec fn recalculated(dex: Seq<u8>) -> Seq<u8> {
    if dex.len() < 32 {
        dex
    } else {
        splice(signed(dex), 8, le32_bytes(adler32_of(signed(dex).skip(12))))
    }
}

/// Brings the signature and the checksum of a DEX header up to date.
pub fn recalc_dex_header(dex: &mut [u8])
    ensures
        final(dex)@ == recalculated(old(dex)@),
{
    if dex.len() < 32 {
        return;
    }
    let ghost before = dex@;
    let end: usize = dex.len();
    let signature = sha1_digest(vstd::slice::slice_subrange(&*dex, 32, end));
    assert(before.subrange(32, before.len() as int) =~= before.skip(32));
    overwrite(dex, 12, signature.as_slice());
    assert(dex@ == signed(before));
    let sum: u32 = adler32(vstd::slice::slice_subrange(&*dex, 12, end));
    assert(dex@.subrange(12, end as int) =~= dex@.skip(12));
    let bytes: [u8; 4] = [
        (sum % 0x100) as u8,
        (sum / 0x100 % 0x100) as u8,
        (sum / 0x1_0000 % 0x100) as u8,
        (sum / 0x100_0000) as u8,
    ];
    assert(bytes@ =~= le32_bytes(sum));
    overwrite(dex, 8, bytes.as_slice());
}

/// The header of a file that was brought up to date holds the digests of that file.
pub proof fn law_header_digests_hold(dex: Seq<u8>)
    requires
        dex.len() >= 32,
    ensures
        ({
            let r = recalculated(dex);
            &&& r.len() == dex.len()
            &&& r.subrange(12, 32) == sha1_of(r.skip(32))@
            &&& le32_at(r, 8) == adler32_of(r.skip(12))
            &&& r.take(8) == dex.take(8)
            &&& r.skip(32) == dex.skip(32)
        }),
{
    let s = signed(dex);
    let r = recalculated(dex);
    let sum = adler32_of(s.skip(12));
    assert(r.skip(32) =~= dex.skip(32));
    assert(r.skip(12) =~= s.skip(12));
    assert(r.subrange(12, 32) =~= sha1_of(dex.skip(32))@);
    assert(r.take(8) =~= dex.take(8));
    crate::bytes::law_le32_round_trip(sum);
    let b = le32_bytes(sum);
    assert(r[8] == b[0] && r[9] == b[1] && r[10] == b[2] && r[11] == b[3]);
    assert(le32_at(r, 8) == le32_at(b, 0));
}

/// Bringing the digests up to date a second time changes nothing.
pub proof fn law_recalculation_is_idempotent(dex: Seq<u8>)
    ensures
        recalculated(recalculated(dex)) == recalculated(dex),
{
    if dex.len() >= 32 {
        let r = recalculated(dex);
        law_header_digests_hold(dex);
        assert(signed(r) =~= r) by {
            assert forall|i: int| 12 <= i < 32 implies signed(r)[i] == r[i] by {
                assert(r.subrange(12, 32)[i - 12] == r[i]);
            }
        }
        let b = le32_bytes(adler32_of(signed(dex).skip(12)));
        assert(r.skip(12) =~= signed(dex).skip(12));
        assert(recalculated(r) =~= r);
    }
}

/// Where no code item lies over the header, fixing a file leaves its magic number and all of
/// its header but the digests as they were.
pub proof fn law_fix_keeps_the_header(
    dex: Seq<u8>,
    offsets: Map<u32, u32>,
    records: Seq<MethodCodeRecord>,
    force: bool,
    at: int,
)
    requires
        dex.len() >= DEX_HEADER_SIZE,
        forall|k: u32|
            #[trigger] offsets.contains_key(k) && offsets[k] != 0 ==> offsets[k] + 0x10
                >= DEX_HEADER_SIZE,
        0 <= at < 8 || 32 <= at < DEX_HEADER_SIZE,
    ensures
        recalculated(apply_records(dex, offsets, records, force).bytes)[at] == dex[at],
{
    law_every_record_counts(dex, offsets, records, force);
    law_bytes_before_code_stay(dex, offsets, records, force, at);
}

// ---------------------------------------------------------------------------
// Coverage
// ---------------------------------------------------------------------------

/// A record of the method is there.
pub open spec fn is_captured(records: Seq<MethodCodeRecord>, method_idx: u32) -> bool {
    exists|i: int| 0 <= i < records.len() && (#[trigger] records[i]).method_idx == method_idx
}

/// The methods with bytecode.
pub open spec fn methods_with_code(offsets: Map<u32, u32>) -> Set<u32> {
    offsets.dom().filter(|k: u32| offsets[k] != 0)
}

/// What is reported of a missed method.
pub open spec fn is_missed_entry(
    m: MissedMethod,
    data: Seq<u8>,
    h: DexHeader,
    offsets: Map<u32, u32>,
) -> bool {
    &&& m.code_off == offsets[m.method_idx]
    &&& match method_at(data, h, m.method_idx) {
        Ok(info) => m.signature matches Some(text) && text@ == info.pretty(),
        Err(_) => m.signature is None,
    }
}

/// The report counts the methods with bytecode, and lists those without a record in
/// the order of their indices.
pub open spec fn is_coverage(
    r: CoverageReport,
    data: Seq<u8>,
    h: DexHeader,
    offsets: Map<u32, u32>,
    records: Seq<MethodCodeRecord>,
) -> bool {
    let missed = r.missed_methods@;
    &&& r.total_methods == methods_with_code(offsets).len()
    &&& r.captured_methods == r.total_methods - missed.len()
    &&& forall|i: int, j: int|
        0 <= i < j < missed.len() ==> (#[trigger] missed[i]).method_idx < (
        #[trigger] missed[j]).method_idx
    &&& forall|i: int|
        0 <= i < missed.len() ==> methods_with_code(offsets).contains(
            (#[trigger] missed[i]).method_idx,
        ) && !is_captured(records, missed[i].method_idx) && is_missed_entry(
            missed[i],
            data,
            h,
            offsets,
        )
    &&& forall|k: u32| #[trigger]
        methods_with_code(offsets).contains(k) && !is_captured(records, k) ==> exists|i: int|
            0 <= i < missed.len() && (#[trigger] missed[i]).method_idx == k
}

/// The indices of the records.
fn captured_set(records: &[MethodCodeRecord]) -> (r: HashSet<u32>)
    ensures
        forall|k: u32| #[trigger] r@.contains(k) <==> is_captured(records@, k),
{
    let mut r: HashSet<u32> = HashSet::new();
    for i in 0..records.len()
        invariant
            forall|k: u32| #[trigger] r@.contains(k) <==> is_captured(records@.take(i as int), k),
    {
        let ghost seen = r@;
        r.insert(records[i].method_idx);
        assert forall|k: u32| #[trigger] r@.contains(k) <==> is_captured(records@.take(i + 1), k) by {
            let (some, more) = (records@.take(i as int), records@.take(i + 1));
            if is_captured(some, k) {
                let j = choose|j: int| 0 <= j < some.len() && (#[trigger] some[j]).method_idx == k;
                assert(more[j].method_idx == k);
            }
            if is_captured(more, k) && !seen.contains(k) {
                let j = choose|j: int| 0 <= j < more.len() && (#[trigger] more[j]).method_idx == k;
                if j < i {
                    assert(some[j].method_idx == k);
                }
            }
            if k == records@[i as int].method_idx {
                assert(more[i as int].method_idx == k);
            }
        }
    }
    assert(records@.take(records@.len() as int) =~= records@);
    r
}

/// The missed methods with their code offsets, in the order of the map, and the number
/// of methods with bytecode.
fn collect_missed(method2off: &HashMap<u32, u32>, captured: &HashSet<u32>) -> (r: (
    Vec<(u64, u64)>,
    usize,
))
    ensures
        r.1 == methods_with_code(method2off@).len(),
        r.0@.len() <= r.1,
        r.0@.no_duplicates(),
        forall|i: int|
            0 <= i < r.0@.len() ==> ({
                let p = #[trigger] r.0@[i];
                &&& p.0 <= u32::MAX
                &&& methods_with_code(method2off@).contains(p.0 as u32)
                &&& !captured@.contains(p.0 as u32)
                &&& p.1 == method2off@[p.0 as u32]
            }),
        forall|k: u32| #[trigger]
            methods_with_code(method2off@).contains(k) && !captured@.contains(k)
                ==> r.0@.contains((k as u64, method2off@[k] as u64)),
{
    let mut missed: Vec<(u64, u64)> = Vec::new();
    let mut total: usize = 0;
    let size: usize = method2off.len();
    let ghost m = method2off@;
    let ghost mut seen: Set<u32> = Set::empty();
    let ghost mut counted: Set<u32> = Set::empty();
    for entry in it: method2off.iter()
        invariant
            m == method2off@,
            it.seq().no_duplicates(),
            it.seq().len() == m.dom().len(),
            it.seq().len() == size,
            forall|i: int|
                0 <= i < it.seq().len() ==> m.contains_key(*(#[trigger] it.seq()[i]).0)
                    && m[*it.seq()[i].0] == *it.seq()[i].1,
            forall|k: u32| #[trigger] m.contains_key(k) ==> it.seq().contains((&k, &m[k])),
            forall|k: u32|
                seen.contains(k) <==> exists|i: int|
                    0 <= i < it.index() && *(#[trigger] it.seq()[i]).0 == k,
            counted == seen.filter(|k: u32| m[k] != 0),
            counted.finite(),
            total == counted.len(),
            total <= it.index(),
            missed@.len() <= total,
            missed@.no_duplicates(),
            forall|i: int|
                0 <= i < missed@.len() ==> ({
                    let p = #[trigger] missed@[i];
                    &&& p.0 <= u32::MAX
                    &&& counted.contains(p.0 as u32)
                    &&& m.contains_key(p.0 as u32)
                    &&& !captured@.contains(p.0 as u32)
                    &&& p.1 == m[p.0 as u32]
                }),
            forall|k: u32| #[trigger]
                counted.contains(k) && !captured@.contains(k) ==> missed@.contains(
                    (k as u64, m[k] as u64),
                ),
    {
        let (method_idx, code_off) = (*entry.0, *entry.1);
        let ghost at = it.index() as int;
        let ghost old_missed = missed@;
        assert(it.seq()[at] == entry);
        assert(m.contains_key(*it.seq()[at].0));
        assert(!seen.contains(method_idx)) by {
            if seen.contains(method_idx) {
                let i = choose|i: int| 0 <= i < at && *(#[trigger] it.seq()[i]).0 == method_idx;
                assert(m[*it.seq()[i].0] == *it.seq()[i].1);
                assert(it.seq()[i] == it.seq()[at]);
            }
        }
        proof {
            let more = seen.insert(method_idx);
            assert forall|k: u32|
                more.contains(k) <==> exists|i: int|
                    0 <= i < at + 1 && *(#[trigger] it.seq()[i]).0 == k by {
                if seen.contains(k) {
                    let i = choose|i: int| 0 <= i < at && *(#[trigger] it.seq()[i]).0 == k;
                    assert(*it.seq()[i].0 == k);
                }
                if k == method_idx {
                    assert(*it.seq()[at].0 == k);
                }
            }
            if code_off == 0 {
                assert(more.filter(|k: u32| m[k] != 0) =~= counted);
            } else {
                assert(more.filter(|k: u32| m[k] != 0) =~= counted.insert(method_idx));
                counted = counted.insert(method_idx);
            }
            seen = more;
        }
        if code_off != 0 {
            total += 1;
            if !captured.contains(&method_idx) {
                missed.push((method_idx as u64, code_off as u64));
                assert(missed@.last() == (method_idx as u64, code_off as u64));
                assert forall|k: u32| #[trigger]
                    counted.contains(k) && !captured@.contains(k) implies missed@.contains(
                    (k as u64, m[k] as u64),
                ) by {
                    if k == method_idx {
                        assert(missed@[old_missed.len() as int] == (k as u64, m[k] as u64));
                    } else {
                        let j = old_missed.index_of((k as u64, m[k] as u64));
                        assert(missed@[j] == (k as u64, m[k] as u64));
                    }
                }
            }
        }
    }
    proof {
        assert(seen =~= m.dom()) by {
            assert forall|k: u32| m.dom().contains(k) implies seen.contains(k) by {
                assert(m.contains_key(k));
            }
        }
        assert(counted =~= methods_with_code(m));
    }
    (missed, total)
}

/// Reports which methods with bytecode the records do not cover.
pub fn compute_coverage(
    parser: &DexParser<'_>,
    method2off: &HashMap<u32, u32>,
    records: &[MethodCodeRecord],
) -> (r: CoverageReport)
    ensures
        is_coverage(r, parser.bytes(), parser.head(), method2off@, records@),
{
    let captured = captured_set(records);
    let (found, total) = collect_missed(method2off, &captured);
    let order = sort_pairs(&found);
    let ghost m = method2off@;
    proof {
        found@.lemma_multiset_has_no_duplicates();
        order@.lemma_multiset_has_no_duplicates_conv();
        assert forall|i: int| 0 <= i < order@.len() implies found@.contains(#[trigger] order@[i]) by {
            assert(order@.contains(order@[i]));
        }
    }
    let mut missed: Vec<MissedMethod> = Vec::new();
    for i in 0..order.len()
        invariant
            m == method2off@,
            forall|i: int|
                0 <= i < order@.len() ==> found@.contains(#[trigger] order@[i]),
            forall|i: int|
                0 <= i < found@.len() ==> ({
                    let p = #[trigger] found@[i];
                    &&& p.0 <= u32::MAX
                    &&& methods_with_code(m).contains(p.0 as u32)
                    &&& !captured@.contains(p.0 as u32)
                    &&& p.1 == m[p.0 as u32]
                }),
            missed@.len() == i,
            forall|j: int|
                0 <= j < i ==> (#[trigger] missed@[j]).method_idx == order@[j].0 && is_missed_entry(
                    missed@[j],
                    parser.bytes(),
                    parser.head(),
                    m,
                ),
    {
        let (method_idx, code_off) = order[i];
        assert(found@.contains(order@[i as int]));
        let signature: Option<String> = match parser.get_method_info(method_idx as u32) {
            Ok(info) => Some(info.pretty_method()),
            Err(_) => None,
        };
        missed.push(
            MissedMethod { method_idx: method_idx as u32, code_off: code_off as u32, signature },
        );
    }
    proof {
        assert forall|i: int, j: int| 0 <= i < j < missed@.len() implies (
        #[trigger] missed@[i]).method_idx < (#[trigger] missed@[j]).method_idx by {
            assert(found@.contains(order@[i]) && found@.contains(order@[j]));
            assert(crate::sort::pair_le(order@[i], order@[j]));
            assert(order@[i] != order@[j]);
        }
        assert forall|i: int| 0 <= i < missed@.len() implies methods_with_code(m).contains(
            (#[trigger] missed@[i]).method_idx,
        ) && !is_captured(records@, missed@[i].method_idx) by {
            assert(found@.contains(order@[i]));
            assert(!captured@.contains(missed@[i].method_idx));
        }
        assert forall|k: u32| #[trigger]
            methods_with_code(m).contains(k) && !is_captured(records@, k) implies exists|i: int|
            0 <= i < missed@.len() && (#[trigger] missed@[i]).method_idx == k by {
            assert(!captured@.contains(k));
            let p = (k as u64, m[k] as u64);
            assert(found@.contains(p));
            assert(order@.contains(p));
            let i = order@.index_of(p);
            assert(missed@[i].method_idx == k);
        }
    }
    let captured_methods: usize = total - missed.len();
    CoverageReport { total_methods: total, captured_methods, missed_methods: missed }
}

impl CoverageReport {
    /// The share of the methods that was recorded, as a fraction. It is one where there
    /// is nothing to record.
    pub fn ratio(&self) -> (r: (usize, usize))
        ensures
            r == (if self.total_methods == 0 {
                (1usize, 1usize)
            } else {
                (self.captured_methods, self.total_methods)
            }),
    {
        if self.total_methods == 0 {
            (1, 1)
        } else {
            (self.captured_methods, self.total_methods)
        }
    }
}

/// A report that misses no method has captured them all, and every method with
/// bytecode is either captured or listed.
pub proof fn law_coverage_is_complete(
    r: CoverageReport,
    data: Seq<u8>,
    h: DexHeader,
    offsets: Map<u32, u32>,
    records: Seq<MethodCodeRecord>,
)
    requires
        is_coverage(r, data, h, offsets, records),
    ensures
        r.captured_methods + r.missed_methods@.len() == r.total_methods,
        r.missed_methods@.len() == 0 <==> r.captured_methods == r.total_methods,
        r.missed_methods@.len() == 0 <==> forall|k: u32| #[trigger]
            methods_with_code(offsets).contains(k) ==> is_captured(records, k),
{
    if r.missed_methods@.len() > 0 {
        let k = r.missed_methods@[0].method_idx;
        assert(methods_with_code(offsets).contains(k) && !is_captured(records, k));
    }
}

// ---------------------------------------------------------------------------
// One file
// ---------------------------------------------------------------------------

/// What reading recorded methods came to: the records, or the reason why there are none.
pub open spec fn records_of(records: Result<Vec<MethodCodeRecord>, String>) -> Result<
    Seq<MethodCodeRecord>,
    Seq<char>,
> {
    match records {
        Ok(list) => Ok(list@),
        Err(reason) => Err(reason@),
    }
}

/// The file that fixing a DEX file gives, where it can be fixed.
pub open spec fn fixed_bytes(
    dex: Seq<u8>,
    records: Result<Seq<MethodCodeRecord>, Seq<char>>,
    force: bool,
) -> Option<Seq<u8>> {
    if dex.len() < DEX_HEADER_SIZE || !has_dex_magic(dex) {
        None
    } else {
        match (code_offsets(dex, header_of(dex)), records) {
            (Ok(offsets), Ok(list)) => Some(
                recalculated(apply_records(dex, offsets, list, force).bytes),
            ),
            _ => None,
        }
    }
}

/// What fixing a DEX file comes to. A fault of the file is reported before a fault of the
/// records.
pub open spec fn is_outcome_of(
    r: Result<FixOutcome, FixError>,
    dex: Seq<u8>,
    records: Result<Vec<MethodCodeRecord>, String>,
    force: bool,
) -> bool {
    let h = header_of(dex);
    if dex.len() < DEX_HEADER_SIZE {
        r == Err::<FixOutcome, FixError>(FixError::Dex(DexError::TooSmall))
    } else if !has_dex_magic(dex) {
        r == Err::<FixOutcome, FixError>(FixError::Dex(DexError::InvalidMagic(le32_at(dex, 0))))
    } else {
        match (code_offsets(dex, h), records) {
            (Err(e), _) => r == Err::<FixOutcome, FixError>(e),
            (Ok(_), Err(reason)) => r == Err::<FixOutcome, FixError>(FixError::Records(reason)),
            (Ok(offsets), Ok(list)) => {
                let p = apply_records(dex, offsets, list@, force);
                r matches Ok(outcome) && is_stats(outcome.stats, p) && is_coverage(
                    outcome.coverage,
                    dex,
                    h,
                    offsets,
                    list@,
                )
            },
        }
    }
}

/// Applies the records to a DEX file, brings its header up to date and reports what was
/// covered. `records` is what reading the recorded methods came to; a fault of the file
/// is reported before a fault of the records. A file that cannot be fixed stays as it is.
pub fn fix_one_dex_bytes_from_json_file(
    dex_bytes: &mut [u8],
    records: Result<Vec<MethodCodeRecord>, String>,
    options: FixOptions,
) -> (r: Result<FixOutcome, FixError>)
    ensures
        is_outcome_of(r, old(dex_bytes)@, records, options.force_mismatch),
        match fixed_bytes(old(dex_bytes)@, records_of(records), options.force_mismatch) {
            Some(fixed) => r is Ok && final(dex_bytes)@ == fixed,
            None => r is Err && final(dex_bytes)@ == old(dex_bytes)@,
        },
{
    let parser = match DexParser::new(&*dex_bytes) {
        Ok(parser) => parser,
        Err(e) => return Err(FixError::Dex(e)),
    };
    let method2off = match build_method_code_off_map(&parser) {
        Ok(map) => map,
        Err(e) => return Err(e),
    };
    let records = match records {
        Ok(records) => records,
        Err(reason) => return Err(FixError::Records(reason)),
    };
    let coverage = compute_coverage(&parser, &method2off, records.as_slice());
    let stats = match apply_records_to_dex(dex_bytes, &method2off, records.as_slice(), options) {
        Ok(stats) => stats,
        Err(e) => return Err(e),
    };
    recalc_dex_header(dex_bytes);
    Ok(FixOutcome { stats, coverage })
}

// ---------------------------------------------------------------------------
// Files of a dump
// ---------------------------------------------------------------------------

/// One or more hexadecimal digits.
pub open spec fn is_hex_run(s: Seq<char>) -> bool {
    s.len() > 0 && forall|i: int| 0 <= i < s.len() ==> is_hex_digit(s[i])
}

/// `dex_`, a hexadecimal number, `_` and another hexadecimal number, the second one
/// behind the underscore at `at`.
pub open spec fn is_base_at(s: Seq<char>, at: int) -> bool {
    &&& has_prefix(s, "dex_"@)
    &&& "dex_"@.len() <= at < s.len()
    &&& s[at] == '_'
    &&& is_hex_run(s.subrange("dex_"@.len() as int, at))
    &&& is_hex_run(s.skip(at + 1))
}

/// The common part of the names of one dump's files.
pub open spec fn is_base(s: Seq<char>) -> bool {
    exists|at: int| is_base_at(s, at)
}

/// What stands before `suffix` in a file name, where it is the base of a dump.
pub open spec fn base_of(name: Seq<char>, suffix: Seq<char>) -> Option<Seq<char>> {
    let stem = name.take(name.len() - suffix.len());
    if has_suffix(name, suffix) && is_base(stem) {
        Some(stem)
    } else {
        None
    }
}

fn hex_run(s: &[char], from: usize, to: usize) -> (r: bool)
    requires
        from <= to <= s@.len(),
    ensures
        r == is_hex_run(s@.subrange(from as int, to as int)),
{
    let ghost run = s@.subrange(from as int, to as int);
    if from == to {
        return false;
    }
    for i in from..to
        invariant
            from <= to <= s@.len(),
            run == s@.subrange(from as int, to as int),
            forall|j: int| 0 <= j < i - from ==> is_hex_digit(run[j]),
    {
        if !hex_digit_char(s[i]) {
            assert(!is_hex_digit(run[i - from]));
            return false;
        }
    }
    true
}

/// Whether a text is the base of a dump.
fn base(s: &[char]) -> (r: bool)
    ensures
        r == is_base(s@),
{
    let prefix = chars_of("dex_");
    if !starts_with(s, prefix.as_slice()) {
        return false;
    }
    let start: usize = prefix.len();
    let mut at: usize = start;
    while at < s.len() && s[at] != '_'
        invariant
            start <= at <= s@.len(),
            start == "dex_"@.len(),
            forall|j: int| start <= j < at ==> s@[j] != '_',
        decreases s@.len() - at,
    {
        at += 1;
    }
    if at == s.len() {
        return false;
    }
    let r: bool = hex_run(s, start, at) && hex_run(s, at + 1, s.len());
    proof {
        assert(s@.skip(at + 1) =~= s@.subrange(at + 1, s@.len() as int));
        if r {
            assert(is_base_at(s@, at as int));
        }
        if is_base(s@) {
            let other = choose|other: int| is_base_at(s@, other);
            if other > at {
                let run = s@.subrange(start as int, other);
                assert(is_hex_digit(run[at - start]));
            }
            assert(other == at);
        }
    }
    r
}

/// What stands before `suffix` in a file name, where it is the base of a dump.
fn base_before(name: &str, suffix: &str) -> (r: Option<String>)
    ensures
        match r {
            Some(b) => base_of(name@, suffix@) == Some(b@),
            None => base_of(name@, suffix@) is None,
        },
{
    let chars = chars_of(name);
    let end = chars_of(suffix);
    if !ends_with(chars.as_slice(), end.as_slice()) {
        return None;
    }
    let stem = part_of(chars.as_slice(), 0, chars.len() - end.len());
    assert(stem@ =~= name@.take(name@.len() - suffix@.len()));
    if base(stem.as_slice()) {
        Some(string_of(stem.as_slice()))
    } else {
        None
    }
}

/// The base of a file that holds recorded methods.
pub fn dex_code_json_base(name: &str) -> (r: Option<String>)
    ensures
        match r {
            Some(b) => base_of(name@, "_code.json"@) == Some(b@),
            None => base_of(name@, "_code.json"@) is None,
        },
{
    base_before(name, "_code.json")
}

/// The base of a dumped DEX file.
pub fn dex_file_base(name: &str) -> (r: Option<String>)
    ensures
        match r {
            Some(b) => base_of(name@, ".dex"@) == Some(b@),
            None => base_of(name@, ".dex"@) is None,
        },
{
    base_before(name, ".dex")
}

/// A name without its suffix leads back to the base that it was made from.
pub proof fn law_base_is_read_back(base: Seq<char>, suffix: Seq<char>)
    requires
        is_base(base),
    ensures
        base_of(base + suffix, suffix) == Some(base),
{
    assert((base + suffix).take(base.len() as int) =~= base);
    assert((base + suffix).skip(base.len() as int) =~= suffix);
}

/// A fixed file does not pass for a dumped one.
pub proof fn law_fixed_file_is_no_dump(base: Seq<char>)
    ensures
        base_of(base + "_fix.dex"@, ".dex"@) is None,
{
    reveal_strlit("_fix.dex");
    reveal_strlit(".dex");
    let name = base + "_fix.dex"@;
    let stem = name.take(name.len() - ".dex"@.len());
    assert(stem.last() == 'x');
    assert forall|at: int| !is_base_at(stem, at) by {
        if is_base_at(stem, at) {
            let run = stem.skip(at + 1);
            assert(is_hex_digit(run[run.len() - 1]));
        }
    }
}

/// A dumped file that is to be fixed, and its recorded methods where there are any.
#[derive(Clone, Debug, PartialEq, Eq)]
pub struct FixJob {
    pub base: String,
    pub dex_name: String,
    pub records_name: Option<String>,
}

/// The names of a job.
pub struct JobText {
    pub base: Seq<char>,
    pub dex_name: Seq<char>,
    pub records_name: Option<Seq<char>>,
}

impl View for FixJob {
    type V = JobText;

    open spec fn view(&self) -> JobText {
        JobText {
            base: self.base@,
            dex_name: self.dex_name@,
            records_name: match self.records_name {
                Some(name) => Some(name@),
                None => None,
            },
        }
    }
}

/// The names of some jobs.
pub open spec fn job_texts(jobs: Seq<FixJob>) -> Seq<JobText> {
    jobs.map_values(|j: FixJob| j@)
}

/// The jobs among the first `n` names of a directory: one for each dumped DEX file, with
/// the recorded methods of the same base if the directory has them.
pub open spec fn jobs_of(names: Seq<Seq<char>>, n: nat) -> Seq<JobText>
    decreases n,
{
    if n == 0 {
        seq![]
    } else {
        let before = jobs_of(names, (n - 1) as nat);
        match base_of(names[n - 1], ".dex"@) {
            None => before,
            Some(base) => before.push(
                JobText {
                    base,
                    dex_name: names[n - 1],
                    records_name: if names.contains(base + "_code.json"@) {
                        Some(base + "_code.json"@)
                    } else {
                        None
                    },
                },
            ),
        }
    }
}

fn has_name(names: &Vec<String>, name: &String) -> (r: bool)
    ensures
        r == string_texts(names@).contains(name@),
{
    for i in 0..names.len()
        invariant
            forall|j: int| 0 <= j < i ==> string_texts(names@)[j] != name@,
    {
        if names[i] == *name {
            assert(string_texts(names@)[i as int] == name@);
            return true;
        }
    }
    false
}

/// What is to be fixed in a directory with these file names. A directory without a dumped
/// file cannot be fixed.
pub fn plan_fix(names: &Vec<String>) -> (r: Option<Vec<FixJob>>)
    ensures
        match r {
            Some(jobs) => jobs@.len() > 0 && job_texts(jobs@) == jobs_of(
                string_texts(names@),
                names@.len(),
            ),
            None => jobs_of(string_texts(names@), names@.len()).len() == 0,
        },
{
    let mut jobs: Vec<FixJob> = Vec::new();
    assert(job_texts(jobs@) =~= Seq::<JobText>::empty());
    for i in 0..names.len()
        invariant
            job_texts(jobs@) == jobs_of(string_texts(names@), i as nat),
    {
        let ghost before = job_texts(jobs@);
        let dex_name: String = names[i].as_str().to_owned();
        assert(string_texts(names@)[i as int] == dex_name@);
        if let Some(base) = dex_file_base(dex_name.as_str()) {
            let mut wanted: String = base.as_str().to_owned();
            wanted.append("_code.json");
            let records_name: Option<String> = if has_name(names, &wanted) {
                Some(wanted)
            } else {
                None
            };
            let job = FixJob { base, dex_name, records_name };
            jobs.push(job);
            assert(job_texts(jobs@) =~= before.push(job@));
        }
    }
    assert(job_texts(jobs@).len() == jobs@.len());
    if jobs.len() == 0 {
        None
    } else {
        Some(jobs)
    }
}

/// What came of fixing a file.
#[derive(Clone, Copy, Debug, PartialEq, Eq, Structural)]
pub enum FixAttempt {
    /// There are no recorded methods.
    NoRecords,
    /// The file could not be fixed.
    Failed,
    /// The file was fixed; so many methods were missed.
    Fixed { missed: usize },
}

/// Which file becomes the final one.
#[derive(Clone, Copy, Debug, PartialEq, Eq, Structural)]
pub enum FinalSource {
    /// The fixed file.
    Fixed,
    /// The dumped file, because it could not be fixed.
    Fallback,
    /// The dumped file, because there is nothing to fix it with.
    Original,
}

/// The files that end the work on one dumped file.
#[derive(Clone, Debug, PartialEq, Eq)]
pub struct FinalPlan {
    pub source: FinalSource,
    pub fixed_name: String,
    pub final_name: String,
    /// The name of the coverage report, where methods were missed.
    pub missed_name: Option<String>,
}

/// The plan that follows from an attempt.
pub open spec fn is_final_plan(plan: FinalPlan, base: Seq<char>, attempt: FixAttempt) -> bool {
    &&& plan.fixed_name@ == base + "_fix.dex"@
    &&& plan.final_name@ == base + ".dex"@
    &&& match attempt {
        FixAttempt::NoRecords => plan.source == FinalSource::Original && plan.missed_name is None,
        FixAttempt::Failed => plan.source == FinalSource::Fallback && plan.missed_name is None,
        FixAttempt::Fixed { missed } => {
            &&& plan.source == FinalSource::Fixed
            &&& match plan.missed_name {
                Some(name) => missed > 0 && name@ == base + "_missed.json"@,
                None => missed == 0,
            }
        },
    }
}

/// Decides which files end the work on one dumped file.
pub fn plan_final(base: &str, attempt: FixAttempt) -> (plan: FinalPlan)
    ensures
        is_final_plan(plan, base@, attempt),
{
    let mut fixed_name: String = base.to_owned();
    fixed_name.append("_fix.dex");
    let mut final_name: String = base.to_owned();
    final_name.append(".dex");
    let (source, report) = match attempt {
        FixAttempt::NoRecords => (FinalSource::Original, false),
        FixAttempt::Failed => (FinalSource::Fallback, false),
        FixAttempt::Fixed { missed } => (FinalSource::Fixed, missed > 0),
    };
    let missed_name: Option<String> = if report {
        let mut name: String = base.to_owned();
        name.append("_missed.json");
        Some(name)
    } else {
        None
    };
    FinalPlan { source, fixed_name, final_name, missed_name }
}

impl FixStats {
    /// The line that reports what became of the records of a file.
    pub fn summary(&self, name: &str) -> (r: String)
        ensures
            r@ == "Applied: "@ + dec_text(self.applied as nat) + ", Skipped: "@ + dec_text(
                self.skipped as nat,
            ) + ", LengthMismatch: "@ + dec_text(self.length_mismatch as nat) + " for "@ + name@,
    {
        let mut r: String = "Applied: ".to_owned();
        push_dec(&mut r, self.applied as u64);
        r.append(", Skipped: ");
        push_dec(&mut r, self.skipped as u64);
        r.append(", LengthMismatch: ");
        push_dec(&mut r, self.length_mismatch as u64);
        r.append(" for ");
        r.append(name);
        r
    }
}

// ---------------------------------------------------------------------------
// A directory
// ---------------------------------------------------------------------------

/// The files of a directory by their names.
pub type Files = Map<Seq<char>, Seq<u8>>;

/// How the text of recorded methods is read.
pub type ReadRecords = spec_fn(Seq<u8>) -> Result<Seq<MethodCodeRecord>, Seq<char>>;

/// The directory of a dump: the files at its top, and those under `fix/` and `final/`.
pub struct DumpDir {
    pub root: Files,
    pub fix: Files,
    pub finals: Files,
}

/// The names list the files, each once.
pub open spec fn is_listing(names: Seq<Seq<char>>, files: Files) -> bool {
    names.no_duplicates() && forall|n: Seq<char>| #[trigger]
        names.contains(n) <==> files.contains_key(n)
}

/// The fixed file of a job, where there are recorded methods and the file can be fixed.
pub open spec fn job_fixed(job: JobText, root: Files, read: ReadRecords, force: bool) -> Option<
    Seq<u8>,
> {
    match job.records_name {
        None => None,
        Some(name) => fixed_bytes(root[job.dex_name], read(root[name]), force),
    }
}

/// The final file of a job: the fixed one, or else the dumped one.
pub open spec fn job_final(job: JobText, root: Files, read: ReadRecords, force: bool) -> Seq<u8> {
    match job_fixed(job, root, read, force) {
        Some(fixed) => fixed,
        None => root[job.dex_name],
    }
}

/// What the work on a job with recorded methods came to.
#[derive(Debug, PartialEq, Eq)]
pub struct JobResult {
    pub outcome: Result<FixOutcome, FixError>,
    /// The final file.
    pub bytes: Vec<u8>,
    pub plan: FinalPlan,
}

/// Fixes the file of a job that has recorded methods, and decides which files end the work on
/// it. `dex` is the dumped file, and `records` is what reading the recorded methods came to.
pub fn fix_job(
    job: &FixJob,
    dex: Vec<u8>,
    records: Result<Vec<MethodCodeRecord>, String>,
    options: FixOptions,
) -> (r: JobResult)
    ensures
        is_outcome_of(r.outcome, dex@, records, options.force_mismatch),
        is_final_plan(
            r.plan,
            job.base@,
            match r.outcome {
                Ok(outcome) => FixAttempt::Fixed {
                    missed: outcome.coverage.missed_methods@.len() as usize,
                },
                Err(_) => FixAttempt::Failed,
            },
        ),
        r.bytes@ == (match fixed_bytes(dex@, records_of(records), options.force_mismatch) {
            Some(fixed) => fixed,
            None => dex@,
        }),
        r.plan.source == FinalSource::Fixed <==> fixed_bytes(
            dex@,
            records_of(records),
            options.force_mismatch,
        ) is Some,
        forall|root: Files, read: ReadRecords|
            #![trigger job_final(job@, root, read, options.force_mismatch)]
            job.records_name is Some && root[job@.dex_name] == dex@ && read(
                root[job@.records_name->Some_0],
            ) == records_of(records) ==> r.bytes@ == job_final(
                job@,
                root,
                read,
                options.force_mismatch,
            ),
{
    let mut bytes: Vec<u8> = dex;
    let outcome = fix_one_dex_bytes_from_json_file(bytes.as_mut_slice(), records, options);
    let attempt = match &outcome {
        Ok(outcome) => FixAttempt::Fixed { missed: outcome.coverage.missed_methods.len() },
        Err(_) => FixAttempt::Failed,
    };
    let plan = plan_final(job.base.as_str(), attempt);
    JobResult { outcome, bytes, plan }
}

/// The directory after the work on a job.
pub open spec fn with_job(dir: DumpDir, job: JobText, read: ReadRecords, force: bool) -> DumpDir {
    DumpDir {
        root: dir.root,
        fix: match job_fixed(job, dir.root, read, force) {
            Some(fixed) => dir.fix.insert(job.base + "_fix.dex"@, fixed),
            None => dir.fix,
        },
        finals: dir.finals.insert(
            job.base + ".dex"@,
            job_final(job, dir.root, read, force),
        ),
    }
}

/// The directory after the work on some jobs, one after the other.
pub open spec fn with_jobs(dir: DumpDir, jobs: Seq<JobText>, read: ReadRecords, force: bool) -> DumpDir
    decreases jobs.len(),
{
    if jobs.len() == 0 {
        dir
    } else {
        with_job(with_jobs(dir, jobs.drop_last(), read, force), jobs.last(), read, force)
    }
}

/// The directory after it was fixed, with its top listed as `names`.
pub open spec fn fixed_dir(
    dir: DumpDir,
    names: Seq<Seq<char>>,
    read: ReadRecords,
    force: bool,
) -> DumpDir {
    with_jobs(dir, jobs_of(names, names.len()), read, force)
}

/// The job of a base in a directory with these files at its top.
pub open spec fn job_for(base: Seq<char>, root: Files) -> JobText {
    JobText {
        base,
        dex_name: base + ".dex"@,
        records_name: if root.contains_key(base + "_code.json"@) {
            Some(base + "_code.json"@)
        } else {
            None
        },
    }
}

/// The files of a job are there.
pub open spec fn is_done(dir: DumpDir, job: JobText, read: ReadRecords, force: bool) -> bool {
    &&& job_fixed(job, dir.root, read, force) matches Some(fixed) ==> dir.fix.contains_key(
        job.base + "_fix.dex"@,
    ) && dir.fix[job.base + "_fix.dex"@] == fixed
    &&& dir.finals.contains_key(job.base + ".dex"@)
    &&& dir.finals[job.base + ".dex"@] == job_final(job, dir.root, read, force)
}

proof fn lemma_same_stem(a: Seq<char>, b: Seq<char>, suffix: Seq<char>)
    requires
        a + suffix == b + suffix,
    ensures
        a == b,
{
    assert((a + suffix).len() == (b + suffix).len());
    assert((a + suffix).take(a.len() as int) =~= a);
    assert((b + suffix).take(b.len() as int) =~= b);
}

/// A dumped file among the first names has a job, and nothing else has.
proof fn lemma_jobs(names: Seq<Seq<char>>, n: nat, root: Files)
    requires
        n <= names.len(),
        is_listing(names, root),
    ensures
        forall|job: JobText| #[trigger]
            jobs_of(names, n).contains(job) <==> is_base(job.base) && names.take(
                n as int,
            ).contains(job.base + ".dex"@) && job == job_for(job.base, root),
    decreases n,
{
    let jobs = jobs_of(names, n);
    if n > 0 {
        lemma_jobs(names, (n - 1) as nat, root);
        let before = jobs_of(names, (n - 1) as nat);
        let name = names[n - 1];
        let shorter = names.take(n - 1);
        let longer = names.take(n as int);
        assert(longer =~= shorter.push(name));
        let found = base_of(name, ".dex"@);
        if found is Some {
            let base = found->Some_0;
            assert(name =~= base + ".dex"@);
            assert(jobs =~= before.push(job_for(base, root)));
        }
        assert forall|job: JobText| #[trigger] jobs.contains(job) <==> is_base(job.base)
            && longer.contains(job.base + ".dex"@) && job == job_for(job.base, root) by {
            let wanted = job.base + ".dex"@;
            if before.contains(job) {
                let i = before.index_of(job);
                assert(jobs[i] == job);
                let j = shorter.index_of(wanted);
                assert(longer[j] == wanted);
            }
            if jobs.contains(job) && !before.contains(job) {
                assert(found is Some && job == job_for(found->Some_0, root));
                assert(longer[n - 1] == wanted);
            }
            if is_base(job.base) && longer.contains(wanted) && job == job_for(job.base, root) {
                let j = longer.index_of(wanted);
                if j < n - 1 {
                    assert(shorter[j] == wanted);
                } else {
                    law_base_is_read_back(job.base, ".dex"@);
                    assert(jobs.last() == job);
                }
            }
        }
    }
}

/// Two listings of the same files give the same jobs.
pub proof fn law_order_of_names_does_not_matter(
    names: Seq<Seq<char>>,
    again: Seq<Seq<char>>,
    root: Files,
    job: JobText,
)
    requires
        is_listing(names, root),
        is_listing(again, root),
    ensures
        jobs_of(names, names.len()).contains(job) <==> jobs_of(again, again.len()).contains(job),
{
    lemma_jobs(names, names.len(), root);
    lemma_jobs(again, again.len(), root);
    assert(names.take(names.len() as int) =~= names);
    assert(again.take(again.len() as int) =~= again);
    assert(names.contains(job.base + ".dex"@) <==> again.contains(job.base + ".dex"@));
}

/// Work on jobs leaves the top of the directory alone, and leaves the files of each job.
proof fn lemma_jobs_are_done(dir: DumpDir, jobs: Seq<JobText>, read: ReadRecords, force: bool)
    requires
        forall|job: JobText| #[trigger] jobs.contains(job) ==> job == job_for(job.base, dir.root),
    ensures
        with_jobs(dir, jobs, read, force).root == dir.root,
        forall|job: JobText| #[trigger]
            jobs.contains(job) ==> is_done(with_jobs(dir, jobs, read, force), job, read, force),
    decreases jobs.len(),
{
    if jobs.len() > 0 {
        let rest = jobs.drop_last();
        let last = jobs.last();
        assert(jobs[jobs.len() - 1] == last);
        assert forall|job: JobText| #[trigger] rest.contains(job) implies jobs.contains(job) by {
            let i = rest.index_of(job);
            assert(jobs[i] == job);
        }
        lemma_jobs_are_done(dir, rest, read, force);
        let before = with_jobs(dir, rest, read, force);
        let after = with_jobs(dir, jobs, read, force);
        assert forall|job: JobText| #[trigger] jobs.contains(job) implies is_done(
            after,
            job,
            read,
            force,
        ) by {
            assert(jobs.contains(last));
            if job.base != last.base {
                let i = jobs.index_of(job);
                assert(rest[i] == job);
                assert(rest.contains(job));
                if job.base + "_fix.dex"@ == last.base + "_fix.dex"@ {
                    lemma_same_stem(job.base, last.base, "_fix.dex"@);
                }
                if job.base + ".dex"@ == last.base + ".dex"@ {
                    lemma_same_stem(job.base, last.base, ".dex"@);
                }
            }
        }
    }
}

/// Work on jobs whose files are there changes nothing.
proof fn lemma_done_jobs_change_nothing(
    dir: DumpDir,
    jobs: Seq<JobText>,
    read: ReadRecords,
    force: bool,
)
    requires
        forall|job: JobText| #[trigger] jobs.contains(job) ==> is_done(dir, job, read, force),
    ensures
        with_jobs(dir, jobs, read, force) == dir,
    decreases jobs.len(),
{
    if jobs.len() > 0 {
        let rest = jobs.drop_last();
        let last = jobs.last();
        assert(jobs[jobs.len() - 1] == last);
        assert forall|job: JobText| #[trigger] rest.contains(job) implies is_done(
            dir,
            job,
            read,
            force,
        ) by {
            let i = rest.index_of(job);
            assert(jobs[i] == job);
            assert(jobs.contains(job));
        }
        lemma_done_jobs_change_nothing(dir, rest, read, force);
        let after = with_job(dir, last, read, force);
        assert(jobs.contains(last));
        assert(after.fix =~= dir.fix);
        assert(after.finals =~= dir.finals);
    }
}

/// Fixing a directory a second time changes nothing, in whatever order its files are listed
/// then. The files at its top stay as they were from the start.
pub proof fn law_second_fix_changes_nothing(
    dir: DumpDir,
    names: Seq<Seq<char>>,
    again: Seq<Seq<char>>,
    read: ReadRecords,
    force: bool,
)
    requires
        is_listing(names, dir.root),
        is_listing(again, dir.root),
    ensures
        fixed_dir(dir, names, read, force).root == dir.root,
        fixed_dir(fixed_dir(dir, names, read, force), again, read, force) == fixed_dir(
            dir,
            names,
            read,
            force,
        ),
{
    let jobs = jobs_of(names, names.len());
    let more = jobs_of(again, again.len());
    let once = fixed_dir(dir, names, read, force);
    lemma_jobs(names, names.len(), dir.root);
    lemma_jobs_are_done(dir, jobs, read, force);
    assert forall|job: JobText| #[trigger] more.contains(job) implies is_done(
        once,
        job,
        read,
        force,
    ) by {
        law_order_of_names_does_not_matter(names, again, dir.root, job);
    }
    lemma_done_jobs_change_nothing(once, more, read, force);
}

/// What fixing a directory leaves of a dumped file depends on the files at its top alone:
/// files that were already under `fix/` and `final/` are no input. Without recorded methods
/// at the top the final file is the dumped one.
pub proof fn law_only_the_top_counts(
    dir: DumpDir,
    names: Seq<Seq<char>>,
    read: ReadRecords,
    force: bool,
    base: Seq<char>,
)
    requires
        is_listing(names, dir.root),
        is_base(base),
        dir.root.contains_key(base + ".dex"@),
    ensures
        ({
            let after = fixed_dir(dir, names, read, force);
            let job = job_for(base, dir.root);
            &&& is_done(after, job, read, force)
            &&& !dir.root.contains_key(base + "_code.json"@) ==> after.finals[base + ".dex"@]
                == dir.root[base + ".dex"@]
        }),
{
    let jobs = jobs_of(names, names.len());
    lemma_jobs(names, names.len(), dir.root);
    assert(names.take(names.len() as int) =~= names);
    assert(names.contains(base + ".dex"@));
    assert(jobs.contains(job_for(base, dir.root)));
    lemma_jobs_are_done(dir, jobs, read, force);
}

// ---------------------------------------------------------------------------
// Code items as they are written
// ---------------------------------------------------------------------------

/// A code item.
pub struct CodeItem {
    pub registers: u16,
    pub ins: u16,
    pub outs: u16,
    pub tries: u16,
    pub debug_off: u32,
    pub insns: Seq<u8>,
}

/// The bytes of a code item: four short numbers, where its debug information stands, the
/// number of its code units of two bytes each, and its bytecode.
pub open spec fn code_item_bytes(c: CodeItem) -> Seq<u8> {
    le16_bytes(c.registers) + (le16_bytes(c.ins) + (le16_bytes(c.outs) + (le16_bytes(c.tries) + (
    le32_bytes(c.debug_off) + (le32_bytes((c.insns.len() / 2) as u32) + c.insns)))))
}

/// The bytecode has whole code units, and their number fits in 32 bits.
pub open spec fn is_code_item(c: CodeItem) -> bool {
    c.insns.len() % 2 == 0 && c.insns.len() / 2 <= u32::MAX
}

/// The code item with other bytecode.
pub open spec fn with_insns(c: CodeItem, insns: Seq<u8>) -> CodeItem {
    CodeItem { insns, ..c }
}

/// What stands in a code item.
pub proof fn lemma_code_item_held(data: Seq<u8>, at: int, c: CodeItem)
    requires
        holds_at(data, at, code_item_bytes(c)),
        is_code_item(c),
    ensures
        code_item_bytes(c).len() == 0x10 + c.insns.len(),
        2 * le32_at(data, at + 0x0c) == c.insns.len(),
{
    let units = (c.insns.len() / 2) as u32;
    let t5 = le32_bytes(units) + c.insns;
    let t4 = le32_bytes(c.debug_off) + t5;
    let t3 = le16_bytes(c.tries) + t4;
    let t2 = le16_bytes(c.outs) + t3;
    let t1 = le16_bytes(c.ins) + t2;
    lemma_holds_both(data, at, le16_bytes(c.registers), t1);
    lemma_holds_both(data, at + 2, le16_bytes(c.ins), t2);
    lemma_holds_both(data, at + 4, le16_bytes(c.outs), t3);
    lemma_holds_both(data, at + 6, le16_bytes(c.tries), t4);
    lemma_holds_both(data, at + 8, le32_bytes(c.debug_off), t5);
    lemma_holds_both(data, at + 12, le32_bytes(units), c.insns);
    lemma_le32_held(data, at + 12, units);
}

/// Bytecode over that of a code item leaves the rest of the file.
proof fn lemma_splice_insns(before: Seq<u8>, c: CodeItem, after: Seq<u8>, insns: Seq<u8>)
    requires
        is_code_item(c),
        insns.len() == c.insns.len(),
    ensures
        splice(before + code_item_bytes(c) + after, before.len() as int + 0x10, insns) == before
            + code_item_bytes(with_insns(c, insns)) + after,
{
    let old_file = before + code_item_bytes(c) + after;
    let new_file = before + code_item_bytes(with_insns(c, insns)) + after;
    let head = le16_bytes(c.registers) + (le16_bytes(c.ins) + (le16_bytes(c.outs) + (le16_bytes(
        c.tries,
    ) + (le32_bytes(c.debug_off) + le32_bytes((c.insns.len() / 2) as u32)))));
    assert(code_item_bytes(c) =~= head + c.insns);
    assert(code_item_bytes(with_insns(c, insns)) =~= head + insns);
    assert(head.len() == 0x10);
    assert(splice(old_file, before.len() as int + 0x10, insns) =~= new_file);
}

/// A record of a method whose code item stands in the file: bytecode of the right length
/// takes the place of the old one; of another length it is left out, or, with the force
/// option, cut off or padded with zeros. Everything else stays as it is, and the
/// counters tell what was done.
#[verifier::rlimit(40)]
pub proof fn law_record_rewrites_its_code_item(
    p: Progress,
    offsets: Map<u32, u32>,
    record: MethodCodeRecord,
    force: bool,
    before: Seq<u8>,
    c: CodeItem,
    after: Seq<u8>,
    code: Seq<u8>,
)
    requires
        p.bytes == before + code_item_bytes(c) + after,
        is_code_item(c),
        0 < before.len() <= u32::MAX,
        offsets.contains_key(record.method_idx),
        offsets[record.method_idx] == before.len(),
        record.code@ == hex_of(code),
    ensures
        ({
            let q = apply_record(p, offsets, record, force);
            if code.len() == c.insns.len() {
                &&& q.bytes == before + code_item_bytes(with_insns(c, code)) + after
                &&& q.applied == p.applied + 1 && q.skipped == p.skipped && q.length_mismatch
                    == p.length_mismatch
            } else if force {
                &&& exists|insns: Seq<u8>|
                    q.bytes == before + code_item_bytes(#[trigger] with_insns(c, insns)) + after
                        && insns.len() == c.insns.len() && forall|i: int|
                        0 <= i < insns.len() ==> #[trigger] insns[i] == (if i < code.len() {
                            code[i]
                        } else {
                            0
                        })
                &&& q.applied == p.applied + 1 && q.skipped == p.skipped && q.length_mismatch
                    == p.length_mismatch + 1
            } else {
                &&& q.bytes == p.bytes
                &&& q.applied == p.applied && q.skipped == p.skipped + 1 && q.length_mismatch
                    == p.length_mismatch + 1
            }
        }),
{
    let q = apply_record(p, offsets, record, force);
    let item = code_item_bytes(c);
    assert(p.bytes.subrange(before.len() as int, (before.len() + item.len()) as int) =~= item);
    lemma_code_item_held(p.bytes, before.len() as int, c);
    law_hex_round_trip(code);
    assert(has_code_item(p.bytes, offsets, record.method_idx));
    let insns = fitted(code, c.insns.len());
    lemma_splice_insns(before, c, after, insns);
    if code.len() == c.insns.len() {
        assert(insns =~= code);
    } else if force {
        assert(q.bytes == before + code_item_bytes(with_insns(c, insns)) + after);
    }
}

/// A record for a method without a code item, or with text that is no run of pairs of
/// hexadecimal digits, is skipped and changes nothing.
pub proof fn law_records_without_a_place_are_skipped(
    p: Progress,
    offsets: Map<u32, u32>,
    record: MethodCodeRecord,
    force: bool,
)
    requires
        !offsets.contains_key(record.method_idx) || offsets[record.method_idx] == 0
            || offsets[record.method_idx] + 0x10 > p.bytes.len() || record.code@.len() % 2 == 1
            || exists|i: int|
            0 <= i < record.code@.len() && !({
                let c = #[trigger] record.code@[i];
                '0' <= c <= '9' || 'a' <= c <= 'f' || 'A' <= c <= 'F'
            }),
    ensures
        apply_record(p, offsets, record, force) == (Progress { skipped: p.skipped + 1, ..p }),
{
}

/// Every record is applied in its turn: the work on a list is that on all but the last, and
/// then that on the last.
pub proof fn law_records_are_applied_in_turn(
    bytes: Seq<u8>,
    offsets: Map<u32, u32>,
    records: Seq<MethodCodeRecord>,
    record: MethodCodeRecord,
    force: bool,
)
    ensures
        apply_records(bytes, offsets, records.push(record), force) == apply_record(
            apply_records(bytes, offsets, records, force),
            offsets,
            record,
            force,
        ),
        apply_records(bytes, offsets, seq![], force).bytes == bytes,
{
    assert(records.push(record).drop_last() =~= records);
}

/// A file can be fixed where it is a DEX file whose class data can be read and its records can
/// be read, and nowhere else. The fixed file is as long as the dumped one, its bytes behind
/// the digests are those with the records applied, and its digests are its own.
pub proof fn law_what_a_fixed_file_is(
    dex: Seq<u8>,
    records: Result<Seq<MethodCodeRecord>, Seq<char>>,
    force: bool,
)
    ensures
        fixed_bytes(dex, records, force) is Some <==> dex.len() >= 0x70 && dex.take(4) == seq![
            0x64u8,
            0x65u8,
            0x78u8,
            0x0au8,
        ] && code_offsets(dex, header_of(dex)) is Ok && records is Ok,
        fixed_bytes(dex, records, force) matches Some(fixed) ==> {
            let written = apply_records(
                dex,
                code_offsets(dex, header_of(dex))->Ok_0,
                records->Ok_0,
                force,
            ).bytes;
            &&& fixed.len() == dex.len()
            &&& fixed.take(8) == written.take(8)
            &&& fixed.skip(32) == written.skip(32)
            &&& fixed.subrange(12, 32) == sha1_of(fixed.skip(32))@
            &&& le32_at(fixed, 8) == adler32_of(fixed.skip(12))
        },
{
    crate::scan::law_dex_files_start_with_the_mark(dex);
    if fixed_bytes(dex, records, force) is Some {
        let offsets = code_offsets(dex, header_of(dex))->Ok_0;
        let written = apply_records(dex, offsets, records->Ok_0, force).bytes;
        law_every_record_counts(dex, offsets, records->Ok_0, force);
        law_header_digests_hold(written);
    }
}

/// A file too short for its digests stays as it is.
pub proof fn law_short_files_have_no_digests(dex: Seq<u8>)
    requires
        dex.len() < 32,
    ensures
        recalculated(dex) == dex,
{
}

/// A method is reported as missed where it has a code item and no record, with the offset of
/// that code item, and nowhere else. The rest of the methods with a code item were captured.
pub proof fn law_missed_methods(
    r: CoverageReport,
    data: Seq<u8>,
    h: DexHeader,
    offsets: Map<u32, u32>,
    records: Seq<MethodCodeRecord>,
    k: u32,
)
    requires
        is_coverage(r, data, h, offsets, records),
    ensures
        (exists|i: int| 0 <= i < r.missed_methods@.len() && (#[trigger] r.missed_methods@[i]).method_idx == k)
            <==> offsets.contains_key(k) && offsets[k] != 0 && forall|j: int|
            0 <= j < records.len() ==> (#[trigger] records[j]).method_idx != k,
        forall|i: int|
            0 <= i < r.missed_methods@.len() && (#[trigger] r.missed_methods@[i]).method_idx == k
                ==> r.missed_methods@[i].code_off == offsets[k] && match method_at(data, h, k) {
                Ok(info) => r.missed_methods@[i].signature matches Some(text) && text@
                    == info.pretty(),
                Err(_) => r.missed_methods@[i].signature is None,
            },
        r.total_methods == offsets.dom().filter(|m: u32| offsets[m] != 0).len(),
        r.captured_methods + r.missed_methods@.len() == r.total_methods,
{
    let missed = r.missed_methods@;
    if exists|i: int| 0 <= i < missed.len() && (#[trigger] missed[i]).method_idx == k {
        let i = choose|i: int| 0 <= i < missed.len() && (#[trigger] missed[i]).method_idx == k;
        assert(methods_with_code(offsets).contains(missed[i].method_idx));
        assert(!is_captured(records, k));
    }
    if offsets.contains_key(k) && offsets[k] != 0 && forall|j: int|
        0 <= j < records.len() ==> (#[trigger] records[j]).method_idx != k {
        assert(methods_with_code(offsets).contains(k));
        assert(!is_captured(records, k));
    }
}

/// A report is written where methods were missed, and nowhere else; the final file is the
/// fixed one where there is one.
pub proof fn law_final_plan(plan: FinalPlan, base: Seq<char>, attempt: FixAttempt)
    requires
        is_final_plan(plan, base, attempt),
    ensures
        plan.missed_name is Some <==> (attempt matches FixAttempt::Fixed { missed } && missed != 0),
        plan.missed_name matches Some(name) ==> name@ == base + "_missed.json"@,
        plan.source == FinalSource::Fixed <==> attempt is Fixed,
        plan.source == FinalSource::Original <==> attempt == FixAttempt::NoRecords,
        plan.fixed_name@ == base + "_fix.dex"@,
        plan.final_name@ == base + ".dex"@,
{
}

/// A file name belongs to a dump where it is `dex_`, some hexadecimal digits, `_`, some more,
/// and the suffix, and nowhere else.
pub proof fn law_names_of_dumps(a: Seq<char>, b: Seq<char>, suffix: Seq<char>, name: Seq<char>)
    ensures
        ({
            let digits = |s: Seq<char>|
                s.len() > 0 && forall|i: int|
                    0 <= i < s.len() ==> {
                        let c = #[trigger] s[i];
                        '0' <= c <= '9' || 'a' <= c <= 'f' || 'A' <= c <= 'F'
                    };
            &&& digits(a) && digits(b) ==> base_of("dex_"@ + a + "_"@ + b + suffix, suffix) == Some(
                "dex_"@ + a + "_"@ + b,
            )
            &&& base_of(name, suffix) matches Some(base) ==> name == base + suffix && exists|
                x: Seq<char>,
                y: Seq<char>,
            |
                base == #[trigger] ("dex_"@ + x + "_"@ + y) && digits(x) && digits(y)
        }),
{
    reveal_strlit("dex_");
    reveal_strlit("_");
    let base = "dex_"@ + a + "_"@ + b;
    if is_hex_run(a) && is_hex_run(b) {
        let at = (4 + a.len()) as int;
        assert(base.take(4) =~= "dex_"@);
        assert(base.subrange(4, at) =~= a);
        assert(base.skip(at + 1) =~= b);
        assert(base[at] == '_');
        assert(is_base_at(base, at));
        law_base_is_read_back(base, suffix);
    }
    if let Some(found) = base_of(name, suffix) {
        assert(name =~= found + suffix);
        let at = choose|at: int| is_base_at(found, at);
        let (x, y) = (found.subrange(4, at), found.skip(at + 1));
        assert(found.take(4) == "dex_"@);
        assert(found =~= "dex_"@ + x + "_"@ + y) by {
            assert forall|i: int| 0 <= i < 4 implies found[i] == "dex_"@[i] by {
                assert(found.take(4)[i] == "dex_"@[i]);
            }
        }
    }
}

/// A fix succeeds exactly where it gives a file. Where it does not, the file is found at fault
/// before the records are.
#[verifier::rlimit(40)]
pub proof fn law_when_a_fix_fails(
    r: Result<FixOutcome, FixError>,
    dex: Seq<u8>,
    records: Result<Vec<MethodCodeRecord>, String>,
    force: bool,
)
    requires
        is_outcome_of(r, dex, records, force),
    ensures
        r is Ok <==> fixed_bytes(dex, records_of(records), force) is Some,
        dex.len() < 0x70 ==> r == Err::<FixOutcome, FixError>(FixError::Dex(DexError::TooSmall)),
        dex.len() >= 0x70 && dex.take(4) != dex_mark() ==> r == Err::<FixOutcome, FixError>(
            FixError::Dex(DexError::InvalidMagic(le32_at(dex, 0))),
        ),
        dex.len() >= 0x70 && dex.take(4) == dex_mark() && code_offsets(dex, header_of(dex)) is Ok
            ==> (records matches Err(reason) ==> r == Err::<FixOutcome, FixError>(
            FixError::Records(reason),
        )),
{
    law_dex_files_start_with_the_mark(dex);
}

/// A fix that succeeds counts every record, and each method with bytecode as captured or
/// missed.
pub proof fn law_what_a_fix_counts(
    outcome: FixOutcome,
    dex: Seq<u8>,
    records: Result<Vec<MethodCodeRecord>, String>,
    force: bool,
)
    requires
        is_outcome_of(Ok(outcome), dex, records, force),
    ensures
        records is Ok,
        outcome.stats.applied + outcome.stats.skipped == records->Ok_0@.len(),
        outcome.coverage.captured_methods + outcome.coverage.missed_methods@.len()
            == outcome.coverage.total_methods,
{
    let offsets = code_offsets(dex, header_of(dex))->Ok_0;
    let list = records->Ok_0@;
    law_every_record_counts(dex, offsets, list, force);
    law_coverage_is_complete(outcome.coverage, dex, header_of(dex), offsets, list);
}

} // verus!
