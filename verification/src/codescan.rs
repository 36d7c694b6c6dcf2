//! Recognising functions of the Android runtime by their code.
use crate::arm64::{
    add_wrapping, base_register, branch_target, branch_target_of, forms_address, is_ldr_w, is_ldrb,
    is_prologue, is_w5_test, ldr_status_from_reg, ldr_w_from_reg, prologue, read_inst, references,
    target_register, w5_test, wrap64,
};
use crate::bytes::le32_at;
use crate::elf::{
    find_string_in_elf, segment_data, string_address, ElfImage, Segment, SegmentError, StringError,
    StringFault,
};
use std::collections::HashSet;
use vstd::prelude::*;

verus! {

broadcast use vstd::std_specs::hash::group_hash_axioms;

// ---------------------------------------------------------------------------
// Execute, by the string that it logs
// ---------------------------------------------------------------------------

/// `Interpreting `, which `Execute` logs.
pub const INTERPRETING: [u8; 13] = [
    0x49,
    0x6e,
    0x74,
    0x65,
    0x72,
    0x70,
    0x72,
    0x65,
    0x74,
    0x69,
    0x6e,
    0x67,
    0x20,
];

/// How far back from a reference a function's start is looked for.
pub const ENTRY_SEARCH: usize = 0x2000;

/// Why `Execute` was not found by its string.
#[derive(Clone, Copy, Debug, PartialEq, Eq, Structural)]
pub enum ExecuteError {
    /// The search for the string came to a segment that cannot be read.
    StringSegment(SegmentError),
    /// The string is not there.
    StringNotFound,
    /// No segment holds code.
    NoCodeSegment,
    /// No code refers to the string.
    NoReferences,
    /// No function that refers to the string has six parameters.
    NoSixParameters,
}

/// What the search for `Execute` found on its way.
#[derive(Clone, Copy, Debug, PartialEq, Eq, Structural)]
pub enum ExecuteNote {
    /// The address of the string.
    StringAt(u64),
    /// The number of references to it.
    References(usize),
    /// The function.
    Function(u64),
}

/// The first code segment whose bytes are in the file, from number `i` on.
pub open spec fn first_code(segments: Seq<Segment>, bytes: Seq<u8>, i: int) -> Option<(u64, Seq<u8>)>
    decreases segments.len() - i,
{
    if i >= segments.len() {
        None
    } else {
        match segments[i].content(bytes) {
            Ok(data) => if segments[i].is_code() {
                Some((segments[i].vaddr, data))
            } else {
                first_code(segments, bytes, i + 1)
            },
            Err(_) => first_code(segments, bytes, i + 1),
        }
    }
}

/// The addresses, among the first `n` instructions, that form the address `target`.
pub open spec fn references_to(code: Seq<u8>, vaddr: u64, target: u64, n: nat) -> Seq<u64>
    decreases n,
{
    if n == 0 {
        seq![]
    } else {
        let before = references_to(code, vaddr, target, (n - 1) as nat);
        let off = 4 * (n - 1);
        let pc = wrap64(vaddr + off);
        if forms_address(le32_at(code, off), le32_at(code, off + 4), pc, target) {
            before.push(pc)
        } else {
            before
        }
    }
}

/// The number of instructions that lie more than eight bytes before the end.
pub open spec fn pairs_in(len: nat) -> nat {
    if len <= 8 {
        0
    } else {
        ((len - 5) / 4) as nat
    }
}

/// The offset of the nearest function start at or before `off`, down to `low`.
pub open spec fn entry_before(code: Seq<u8>, off: int, low: int) -> Option<int>
    decreases off + 4,
{
    if off < 0 || off < low || off + 4 > code.len() {
        None
    } else if is_prologue(le32_at(code, off)) {
        Some(off)
    } else {
        entry_before(code, off - 4, low)
    }
}

/// The start of the function that holds the code at `ref_addr`.
pub open spec fn function_entry(code: Seq<u8>, vaddr: u64, ref_addr: u64) -> Option<u64> {
    if ref_addr < vaddr {
        None
    } else {
        let off = ref_addr - vaddr;
        let low = if off < ENTRY_SEARCH {
            0
        } else {
            off - ENTRY_SEARCH
        };
        match entry_before(code, off, low) {
            Some(at) => Some((vaddr + at) as u64),
            None => None,
        }
    }
}

/// One of the first fifty instructions of the function tests a bit of its sixth
/// parameter.
pub open spec fn has_6th_parameter(code: Seq<u8>, vaddr: u64, func_addr: u64) -> bool {
    func_addr >= vaddr && exists|k: int|
        0 <= k < 50 && #[trigger] tests_6th(code, func_addr - vaddr + 4 * k)
}

/// The instruction at `off` tests a bit of the sixth parameter.
pub open spec fn tests_6th(code: Seq<u8>, off: int) -> bool {
    off + 4 <= code.len() && is_w5_test(le32_at(code, off))
}

/// The first function, from reference number `i` on, that has six parameters.
pub open spec fn first_six_parameters(code: Seq<u8>, vaddr: u64, refs: Seq<u64>, i: int) -> Option<u64>
    decreases refs.len() - i,
{
    if i >= refs.len() {
        None
    } else {
        match function_entry(code, vaddr, refs[i]) {
            Some(f) => if has_6th_parameter(code, vaddr, f) {
                Some(f)
            } else {
                first_six_parameters(code, vaddr, refs, i + 1)
            },
            None => first_six_parameters(code, vaddr, refs, i + 1),
        }
    }
}

/// What the search for `Execute` by its string comes to, and what it found on its way.
pub open spec fn execute_by_string(segments: Seq<Segment>, bytes: Seq<u8>) -> (
    Result<u64, ExecuteError>,
    Seq<ExecuteNote>,
) {
    match string_address(segments, bytes, INTERPRETING@, 0) {
        Err(StringFault::Segment(e)) => (Err(ExecuteError::StringSegment(e)), seq![]),
        Err(StringFault::NotFound) => (Err(ExecuteError::StringNotFound), seq![]),
        Ok(target) => {
            let at = seq![ExecuteNote::StringAt(target)];
            match first_code(segments, bytes, 0) {
                None => (Err(ExecuteError::NoCodeSegment), at),
                Some((vaddr, code)) => {
                    let refs = references_to(code, vaddr, target, pairs_in(code.len()));
                    if refs.len() == 0 {
                        (Err(ExecuteError::NoReferences), at)
                    } else {
                        let counted = at.push(ExecuteNote::References(refs.len() as usize));
                        match first_six_parameters(code, vaddr, refs, 0) {
                            None => (Err(ExecuteError::NoSixParameters), counted),
                            Some(f) => (Ok(f), counted.push(ExecuteNote::Function(f))),
                        }
                    }
                },
            }
        },
    }
}

/// The start of the function that holds the code at `ref_addr`.
pub fn find_function_entry(code_data: &[u8], code_vaddr: u64, ref_addr: u64) -> (r: Option<u64>)
    ensures
        r == function_entry(code_data@, code_vaddr, ref_addr),
{
    if ref_addr < code_vaddr {
        return None;
    }
    let start: u64 = ref_addr - code_vaddr;
    if code_data.len() < 4 || start > (code_data.len() - 4) as u64 {
        return None;
    }
    let mut off: usize = start as usize;
    let low: usize = if off < ENTRY_SEARCH {
        0
    } else {
        off - ENTRY_SEARCH
    };
    let ghost first = off as int;
    while off >= low
        invariant
            first == ref_addr - code_vaddr,
            code_vaddr <= ref_addr,
            off <= first,
            off + 4 <= code_data.len(),
            low == (if first < ENTRY_SEARCH {
                0
            } else {
                first - ENTRY_SEARCH
            }),
            entry_before(code_data@, first, low as int) == entry_before(
                code_data@,
                off as int,
                low as int,
            ),
        decreases off,
    {
        if prologue(read_inst(code_data, off)) {
            return Some(code_vaddr + off as u64);
        }
        if off < 4 {
            assert(entry_before(code_data@, off - 4, low as int) is None);
            return None;
        }
        off -= 4;
    }
    None
}

/// Whether the function tests a bit of its sixth parameter early on.
pub fn check_for_6th_parameter(code_data: &[u8], code_vaddr: u64, func_addr: u64) -> (r: bool)
    ensures
        r == has_6th_parameter(code_data@, code_vaddr, func_addr),
{
    if func_addr < code_vaddr {
        return false;
    }
    let start: u64 = func_addr - code_vaddr;
    let size: u64 = code_data.len() as u64;
    for k in 0..50u64
        invariant
            size == code_data.len(),
            start == func_addr - code_vaddr,
            code_vaddr <= func_addr,
            forall|j: int| 0 <= j < k ==> !#[trigger] tests_6th(code_data@, start + 4 * j),
    {
        if size < 4 * k + 4 || start > size - 4 * k - 4 {
            assert forall|j: int| 0 <= j < 50 implies !#[trigger] tests_6th(
                code_data@,
                start + 4 * j,
            ) by {}
            return false;
        }
        if w5_test(read_inst(code_data, (start + 4 * k) as usize)) {
            assert(tests_6th(code_data@, start + 4 * k));
            return true;
        }
    }
    false
}

/// The first code segment whose bytes are in the file.
fn code_segment<'a>(image: &ElfImage, bytes: &'a [u8]) -> (r: Option<(u64, &'a [u8])>)
    ensures
        match r {
            Some((vaddr, data)) => first_code(image@.segments, bytes@, 0) == Some((vaddr, data@)),
            None => first_code(image@.segments, bytes@, 0) is None,
        },
{
    for i in 0..image.segments.len()
        invariant
            first_code(image@.segments, bytes@, 0) == first_code(
                image@.segments,
                bytes@,
                i as int,
            ),
    {
        let segment = image.segments[i];
        if segment.executable() {
            if let Ok(data) = segment_data(bytes, &segment) {
                return Some((segment.vaddr, data));
            }
        }
    }
    None
}

/// The addresses of the code that refers to `target`.
fn find_references(code: &[u8], vaddr: u64, target: u64) -> (r: Vec<u64>)
    ensures
        r@ == references_to(code@, vaddr, target, pairs_in(code@.len())),
{
    let mut refs: Vec<u64> = Vec::new();
    let count: usize = if code.len() <= 8 {
        0
    } else {
        (code.len() - 5) / 4
    };
    for k in 0..count
        invariant
            count == pairs_in(code@.len()),
            code.len() <= usize::MAX,
            refs@ == references_to(code@, vaddr, target, k as nat),
    {
        let off: usize = 4 * k;
        let pc: u64 = add_wrapping(vaddr, off as u64);
        if references(read_inst(code, off), read_inst(code, off + 4), pc, target) {
            refs.push(pc);
        }
    }
    refs
}

/// Finds `Execute` as a function with six parameters that logs `Interpreting `.
pub fn find_execute_by_interpreting_string(image: &ElfImage, bytes: &[u8]) -> (r: (
    Result<u64, ExecuteError>,
    Vec<ExecuteNote>,
))
    ensures
        (r.0, r.1@) == execute_by_string(image@.segments, bytes@),
{
    let mut notes: Vec<ExecuteNote> = Vec::new();
    let needle: [u8; 13] = INTERPRETING;
    let target: u64 = match find_string_in_elf(image, bytes, needle.as_slice()) {
        Ok(target) => target,
        Err(StringError::Segment(e)) => return (Err(ExecuteError::StringSegment(e)), notes),
        Err(StringError::NotFound(_)) => return (Err(ExecuteError::StringNotFound), notes),
    };
    notes.push(ExecuteNote::StringAt(target));
    let (vaddr, code) = match code_segment(image, bytes) {
        Some(found) => found,
        None => return (Err(ExecuteError::NoCodeSegment), notes),
    };
    let refs = find_references(code, vaddr, target);
    if refs.len() == 0 {
        return (Err(ExecuteError::NoReferences), notes);
    }
    notes.push(ExecuteNote::References(refs.len()));
    let ghost counted = notes@;
    for i in 0..refs.len()
        invariant
            notes@ == counted,
            execute_by_string(image@.segments, bytes@) == (match first_six_parameters(
                code@,
                vaddr,
                refs@,
                i as int,
            ) {
                None => (
                    Err::<u64, ExecuteError>(ExecuteError::NoSixParameters),
                    counted,
                ),
                Some(f) => (Ok::<u64, ExecuteError>(f), counted.push(ExecuteNote::Function(f))),
            }),
    {
        if let Some(f) = find_function_entry(code, vaddr, refs[i]) {
            if check_for_6th_parameter(code, vaddr, f) {
                notes.push(ExecuteNote::Function(f));
                return (Ok(f), notes);
            }
        }
    }
    (Err(ExecuteError::NoSixParameters), notes)
}

// ---------------------------------------------------------------------------
// ExecuteNterpWithClinitImpl, by its branch to ExecuteNterpImpl
// ---------------------------------------------------------------------------

/// How many instructions a branch is looked for in.
pub const BRANCH_WINDOW: usize = 14;

/// Why `ExecuteNterpWithClinitImpl` was not found by its branch.
#[derive(Clone, Copy, Debug, PartialEq, Eq, Structural)]
pub enum BranchError {
    Segment(SegmentError),
    NotFound,
}

/// Whether one of the instructions from `off` up to `end` is a branch to `target`. There
/// is no answer where an instruction is cut off by the end of the code before a branch
/// was found.
pub open spec fn window_scan(code: Seq<u8>, vaddr: u64, off: int, end: int, target: u64) -> Option<
    bool,
>
    decreases end - off + 4,
{
    if off >= end {
        Some(false)
    } else if off + 4 > code.len() {
        None
    } else if branch_target_of(wrap64(vaddr + off), le32_at(code, off)) == Some(target) {
        Some(true)
    } else {
        window_scan(code, vaddr, off + 4, end, target)
    }
}

/// Whether the window from `start` on, as far as there is code, holds a branch to
/// `target`.
pub open spec fn window_branches(code: Seq<u8>, vaddr: u64, start: int, target: u64) -> Option<bool> {
    let end = start + 4 * BRANCH_WINDOW;
    window_scan(
        code,
        vaddr,
        start,
        if end < code.len() {
            end
        } else {
            code.len() as int
        },
        target,
    )
}

/// The code at `off` loads a class from the method in register 0, then its status.
pub open spec fn loads_class_status(code: Seq<u8>, off: int) -> bool {
    let first = le32_at(code, off);
    let second = le32_at(code, off + 4);
    &&& is_ldr_w(first) && base_register(first) == 0
    &&& is_ldrb(second) || is_ldr_w(second)
    &&& base_register(second) == target_register(first)
}

/// `found`, and behind it the new addresses, among the first `n` instructions, of code
/// that loads a class status and then branches to `target`.
pub open spec fn with_clinit_code(
    found: Seq<u64>,
    code: Seq<u8>,
    vaddr: u64,
    target: u64,
    n: nat,
) -> Option<Seq<u64>>
    decreases n,
{
    if n == 0 {
        Some(found)
    } else {
        let off = 4 * (n - 1);
        let pc = wrap64(vaddr + off);
        match with_clinit_code(found, code, vaddr, target, (n - 1) as nat) {
            None => None,
            Some(before) => if !loads_class_status(code, off) {
                Some(before)
            } else {
                match window_branches(code, vaddr, off, target) {
                    None => None,
                    Some(branches) => if branches && !before.contains(pc) {
                        Some(before.push(pc))
                    } else {
                        Some(before)
                    },
                }
            },
        }
    }
}

/// The addresses in code segments of code that loads a class status and then branches
/// to `target`. There is no answer where a window is cut off.
pub open spec fn clinit_hits(segments: Seq<Segment>, bytes: Seq<u8>, target: u64) -> Option<
    Result<Seq<u64>, SegmentError>,
>
    decreases segments.len(),
{
    if segments.len() == 0 {
        Some(Ok(seq![]))
    } else {
        match clinit_hits(segments.drop_last(), bytes, target) {
            Some(Ok(found)) => if !segments.last().is_code() {
                Some(Ok(found))
            } else {
                match segments.last().content(bytes) {
                    Err(e) => Some(Err(e)),
                    Ok(code) => match with_clinit_code(
                        found,
                        code,
                        segments.last().vaddr,
                        target,
                        pairs_in(code.len()),
                    ) {
                        Some(more) => Some(Ok(more)),
                        None => None,
                    },
                }
            },
            other => other,
        }
    }
}

/// What the branch scan comes to.
pub open spec fn clinit_addresses(segments: Seq<Segment>, bytes: Seq<u8>, target: u64) -> Option<
    Result<Seq<u64>, BranchError>,
> {
    match clinit_hits(segments, bytes, target) {
        None => None,
        Some(Err(e)) => Some(Err(BranchError::Segment(e))),
        Some(Ok(found)) => Some(
            if found.len() == 0 {
                Err(BranchError::NotFound)
            } else {
                Ok(found)
            },
        ),
    }
}

fn scan_window(data: &[u8], code_vaddr: u64, start_off: usize, target: u64) -> (r: Option<bool>)
    ensures
        r == window_branches(data@, code_vaddr, start_off as int, target),
{
    if start_off >= data.len() {
        return Some(false);
    }
    let end: usize = if data.len() - start_off > 4 * BRANCH_WINDOW {
        start_off + 4 * BRANCH_WINDOW
    } else {
        data.len()
    };
    let mut off: usize = start_off;
    while off < end
        invariant
            off <= data.len(),
            end <= data.len(),
            window_branches(data@, code_vaddr, start_off as int, target) == window_scan(
                data@,
                code_vaddr,
                off as int,
                end as int,
                target,
            ),
        decreases data.len() - off,
    {
        if data.len() - off < 4 {
            return None;
        }
        let pc: u64 = add_wrapping(code_vaddr, off as u64);
        if let Some(to) = branch_target(pc, read_inst(data, off)) {
            if to == target {
                return Some(true);
            }
        }
        off += 4;
    }
    Some(false)
}

/// Whether the window from `start_off` on holds a branch to `target`. A window behind the
/// end holds none.
pub fn branch_window_targets(data: &[u8], code_vaddr: u64, start_off: usize, target: u64) -> (r: bool)
    requires
        window_branches(data@, code_vaddr, start_off as int, target) is Some,
    ensures
        window_branches(data@, code_vaddr, start_off as int, target) == Some(r),
{
    scan_window(data, code_vaddr, start_off, target).unwrap()
}

/// A window that was cut off stays cut off.
proof fn lemma_clinit_code_cut_off(
    found: Seq<u64>,
    code: Seq<u8>,
    vaddr: u64,
    target: u64,
    n: nat,
    m: nat,
)
    requires
        n <= m,
        with_clinit_code(found, code, vaddr, target, n) is None,
    ensures
        with_clinit_code(found, code, vaddr, target, m) is None,
    decreases m,
{
    if n < m {
        lemma_clinit_code_cut_off(found, code, vaddr, target, n, (m - 1) as nat);
    }
}

/// A scan that ended in an earlier segment has ended.
proof fn lemma_clinit_scan_ended(segments: Seq<Segment>, n: int, bytes: Seq<u8>, target: u64)
    requires
        0 <= n <= segments.len(),
        !(clinit_hits(segments.take(n), bytes, target) matches Some(Ok(_))),
    ensures
        clinit_hits(segments, bytes, target) == clinit_hits(segments.take(n), bytes, target),
    decreases segments.len() - n,
{
    if n < segments.len() {
        assert(segments.take(n + 1).drop_last() =~= segments.take(n));
        lemma_clinit_scan_ended(segments, n + 1, bytes, target);
    } else {
        assert(segments.take(n) =~= segments);
    }
}

/// Adds the addresses of a segment. Says whether no window was cut off.
fn add_clinit_code(
    found: &mut Vec<u64>,
    seen: &mut HashSet<u64>,
    code: &[u8],
    vaddr: u64,
    target: u64,
) -> (r: bool)
    requires
        old(seen)@ == old(found)@.to_set(),
    ensures
        match with_clinit_code(old(found)@, code@, vaddr, target, pairs_in(code@.len())) {
            None => !r,
            Some(more) => r && final(found)@ == more && final(seen)@ == more.to_set(),
        },
{
    let ghost before = found@;
    let ghost total = pairs_in(code@.len());
    let count: usize = if code.len() <= 8 {
        0
    } else {
        (code.len() - 5) / 4
    };
    for k in 0..count
        invariant
            before == old(found)@,
            total == pairs_in(code@.len()),
            count == total,
            code.len() <= usize::MAX,
            seen@ == found@.to_set(),
            with_clinit_code(before, code@, vaddr, target, k as nat) == Some(found@),
    {
        let off: usize = 4 * k;
        let first: u32 = read_inst(code, off);
        let second: u32 = read_inst(code, off + 4);
        let loads: bool = match ldr_w_from_reg(first, 0) {
            Some(class_reg) => ldr_status_from_reg(second, class_reg).is_some(),
            None => false,
        };
        if loads {
            match scan_window(code, vaddr, off, target) {
                None => {
                    proof {
                        lemma_clinit_code_cut_off(
                            before,
                            code@,
                            vaddr,
                            target,
                            (k + 1) as nat,
                            total,
                        );
                    }
                    return false;
                },
                Some(branches) => {
                    let pc: u64 = add_wrapping(vaddr, off as u64);
                    let ghost earlier = found@;
                    if branches && seen.insert(pc) {
                        found.push(pc);
                        assert(found@.to_set() =~= earlier.to_set().insert(pc)) by {
                            assert(found@.last() == pc);
                            assert forall|x: u64| earlier.contains(x) implies found@.contains(x) by {
                                let j = earlier.index_of(x);
                                assert(found@[j] == x);
                            }
                        }
                    } else {
                        assert(seen@ =~= earlier.to_set());
                    }
                },
            }
        }
    }
    true
}

/// The branch scan, with no answer where a window is cut off.
pub(crate) fn try_clinit_scan(image: &ElfImage, bytes: &[u8], target: u64) -> (r: Option<
    Result<Vec<u64>, BranchError>,
>)
    ensures
        match r {
            None => clinit_addresses(image@.segments, bytes@, target) is None,
            Some(Ok(found)) => clinit_addresses(image@.segments, bytes@, target) == Some(
                Ok::<Seq<u64>, BranchError>(found@),
            ),
            Some(Err(e)) => clinit_addresses(image@.segments, bytes@, target) == Some(
                Err::<Seq<u64>, BranchError>(e),
            ),
        },
{
    let mut found: Vec<u64> = Vec::new();
    let mut seen: HashSet<u64> = HashSet::new();
    let ghost all = image@.segments;
    assert(seen@ =~= found@.to_set());
    for i in 0..image.segments.len()
        invariant
            all == image.segments@,
            seen@ == found@.to_set(),
            clinit_hits(all.take(i as int), bytes@, target) == Some(
                Ok::<Seq<u64>, SegmentError>(found@),
            ),
    {
        assert(all.take(i + 1).drop_last() =~= all.take(i as int));
        let segment = image.segments[i];
        if segment.executable() {
            match segment_data(bytes, &segment) {
                Ok(code) => {
                    if !add_clinit_code(&mut found, &mut seen, code, segment.vaddr, target) {
                        proof {
                            lemma_clinit_scan_ended(all, i + 1, bytes@, target);
                        }
                        return None;
                    }
                },
                Err(e) => {
                    proof {
                        lemma_clinit_scan_ended(all, i + 1, bytes@, target);
                    }
                    return Some(Err(BranchError::Segment(e)));
                },
            }
        }
    }
    assert(all.take(all.len() as int) =~= all);
    if found.len() == 0 {
        Some(Err(BranchError::NotFound))
    } else {
        Some(Ok(found))
    }
}

/// Finds `ExecuteNterpWithClinitImpl`, which loads a class status and then branches to
/// `ExecuteNterpImpl`.
pub fn find_nterp_with_clinit_by_branch(image: &ElfImage, bytes: &[u8], execute_nterp_addr: u64) -> (r:
    Result<Vec<u64>, BranchError>)
    requires
        clinit_addresses(image@.segments, bytes@, execute_nterp_addr) is Some,
    ensures
        clinit_addresses(image@.segments, bytes@, execute_nterp_addr) == Some(
            match r {
                Ok(found) => Ok::<Seq<u64>, BranchError>(found@),
                Err(e) => Err(e),
            },
        ),
{
    try_clinit_scan(image, bytes, execute_nterp_addr).unwrap()
}

/// Where the length of the code is a multiple of the instruction size, no window is cut
/// off.
pub proof fn law_whole_instructions_are_never_cut_off(
    code: Seq<u8>,
    vaddr: u64,
    start: int,
    target: u64,
)
    requires
        code.len() % 4 == 0,
        0 <= start,
        start % 4 == 0,
    ensures
        window_branches(code, vaddr, start, target) is Some,
{
    let end = start + 4 * BRANCH_WINDOW;
    let limit = if end < code.len() {
        end
    } else {
        code.len() as int
    };
    lemma_window_fits(code, vaddr, start, limit, target);
}

proof fn lemma_window_fits(code: Seq<u8>, vaddr: u64, off: int, end: int, target: u64)
    requires
        off % 4 == 0,
        end % 4 == 0,
        0 <= off,
        end <= code.len(),
    ensures
        window_scan(code, vaddr, off, end, target) is Some,
    decreases end - off + 4,
{
    if off < end {
        lemma_window_fits(code, vaddr, off + 4, end, target);
    }
}

/// A function can start at an offset.
#[verifier::opaque]
pub open spec fn starts_at(code: Seq<u8>, off: int) -> bool {
    is_prologue(le32_at(code, off))
}

proof fn lemma_entry_step(code: Seq<u8>, off: int, low: int)
    ensures
        entry_before(code, off, low) == (if off < 0 || off < low || off + 4 > code.len() {
            None
        } else if starts_at(code, off) {
            Some(off)
        } else {
            entry_before(code, off - 4, low)
        }),
{
    reveal(starts_at);
}

proof fn lemma_entry_starts(code: Seq<u8>, off: int, low: int)
    ensures
        match entry_before(code, off, low) {
            Some(at) => {
                &&& low <= at <= off
                &&& 0 <= at
                &&& (off - at) % 4 == 0
                &&& at + 4 <= code.len()
                &&& starts_at(code, at)
                &&& forall|k: int|
                    at < k <= off && (off - k) % 4 == 0 ==> !#[trigger] starts_at(code, k)
            },
            None => off + 4 <= code.len() ==> forall|k: int|
                low <= k <= off && 0 <= k && (off - k) % 4 == 0 ==> !#[trigger] starts_at(code, k),
        },
    decreases off + 4,
{
    lemma_entry_step(code, off, low);
    if !(off < 0 || off < low || off + 4 > code.len()) && !starts_at(code, off) {
        lemma_entry_starts(code, off - 4, low);
    }
}

proof fn lemma_entry_before(code: Seq<u8>, off: int, low: int)
    ensures
        match entry_before(code, off, low) {
            Some(at) => {
                &&& low <= at <= off
                &&& 0 <= at
                &&& (off - at) % 4 == 0
                &&& at + 4 <= code.len()
                &&& is_prologue(le32_at(code, at))
                &&& forall|k: int|
                    at < k <= off && (off - k) % 4 == 0 ==> !is_prologue(#[trigger] le32_at(code, k))
            },
            None => off + 4 <= code.len() ==> forall|k: int|
                low <= k <= off && 0 <= k && (off - k) % 4 == 0 ==> !is_prologue(
                    #[trigger] le32_at(code, k),
                ),
        },
{
    lemma_entry_starts(code, off, low);
    assert forall|k: int| #[trigger] starts_at(code, k) <==> is_prologue(le32_at(code, k)) by {
        reveal(starts_at);
    }
    let found = entry_before(code, off, low);
    if found is Some {
        let at = found->Some_0;
        assert forall|k: int| at < k <= off && (off - k) % 4 == 0 implies !is_prologue(
            #[trigger] le32_at(code, k),
        ) by {
            assert(!starts_at(code, k));
        }
    } else if off + 4 <= code.len() {
        assert forall|k: int| low <= k <= off && 0 <= k && (off - k) % 4 == 0 implies !is_prologue(
            #[trigger] le32_at(code, k),
        ) by {
            assert(!starts_at(code, k));
        }
    }
}

/// The start of the function that holds some code is the nearest place before it, in steps
/// of one instruction, that looks like one, and not too far away.
pub proof fn law_function_entry_is_the_nearest(code: Seq<u8>, vaddr: u64, ref_addr: u64)
    ensures
        function_entry(code, vaddr, ref_addr) matches Some(f) ==> {
            &&& vaddr <= f <= ref_addr
            &&& ref_addr - f <= ENTRY_SEARCH
            &&& (ref_addr - f) % 4 == 0
            &&& is_prologue(le32_at(code, f - vaddr))
            &&& forall|k: int|
                f - vaddr < k <= ref_addr - vaddr && (ref_addr - vaddr - k) % 4 == 0
                    ==> !is_prologue(#[trigger] le32_at(code, k))
        },
{
    if ref_addr >= vaddr {
        let off = ref_addr - vaddr;
        let low = if off < ENTRY_SEARCH {
            0
        } else {
            off - ENTRY_SEARCH
        };
        lemma_entry_before(code, off, low);
    }
}

/// A place within 8 KiB before some code, in steps of one instruction, that looks like the
/// start of a function is not passed over, and none farther away is taken.
pub proof fn law_function_entry_is_found(code: Seq<u8>, vaddr: u64, ref_addr: u64, f: u64)
    requires
        vaddr <= f <= ref_addr,
        ref_addr - f <= 0x2000,
        (ref_addr - f) % 4 == 0,
        ref_addr - vaddr + 4 <= code.len(),
        is_prologue(le32_at(code, f - vaddr)),
    ensures
        function_entry(code, vaddr, ref_addr) matches Some(g) && f <= g <= ref_addr && ref_addr - g
            <= 0x2000,
{
    let off = ref_addr - vaddr;
    let low = if off < ENTRY_SEARCH {
        0
    } else {
        off - ENTRY_SEARCH
    };
    lemma_entry_before(code, off, low);
    assert((off - (f - vaddr)) % 4 == 0);
    law_function_entry_is_the_nearest(code, vaddr, ref_addr);
}

/// The function that some code belongs to starts at most 8 KiB before it.
pub proof fn law_function_entry_is_near(code: Seq<u8>, vaddr: u64, ref_addr: u64)
    ensures
        function_entry(code, vaddr, ref_addr) matches Some(f) ==> ref_addr - f <= 0x2000,
{
    law_function_entry_is_the_nearest(code, vaddr, ref_addr);
}

/// An instruction that is followed by another one and by at least one more byte is looked at,
/// and no other.
pub proof fn law_instructions_that_are_looked_at(len: nat, k: nat)
    ensures
        k < pairs_in(len) <==> 4 * k + 8 < len,
{
}

/// The references to an address are the instructions that form it with the one behind them:
/// all of those that are looked at, and no others.
pub proof fn law_references_are_exact(code: Seq<u8>, vaddr: u64, target: u64, n: nat, address: u64)
    ensures
        references_to(code, vaddr, target, n).contains(address) <==> exists|k: int|
            0 <= k < n && #[trigger] refers_at(code, vaddr, target, k) && address == wrap64(
                vaddr + 4 * k,
            ),
    decreases n,
{
    if n > 0 {
        law_references_are_exact(code, vaddr, target, (n - 1) as nat, address);
        let before = references_to(code, vaddr, target, (n - 1) as nat);
        let after = references_to(code, vaddr, target, n);
        if before.contains(address) {
            let i = before.index_of(address);
            assert(after[i] == address);
            let k = choose|k: int|
                0 <= k < n - 1 && #[trigger] refers_at(code, vaddr, target, k) && address == wrap64(
                    vaddr + 4 * k,
                );
            assert(refers_at(code, vaddr, target, k));
        }
        if refers_at(code, vaddr, target, n - 1) && address == wrap64(vaddr + 4 * (n - 1)) {
            assert(after.last() == address);
        }
        if after.contains(address) && !before.contains(address) {
            assert(refers_at(code, vaddr, target, n - 1));
        }
    }
}

/// Instruction number `k` forms the address with the one behind it.
pub open spec fn refers_at(code: Seq<u8>, vaddr: u64, target: u64, k: int) -> bool {
    forms_address(
        le32_at(code, 4 * k),
        le32_at(code, 4 * k + 4),
        wrap64(vaddr + 4 * k),
        target,
    )
}

/// A function has six parameters where one of its first fifty instructions tests a bit of
/// register 5.
pub proof fn law_early_tests_count(code: Seq<u8>, vaddr: u64, f: u64, k: int)
    requires
        vaddr <= f,
    ensures
        0 <= k < 50 && f - vaddr + 4 * k + 4 <= code.len() && is_w5_test(
            le32_at(code, f - vaddr + 4 * k),
        ) ==> has_6th_parameter(code, vaddr, f),
        (forall|j: int|
            0 <= j < 50 && f - vaddr + 4 * j + 4 <= code.len() ==> !is_w5_test(
                #[trigger] le32_at(code, f - vaddr + 4 * j),
            )) ==> !has_6th_parameter(code, vaddr, f),
{
    if 0 <= k < 50 && f - vaddr + 4 * k + 4 <= code.len() && is_w5_test(
        le32_at(code, f - vaddr + 4 * k),
    ) {
        assert(tests_6th(code, f - vaddr + 4 * k));
    }
    if has_6th_parameter(code, vaddr, f) {
        let j = choose|j: int| 0 <= j < 50 && #[trigger] tests_6th(code, f - vaddr + 4 * j);
        assert(is_w5_test(le32_at(code, f - vaddr + 4 * j)));
    }
}

/// The bytes of `Interpreting `.
pub open spec fn logged_text() -> Seq<u8> {
    seq![
        0x49u8,
        0x6eu8,
        0x74u8,
        0x65u8,
        0x72u8,
        0x70u8,
        0x72u8,
        0x65u8,
        0x74u8,
        0x69u8,
        0x6eu8,
        0x67u8,
        0x20u8,
    ]
}

/// The code is that of the first code segment whose bytes are in the file.
pub open spec fn is_first_code(
    segments: Seq<Segment>,
    bytes: Seq<u8>,
    vaddr: u64,
    code: Seq<u8>,
) -> bool {
    exists|i: int|
        {
            &&& 0 <= i < segments.len()
            &&& #[trigger] is_code_of(segments[i], bytes, code)
            &&& segments[i].vaddr == vaddr
            &&& forall|j: int|
                0 <= j < i ==> !((#[trigger] segments[j]).kind == 1 && segments[j].flags % 2 == 1
                    && segments[j].content(bytes) is Ok)
        }
}

/// The code is that of the segment.
pub open spec fn is_code_of(s: Segment, bytes: Seq<u8>, code: Seq<u8>) -> bool {
    s.kind == 1 && s.flags % 2 == 1 && s.content(bytes) == Ok::<Seq<u8>, SegmentError>(code)
}

proof fn lemma_first_code(segments: Seq<Segment>, bytes: Seq<u8>, from: int, i: int, code: Seq<u8>)
    requires
        0 <= from <= i < segments.len(),
        is_code_of(segments[i], bytes, code),
        forall|j: int|
            from <= j < i ==> !((#[trigger] segments[j]).kind == 1 && segments[j].flags % 2 == 1
                && segments[j].content(bytes) is Ok),
    ensures
        first_code(segments, bytes, from) == Some((segments[i].vaddr, code)),
    decreases i - from,
{
    if from < i {
        lemma_first_code(segments, bytes, from + 1, i, code);
    }
}

proof fn lemma_first_six_parameters(code: Seq<u8>, vaddr: u64, refs: Seq<u64>, from: int)
    requires
        0 <= from <= refs.len(),
    ensures
        match first_six_parameters(code, vaddr, refs, from) {
            Some(f) => has_6th_parameter(code, vaddr, f) && exists|i: int|
                from <= i < refs.len() && function_entry(code, vaddr, #[trigger] refs[i]) == Some(f),
            None => forall|i: int|
                from <= i < refs.len() ==> (function_entry(code, vaddr, #[trigger] refs[i]) matches Some(
                    f,
                ) ==> !has_6th_parameter(code, vaddr, f)),
        },
    decreases refs.len() - from,
{
    if from < refs.len() {
        lemma_first_six_parameters(code, vaddr, refs, from + 1);
        if let Some(f) = first_six_parameters(code, vaddr, refs, from) {
            if function_entry(code, vaddr, refs[from]) != Some(f) || !has_6th_parameter(
                code,
                vaddr,
                f,
            ) {
                let i = choose|i: int|
                    from + 1 <= i < refs.len() && function_entry(code, vaddr, #[trigger] refs[i])
                        == Some(f);
                assert(function_entry(code, vaddr, refs[i]) == Some(f));
            }
        }
    }
}

/// `Execute` is found where the text that it logs stands in a loaded segment and an instruction
/// of the code refers to it, inside a function with six parameters. What is found is the
/// start of such a function.
pub proof fn law_execute_is_found_by_its_text(
    segments: Seq<Segment>,
    bytes: Seq<u8>,
    target: u64,
    vaddr: u64,
    code: Seq<u8>,
    k: int,
)
    requires
        string_address(segments, bytes, logged_text(), 0) == Ok::<u64, StringFault>(target),
        is_first_code(segments, bytes, vaddr, code),
    ensures
        0 <= k && 4 * k + 8 < code.len() && refers_at(code, vaddr, target, k) && (function_entry(
            code,
            vaddr,
            wrap64(vaddr + 4 * k),
        ) matches Some(f) && has_6th_parameter(code, vaddr, f)) ==> execute_by_string(
            segments,
            bytes,
        ).0 is Ok,
        execute_by_string(segments, bytes).0 matches Ok(f) ==> has_6th_parameter(code, vaddr, f)
            && exists|j: int|
            0 <= j && 4 * j + 8 < code.len() && #[trigger] refers_at(code, vaddr, target, j)
                && function_entry(code, vaddr, wrap64(vaddr + 4 * j)) == Some(f),
{
    assert(INTERPRETING@ =~= logged_text());
    let s = choose|i: int|
        {
            &&& 0 <= i < segments.len()
            &&& #[trigger] is_code_of(segments[i], bytes, code)
            &&& segments[i].vaddr == vaddr
            &&& forall|j: int|
                0 <= j < i ==> !((#[trigger] segments[j]).kind == 1 && segments[j].flags % 2 == 1
                    && segments[j].content(bytes) is Ok)
        };
    lemma_first_code(segments, bytes, 0, s, code);
    let n = pairs_in(code.len());
    let refs = references_to(code, vaddr, target, n);
    lemma_first_six_parameters(code, vaddr, refs, 0);
    if 0 <= k && 4 * k + 8 < code.len() && refers_at(code, vaddr, target, k) {
        let pc = wrap64(vaddr + 4 * k);
        law_instructions_that_are_looked_at(code.len(), k as nat);
        law_references_are_exact(code, vaddr, target, n, pc);
        let i = refs.index_of(pc);
        assert(refs[i] == pc);
    }
    if let Ok(f) = execute_by_string(segments, bytes).0 {
        let i = choose|i: int|
            0 <= i < refs.len() && function_entry(code, vaddr, #[trigger] refs[i]) == Some(f);
        assert(refs.contains(refs[i]));
        law_references_are_exact(code, vaddr, target, n, refs[i]);
        let j = choose|j: int|
            0 <= j < n && #[trigger] refers_at(code, vaddr, target, j) && refs[i] == wrap64(
                vaddr + 4 * j,
            );
        law_instructions_that_are_looked_at(code.len(), j as nat);
        assert(refers_at(code, vaddr, target, j));
    }
}

proof fn lemma_window_step(code: Seq<u8>, vaddr: u64, off: int, end: int, target: u64)
    ensures
        window_scan(code, vaddr, off, end, target) == (if off >= end {
            Some(false)
        } else if off + 4 > code.len() {
            None
        } else if branches_at(code, vaddr, off, target) {
            Some(true)
        } else {
            window_scan(code, vaddr, off + 4, end, target)
        }),
{
    reveal(branches_at);
}

proof fn lemma_window(code: Seq<u8>, vaddr: u64, off: int, end: int, target: u64)
    requires
        off % 4 == 0,
        end % 4 == 0,
        0 <= off,
        end <= code.len(),
    ensures
        window_scan(code, vaddr, off, end, target) == Some(
            exists|at: int|
                off <= at < end && at % 4 == 0 && #[trigger] branches_at(code, vaddr, at, target),
        ),
    decreases end - off + 4,
{
    lemma_window_step(code, vaddr, off, end, target);
    if off < end {
        lemma_window(code, vaddr, off + 4, end, target);
        if branches_at(code, vaddr, off, target) {
        } else if exists|at: int|
            off <= at < end && at % 4 == 0 && #[trigger] branches_at(code, vaddr, at, target) {
            let at = choose|at: int|
                off <= at < end && at % 4 == 0 && #[trigger] branches_at(code, vaddr, at, target);
            assert(off + 4 <= at);
        }
    }
}

/// The instruction at an offset branches to the address.
#[verifier::opaque]
pub open spec fn branches_at(code: Seq<u8>, vaddr: u64, at: int, target: u64) -> bool {
    branch_target_of(wrap64(vaddr + at), le32_at(code, at)) == Some(target)
}

/// A window of code holds a branch where one of its first fourteen instructions is one, as far
/// as there is code.
pub proof fn law_window_has_fourteen_instructions(code: Seq<u8>, vaddr: u64, start: int, target: u64)
    requires
        code.len() % 4 == 0,
        0 <= start,
        start % 4 == 0,
    ensures
        window_branches(code, vaddr, start, target) == Some(
            exists|at: int|
                start <= at < start + 56 && at < code.len() && at % 4 == 0 && #[trigger] branches_at(
                    code,
                    vaddr,
                    at,
                    target,
                ),
        ),
{
    let end = if start + 56 < code.len() {
        start + 56
    } else {
        code.len() as int
    };
    lemma_window(code, vaddr, start, end, target);
    let inside = exists|at: int|
        start <= at < end && at % 4 == 0 && #[trigger] branches_at(code, vaddr, at, target);
    let within = exists|at: int|
        start <= at < start + 56 && at < code.len() && at % 4 == 0 && #[trigger] branches_at(
            code,
            vaddr,
            at,
            target,
        );
    if inside {
        let at = choose|at: int|
            start <= at < end && at % 4 == 0 && #[trigger] branches_at(code, vaddr, at, target);
        assert(branches_at(code, vaddr, at, target));
    }
    if within {
        let at = choose|at: int|
            start <= at < start + 56 && at < code.len() && at % 4 == 0 && #[trigger] branches_at(
                code,
                vaddr,
                at,
                target,
            );
        assert(branches_at(code, vaddr, at, target));
    }
}

/// The code at an offset loads a word relative to register 0, then a word or a byte relative
/// to what was loaded, and one of fourteen instructions from there on branches to the
/// address.
pub open spec fn is_clinit_code(code: Seq<u8>, vaddr: u64, off: int, target: u64) -> bool {
    let first = le32_at(code, off);
    let second = le32_at(code, off + 4);
    &&& is_ldr_w(first) && base_register(first) == 0
    &&& is_ldrb(second) || is_ldr_w(second)
    &&& base_register(second) == target_register(first)
    &&& exists|at: int|
        off <= at < off + 56 && at < code.len() && at % 4 == 0 && #[trigger] branches_at(
            code,
            vaddr,
            at,
            target,
        )
}

proof fn lemma_clinit_code(found: Seq<u64>, code: Seq<u8>, vaddr: u64, target: u64, n: nat, a: u64)
    requires
        code.len() % 4 == 0,
    ensures
        with_clinit_code(found, code, vaddr, target, n) matches Some(after) && (after.contains(a)
            <==> found.contains(a) || exists|k: int|
            0 <= k < n && #[trigger] is_clinit_at(code, vaddr, k, target) && a == wrap64(
                vaddr + 4 * k,
            )),
    decreases n,
{
    if n > 0 {
        lemma_clinit_code(found, code, vaddr, target, (n - 1) as nat, a);
        let off = 4 * (n - 1);
        law_window_has_fourteen_instructions(code, vaddr, off, target);
        let before = with_clinit_code(found, code, vaddr, target, (n - 1) as nat)->Some_0;
        let after = with_clinit_code(found, code, vaddr, target, n)->Some_0;
        let pc = wrap64(vaddr + off);
        if before.contains(a) {
            let i = before.index_of(a);
            assert(after[i] == a);
            if !found.contains(a) {
                let k = choose|k: int|
                    0 <= k < n - 1 && #[trigger] is_clinit_at(code, vaddr, k, target) && a == wrap64(
                        vaddr + 4 * k,
                    );
                assert(is_clinit_at(code, vaddr, k, target));
            }
        }
        if is_clinit_at(code, vaddr, n - 1, target) && a == pc && !before.contains(a) {
            assert(after.last() == a);
        }
        if after.contains(a) && !before.contains(a) {
            assert(is_clinit_at(code, vaddr, n - 1, target));
        }
        if !before.contains(a) && exists|k: int|
            0 <= k < n && #[trigger] is_clinit_at(code, vaddr, k, target) && a == wrap64(
                vaddr + 4 * k,
            ) {
            let k = choose|k: int|
                0 <= k < n && #[trigger] is_clinit_at(code, vaddr, k, target) && a == wrap64(
                    vaddr + 4 * k,
                );
            assert(k == n - 1);
        }
    }
}

/// Such code starts at instruction number `k`.
pub open spec fn is_clinit_at(code: Seq<u8>, vaddr: u64, k: int, target: u64) -> bool {
    is_clinit_code(code, vaddr, 4 * k, target)
}

/// Such code stands in a code segment at this address.
pub open spec fn is_clinit_hit(segments: Seq<Segment>, bytes: Seq<u8>, target: u64, address: u64) -> bool {
    exists|i: int, k: int|
        0 <= i < segments.len() && #[trigger] is_clinit_in(segments[i], bytes, target, k) && address
            == wrap64(segments[i].vaddr + 4 * k)
}

/// Such code stands in the code segment at instruction number `k`, which is looked at.
pub open spec fn is_clinit_in(s: Segment, bytes: Seq<u8>, target: u64, k: int) -> bool {
    s.kind == 1 && s.flags % 2 == 1 && (s.content(bytes) matches Ok(code) && 0 <= k && 4 * k + 8
        < code.len() && is_clinit_at(code, s.vaddr, k, target))
}

/// Every code segment can be read and holds whole instructions.
pub open spec fn code_is_whole(segments: Seq<Segment>, bytes: Seq<u8>) -> bool {
    forall|i: int|
        0 <= i < segments.len() && (#[trigger] segments[i]).kind == 1 && segments[i].flags % 2 == 1
            ==> (segments[i].content(bytes) matches Ok(code) && code.len() % 4 == 0)
}

proof fn lemma_clinit_hits(segments: Seq<Segment>, bytes: Seq<u8>, target: u64, a: u64)
    requires
        code_is_whole(segments, bytes),
    ensures
        clinit_hits(segments, bytes, target) matches Some(Ok(found)) && (found.contains(a)
            <==> is_clinit_hit(segments, bytes, target, a)),
    decreases segments.len(),
{
    if segments.len() > 0 {
        let rest = segments.drop_last();
        let last = segments.last();
        assert(segments[segments.len() - 1] == last);
        assert forall|i: int|
            0 <= i < rest.len() && (#[trigger] rest[i]).kind == 1 && rest[i].flags % 2 == 1 implies (
        rest[i].content(bytes) matches Ok(code) && code.len() % 4 == 0) by {
            assert(segments[i] == rest[i]);
        }
        lemma_clinit_hits(rest, bytes, target, a);
        let some = clinit_hits(rest, bytes, target)->Some_0->Ok_0;
        if is_clinit_hit(rest, bytes, target, a) {
            let (i, k) = choose|i: int, k: int|
                0 <= i < rest.len() && #[trigger] is_clinit_in(rest[i], bytes, target, k) && a
                    == wrap64(rest[i].vaddr + 4 * k);
            assert(is_clinit_in(segments[i], bytes, target, k));
        }
        if is_clinit_hit(segments, bytes, target, a) && !is_clinit_hit(rest, bytes, target, a) {
            let (i, k) = choose|i: int, k: int|
                0 <= i < segments.len() && #[trigger] is_clinit_in(segments[i], bytes, target, k)
                    && a == wrap64(segments[i].vaddr + 4 * k);
            if i < rest.len() {
                assert(is_clinit_in(rest[i], bytes, target, k));
            }
        }
        if last.is_code() {
            let code = last.content(bytes)->Ok_0;
            let n = pairs_in(code.len());
            lemma_clinit_code(some, code, last.vaddr, target, n, a);
            let found = with_clinit_code(some, code, last.vaddr, target, n)->Some_0;
            if found.contains(a) && !some.contains(a) {
                let k = choose|k: int|
                    0 <= k < n && #[trigger] is_clinit_at(code, last.vaddr, k, target) && a
                        == wrap64(last.vaddr + 4 * k);
                law_instructions_that_are_looked_at(code.len(), k as nat);
                assert(is_clinit_in(segments[segments.len() - 1], bytes, target, k));
            }
            if is_clinit_hit(segments, bytes, target, a) && !is_clinit_hit(rest, bytes, target, a) {
                let (i, k) = choose|i: int, k: int|
                    0 <= i < segments.len() && #[trigger] is_clinit_in(
                        segments[i],
                        bytes,
                        target,
                        k,
                    ) && a == wrap64(segments[i].vaddr + 4 * k);
                if i < rest.len() {
                    assert(is_clinit_in(rest[i], bytes, target, k));
                }
                law_instructions_that_are_looked_at(code.len(), k as nat);
                assert(is_clinit_at(code, last.vaddr, k, target));
            }
        }
    }
}

/// In code of whole instructions, the branch scan finds the addresses of code that loads a
/// class status and then branches to the address: all of them, and no others.
pub proof fn law_branch_scan_is_exact(segments: Seq<Segment>, bytes: Seq<u8>, target: u64, a: u64)
    requires
        code_is_whole(segments, bytes),
    ensures
        match clinit_addresses(segments, bytes, target) {
            Some(Ok(found)) => found.contains(a) <==> is_clinit_hit(segments, bytes, target, a),
            Some(Err(e)) => e == BranchError::NotFound && !is_clinit_hit(segments, bytes, target, a),
            None => false,
        },
{
    lemma_clinit_hits(segments, bytes, target, a);
}

proof fn lemma_first_stays(found: Seq<u64>, code: Seq<u8>, vaddr: u64, target: u64, n: nat, m: nat)
    requires
        n <= m,
        with_clinit_code(found, code, vaddr, target, n) matches Some(before) && before.len() > 0,
        with_clinit_code(found, code, vaddr, target, m) is Some,
    ensures
        with_clinit_code(found, code, vaddr, target, m)->Some_0.len() > 0,
        with_clinit_code(found, code, vaddr, target, m)->Some_0[0] == with_clinit_code(
            found,
            code,
            vaddr,
            target,
            n,
        )->Some_0[0],
    decreases m,
{
    if n < m {
        lemma_first_stays(found, code, vaddr, target, n, (m - 1) as nat);
    }
}

/// Such code stands first at instruction `k` of segment `i`: not before in it, and in no segment
/// before.
pub open spec fn is_first_clinit(segments: Seq<Segment>, bytes: Seq<u8>, target: u64, i: int, k: int) -> bool {
    &&& 0 <= i < segments.len()
    &&& is_clinit_in(segments[i], bytes, target, k)
    &&& forall|l: int| l < k ==> !#[trigger] is_clinit_in(segments[i], bytes, target, l)
    &&& forall|j: int, l: int|
        0 <= j < i ==> !#[trigger] is_clinit_in(segments[j], bytes, target, l)
}

proof fn lemma_first_in_last(segments: Seq<Segment>, bytes: Seq<u8>, target: u64, k: int)
    requires
        segments.len() > 0,
        code_is_whole(segments, bytes),
        is_first_clinit(segments, bytes, target, segments.len() - 1, k),
    ensures
        clinit_hits(segments, bytes, target) matches Some(Ok(found)) && found.len() > 0 && found[0]
            == wrap64(segments.last().vaddr + 4 * k),
{
    let before = segments.drop_last();
    let last = segments.last();
    assert(code_is_whole(before, bytes)) by {
        assert forall|j: int|
            0 <= j < before.len() && (#[trigger] before[j]).kind == 1 && before[j].flags % 2
                == 1 implies (before[j].content(bytes) matches Ok(code) && code.len() % 4 == 0) by {
            assert(segments[j] == before[j]);
        }
    }
    lemma_clinit_hits(before, bytes, target, 0);
    let earlier = clinit_hits(before, bytes, target)->Some_0->Ok_0;
    assert(earlier.len() == 0) by {
        if earlier.len() > 0 {
            lemma_clinit_hits(before, bytes, target, earlier[0]);
            let (j, l) = choose|j: int, l: int|
                0 <= j < before.len() && #[trigger] is_clinit_in(before[j], bytes, target, l)
                    && earlier[0] == wrap64(before[j].vaddr + 4 * l);
            assert(is_clinit_in(segments[j], bytes, target, l));
        }
    }
    let code = last.content(bytes)->Ok_0;
    let pc = wrap64(last.vaddr + 4 * k);
    assert(segments[segments.len() - 1].kind == 1);
    lemma_clinit_code(earlier, code, last.vaddr, target, (k + 1) as nat, pc);
    let found = with_clinit_code(earlier, code, last.vaddr, target, (k + 1) as nat)->Some_0;
    assert(is_clinit_at(code, last.vaddr, k, target));
    assert(found.contains(pc));
    assert(found[0] == pc) by {
        lemma_clinit_code(earlier, code, last.vaddr, target, (k + 1) as nat, found[0]);
        assert(found.contains(found[0]));
        let l = choose|l: int|
            0 <= l < k + 1 && #[trigger] is_clinit_at(code, last.vaddr, l, target) && found[0]
                == wrap64(last.vaddr + 4 * l);
        if l < k {
            assert(is_clinit_in(segments[segments.len() - 1], bytes, target, l));
        }
    }
    let all = pairs_in(code.len());
    assert(k + 1 <= all);
    lemma_clinit_code(earlier, code, last.vaddr, target, all, pc);
    lemma_first_stays(earlier, code, last.vaddr, target, (k + 1) as nat, all);
}

/// The first code that loads a class status and then branches to the target comes first among
/// the places that are found.
pub proof fn law_first_branch_comes_first(
    segments: Seq<Segment>,
    bytes: Seq<u8>,
    target: u64,
    i: int,
    k: int,
)
    requires
        code_is_whole(segments, bytes),
        is_first_clinit(segments, bytes, target, i, k),
    ensures
        clinit_addresses(segments, bytes, target) matches Some(Ok(found)) && found.len() > 0 && found[0]
            == wrap64(segments[i].vaddr + 4 * k),
    decreases segments.len(),
{
    if i == segments.len() - 1 {
        lemma_first_in_last(segments, bytes, target, k);
    } else {
        let before = segments.drop_last();
        let last = segments.last();
        assert(code_is_whole(before, bytes)) by {
            assert forall|j: int|
                0 <= j < before.len() && (#[trigger] before[j]).kind == 1 && before[j].flags % 2
                    == 1 implies (before[j].content(bytes) matches Ok(code) && code.len() % 4 == 0) by {
                assert(segments[j] == before[j]);
            }
        }
        assert(before[i] == segments[i]);
        assert forall|j: int, l: int| 0 <= j < i implies !#[trigger] is_clinit_in(
            before[j],
            bytes,
            target,
            l,
        ) by {
            assert(!is_clinit_in(segments[j], bytes, target, l));
        }
        assert forall|l: int| l < k implies !#[trigger] is_clinit_in(before[i], bytes, target, l) by {
            assert(!is_clinit_in(segments[i], bytes, target, l));
        }
        law_first_branch_comes_first(before, bytes, target, i, k);
        if last.is_code() {
            assert(segments[segments.len() - 1].kind == 1);
            let earlier = clinit_hits(before, bytes, target)->Some_0->Ok_0;
            let code = last.content(bytes)->Ok_0;
            lemma_clinit_code(earlier, code, last.vaddr, target, pairs_in(code.len()), 0);
            lemma_first_stays(earlier, code, last.vaddr, target, 0, pairs_in(code.len()));
        }
    }
}

} // verus!
