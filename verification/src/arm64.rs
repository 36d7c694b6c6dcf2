//! The few AArch64 instructions by which functions of `libart.so` are recognised.
use crate::bytes::{le32_at, read_le32};
use vstd::prelude::*;

verus! {

/// Adding to an address wraps around at the end of the address space.
pub open spec fn wrap64(v: int) -> u64 {
    (v % 0x1_0000_0000_0000_0000) as u64
}

/// A field of `2 * half` values, read as a number from `-half` up to `half`.
pub open spec fn signed_field(v: int, half: int) -> int {
    if v < half {
        v
    } else {
        v - 2 * half
    }
}

/// The address at a signed distance.
fn displaced(base: u64, v: u64, half: u64, scale: u64) -> (r: u64)
    requires
        v < 2 * half,
        half <= 0x200_0000,
        scale == 1 || scale == 4 || scale == 0x1000,
    ensures
        r == wrap64(base + scale * signed_field(v as int, half as int)),
{
    if v < half {
        assert(0 <= scale * v < 0x20_0000_0000);
        base.wrapping_add(scale * v)
    } else {
        let back: u64 = 2 * half - v;
        assert(0 <= scale * back < 0x40_0000_0000);
        assert(scale * signed_field(v as int, half as int) == -(scale * back));
        base.wrapping_sub(scale * back)
    }
}

/// Moves an address; the sum wraps around.
pub fn add_wrapping(base: u64, distance: u64) -> (r: u64)
    ensures
        r == wrap64(base + distance),
{
    base.wrapping_add(distance)
}

/// The instruction at `off`.
pub fn read_inst(data: &[u8], off: usize) -> (r: u32)
    requires
        off + 4 <= data@.len(),
    ensures
        r == le32_at(data@, off as int),
{
    read_le32(data, off)
}

/// The 21-bit immediate of `adr` and `adrp`: two low bits from bit 29 on, the others
/// from bit 5 on.
pub open spec fn adr_imm(inst: u32) -> int {
    signed_field((inst / 0x20) % 0x8_0000 * 4 + (inst / 0x2000_0000) % 4, 0x10_0000)
}

/// `adr`: the opcode bits 24 to 28 are 10000, bit 31 is clear.
pub open spec fn is_adr(inst: u32) -> bool {
    (inst / 0x100_0000) % 32 == 16 && inst / 0x8000_0000 == 0
}

/// `adrp`: the opcode bits 24 to 28 are 10000, bit 31 is set.
pub open spec fn is_adrp(inst: u32) -> bool {
    (inst / 0x100_0000) % 32 == 16 && inst / 0x8000_0000 == 1
}

/// `add` of a 12-bit immediate to a 64-bit register, without a shift.
pub open spec fn is_add_imm(inst: u32) -> bool {
    inst / 0x40_0000 == 0x244
}

/// The 12-bit immediate of `add` and `sub`.
pub open spec fn imm12(inst: u32) -> int {
    (inst / 0x400) as int % 0x1000
}

/// The instruction at `pc`, with the one behind it, forms the address `target`: `adr`
/// with a distance from `pc`, or `adrp` with a distance in pages from the page of `pc`
/// and `add` with the offset in the page.
pub open spec fn forms_address(inst: u32, next: u32, pc: u64, target: u64) -> bool {
    ||| is_adrp(inst) && is_add_imm(next) && wrap64(pc - pc as int % 0x1000 + 0x1000 * adr_imm(inst))
        + imm12(next) == target
    ||| is_adr(inst) && wrap64(pc + adr_imm(inst)) == target
}

/// Whether the instruction at `pc`, with the one behind it, forms the address `target`.
pub fn references(inst: u32, next: u32, pc: u64, target: u64) -> (r: bool)
    ensures
        r == forms_address(inst, next, pc, target),
{
    let opcode: u32 = (inst / 0x100_0000) % 32;
    if opcode != 16 {
        return false;
    }
    let imm: u64 = ((inst / 0x20) % 0x8_0000) as u64 * 4 + ((inst / 0x2000_0000) % 4) as u64;
    if inst / 0x8000_0000 == 1 {
        let page: u64 = displaced(pc - pc % 0x1000, imm, 0x10_0000, 0x1000);
        let low: u64 = ((next / 0x400) % 0x1000) as u64;
        // The page address is a multiple of the page size, so the sum does not wrap.
        assert(page % 0x1000 == 0);
        next / 0x40_0000 == 0x244 && page + low == target
    } else {
        displaced(pc, imm, 0x10_0000, 1) == target
    }
}

/// `sub sp, sp, #imm` with a frame of ordinary size, or `stp x29, x30, [sp, #imm]!`.
pub open spec fn is_prologue(inst: u32) -> bool {
    ||| inst / 0x40_0000 == 0x344 && inst % 0x400 == 0x3ff && 0x20 <= imm12(inst) <= 0x400
    ||| inst / 0x40_0000 == 0x2a6 && inst % 0x8000 == 0x7bfd
}

/// Whether a function can start with this instruction.
pub fn prologue(inst: u32) -> (r: bool)
    ensures
        r == is_prologue(inst),
{
    let imm: u32 = (inst / 0x400) % 0x1000;
    (inst / 0x40_0000 == 0x344 && inst % 0x400 == 0x3ff && 0x20 <= imm && imm <= 0x400) || (inst
        / 0x40_0000 == 0x2a6 && inst % 0x8000 == 0x7bfd)
}

/// `tbz` or `tbnz` on a bit of `w5`, the register of the sixth parameter.
pub open spec fn is_w5_test(inst: u32) -> bool {
    &&& (inst / 0x100_0000) % 128 == 0x36 || (inst / 0x100_0000) % 128 == 0x37
    &&& inst % 32 == 5
    &&& inst / 0x8000_0000 == 0
}

/// Whether the instruction tests a bit of `w5` and branches.
pub fn w5_test(inst: u32) -> (r: bool)
    ensures
        r == is_w5_test(inst),
{
    let opcode: u32 = (inst / 0x100_0000) % 128;
    (opcode == 0x36 || opcode == 0x37) && inst % 32 == 5 && inst / 0x8000_0000 == 0
}

/// A load of a 32-bit word at an unsigned offset.
pub open spec fn is_ldr_w(inst: u32) -> bool {
    inst / 0x40_0000 == 0x2e5
}

/// A load of a byte at an unsigned offset.
pub open spec fn is_ldrb(inst: u32) -> bool {
    inst / 0x40_0000 == 0xe5
}

/// The base register of a load.
pub open spec fn base_register(inst: u32) -> u32 {
    (inst / 0x20) % 32
}

/// The target register of a load.
pub open spec fn target_register(inst: u32) -> u32 {
    inst % 32
}

/// The register that a word is loaded to, where it is loaded relative to `expected_rn`.
pub fn ldr_w_from_reg(inst: u32, expected_rn: u32) -> (r: Option<u32>)
    ensures
        r == (if is_ldr_w(inst) && base_register(inst) == expected_rn {
            Some(target_register(inst))
        } else {
            None
        }),
{
    if inst / 0x40_0000 == 0x2e5 && (inst / 0x20) % 32 == expected_rn {
        Some(inst % 32)
    } else {
        None
    }
}

/// The register that a class status is loaded to, where it is loaded relative to
/// `expected_rn`. Android 14 loads a byte, later versions load a packed word.
pub fn ldr_status_from_reg(inst: u32, expected_rn: u32) -> (r: Option<u32>)
    ensures
        r == (if (is_ldrb(inst) || is_ldr_w(inst)) && base_register(inst) == expected_rn {
            Some(target_register(inst))
        } else {
            None
        }),
{
    let opcode: u32 = inst / 0x40_0000;
    if (opcode == 0xe5 || opcode == 0x2e5) && (inst / 0x20) % 32 == expected_rn {
        Some(inst % 32)
    } else {
        None
    }
}

/// Where a branch at `pc` leads: `b` with a 26-bit distance or `b.cond` with a 19-bit
/// distance, in instructions.
pub open spec fn branch_target_of(pc: u64, inst: u32) -> Option<u64> {
    if inst / 0x400_0000 == 5 {
        Some(wrap64(pc + 4 * signed_field(inst as int % 0x400_0000, 0x200_0000)))
    } else if inst / 0x100_0000 == 0x54 && (inst / 0x10) % 2 == 0 {
        Some(wrap64(pc + 4 * signed_field((inst / 0x20) as int % 0x8_0000, 0x4_0000)))
    } else {
        None
    }
}

/// Where a branch at `pc` leads.
pub fn branch_target(pc: u64, inst: u32) -> (r: Option<u64>)
    ensures
        r == branch_target_of(pc, inst),
{
    if inst / 0x400_0000 == 5 {
        Some(displaced(pc, (inst % 0x400_0000) as u64, 0x200_0000, 4))
    } else if inst / 0x100_0000 == 0x54 && (inst / 0x10) % 2 == 0 {
        Some(displaced(pc, ((inst / 0x20) % 0x8_0000) as u64, 0x4_0000, 4))
    } else {
        None
    }
}

/// The instruction `b` with a distance that fits in its field leads that far.
pub proof fn law_branch_reaches_its_target(pc: u64, distance: int)
    requires
        -0x200_0000 <= distance < 0x200_0000,
    ensures
        branch_target_of(pc, (0x1400_0000 + distance % 0x400_0000) as u32) == Some(
            wrap64(pc + 4 * distance),
        ),
{
}

/// The instruction `b.cond` with a distance that fits in its field leads that far, whatever
/// the condition.
pub proof fn law_conditional_branch_reaches_its_target(pc: u64, distance: int, condition: int)
    requires
        -0x4_0000 <= distance < 0x4_0000,
        0 <= condition < 16,
    ensures
        branch_target_of(pc, (0x5400_0000 + distance % 0x8_0000 * 0x20 + condition) as u32) == Some(
            wrap64(pc + 4 * distance),
        ),
{
    let field = distance % 0x8_0000;
    let inst = (0x5400_0000 + field * 0x20 + condition) as u32;
    assert(inst / 0x100_0000 == 0x54);
    assert(inst / 0x400_0000 == 0x15);
    assert((inst / 0x10) % 2 == 0);
    assert((inst / 0x20) as int % 0x8_0000 == field);
}

/// Only `b` and `b.cond` are taken for branches.
pub proof fn law_other_instructions_do_not_branch(pc: u64, opcode: int, rest: int)
    requires
        0 <= opcode < 0x100,
        0 <= rest < 0x100_0000,
        !(0x14 <= opcode <= 0x17),
        opcode != 0x54,
    ensures
        branch_target_of(pc, (opcode * 0x100_0000 + rest) as u32) is None,
{
    let inst = (opcode * 0x100_0000 + rest) as u32;
    assert(inst / 0x100_0000 == opcode);
    assert(inst / 0x400_0000 == opcode / 4);
}

/// The instruction `adr` with a distance that fits in its field, into any register, forms the
/// address at that distance and no other.
pub proof fn law_adr_forms_its_address(
    pc: u64,
    distance: int,
    register: int,
    next: u32,
    target: u64,
)
    requires
        -0x10_0000 <= distance < 0x10_0000,
        0 <= register < 32,
    ensures
        ({
            let field = distance % 0x20_0000;
            let inst = (field % 4 * 0x2000_0000 + 0x1000_0000 + field / 4 * 0x20 + register) as u32;
            forms_address(inst, next, pc, target) <==> target == wrap64(pc + distance)
        }),
{
    let field = distance % 0x20_0000;
    let (low, high) = (field % 4, field / 4);
    let inst = (low * 0x2000_0000 + 0x1000_0000 + high * 0x20 + register) as u32;
    lemma_adr_fields(low, 0, high, register);
    assert(high * 4 + low == field);
}

proof fn lemma_adr_fields(low: int, page: int, high: int, register: int)
    requires
        0 <= low < 4,
        0 <= page < 2,
        0 <= high < 0x8_0000,
        0 <= register < 32,
    ensures
        ({
            let inst = (page * 0x8000_0000 + low * 0x2000_0000 + 0x1000_0000 + high * 0x20
                + register) as u32;
            &&& inst as int == page * 0x8000_0000 + low * 0x2000_0000 + 0x1000_0000 + high * 0x20
                + register
            &&& inst / 0x8000_0000 == page
            &&& (inst / 0x100_0000) % 32 == 16
            &&& (inst / 0x20) % 0x8_0000 == high
            &&& (inst / 0x2000_0000) % 4 == low
        }),
{
    let inst = (page * 0x8000_0000 + low * 0x2000_0000 + 0x1000_0000 + high * 0x20
        + register) as u32;
    let rest = high * 0x20 + register;
    assert(0 <= rest < 0x100_0000);
    assert(inst / 0x100_0000 == page * 0x80 + low * 0x20 + 0x10);
    assert(inst / 0x2000_0000 == page * 4 + low);
    assert(inst / 0x20 == page * 0x400_0000 + low * 0x100_0000 + 0x80_0000 + high);
}

/// The instruction `adrp` with a distance in pages that fits in its field, and behind it an
/// `add` of an offset below 4096, form the address with that offset in that page and no
/// other. Without the `add` they form none.
pub proof fn law_adrp_and_add_form_their_address(
    pc: u64,
    pages: int,
    register: int,
    offset: int,
    registers: int,
    target: u64,
    other: u32,
)
    requires
        -0x10_0000 <= pages < 0x10_0000,
        0 <= register < 32,
        0 <= offset < 0x1000,
        0 <= registers < 0x400,
        !(0x9100_0000 <= other < 0x9140_0000),
    ensures
        ({
            let field = pages % 0x20_0000;
            let inst = (0x8000_0000 + field % 4 * 0x2000_0000 + 0x1000_0000 + field / 4 * 0x20
                + register) as u32;
            let next = (0x9100_0000 + offset * 0x400 + registers) as u32;
            &&& forms_address(inst, next, pc, target) <==> target == wrap64(
                pc - pc as int % 0x1000 + 0x1000 * pages,
            ) + offset
            &&& !forms_address(inst, other, pc, target)
        }),
{
    let field = pages % 0x20_0000;
    let (low, high) = (field % 4, field / 4);
    let inst = (0x8000_0000 + low * 0x2000_0000 + 0x1000_0000 + high * 0x20 + register) as u32;
    let next = (0x9100_0000 + offset * 0x400 + registers) as u32;
    lemma_adr_fields(low, 1, high, register);
    assert(high * 4 + low == field);
    assert(next / 0x40_0000 == 0x244);
    assert(next / 0x400 == 0x24_4000 + offset);
    assert((next / 0x400) as int % 0x1000 == offset);
    assert(other / 0x40_0000 != 0x244);
}

/// Instructions other than `adr` and `adrp` form no address.
pub proof fn law_other_instructions_form_no_address(
    opcode: int,
    rest: int,
    next: u32,
    pc: u64,
    target: u64,
)
    requires
        0 <= opcode < 0x100,
        opcode % 32 != 16,
        0 <= rest < 0x100_0000,
    ensures
        !forms_address((opcode * 0x100_0000 + rest) as u32, next, pc, target),
{
    let inst = (opcode * 0x100_0000 + rest) as u32;
    assert(inst / 0x100_0000 == opcode);
}

/// A function can start with `sub sp, sp, #imm` for a frame of 32 to 1024 bytes, and with
/// `stp x29, x30, [sp, #imm]!`.
pub proof fn law_functions_start_with_a_frame(frame: int, pairs: int)
    requires
        0 <= frame < 0x1000,
        0 <= pairs < 0x80,
    ensures
        is_prologue((0xd100_0000 + frame * 0x400 + 0x3ff) as u32) <==> 0x20 <= frame <= 0x400,
        is_prologue((0xa980_0000 + pairs * 0x8000 + 0x7bfd) as u32),
{
    let sub = (0xd100_0000 + frame * 0x400 + 0x3ff) as u32;
    assert(sub / 0x40_0000 == 0x344);
    assert(sub % 0x400 == 0x3ff);
    assert((sub / 0x400) as int % 0x1000 == frame);
    let stp = (0xa980_0000 + pairs * 0x8000 + 0x7bfd) as u32;
    assert(stp / 0x40_0000 == 0x2a6);
    assert(stp % 0x8000 == 0x7bfd);
}

/// A function can start with no other instruction.
pub proof fn law_other_instructions_start_no_function(inst: u32)
    requires
        !(0xd100_0000 <= inst < 0xd140_0000 && inst % 0x400 == 0x3ff),
        !(0xa980_0000 <= inst < 0xa9c0_0000 && inst % 0x8000 == 0x7bfd),
    ensures
        !is_prologue(inst),
{
}

/// The sixth parameter is tested by `tbz` and `tbnz` on a bit of register 5, and by no test
/// of another register or of a bit beyond the 32nd.
pub proof fn law_tests_of_the_sixth_parameter(
    nonzero: int,
    bit: int,
    distance: int,
    register: int,
)
    requires
        0 <= nonzero < 2,
        0 <= bit < 64,
        0 <= distance < 0x4000,
        0 <= register < 32,
    ensures
        is_w5_test(
            (bit / 32 * 0x8000_0000 + 0x3600_0000 + nonzero * 0x100_0000 + bit % 32 * 0x8_0000
                + distance * 0x20 + register) as u32,
        ) <==> register == 5 && bit < 32,
{
    let inst = (bit / 32 * 0x8000_0000 + 0x3600_0000 + nonzero * 0x100_0000 + bit % 32 * 0x8_0000
        + distance * 0x20 + register) as u32;
    assert(inst / 0x100_0000 == bit / 32 * 0x80 + 0x36 + nonzero);
    assert(inst % 32 == register);
    assert(inst / 0x8000_0000 == bit / 32);
}

/// The loads of a word and of a byte are told apart, with their registers.
pub proof fn law_loads_are_read(offset: int, base: int, target: int)
    requires
        0 <= offset < 0x1000,
        0 <= base < 32,
        0 <= target < 32,
    ensures
        ({
            let word = (0xb940_0000 + offset * 0x400 + base * 0x20 + target) as u32;
            let byte = (0x3940_0000 + offset * 0x400 + base * 0x20 + target) as u32;
            &&& is_ldr_w(word) && !is_ldrb(word)
            &&& is_ldrb(byte) && !is_ldr_w(byte)
            &&& base_register(word) == base && target_register(word) == target
            &&& base_register(byte) == base && target_register(byte) == target
        }),
{
    let word = (0xb940_0000 + offset * 0x400 + base * 0x20 + target) as u32;
    let byte = (0x3940_0000 + offset * 0x400 + base * 0x20 + target) as u32;
    assert(word / 0x40_0000 == 0x2e5);
    assert(byte / 0x40_0000 == 0xe5);
    assert(word / 0x20 == 0x5ca_0000 + offset * 0x20 + base);
    assert(byte / 0x20 == 0x1ca_0000 + offset * 0x20 + base);
}

} // verus!
