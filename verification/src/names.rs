//! The names of the files of a dump.
use crate::fix::{base_of, is_base, is_base_at, is_hex_run, law_base_is_read_back};
use crate::hexcode::is_hex_digit;
use crate::text::{
    dec_text, digit_char, hex_text, law_numbers_are_read_back, push_dec, push_hex,
};
use vstd::prelude::*;
use vstd::string::StringExecFns;

verus! {

/// The common part of the names of the files of one DEX file.
pub open spec fn dump_base(begin: u64, size: u32) -> Seq<char> {
    "dex_"@ + hex_text(begin as nat) + "_"@ + hex_text(size as nat)
}

/// The name of a native image's file.
pub open spec fn elf_name(pid: u32, base: u64, size: u64) -> Seq<char> {
    "elf_pid"@ + dec_text(pid as nat) + "_"@ + hex_text(base as nat) + "_"@ + hex_text(size as nat)
        + ".so"@
}

fn base_name(begin: u64, size: u32) -> (r: String)
    ensures
        r@ == dump_base(begin, size),
{
    let mut r: String = "dex_".to_owned();
    push_hex(&mut r, begin);
    r.append("_");
    push_hex(&mut r, size as u64);
    r
}

/// The name of a dumped DEX file.
pub fn dex_file_name(begin: u64, size: u32) -> (r: String)
    ensures
        r@ == dump_base(begin, size) + ".dex"@,
{
    let mut r: String = base_name(begin, size);
    r.append(".dex");
    r
}

/// The name of the file with the recorded methods of a DEX file.
pub fn code_file_name(begin: u64, size: u32) -> (r: String)
    ensures
        r@ == dump_base(begin, size) + "_code.json"@,
{
    let mut r: String = base_name(begin, size);
    r.append("_code.json");
    r
}

/// The name of a native image's file.
pub fn elf_file_name(pid: u32, base: u64, size: u64) -> (r: String)
    ensures
        r@ == elf_name(pid, base, size),
{
    let mut r: String = "elf_pid".to_owned();
    push_dec(&mut r, pid as u64);
    r.append("_");
    push_hex(&mut r, base);
    r.append("_");
    push_hex(&mut r, size);
    r.append(".so");
    r
}

/// A number in base 16 is a run of hexadecimal digits.
proof fn lemma_hex_text_is_hex(n: nat)
    ensures
        is_hex_run(hex_text(n)),
    decreases n,
{
    if n >= 16 {
        lemma_hex_text_is_hex(n / 16);
        let (head, d) = (hex_text(n / 16), digit_char((n % 16) as int));
        assert forall|i: int| 0 <= i < hex_text(n).len() implies is_hex_digit(hex_text(n)[i]) by {
            if i < head.len() {
                assert(is_hex_digit(head[i]));
            } else {
                assert(hex_text(n)[i] == d);
            }
        }
    }
}

/// The dumped file and the file with its recorded methods lead back to the same base, so
/// that one is fixed with the other.
pub proof fn law_dump_files_belong_together(begin: u64, size: u32)
    ensures
        is_base(dump_base(begin, size)),
        base_of(dump_base(begin, size) + ".dex"@, ".dex"@) == Some(dump_base(begin, size)),
        base_of(dump_base(begin, size) + "_code.json"@, "_code.json"@) == Some(
            dump_base(begin, size),
        ),
{
    reveal_strlit("dex_");
    reveal_strlit("_");
    let (b, s) = (hex_text(begin as nat), hex_text(size as nat));
    lemma_hex_text_is_hex(begin as nat);
    lemma_hex_text_is_hex(size as nat);
    let base = dump_base(begin, size);
    let at = (4 + b.len()) as int;
    assert(base.take(4) =~= "dex_"@);
    assert(base.subrange(4, at) =~= b);
    assert(base[at] == '_');
    assert(base.skip(at + 1) =~= s);
    assert(is_base_at(base, at));
    law_base_is_read_back(base, ".dex"@);
    law_base_is_read_back(base, "_code.json"@);
}

/// Files of different addresses or sizes have different names.
pub proof fn law_names_tell_files_apart(begin: u64, size: u32, other_begin: u64, other_size: u32)
    requires
        dump_base(begin, size) == dump_base(other_begin, other_size),
    ensures
        begin == other_begin,
        size == other_size,
{
    reveal_strlit("dex_");
    reveal_strlit("_");
    let (a, b) = (hex_text(begin as nat), hex_text(size as nat));
    let (c, d) = (hex_text(other_begin as nat), hex_text(other_size as nat));
    let (s, t) = (dump_base(begin, size), dump_base(other_begin, other_size));
    lemma_hex_text_is_hex(begin as nat);
    lemma_hex_text_is_hex(size as nat);
    lemma_hex_text_is_hex(other_begin as nat);
    lemma_hex_text_is_hex(other_size as nat);
    assert(s[4 + a.len() as int] == '_');
    assert(t[4 + c.len() as int] == '_');
    if a.len() < c.len() {
        assert(t[4 + a.len() as int] == c[a.len() as int]);
        assert(is_hex_digit(c[a.len() as int]));
    } else if a.len() > c.len() {
        assert(s[4 + c.len() as int] == a[c.len() as int]);
        assert(is_hex_digit(a[c.len() as int]));
    }
    assert(s.subrange(4, 4 + a.len() as int) =~= a);
    assert(t.subrange(4, 4 + c.len() as int) =~= c);
    assert(s.skip(5 + a.len() as int) =~= b);
    assert(t.skip(5 + c.len() as int) =~= d);
    law_numbers_are_read_back(begin as nat, u64::MAX as int);
    law_numbers_are_read_back(other_begin as nat, u64::MAX as int);
    law_numbers_are_read_back(size as nat, u64::MAX as int);
    law_numbers_are_read_back(other_size as nat, u64::MAX as int);
}

} // verus!
