//! The values of command line options.
use crate::art::ArtRuntimeLayout;
use crate::platform::{plain_name, sanitize_path_component};
use crate::text::{
    chars_of, dec_text, fields, fields_of, has_prefix, hex_text, is_white_space,
    law_fields_are_parted_by_separators, law_numbers_are_read_back,
    law_white_space_at_the_ends_is_removed, lemma_dec_digits, number_of, parse_number, push_dec,
    string_of, strip_prefix, texts, trim, trim_of, NumError,
};
use vstd::prelude::*;
use vstd::string::StringExecFns;

verus! {

/// Why a value is not accepted.
#[derive(Clone, Debug, PartialEq, Eq)]
pub enum ValueError {
    /// It is no number.
    Number(NumError),
    /// It does not fit in 32 bits.
    TooLarge { value: String },
    /// A layout has another number of offsets.
    OffsetCount { got: usize },
}

/// Why a value is not accepted.
pub enum ValueErrorText {
    Number(NumError),
    TooLarge { value: Seq<char> },
    OffsetCount { got: int },
}

impl View for ValueError {
    type V = ValueErrorText;

    open spec fn view(&self) -> ValueErrorText {
        match self {
            ValueError::Number(e) => ValueErrorText::Number(*e),
            ValueError::TooLarge { value } => ValueErrorText::TooLarge { value: value@ },
            ValueError::OffsetCount { got } => ValueErrorText::OffsetCount { got: *got as int },
        }
    }
}

impl ValueErrorText {
    /// What the error says.
    pub open spec fn text(self) -> Seq<char> {
        match self {
            ValueErrorText::Number(e) => e.text(),
            ValueErrorText::TooLarge { value } => value + " is larger than u32"@,
            ValueErrorText::OffsetCount { got } => "expected 10 comma-separated offsets, got "@
                + dec_text(got as nat),
        }
    }
}

impl ValueError {
    /// The message of the error.
    pub fn message(&self) -> (r: String)
        ensures
            r@ == self@.text(),
    {
        match self {
            ValueError::Number(e) => e.message().to_owned(),
            ValueError::TooLarge { value } => {
                let mut r: String = value.as_str().to_owned();
                r.append(" is larger than u32");
                r
            },
            ValueError::OffsetCount { got } => {
                let mut r: String = "expected 10 comma-separated offsets, got ".to_owned();
                push_dec(&mut r, *got as u64);
                r
            },
        }
    }
}

/// A 64-bit number, in base 16 behind `0x` or `0X`, in base 10 otherwise.
pub open spec fn u64_of(s: Seq<char>) -> Result<int, NumError> {
    if has_prefix(s, "0x"@) {
        number_of(s.skip("0x"@.len() as int), 16, u64::MAX as int)
    } else if has_prefix(s, "0X"@) {
        number_of(s.skip("0X"@.len() as int), 16, u64::MAX as int)
    } else {
        number_of(s, 10, u64::MAX as int)
    }
}

/// A 32-bit number in the same notation.
pub open spec fn u32_of(s: Seq<char>) -> Result<u32, ValueErrorText> {
    match u64_of(s) {
        Err(e) => Err(ValueErrorText::Number(e)),
        Ok(v) => if v > u32::MAX {
            Err(ValueErrorText::TooLarge { value: s })
        } else {
            Ok(v as u32)
        },
    }
}

fn number(s: &[char]) -> (r: Result<u64, NumError>)
    ensures
        match r {
            Ok(v) => u64_of(s@) == Ok::<int, NumError>(v as int),
            Err(e) => u64_of(s@) == Err::<int, NumError>(e),
        },
{
    if let Some(hex) = strip_prefix(s, chars_of("0x").as_slice()) {
        return parse_number(hex.as_slice(), 16, u64::MAX);
    }
    if let Some(hex) = strip_prefix(s, chars_of("0X").as_slice()) {
        return parse_number(hex.as_slice(), 16, u64::MAX);
    }
    parse_number(s, 10, u64::MAX)
}

fn small_number(s: &[char]) -> (r: Result<u32, ValueError>)
    ensures
        match r {
            Ok(v) => u32_of(s@) == Ok::<u32, ValueErrorText>(v),
            Err(e) => u32_of(s@) == Err::<u32, ValueErrorText>(e@),
        },
{
    match number(s) {
        Err(e) => Err(ValueError::Number(e)),
        Ok(v) => if v > u32::MAX as u64 {
            Err(ValueError::TooLarge { value: string_of(s) })
        } else {
            Ok(v as u32)
        },
    }
}

/// Reads a 64-bit number, decimal or hexadecimal behind `0x`.
pub fn parse_u64(s: &str) -> (r: Result<u64, ValueError>)
    ensures
        match r {
            Ok(v) => u64_of(s@) == Ok::<int, NumError>(v as int),
            Err(e) => u64_of(s@) matches Err(n) && e == ValueError::Number(n),
        },
{
    match number(chars_of(s).as_slice()) {
        Ok(v) => Ok(v),
        Err(e) => Err(ValueError::Number(e)),
    }
}

/// Reads a 32-bit number, decimal or hexadecimal behind `0x`.
pub fn parse_u32(s: &str) -> (r: Result<u32, ValueError>)
    ensures
        match r {
            Ok(v) => u32_of(s@) == Ok::<u32, ValueErrorText>(v),
            Err(e) => u32_of(s@) == Err::<u32, ValueErrorText>(e@),
        },
{
    small_number(chars_of(s).as_slice())
}

/// The numbers of the first `n` fields, without the white space around them. The first
/// field that is no number decides the error.
pub open spec fn offsets_of(parts: Seq<Seq<char>>, n: nat) -> Result<Seq<u32>, ValueErrorText>
    decreases n,
{
    if n == 0 {
        Ok(seq![])
    } else {
        match offsets_of(parts, (n - 1) as nat) {
            Err(e) => Err(e),
            Ok(before) => match u32_of(trim_of(parts[n - 1])) {
                Err(e) => Err(e),
                Ok(v) => Ok(before.push(v)),
            },
        }
    }
}

/// The layout that ten offsets state, in the order of its fields.
pub open spec fn layout_from(v: Seq<u32>) -> ArtRuntimeLayout {
    ArtRuntimeLayout {
        shadow_frame_method_offset: v[0],
        art_method_declaring_class_offset: v[1],
        art_method_dex_method_index_offset: v[2],
        art_method_data_offset: v[3],
        class_dex_cache_offset: v[4],
        dex_cache_dex_file_offset: v[5],
        dex_file_begin_offset: v[6],
        dex_header_file_size_offset: v[7],
        code_item_insns_size_offset: v[8],
        code_item_insns_offset: v[9],
    }
}

/// The layout that a comma-separated list of ten offsets states.
pub open spec fn layout_of(s: Seq<char>) -> Result<ArtRuntimeLayout, ValueErrorText> {
    let parts = fields_of(s, ',');
    match offsets_of(parts, parts.len()) {
        Err(e) => Err(e),
        Ok(v) => if v.len() != 10 {
            Err(ValueErrorText::OffsetCount { got: v.len() as int })
        } else {
            Ok(layout_from(v))
        },
    }
}

proof fn lemma_offsets_error(parts: Seq<Seq<char>>, n: nat, m: nat)
    requires
        n <= m,
        offsets_of(parts, n) is Err,
    ensures
        offsets_of(parts, m) == offsets_of(parts, n),
    decreases m,
{
    if n < m {
        lemma_offsets_error(parts, n, (m - 1) as nat);
    }
}

/// Reads a layout from ten comma-separated offsets.
pub fn parse_art_layout(s: &str) -> (r: Result<ArtRuntimeLayout, ValueError>)
    ensures
        match r {
            Ok(v) => layout_of(s@) == Ok::<ArtRuntimeLayout, ValueErrorText>(v),
            Err(e) => layout_of(s@) == Err::<ArtRuntimeLayout, ValueErrorText>(e@),
        },
{
    let parts = fields(chars_of(s).as_slice(), ',');
    let ghost spec_parts = fields_of(s@, ',');
    let mut v: Vec<u32> = Vec::new();
    assert(parts@.len() == spec_parts.len());
    for i in 0..parts.len()
        invariant
            texts(parts@) == spec_parts,
            parts@.len() == spec_parts.len(),
            spec_parts == fields_of(s@, ','),
            v@.len() == i,
            offsets_of(spec_parts, i as nat) == Ok::<Seq<u32>, ValueErrorText>(v@),
    {
        assert(parts@[i as int]@ == texts(parts@)[i as int]);
        match small_number(trim(parts[i].as_slice()).as_slice()) {
            Ok(n) => v.push(n),
            Err(e) => {
                proof {
                    lemma_offsets_error(spec_parts, (i + 1) as nat, spec_parts.len());
                }
                return Err(e);
            },
        }
    }
    if v.len() != 10 {
        return Err(ValueError::OffsetCount { got: v.len() });
    }
    Ok(
        ArtRuntimeLayout {
            shadow_frame_method_offset: v[0],
            art_method_declaring_class_offset: v[1],
            art_method_dex_method_index_offset: v[2],
            art_method_data_offset: v[3],
            class_dex_cache_offset: v[4],
            dex_cache_dex_file_offset: v[5],
            dex_file_begin_offset: v[6],
            dex_header_file_size_offset: v[7],
            code_item_insns_size_offset: v[8],
            code_item_insns_offset: v[9],
        },
    )
}

/// Where the user id of a dump comes from.
#[derive(Clone, Copy, Debug, PartialEq, Eq, Structural)]
pub enum UidChoice {
    /// It was given.
    Given(u32),
    /// It is that of the named package.
    FromName,
    /// Neither was given.
    Missing,
}

/// Decides where the user id comes from. One that is given wins, unless it is zero.
pub fn choose_uid(uid: Option<u32>, has_name: bool) -> (r: UidChoice)
    ensures
        r == (match uid {
            Some(uid) if uid != 0 => UidChoice::Given(uid),
            _ => if has_name {
                UidChoice::FromName
            } else {
                UidChoice::Missing
            },
        }),
{
    match uid {
        Some(uid) if uid != 0 => UidChoice::Given(uid),
        _ => if has_name {
            UidChoice::FromName
        } else {
            UidChoice::Missing
        },
    }
}

/// The name of the directory that a dump goes to: the package's name, that of the process,
/// or else the id of the process or of the user. A name is made fit for a directory.
pub open spec fn subdir_of(
    package: Option<Seq<char>>,
    pid: Option<u32>,
    process: Option<Seq<char>>,
    uid: u32,
) -> Seq<char> {
    match (package, pid, process) {
        (Some(name), _, _) => plain_name(name),
        (None, Some(_), Some(name)) => plain_name(name),
        (None, Some(pid), None) => "pid_"@ + dec_text(pid as nat),
        (None, None, _) => "uid_"@ + dec_text(uid as nat),
    }
}

/// The view of an optional text.
pub open spec fn optional_text(s: Option<String>) -> Option<Seq<char>> {
    match s {
        Some(s) => Some(s@),
        None => None,
    }
}

/// Names the directory that a dump goes to.
pub fn output_subdir(package: Option<String>, pid: Option<u32>, process: Option<String>, uid: u32) -> (r:
    String)
    ensures
        r@ == subdir_of(optional_text(package), pid, optional_text(process), uid),
{
    if let Some(name) = package {
        return sanitize_path_component(name.as_str());
    }
    match pid {
        Some(pid) => match process {
            Some(name) => sanitize_path_component(name.as_str()),
            None => {
                let mut r: String = "pid_".to_owned();
                push_dec(&mut r, pid as u64);
                r
            },
        },
        None => {
            let mut r: String = "uid_".to_owned();
            push_dec(&mut r, uid as u64);
            r
        },
    }
}

// ---------------------------------------------------------------------------
// Laws
// ---------------------------------------------------------------------------

/// A number is read back from its text in base 10, and in base 16 behind `0x` or `0X`. One
/// that does not fit in 32 bits is refused where 32 bits are asked for.
pub proof fn law_options_are_numbers(n: u64)
    ensures
        u64_of(dec_text(n as nat)) == Ok::<int, NumError>(n as int),
        u64_of("0x"@ + hex_text(n as nat)) == Ok::<int, NumError>(n as int),
        u64_of("0X"@ + hex_text(n as nat)) == Ok::<int, NumError>(n as int),
        n <= u32::MAX ==> u32_of(dec_text(n as nat)) == Ok::<u32, ValueErrorText>(n as u32)
            && u32_of("0x"@ + hex_text(n as nat)) == Ok::<u32, ValueErrorText>(n as u32),
        n > u32::MAX ==> u32_of(dec_text(n as nat)) == Err::<u32, ValueErrorText>(
            ValueErrorText::TooLarge { value: dec_text(n as nat) },
        ),
{
    reveal_strlit("0x");
    reveal_strlit("0X");
    let (dec, hex) = (dec_text(n as nat), hex_text(n as nat));
    law_numbers_are_read_back(n as nat, u64::MAX as int);
    lemma_dec_digits(n as nat);
    assert(!has_prefix(dec, "0x"@)) by {
        if has_prefix(dec, "0x"@) {
            assert(dec.take(2)[1] == dec[1]);
        }
    }
    assert(!has_prefix(dec, "0X"@)) by {
        if has_prefix(dec, "0X"@) {
            assert(dec.take(2)[1] == dec[1]);
        }
    }
    let (low, high) = ("0x"@ + hex, "0X"@ + hex);
    assert(low.take(2) =~= "0x"@);
    assert(low.skip(2) =~= hex);
    assert(high.take(2) =~= "0X"@);
    assert(high.skip(2) =~= hex);
    assert(high.take(2)[1] == 'X');
}

/// The numbers in base 10 with commas between them.
pub open spec fn list_text(v: Seq<u32>) -> Seq<char>
    decreases v.len(),
{
    if v.len() == 0 {
        seq![]
    } else if v.len() == 1 {
        dec_text(v[0] as nat)
    } else {
        dec_text(v[0] as nat).push(',') + list_text(v.drop_first())
    }
}

proof fn lemma_list_fields(v: Seq<u32>)
    requires
        v.len() > 0,
    ensures
        fields_of(list_text(v), ',') == v.map_values(|x: u32| dec_text(x as nat)),
    decreases v.len(),
{
    let first = dec_text(v[0] as nat);
    lemma_dec_digits(v[0] as nat);
    assert(!first.contains(','));
    let all = v.map_values(|x: u32| dec_text(x as nat));
    if v.len() == 1 {
        law_fields_are_parted_by_separators(first, ',', Seq::empty());
        assert(all =~= seq![first]);
    } else {
        let rest = v.drop_first();
        lemma_list_fields(rest);
        law_fields_are_parted_by_separators(first, ',', list_text(rest));
        assert(all =~= seq![first] + rest.map_values(|x: u32| dec_text(x as nat)));
    }
}

proof fn lemma_list_offsets(v: Seq<u32>, n: nat)
    requires
        n <= v.len(),
    ensures
        offsets_of(v.map_values(|x: u32| dec_text(x as nat)), n) == Ok::<Seq<u32>, ValueErrorText>(
            v.take(n as int),
        ),
    decreases n,
{
    let parts = v.map_values(|x: u32| dec_text(x as nat));
    if n > 0 {
        lemma_list_offsets(v, (n - 1) as nat);
        let text = dec_text(v[n - 1] as nat);
        law_numbers_are_read_back(v[n - 1] as nat, u64::MAX as int);
        assert(!is_white_space(text[0]) && !is_white_space(text[text.len() - 1]));
        law_white_space_at_the_ends_is_removed(Seq::empty(), text, Seq::empty());
        assert(Seq::<char>::empty() + text + Seq::<char>::empty() =~= text);
        law_options_are_numbers(v[n - 1] as u64);
        assert(parts[n - 1] == text);
        assert(v.take(n as int) =~= v.take(n - 1).push(v[n - 1]));
    } else {
        assert(v.take(0) =~= Seq::<u32>::empty());
    }
}

/// Ten numbers with commas between them state a layout, in the order of its fields. Any other
/// number of them is refused.
pub proof fn law_layouts_have_ten_offsets(v: Seq<u32>)
    requires
        v.len() > 0,
    ensures
        v.len() == 10 ==> layout_of(list_text(v)) == Ok::<ArtRuntimeLayout, ValueErrorText>(
            ArtRuntimeLayout {
                shadow_frame_method_offset: v[0],
                art_method_declaring_class_offset: v[1],
                art_method_dex_method_index_offset: v[2],
                art_method_data_offset: v[3],
                class_dex_cache_offset: v[4],
                dex_cache_dex_file_offset: v[5],
                dex_file_begin_offset: v[6],
                dex_header_file_size_offset: v[7],
                code_item_insns_size_offset: v[8],
                code_item_insns_offset: v[9],
            },
        ),
        v.len() != 10 ==> layout_of(list_text(v)) == Err::<ArtRuntimeLayout, ValueErrorText>(
            ValueErrorText::OffsetCount { got: v.len() as int },
        ),
{
    lemma_list_fields(v);
    lemma_list_offsets(v, v.len());
    assert(v.take(v.len() as int) =~= v);
}

/// The directory of a dump is named after the package where one is given, else after the process
/// where there is one and its name is known, else after its number, else after the user.
pub proof fn law_names_of_output_directories(
    package: Option<Seq<char>>,
    pid: Option<u32>,
    process: Option<Seq<char>>,
    uid: u32,
)
    ensures
        package matches Some(name) ==> subdir_of(package, pid, process, uid) == plain_name(name),
        package is None && pid is Some ==> (process matches Some(name) ==> subdir_of(
            package,
            pid,
            process,
            uid,
        ) == plain_name(name)),
        package is None && process is None ==> (pid matches Some(number) ==> subdir_of(
            package,
            pid,
            process,
            uid,
        ) == "pid_"@ + dec_text(number as nat)),
        package is None && pid is None ==> subdir_of(package, pid, process, uid) == "uid_"@
            + dec_text(uid as nat),
{
}

} // verus!
