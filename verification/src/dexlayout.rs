//! How the parts of a DEX file are written, and that they are read back.
use crate::art::android_13_plus;
use crate::bytes::{
    holds_at, le16_at, le16_bytes, le32_at, le32_bytes, lemma_holds_both, lemma_le16_held,
    lemma_le32_held,
};
use crate::dex::{
    descriptor_at, header_of, is_header_of, law_one_header, law_string_data_read_back,
    law_uleb_round_trip, method_at, parameters_at, proto_at, string_at, string_data_at, type_list_at,
    uleb_at,    uleb_bytes, DexError, DexHeader, MethodText, ProtoText,
};
use crate::fix::{
    class_counts, code_item_bytes, code_offsets, is_code_item, lemma_code_item_held, past_fields,
    with_class_data, with_classes, with_methods, CodeItem, FixError,
};
use crate::mutf8::encode;
use vstd::prelude::*;

verus! {

proof fn lemma_uleb_held(data: Seq<u8>, at: int, v: u32)
    requires
        holds_at(data, at, uleb_bytes(v as nat)),
    ensures
        uleb_at(data, at) == Ok::<(u32, int), DexError>((v, at + uleb_bytes(v as nat).len())),
{
    let b = uleb_bytes(v as nat);
    let (before, after) = (data.take(at), data.skip(at + b.len()));
    law_uleb_round_trip(v, before, after);
    assert(before + b + after =~= data);
}

// ---------------------------------------------------------------------------
// The header
// ---------------------------------------------------------------------------

/// The bytes of some numbers, one behind the other.
pub open spec fn numbers_bytes(numbers: Seq<u32>) -> Seq<u8>
    decreases numbers.len(),
{
    if numbers.len() == 0 {
        seq![]
    } else {
        numbers_bytes(numbers.drop_last()) + le32_bytes(numbers.last())
    }
}

proof fn lemma_numbers_held(data: Seq<u8>, at: int, numbers: Seq<u32>)
    requires
        holds_at(data, at, numbers_bytes(numbers)),
    ensures
        numbers_bytes(numbers).len() == 4 * numbers.len(),
        forall|i: int| 0 <= i < numbers.len() ==> le32_at(data, at + 4 * i) == #[trigger] numbers[i],
    decreases numbers.len(),
{
    if numbers.len() > 0 {
        let rest = numbers.drop_last();
        lemma_holds_both(data, at, numbers_bytes(rest), le32_bytes(numbers.last()));
        lemma_numbers_held(data, at, rest);
        lemma_le32_held(data, at + 4 * rest.len(), numbers.last());
        assert forall|i: int| 0 <= i < numbers.len() implies le32_at(data, at + 4 * i)
            == #[trigger] numbers[i] by {
            if i < rest.len() {
                assert(rest[i] == numbers[i]);
            }
        }
    }
}

/// The numbers of a header behind its signature, in their order.
pub open spec fn header_numbers(h: DexHeader) -> Seq<u32> {
    seq![
        h.file_size,
        h.header_size,
        h.endian_tag,
        h.link_size,
        h.link_off,
        h.map_off,
        h.string_ids_size,
        h.string_ids_off,
        h.type_ids_size,
        h.type_ids_off,
        h.proto_ids_size,
        h.proto_ids_off,
        h.field_ids_size,
        h.field_ids_off,
        h.method_ids_size,
        h.method_ids_off,
        h.class_defs_size,
        h.class_defs_off,
        h.data_size,
        h.data_off,
    ]
}

/// The bytes of a header: the magic number, the checksum, the signature and the numbers.
pub open spec fn header_bytes(h: DexHeader) -> Seq<u8> {
    h.magic@ + (le32_bytes(h.checksum) + (h.signature@ + numbers_bytes(header_numbers(h))))
}

/// A header is read back from a file that starts with it.
#[verifier::rlimit(40)]
pub proof fn law_header_is_read_back(h: DexHeader, rest: Seq<u8>)
    ensures
        header_of(header_bytes(h) + rest) == h,
        header_bytes(h).len() == 0x70,
{
    let data = header_bytes(h) + rest;
    let numbers = header_numbers(h);
    let tail = h.signature@ + numbers_bytes(numbers);
    assert(data.subrange(0, header_bytes(h).len() as int) =~= header_bytes(h));
    lemma_holds_both(data, 0, h.magic@, le32_bytes(h.checksum) + tail);
    lemma_holds_both(data, 8, le32_bytes(h.checksum), tail);
    lemma_le32_held(data, 8, h.checksum);
    lemma_holds_both(data, 12, h.signature@, numbers_bytes(numbers));
    lemma_numbers_held(data, 32, numbers);
    assert(numbers.len() == 20);
    assert(numbers[0] == h.file_size && numbers[1] == h.header_size && numbers[2] == h.endian_tag);
    assert(numbers[3] == h.link_size && numbers[4] == h.link_off && numbers[5] == h.map_off);
    assert(numbers[6] == h.string_ids_size && numbers[7] == h.string_ids_off);
    assert(numbers[8] == h.type_ids_size && numbers[9] == h.type_ids_off);
    assert(numbers[10] == h.proto_ids_size && numbers[11] == h.proto_ids_off);
    assert(numbers[12] == h.field_ids_size && numbers[13] == h.field_ids_off);
    assert(numbers[14] == h.method_ids_size && numbers[15] == h.method_ids_off);
    assert(numbers[16] == h.class_defs_size && numbers[17] == h.class_defs_off);
    assert(numbers[18] == h.data_size && numbers[19] == h.data_off);
    assert(is_header_of(h, data));
    law_one_header(h, header_of(data), data);
}

/// The fields of a header by which a file is recognised stand in their places.
#[verifier::rlimit(40)]
pub proof fn lemma_header_fields(h: DexHeader, rest: Seq<u8>)
    ensures
        ({
            let data = header_bytes(h) + rest;
            &&& data.len() >= 0x70
            &&& data.subrange(0, 8) == h.magic@
            &&& le32_at(data, 0x20) == h.file_size
            &&& le32_at(data, 0x24) == h.header_size
            &&& le32_at(data, 0x28) == h.endian_tag
            &&& le32_at(data, 0x34) == h.map_off
        }),
{
    let data = header_bytes(h) + rest;
    let numbers = header_numbers(h);
    let tail = h.signature@ + numbers_bytes(numbers);
    assert(data.subrange(0, header_bytes(h).len() as int) =~= header_bytes(h));
    lemma_holds_both(data, 0, h.magic@, le32_bytes(h.checksum) + tail);
    lemma_holds_both(data, 8, le32_bytes(h.checksum), tail);
    lemma_holds_both(data, 12, h.signature@, numbers_bytes(numbers));
    lemma_numbers_held(data, 32, numbers);
    assert(numbers[0] == h.file_size && numbers[1] == h.header_size && numbers[2] == h.endian_tag);
    assert(numbers[5] == h.map_off);
}

// ---------------------------------------------------------------------------
// Identifier tables
// ---------------------------------------------------------------------------

/// The bytes of some entries, one behind the other.
pub open spec fn flat(entries: Seq<Seq<u8>>) -> Seq<u8>
    decreases entries.len(),
{
    if entries.len() == 0 {
        seq![]
    } else {
        flat(entries.drop_last()) + entries.last()
    }
}

/// An entry of a table stands behind those before it.
proof fn lemma_entry_held(data: Seq<u8>, at: int, entries: Seq<Seq<u8>>, size: int, i: int)
    requires
        holds_at(data, at, flat(entries)),
        forall|j: int| 0 <= j < entries.len() ==> (#[trigger] entries[j]).len() == size,
        0 <= i < entries.len(),
    ensures
        holds_at(data, at + size * i, entries[i]),
    decreases entries.len(),
{
    let rest = entries.drop_last();
    lemma_flat_len(rest, size);
    lemma_holds_both(data, at, flat(rest), entries.last());
    if i < rest.len() {
        lemma_entry_held(data, at, rest, size, i);
    } else {
        assert(rest.len() * size == size * i) by (nonlinear_arith)
            requires
                rest.len() == i,
        ;
    }
}

proof fn lemma_flat_len(entries: Seq<Seq<u8>>, size: int)
    requires
        forall|j: int| 0 <= j < entries.len() ==> (#[trigger] entries[j]).len() == size,
    ensures
        flat(entries).len() == entries.len() * size,
    decreases entries.len(),
{
    if entries.len() > 0 {
        lemma_flat_len(entries.drop_last(), size);
        assert((entries.len() - 1) * size + size == entries.len() * size) by (nonlinear_arith);
    } else {
        assert(0 * size == 0);
    }
}

/// A string: where its data stands, its length in UTF-16 code units, and its text.
pub struct StringEntry {
    pub offset: u32,
    pub units: u32,
    pub text: Seq<char>,
}

/// A prototype: its short form, its return type, and where its parameters are listed, which
/// is zero where it has none.
pub struct ProtoEntry {
    pub shorty: u32,
    pub return_type: u32,
    pub parameters_off: u32,
    pub parameters: Seq<u16>,
}

/// A method: its class, its prototype and its name.
pub struct MethodId {
    pub class: u16,
    pub proto: u16,
    pub name: u32,
}

/// The tables that lead from a method to its names.
pub struct Tables {
    pub strings: Seq<StringEntry>,
    pub types: Seq<u32>,
    pub protos: Seq<ProtoEntry>,
    pub methods: Seq<MethodId>,
}

/// The bytes of a list of types: their number, and two bytes for each.
pub open spec fn type_list_bytes(types: Seq<u16>) -> Seq<u8> {
    le32_bytes(types.len() as u32) + flat(types.map_values(|t: u16| le16_bytes(t)))
}

/// The bytes of a prototype.
pub open spec fn proto_bytes(p: ProtoEntry) -> Seq<u8> {
    le32_bytes(p.shorty) + (le32_bytes(p.return_type) + le32_bytes(p.parameters_off))
}

/// The bytes of a method.
pub open spec fn method_id_bytes(m: MethodId) -> Seq<u8> {
    le16_bytes(m.class) + (le16_bytes(m.proto) + le32_bytes(m.name))
}

/// The bytes of a string's data: its length, its text and a zero byte.
pub open spec fn string_bytes(s: StringEntry) -> Seq<u8> {
    uleb_bytes(s.units as nat) + encode(s.text).push(0)
}

/// The file holds the tables where its header says, and the string data and the lists of
/// parameters where the tables say. No table ends beyond the reach of 32-bit offsets.
pub open spec fn holds_tables(data: Seq<u8>, h: DexHeader, t: Tables) -> bool {
    &&& h.string_ids_size == t.strings.len()
    &&& h.type_ids_size == t.types.len()
    &&& h.proto_ids_size == t.protos.len()
    &&& h.method_ids_size == t.methods.len()
    &&& h.string_ids_off + 4 * t.strings.len() <= u32::MAX
    &&& h.type_ids_off + 4 * t.types.len() <= u32::MAX
    &&& h.proto_ids_off + 12 * t.protos.len() <= u32::MAX
    &&& h.method_ids_off + 8 * t.methods.len() <= u32::MAX
    &&& holds_at(
        data,
        h.string_ids_off as int,
        flat(t.strings.map_values(|s: StringEntry| le32_bytes(s.offset))),
    )
    &&& holds_at(
        data,
        h.type_ids_off as int,
        flat(t.types.map_values(|s: u32| le32_bytes(s))),
    )
    &&& holds_at(
        data,
        h.proto_ids_off as int,
        flat(t.protos.map_values(|p: ProtoEntry| proto_bytes(p))),
    )
    &&& holds_at(
        data,
        h.method_ids_off as int,
        flat(t.methods.map_values(|m: MethodId| method_id_bytes(m))),
    )
    &&& forall|i: int|
        0 <= i < t.strings.len() ==> holds_at(
            data,
            (#[trigger] t.strings[i]).offset as int,
            string_bytes(t.strings[i]),
        )
    &&& forall|i: int|
        0 <= i < t.protos.len() ==> if (#[trigger] t.protos[i]).parameters_off == 0 {
            t.protos[i].parameters.len() == 0
        } else {
            t.protos[i].parameters.len() <= u32::MAX && holds_at(
                data,
                t.protos[i].parameters_off as int,
                type_list_bytes(t.protos[i].parameters),
            )
        }
}

/// Every reference of the tables leads to an entry.
pub open spec fn refers_inside(t: Tables) -> bool {
    &&& forall|i: int| 0 <= i < t.types.len() ==> #[trigger] t.types[i] < t.strings.len()
    &&& forall|i: int|
        0 <= i < t.protos.len() ==> (#[trigger] t.protos[i]).return_type < t.types.len()
    &&& forall|i: int, j: int|
        0 <= i < t.protos.len() && 0 <= j < t.protos[i].parameters.len() ==> (
        #[trigger] t.protos[i].parameters[j]) < t.types.len()
    &&& forall|i: int|
        0 <= i < t.methods.len() ==> (#[trigger] t.methods[i]).class < t.types.len()
            && t.methods[i].proto < t.protos.len() && t.methods[i].name < t.strings.len()
}

/// The text of a type.
pub open spec fn named_type(t: Tables, i: int) -> Seq<char> {
    t.strings[t.types[i] as int].text
}

/// The texts of the parameters of a prototype.
pub open spec fn parameter_names(t: Tables, p: ProtoEntry) -> Seq<Seq<char>> {
    p.parameters.map_values(|i: u16| named_type(t, i as int))
}

proof fn lemma_string_held(data: Seq<u8>, s: StringEntry)
    requires
        holds_at(data, s.offset as int, string_bytes(s)),
    ensures
        string_data_at(data, s.offset) == Ok::<Seq<char>, DexError>(s.text),
{
    let (length, body) = (uleb_bytes(s.units as nat), encode(s.text).push(0));
    let before = data.take(s.offset as int);
    let after = data.skip(s.offset + (length + body).len());
    law_string_data_read_back(s.text, s.units, before, after);
    assert(before + (length + body) + after =~= data);
    assert(before + length + body + after =~= before + (length + body) + after);
}

/// A string is read back by its index. An index beyond the table is an error.
pub proof fn law_strings_are_read_back(data: Seq<u8>, h: DexHeader, t: Tables, i: u32)
    requires
        holds_tables(data, h, t),
    ensures
        i < t.strings.len() ==> string_at(data, h, i) == Ok::<Seq<char>, DexError>(
            t.strings[i as int].text,
        ),
        i >= t.strings.len() ==> string_at(data, h, i) == Err::<Seq<char>, DexError>(
            DexError::IndexOutOfBounds { kind: "string", idx: i },
        ),
{
    if i < t.strings.len() {
        let entries = t.strings.map_values(|s: StringEntry| le32_bytes(s.offset));
        let s = t.strings[i as int];
        lemma_entry_held(data, h.string_ids_off as int, entries, 4, i as int);
        assert(entries[i as int] == le32_bytes(s.offset));
        let at = h.string_ids_off + 4 * i;
        lemma_le32_held(data, at, s.offset);
        lemma_string_held(data, s);
    }
}

/// The descriptor of a type is the string that its entry refers to.
pub proof fn law_types_are_read_back(data: Seq<u8>, h: DexHeader, t: Tables, i: u32)
    requires
        holds_tables(data, h, t),
        refers_inside(t),
    ensures
        i < t.types.len() ==> descriptor_at(data, h, i) == Ok::<Seq<char>, DexError>(
            named_type(t, i as int),
        ),
        i >= t.types.len() ==> descriptor_at(data, h, i) == Err::<Seq<char>, DexError>(
            DexError::IndexOutOfBounds { kind: "type", idx: i },
        ),
{
    if i < t.types.len() {
        let entries = t.types.map_values(|s: u32| le32_bytes(s));
        lemma_entry_held(data, h.type_ids_off as int, entries, 4, i as int);
        assert(entries[i as int] == le32_bytes(t.types[i as int]));
        lemma_le32_held(data, h.type_ids_off + 4 * i, t.types[i as int]);
        law_strings_are_read_back(data, h, t, t.types[i as int]);
    }
}

proof fn lemma_parameters(data: Seq<u8>, h: DexHeader, t: Tables, i: int, n: nat)
    requires
        holds_tables(data, h, t),
        refers_inside(t),
        0 <= i < t.protos.len(),
        t.protos[i].parameters_off != 0,
        n <= t.protos[i].parameters.len(),
    ensures
        parameters_at(data, h, t.protos[i].parameters_off, n) == Ok::<Seq<Seq<char>>, DexError>(
            parameter_names(t, t.protos[i]).take(n as int),
        ),
    decreases n,
{
    let p = t.protos[i];
    let names = parameter_names(t, p);
    if n > 0 {
        lemma_parameters(data, h, t, i, (n - 1) as nat);
        let entries = p.parameters.map_values(|x: u16| le16_bytes(x));
        let k = n - 1;
        lemma_holds_both(
            data,
            p.parameters_off as int,
            le32_bytes(p.parameters.len() as u32),
            flat(entries),
        );
        lemma_entry_held(data, p.parameters_off + 4, entries, 2, k);
        assert(entries[k] == le16_bytes(p.parameters[k]));
        lemma_le16_held(data, p.parameters_off + 4 + 2 * k, p.parameters[k]);
        law_types_are_read_back(data, h, t, t.protos[i].parameters[k] as u32);
        assert(names.take(n as int) =~= names.take(n - 1).push(names[k]));
    } else {
        assert(names.take(0) =~= Seq::<Seq<char>>::empty());
    }
}

proof fn lemma_proto_held(data: Seq<u8>, at: int, p: ProtoEntry)
    requires
        holds_at(data, at, proto_bytes(p)),
    ensures
        at + 12 <= data.len(),
        le32_at(data, at + 4) == p.return_type,
        le32_at(data, at + 8) == p.parameters_off,
{
    let tail = le32_bytes(p.return_type) + le32_bytes(p.parameters_off);
    lemma_holds_both(data, at, le32_bytes(p.shorty), tail);
    lemma_holds_both(data, at + 4, le32_bytes(p.return_type), le32_bytes(p.parameters_off));
    lemma_le32_held(data, at + 4, p.return_type);
    lemma_le32_held(data, at + 8, p.parameters_off);
}

proof fn lemma_type_list_held(data: Seq<u8>, h: DexHeader, t: Tables, i: int)
    requires
        holds_tables(data, h, t),
        refers_inside(t),
        0 <= i < t.protos.len(),
        t.protos[i].parameters_off != 0,
    ensures
        type_list_at(data, h, t.protos[i].parameters_off) == Ok::<Seq<Seq<char>>, DexError>(
            parameter_names(t, t.protos[i]),
        ),
{
    let p = t.protos[i];
    let names = parameter_names(t, p);
    lemma_parameters(data, h, t, i, p.parameters.len());
    assert(names.take(names.len() as int) =~= names);
    lemma_holds_both(
        data,
        p.parameters_off as int,
        le32_bytes(p.parameters.len() as u32),
        flat(p.parameters.map_values(|x: u16| le16_bytes(x))),
    );
    lemma_le32_held(data, p.parameters_off as int, p.parameters.len() as u32);
}

/// A prototype has the return type and the parameters that its entry refers to.
pub proof fn law_protos_are_read_back(data: Seq<u8>, h: DexHeader, t: Tables, i: u32)
    requires
        holds_tables(data, h, t),
        refers_inside(t),
    ensures
        i < t.protos.len() ==> proto_at(data, h, i) == Ok::<ProtoText, DexError>(
            ProtoText {
                return_type: named_type(t, t.protos[i as int].return_type as int),
                parameters: parameter_names(t, t.protos[i as int]),
            },
        ),
        i >= t.protos.len() ==> proto_at(data, h, i) == Err::<ProtoText, DexError>(
            DexError::IndexOutOfBounds { kind: "proto", idx: i },
        ),
{
    if i < t.protos.len() {
        let entries = t.protos.map_values(|p: ProtoEntry| proto_bytes(p));
        let p = t.protos[i as int];
        lemma_entry_held(data, h.proto_ids_off as int, entries, 12, i as int);
        assert(entries[i as int] == proto_bytes(p));
        lemma_proto_held(data, h.proto_ids_off + 12 * i, p);
        law_types_are_read_back(data, h, t, p.return_type);
        if p.parameters_off == 0 {
            assert(parameter_names(t, p) =~= Seq::<Seq<char>>::empty());
        } else {
            lemma_type_list_held(data, h, t, i as int);
        }
    }
}

proof fn lemma_method_id_held(data: Seq<u8>, at: int, m: MethodId)
    requires
        holds_at(data, at, method_id_bytes(m)),
    ensures
        at + 8 <= data.len(),
        le16_at(data, at) == m.class,
        le16_at(data, at + 2) == m.proto,
        le32_at(data, at + 4) == m.name,
{
    lemma_holds_both(data, at, le16_bytes(m.class), le16_bytes(m.proto) + le32_bytes(m.name));
    lemma_holds_both(data, at + 2, le16_bytes(m.proto), le32_bytes(m.name));
    lemma_le16_held(data, at, m.class);
    lemma_le16_held(data, at + 2, m.proto);
    lemma_le32_held(data, at + 4, m.name);
}

proof fn lemma_method_from_parts(
    data: Seq<u8>,
    h: DexHeader,
    i: u32,
    m: MethodId,
    class_name: Seq<char>,
    method_name: Seq<char>,
    proto: ProtoText,
)
    requires
        i < h.method_ids_size,
        h.method_ids_off + 8 * i <= u32::MAX,
        holds_at(data, h.method_ids_off + 8 * i, method_id_bytes(m)),
        descriptor_at(data, h, m.class as u32) == Ok::<Seq<char>, DexError>(class_name),
        string_at(data, h, m.name) == Ok::<Seq<char>, DexError>(method_name),
        proto_at(data, h, m.proto as u32) == Ok::<ProtoText, DexError>(proto),
    ensures
        method_at(data, h, i) == Ok::<MethodText, DexError>(
            MethodText {
                class_name,
                method_name,
                return_type: proto.return_type,
                parameters: proto.parameters,
            },
        ),
{
    lemma_method_id_held(data, h.method_ids_off + 8 * i, m);
}

/// A method has the class, the name and the prototype that its entry refers to.
#[verifier::rlimit(40)]
pub proof fn law_methods_are_read_back(data: Seq<u8>, h: DexHeader, t: Tables, i: u32)
    requires
        holds_tables(data, h, t),
        refers_inside(t),
    ensures
        i < t.methods.len() ==> method_at(data, h, i) == Ok::<MethodText, DexError>(
            MethodText {
                class_name: named_type(t, t.methods[i as int].class as int),
                method_name: t.strings[t.methods[i as int].name as int].text,
                return_type: named_type(
                    t,
                    t.protos[t.methods[i as int].proto as int].return_type as int,
                ),
                parameters: parameter_names(t, t.protos[t.methods[i as int].proto as int]),
            },
        ),
        i >= t.methods.len() ==> method_at(data, h, i) == Err::<MethodText, DexError>(
            DexError::IndexOutOfBounds { kind: "method", idx: i },
        ),
{
    if i < t.methods.len() {
        let m = t.methods[i as int];
        let p = t.protos[m.proto as int];
        assert(holds_at(data, h.method_ids_off + 8 * i, method_id_bytes(m))) by {
            let entries = t.methods.map_values(|m: MethodId| method_id_bytes(m));
            lemma_entry_held(data, h.method_ids_off as int, entries, 8, i as int);
            assert(entries[i as int] == method_id_bytes(m));
        }
        law_types_are_read_back(data, h, t, m.class as u32);
        law_strings_are_read_back(data, h, t, m.name);
        law_protos_are_read_back(data, h, t, m.proto as u32);
        lemma_method_from_parts(
            data,
            h,
            i,
            m,
            named_type(t, m.class as int),
            t.strings[m.name as int].text,
            ProtoText {
                return_type: named_type(t, p.return_type as int),
                parameters: parameter_names(t, p),
            },
        );
    }
}

// ---------------------------------------------------------------------------
// Classes
// ---------------------------------------------------------------------------

/// A field of a class: the distance of its index from the one before, and its flags.
pub struct FieldEntry {
    pub distance: u32,
    pub flags: u32,
}

/// A method of a class: its index, its flags and where its code item stands.
pub struct MethodEntry {
    pub idx: u32,
    pub flags: u32,
    pub code_off: u32,
}

/// The data of a class.
pub struct ClassData {
    pub statics: Seq<FieldEntry>,
    pub instances: Seq<FieldEntry>,
    pub direct: Seq<MethodEntry>,
    pub virtuals: Seq<MethodEntry>,
}

/// The indices grow from each method to the next.
pub open spec fn is_increasing(methods: Seq<MethodEntry>) -> bool {
    forall|i: int, j: int|
        0 <= i < j < methods.len() ==> (#[trigger] methods[i]).idx < (#[trigger] methods[j]).idx
}

/// The bytes of some fields.
pub open spec fn fields_bytes(fields: Seq<FieldEntry>) -> Seq<u8>
    decreases fields.len(),
{
    if fields.len() == 0 {
        seq![]
    } else {
        uleb_bytes(fields[0].distance as nat) + (uleb_bytes(fields[0].flags as nat) + fields_bytes(
            fields.drop_first(),
        ))
    }
}

/// The bytes of some methods behind one with the index `last`: the distance of each index
/// from the one before, the flags and the code offset.
pub open spec fn methods_bytes(last: int, methods: Seq<MethodEntry>) -> Seq<u8>
    decreases methods.len(),
{
    if methods.len() == 0 {
        seq![]
    } else {
        let m = methods[0];
        uleb_bytes((m.idx - last) as nat) + (uleb_bytes(m.flags as nat) + (uleb_bytes(
            m.code_off as nat,
        ) + methods_bytes(m.idx as int, methods.drop_first())))
    }
}

/// The bytes of a class's data: four counts, then the fields and the methods.
pub open spec fn class_data_bytes(c: ClassData) -> Seq<u8> {
    uleb_bytes(c.statics.len()) + (uleb_bytes(c.instances.len()) + (uleb_bytes(c.direct.len()) + (
    uleb_bytes(c.virtuals.len()) + (fields_bytes(c.statics) + (fields_bytes(c.instances) + (
    methods_bytes(0, c.direct) + methods_bytes(0, c.virtuals)))))))
}

/// The counts fit in 32 bits, and the indices of each list grow.
pub open spec fn is_class_data(c: ClassData) -> bool {
    &&& c.statics.len() <= u32::MAX
    &&& c.instances.len() <= u32::MAX
    &&& c.direct.len() <= u32::MAX
    &&& c.virtuals.len() <= u32::MAX
    &&& is_increasing(c.direct)
    &&& is_increasing(c.virtuals)
}

/// The map with the code offsets of some methods.
pub open spec fn with_entries(offsets: Map<u32, u32>, methods: Seq<MethodEntry>) -> Map<u32, u32>
    decreases methods.len(),
{
    if methods.len() == 0 {
        offsets
    } else {
        with_entries(offsets.insert(methods[0].idx, methods[0].code_off), methods.drop_first())
    }
}

proof fn lemma_fields_held(data: Seq<u8>, at: int, fields: Seq<FieldEntry>)
    requires
        holds_at(data, at, fields_bytes(fields)),
    ensures
        past_fields(data, at, fields.len()) == Ok::<int, DexError>(at + fields_bytes(fields).len()),
    decreases fields.len(),
{
    if fields.len() > 0 {
        let f = fields[0];
        let (a, b, c) = (
            uleb_bytes(f.distance as nat),
            uleb_bytes(f.flags as nat),
            fields_bytes(fields.drop_first()),
        );
        lemma_holds_both(data, at, a, b + c);
        lemma_holds_both(data, at + a.len(), b, c);
        lemma_uleb_held(data, at, f.distance);
        lemma_uleb_held(data, at + a.len(), f.flags);
        lemma_fields_held(data, at + a.len() + b.len(), fields.drop_first());
    }
}

proof fn lemma_methods_held(
    data: Seq<u8>,
    at: int,
    last: u32,
    methods: Seq<MethodEntry>,
    offsets: Map<u32, u32>,
)
    requires
        holds_at(data, at, methods_bytes(last as int, methods)),
        is_increasing(methods),
        methods.len() > 0 ==> last <= methods[0].idx,
    ensures
        with_methods(data, at, methods.len(), last, offsets) == Ok::<
            (int, Map<u32, u32>),
            DexError,
        >((at + methods_bytes(last as int, methods).len(), with_entries(offsets, methods))),
    decreases methods.len(),
{
    if methods.len() > 0 {
        let m = methods[0];
        let rest = methods.drop_first();
        let (a, b, c, d) = (
            uleb_bytes((m.idx - last) as nat),
            uleb_bytes(m.flags as nat),
            uleb_bytes(m.code_off as nat),
            methods_bytes(m.idx as int, rest),
        );
        lemma_holds_both(data, at, a, b + (c + d));
        lemma_holds_both(data, at + a.len(), b, c + d);
        lemma_holds_both(data, at + a.len() + b.len(), c, d);
        lemma_uleb_held(data, at, (m.idx - last) as u32);
        lemma_uleb_held(data, at + a.len(), m.flags);
        lemma_uleb_held(data, at + a.len() + b.len(), m.code_off);
        assert forall|i: int, j: int| 0 <= i < j < rest.len() implies (#[trigger] rest[i]).idx < (
        #[trigger] rest[j]).idx by {
            assert(methods[i + 1].idx < methods[j + 1].idx);
        }
        if rest.len() > 0 {
            assert(methods[0].idx < methods[1].idx);
        }
        lemma_methods_held(
            data,
            at + a.len() + b.len() + c.len(),
            m.idx,
            rest,
            offsets.insert(m.idx, m.code_off),
        );
    }
}

/// The methods are in the map, each with its own code offset, and nothing else is new.
proof fn lemma_with_entries(offsets: Map<u32, u32>, methods: Seq<MethodEntry>)
    requires
        is_increasing(methods),
    ensures
        ({
            let m = with_entries(offsets, methods);
            &&& forall|i: int|
                0 <= i < methods.len() ==> m.contains_key((#[trigger] methods[i]).idx)
                    && m[methods[i].idx] == methods[i].code_off
            &&& forall|k: u32| #[trigger]
                m.contains_key(k) ==> offsets.contains_key(k) || exists|i: int|
                    0 <= i < methods.len() && (#[trigger] methods[i]).idx == k
            &&& forall|k: u32| #[trigger]
                offsets.contains_key(k) ==> m.contains_key(k) && (m[k] == offsets[k] || exists|i: int|
                    0 <= i < methods.len() && (#[trigger] methods[i]).idx == k)
        }),
    decreases methods.len(),
{
    if methods.len() > 0 {
        let rest = methods.drop_first();
        let first = methods[0];
        let more = offsets.insert(first.idx, first.code_off);
        assert forall|i: int, j: int| 0 <= i < j < rest.len() implies (#[trigger] rest[i]).idx < (
        #[trigger] rest[j]).idx by {
            assert(methods[i + 1].idx < methods[j + 1].idx);
        }
        lemma_with_entries(more, rest);
        let m = with_entries(offsets, methods);
        assert(more.contains_key(first.idx));
        assert forall|i: int| 0 <= i < rest.len() implies (#[trigger] rest[i]).idx != first.idx by {
            assert(methods[0].idx < methods[i + 1].idx);
        }
        assert forall|i: int| 0 <= i < methods.len() implies m.contains_key(
            (#[trigger] methods[i]).idx,
        ) && m[methods[i].idx] == methods[i].code_off by {
            if i > 0 {
                assert(rest[i - 1] == methods[i]);
            }
        }
        assert forall|k: u32| #[trigger] m.contains_key(k) implies offsets.contains_key(k)
            || exists|i: int| 0 <= i < methods.len() && (#[trigger] methods[i]).idx == k by {
            if more.contains_key(k) {
                if k == first.idx {
                    assert(methods[0].idx == k);
                }
            } else {
                let i = choose|i: int| 0 <= i < rest.len() && (#[trigger] rest[i]).idx == k;
                assert(methods[i + 1].idx == k);
            }
        }
        assert forall|k: u32| #[trigger] offsets.contains_key(k) implies m.contains_key(k) && (m[k]
            == offsets[k] || exists|i: int|
            0 <= i < methods.len() && (#[trigger] methods[i]).idx == k) by {
            assert(more.contains_key(k));
            if k == first.idx {
                assert(methods[0].idx == k);
            } else if m[k] != more[k] {
                let i = choose|i: int| 0 <= i < rest.len() && (#[trigger] rest[i]).idx == k;
                assert(methods[i + 1].idx == k);
            }
        }
    }
}

/// The methods of a class.
pub open spec fn methods_of(c: ClassData) -> Seq<MethodEntry> {
    c.direct + c.virtuals
}

/// A method with this index is listed.
pub open spec fn has_index(methods: Seq<MethodEntry>, k: u32) -> bool {
    exists|i: int| 0 <= i < methods.len() && (#[trigger] methods[i]).idx == k
}

/// Reading the data of a class adds its methods, each with its own code offset, and nothing
/// else; what was there stays. A method that is listed both as a direct and as a virtual one
/// has the code offset of the latter.
pub proof fn law_class_data_is_read_back(
    data: Seq<u8>,
    at: int,
    c: ClassData,
    offsets: Map<u32, u32>,
)
    requires
        is_class_data(c),
        holds_at(data, at, class_data_bytes(c)),
    ensures
        with_class_data(data, at, offsets) matches Ok(m) && {
            &&& forall|i: int|
                0 <= i < c.virtuals.len() ==> m.contains_key((#[trigger] c.virtuals[i]).idx)
                    && m[c.virtuals[i].idx] == c.virtuals[i].code_off
            &&& forall|i: int|
                0 <= i < c.direct.len() && !has_index(c.virtuals, (#[trigger] c.direct[i]).idx)
                    ==> m.contains_key(c.direct[i].idx) && m[c.direct[i].idx] == c.direct[i].code_off
            &&& forall|k: u32|
                #![trigger m.contains_key(k)]
                m.contains_key(k) <==> offsets.contains_key(k) || has_index(c.direct, k)
                    || has_index(c.virtuals, k)
            &&& forall|k: u32|
                #![trigger m[k]]
                offsets.contains_key(k) && !has_index(c.direct, k) && !has_index(c.virtuals, k)
                    ==> m[k] == offsets[k]
        },
{
    let (n1, n2, n3, n4) = (
        uleb_bytes(c.statics.len()),
        uleb_bytes(c.instances.len()),
        uleb_bytes(c.direct.len()),
        uleb_bytes(c.virtuals.len()),
    );
    let (f1, f2) = (fields_bytes(c.statics), fields_bytes(c.instances));
    let (m1, m2) = (methods_bytes(0, c.direct), methods_bytes(0, c.virtuals));
    let t7 = m1 + m2;
    let t6 = f2 + t7;
    let t5 = f1 + t6;
    let t4 = n4 + t5;
    let t3 = n3 + t4;
    let t2 = n2 + t3;
    let p1 = at + n1.len();
    let p2 = p1 + n2.len();
    let p3 = p2 + n3.len();
    let p4 = p3 + n4.len();
    let p5 = p4 + f1.len();
    let p6 = p5 + f2.len();
    let p7 = p6 + m1.len();
    lemma_holds_both(data, at, n1, t2);
    lemma_holds_both(data, p1, n2, t3);
    lemma_holds_both(data, p2, n3, t4);
    lemma_holds_both(data, p3, n4, t5);
    lemma_holds_both(data, p4, f1, t6);
    lemma_holds_both(data, p5, f2, t7);
    lemma_holds_both(data, p6, m1, m2);
    lemma_uleb_held(data, at, c.statics.len() as u32);
    lemma_uleb_held(data, p1, c.instances.len() as u32);
    lemma_uleb_held(data, p2, c.direct.len() as u32);
    lemma_uleb_held(data, p3, c.virtuals.len() as u32);
    lemma_fields_held(data, p4, c.statics);
    lemma_fields_held(data, p5, c.instances);
    lemma_methods_held(data, p6, 0, c.direct, offsets);
    let some = with_entries(offsets, c.direct);
    lemma_methods_held(data, p7, 0, c.virtuals, some);
    lemma_with_entries(offsets, c.direct);
    lemma_with_entries(some, c.virtuals);
    let m = with_entries(some, c.virtuals);
    assert(with_class_data(data, at, offsets) == Ok::<Map<u32, u32>, DexError>(m));
    assert forall|i: int| 0 <= i < c.direct.len() && !has_index(
        c.virtuals,
        (#[trigger] c.direct[i]).idx,
    ) implies m.contains_key(c.direct[i].idx) && m[c.direct[i].idx] == c.direct[i].code_off by {
        assert(some.contains_key(c.direct[i].idx));
    }
    assert forall|k: u32| #![trigger m.contains_key(k)] m.contains_key(k) <==> offsets.contains_key(k)
        || has_index(c.direct, k) || has_index(c.virtuals, k) by {
        if has_index(c.direct, k) {
            let i = choose|i: int| 0 <= i < c.direct.len() && (#[trigger] c.direct[i]).idx == k;
            assert(some.contains_key(c.direct[i].idx));
        }
        if has_index(c.virtuals, k) {
            let i = choose|i: int| 0 <= i < c.virtuals.len() && (#[trigger] c.virtuals[i]).idx == k;
            assert(m.contains_key(c.virtuals[i].idx));
        }
        if offsets.contains_key(k) {
            assert(some.contains_key(k));
        }
        if m.contains_key(k) && !some.contains_key(k) {
            assert(has_index(c.virtuals, k));
        }
    }
    assert forall|k: u32|
        #![trigger m[k]]
        offsets.contains_key(k) && !has_index(c.direct, k) && !has_index(c.virtuals, k) implies m[k]
        == offsets[k] by {
        assert(some.contains_key(k) && some[k] == offsets[k]);
    }
}

/// A class of a file.
pub struct ClassDef {
    pub class_idx: u32,
    pub flags: u32,
    pub superclass_idx: u32,
    pub interfaces_off: u32,
    pub source_file_idx: u32,
    pub annotations_off: u32,
    pub class_data_off: u32,
    pub static_values_off: u32,
}

/// The bytes of a class.
pub open spec fn class_def_bytes(c: ClassDef) -> Seq<u8> {
    numbers_bytes(
        seq![
            c.class_idx,
            c.flags,
            c.superclass_idx,
            c.interfaces_off,
            c.source_file_idx,
            c.annotations_off,
            c.class_data_off,
            c.static_values_off,
        ],
    )
}

/// The file holds the classes where its header says, and the data of each where it says,
/// unless that is nowhere.
pub open spec fn holds_classes(
    data: Seq<u8>,
    h: DexHeader,
    defs: Seq<ClassDef>,
    classes: Seq<ClassData>,
) -> bool {
    &&& h.class_defs_size == defs.len() == classes.len()
    &&& holds_at(
        data,
        h.class_defs_off as int,
        flat(defs.map_values(|c: ClassDef| class_def_bytes(c))),
    )
    &&& forall|i: int|
        0 <= i < defs.len() && (#[trigger] defs[i]).class_data_off != 0 ==> is_class_data(classes[i])
            && holds_at(data, defs[i].class_data_off as int, class_data_bytes(classes[i]))
}

/// The class has data, and lists a method with this index.
pub open spec fn defines(defs: Seq<ClassDef>, classes: Seq<ClassData>, i: int, k: u32) -> bool {
    0 <= i < defs.len() && defs[i].class_data_off != 0 && has_index(methods_of(classes[i]), k)
}

/// No method is listed twice.
pub open spec fn no_method_twice(defs: Seq<ClassDef>, classes: Seq<ClassData>) -> bool {
    &&& forall|i: int, j: int, k: u32| #[trigger]
        defines(defs, classes, i, k) && #[trigger] defines(defs, classes, j, k) ==> i == j
    &&& forall|i: int, k: u32|
        0 <= i < classes.len() ==> !(#[trigger] has_index(classes[i].direct, k)
            && #[trigger] has_index(classes[i].virtuals, k))
}

/// The map holds the methods of the first `n` classes, each with its own code offset, and
/// nothing else.
pub open spec fn maps_first(
    m: Map<u32, u32>,
    defs: Seq<ClassDef>,
    classes: Seq<ClassData>,
    n: int,
) -> bool {
    &&& forall|i: int, j: int|
        0 <= i < n && defs[i].class_data_off != 0 && 0 <= j < methods_of(classes[i]).len()
            ==> m.contains_key((#[trigger] methods_of(classes[i])[j]).idx)
            && m[methods_of(classes[i])[j].idx] == methods_of(classes[i])[j].code_off
    &&& forall|k: u32| #[trigger]
        m.contains_key(k) ==> exists|i: int| 0 <= i < n && #[trigger] defines(defs, classes, i, k)
}

proof fn lemma_class_def_held(data: Seq<u8>, at: int, c: ClassDef)
    requires
        holds_at(data, at, class_def_bytes(c)),
    ensures
        class_def_bytes(c).len() == 32,
        at + 32 <= data.len(),
        le32_at(data, at + 24) == c.class_data_off,
{
    let numbers = seq![
        c.class_idx,
        c.flags,
        c.superclass_idx,
        c.interfaces_off,
        c.source_file_idx,
        c.annotations_off,
        c.class_data_off,
        c.static_values_off,
    ];
    lemma_numbers_held(data, at, numbers);
    assert(numbers[6] == c.class_data_off);
}

proof fn lemma_numbers_len(numbers: Seq<u32>)
    ensures
        numbers_bytes(numbers).len() == 4 * numbers.len(),
    decreases numbers.len(),
{
    if numbers.len() > 0 {
        lemma_numbers_len(numbers.drop_last());
    }
}

proof fn lemma_class_held(
    data: Seq<u8>,
    h: DexHeader,
    defs: Seq<ClassDef>,
    classes: Seq<ClassData>,
    n: int,
)
    requires
        holds_classes(data, h, defs, classes),
        0 <= n < defs.len(),
    ensures
        h.class_defs_off + 32 * n + 32 <= data.len(),
        le32_at(data, h.class_defs_off + 32 * n + 24) == defs[n].class_data_off,
{
    let entries = defs.map_values(|c: ClassDef| class_def_bytes(c));
    assert forall|j: int| 0 <= j < entries.len() implies (#[trigger] entries[j]).len() == 32 by {
        let c = defs[j];
        lemma_numbers_len(
            seq![
                c.class_idx,
                c.flags,
                c.superclass_idx,
                c.interfaces_off,
                c.source_file_idx,
                c.annotations_off,
                c.class_data_off,
                c.static_values_off,
            ],
        );
        assert(entries[j] == class_def_bytes(c));
    }
    lemma_entry_held(data, h.class_defs_off as int, entries, 32, n);
    assert(entries[n] == class_def_bytes(defs[n]));
    lemma_class_def_held(data, h.class_defs_off + 32 * n, defs[n]);
}

/// Adding the methods of one more class.
proof fn lemma_one_more_class(
    data: Seq<u8>,
    h: DexHeader,
    defs: Seq<ClassDef>,
    classes: Seq<ClassData>,
    n: int,
    offsets: Map<u32, u32>,
)
    requires
        holds_classes(data, h, defs, classes),
        no_method_twice(defs, classes),
        0 <= n < defs.len(),
        defs[n].class_data_off != 0,
        maps_first(offsets, defs, classes, n),
    ensures
        with_class_data(data, defs[n].class_data_off as int, offsets) matches Ok(m) && maps_first(
            m,
            defs,
            classes,
            n + 1,
        ),
{
    let c = classes[n];
    law_class_data_is_read_back(data, defs[n].class_data_off as int, c, offsets);
    let m = with_class_data(data, defs[n].class_data_off as int, offsets)->Ok_0;
    assert forall|i: int, j: int|
        0 <= i < n + 1 && defs[i].class_data_off != 0 && 0 <= j < methods_of(
            classes[i],
        ).len() implies m.contains_key((#[trigger] methods_of(classes[i])[j]).idx)
        && m[methods_of(classes[i])[j].idx] == methods_of(classes[i])[j].code_off by {
        let e = methods_of(classes[i])[j];
        assert(has_index(methods_of(classes[i]), e.idx));
        assert(defines(defs, classes, i, e.idx));
        if i < n {
            assert(!defines(defs, classes, n, e.idx));
            assert forall|x: int| 0 <= x < c.direct.len() implies (#[trigger] c.direct[x]).idx
                != e.idx by {
                assert(methods_of(c)[x] == c.direct[x]);
            }
            assert forall|x: int| 0 <= x < c.virtuals.len() implies (#[trigger] c.virtuals[x]).idx
                != e.idx by {
                assert(methods_of(c)[c.direct.len() + x] == c.virtuals[x]);
            }
            assert(offsets.contains_key(e.idx));
            assert(m[e.idx] == offsets[e.idx]);
        } else if j < c.direct.len() {
            assert(c.direct[j] == e);
            assert(has_index(c.direct, e.idx));
        } else {
            assert(c.virtuals[j - c.direct.len()] == e);
        }
    }
    assert forall|k: u32| #[trigger] m.contains_key(k) implies exists|i: int|
        0 <= i < n + 1 && #[trigger] defines(defs, classes, i, k) by {
        if offsets.contains_key(k) {
            let i = choose|i: int| 0 <= i < n && #[trigger] defines(defs, classes, i, k);
            assert(defines(defs, classes, i, k));
        } else {
            if has_index(c.direct, k) {
                let x = choose|x: int| 0 <= x < c.direct.len() && (#[trigger] c.direct[x]).idx == k;
                assert(methods_of(c)[x].idx == k);
            } else {
                let x = choose|x: int|
                    0 <= x < c.virtuals.len() && (#[trigger] c.virtuals[x]).idx == k;
                assert(methods_of(c)[c.direct.len() + x].idx == k);
            }
            assert(defines(defs, classes, n, k));
        }
    }
}

proof fn lemma_classes(
    data: Seq<u8>,
    h: DexHeader,
    defs: Seq<ClassDef>,
    classes: Seq<ClassData>,
    n: int,
    offsets: Map<u32, u32>,
)
    requires
        holds_classes(data, h, defs, classes),
        no_method_twice(defs, classes),
        0 <= n <= defs.len(),
        maps_first(offsets, defs, classes, n),
    ensures
        with_classes(data, h, n, offsets) matches Ok(m) && maps_first(
            m,
            defs,
            classes,
            defs.len() as int,
        ),
    decreases defs.len() - n,
{
    if n < defs.len() {
        lemma_class_held(data, h, defs, classes, n);
        if defs[n].class_data_off == 0 {
            assert(maps_first(offsets, defs, classes, n + 1));
            lemma_classes(data, h, defs, classes, n + 1, offsets);
        } else {
            lemma_one_more_class(data, h, defs, classes, n, offsets);
            let m = with_class_data(data, defs[n].class_data_off as int, offsets)->Ok_0;
            lemma_classes(data, h, defs, classes, n + 1, m);
        }
    }
}

/// The map of code offsets holds exactly the methods that the classes of the file list, each
/// with its own code offset.
pub proof fn law_code_offsets_are_read_back(
    data: Seq<u8>,
    h: DexHeader,
    defs: Seq<ClassDef>,
    classes: Seq<ClassData>,
)
    requires
        holds_classes(data, h, defs, classes),
        no_method_twice(defs, classes),
    ensures
        code_offsets(data, h) matches Ok(m) && {
            &&& forall|i: int, j: int|
                0 <= i < defs.len() && defs[i].class_data_off != 0 && 0 <= j < methods_of(
                    classes[i],
                ).len() ==> m.contains_key((#[trigger] methods_of(classes[i])[j]).idx)
                    && m[methods_of(classes[i])[j].idx] == methods_of(classes[i])[j].code_off
            &&& forall|k: u32| #[trigger]
                m.contains_key(k) ==> exists|i: int|
                    0 <= i < defs.len() && defs[i].class_data_off != 0 && #[trigger] has_index(
                        methods_of(classes[i]),
                        k,
                    )
        },
{
    lemma_classes(data, h, defs, classes, 0, Map::empty());
    let m = code_offsets(data, h)->Ok_0;
    assert forall|k: u32| #[trigger] m.contains_key(k) implies exists|i: int|
        0 <= i < defs.len() && defs[i].class_data_off != 0 && #[trigger] has_index(
            methods_of(classes[i]),
            k,
        ) by {
        let i = choose|i: int| 0 <= i < defs.len() && #[trigger] defines(defs, classes, i, k);
        assert(has_index(methods_of(classes[i]), k));
    }
}

/// The default layout of the runtime has the offsets of a DEX header and of a code item: that
/// of the file's size, that of the number of code units, and that of the bytecode.
pub proof fn law_default_layout_fits_the_format(h: DexHeader, c: CodeItem, rest: Seq<u8>)
    requires
        is_code_item(c),
    ensures
        ({
            let layout = android_13_plus();
            let item = code_item_bytes(c);
            &&& le32_at(header_bytes(h) + rest, layout.dex_header_file_size_offset as int) == h.file_size
            &&& 2 * le32_at(item, layout.code_item_insns_size_offset as int) == c.insns.len()
            &&& item.skip(layout.code_item_insns_offset as int) == c.insns
        }),
{
    lemma_header_fields(h, rest);
    let item = code_item_bytes(c);
    assert(item.subrange(0, item.len() as int) =~= item);
    lemma_code_item_held(item, 0, c);
    assert(item.skip(0x10) =~= c.insns);
}

} // verus!
