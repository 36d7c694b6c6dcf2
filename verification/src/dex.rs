//! DEX files: the header, the identifier tables and the names they lead to.
use crate::bytes::{le16_at, le32_at, read_le16, read_le32};
use crate::mutf8::{decode, decode_mutf8, encode, law_mutf8_has_no_zero_byte, law_mutf8_round_trip};
use crate::text::{chars_of, dec_text, hex_text, part_of, push_dec, push_hex, string_of, string_texts};
use vstd::prelude::*;
use vstd::string::StringExecFns;

verus! {

/// The first four bytes of a DEX file, `dex\n`, as a little-endian number.
pub const DEX_FILE_MAGIC: u32 = 0x0a78_6564;

/// The size of a DEX header.
pub const DEX_HEADER_SIZE: usize = 0x70;

/// The fields of a DEX header.
#[derive(Clone, Debug, PartialEq, Eq)]
pub struct DexHeader {
    pub magic: [u8; 8],
    pub checksum: u32,
    pub signature: [u8; 20],
    pub file_size: u32,
    pub header_size: u32,
    pub endian_tag: u32,
    pub link_size: u32,
    pub link_off: u32,
    pub map_off: u32,
    pub string_ids_size: u32,
    pub string_ids_off: u32,
    pub type_ids_size: u32,
    pub type_ids_off: u32,
    pub proto_ids_size: u32,
    pub proto_ids_off: u32,
    pub field_ids_size: u32,
    pub field_ids_off: u32,
    pub method_ids_size: u32,
    pub method_ids_off: u32,
    pub class_defs_size: u32,
    pub class_defs_off: u32,
    pub data_size: u32,
    pub data_off: u32,
}

/// Why a DEX file cannot be read.
#[derive(Clone, Copy, Debug, PartialEq, Eq)]
pub enum DexError {
    TooSmall,
    InvalidMagic(u32),
    OutOfBounds(&'static str),
    IndexOutOfBounds { kind: &'static str, idx: u32 },
    InvalidUleb128,
}

impl DexError {
    /// What the error says.
    pub open spec fn text(self) -> Seq<char> {
        match self {
            DexError::TooSmall => "dex file too small"@,
            DexError::InvalidMagic(magic) => "invalid dex magic: "@ + hex_text(magic as nat),
            DexError::OutOfBounds(what) => what@ + " out of bounds"@,
            DexError::IndexOutOfBounds { kind, idx } => kind@ + " index out of bounds: "@
                + dec_text(idx as nat),
            DexError::InvalidUleb128 => "invalid ULEB128"@,
        }
    }

    /// The message of the error.
    pub fn message(&self) -> (r: String)
        ensures
            r@ == self.text(),
    {
        match self {
            DexError::TooSmall => "dex file too small".to_owned(),
            DexError::InvalidMagic(magic) => {
                let mut r: String = "invalid dex magic: ".to_owned();
                push_hex(&mut r, *magic as u64);
                r
            },
            DexError::OutOfBounds(what) => {
                let mut r: String = (*what).to_owned();
                r.append(" out of bounds");
                r
            },
            DexError::IndexOutOfBounds { kind, idx } => {
                let mut r: String = (*kind).to_owned();
                r.append(" index out of bounds: ");
                push_dec(&mut r, *idx as u64);
                r
            },
            DexError::InvalidUleb128 => "invalid ULEB128".to_owned(),
        }
    }
}

/// `h` holds the header fields of the file `data`.
pub open spec fn is_header_of(h: DexHeader, data: Seq<u8>) -> bool {
    &&& data.len() >= DEX_HEADER_SIZE
    &&& h.magic@ == data.subrange(0, 8)
    &&& h.checksum == le32_at(data, 8)
    &&& h.signature@ == data.subrange(12, 32)
    &&& h.file_size == le32_at(data, 32)
    &&& h.header_size == le32_at(data, 36)
    &&& h.endian_tag == le32_at(data, 40)
    &&& h.link_size == le32_at(data, 44)
    &&& h.link_off == le32_at(data, 48)
    &&& h.map_off == le32_at(data, 52)
    &&& h.string_ids_size == le32_at(data, 56)
    &&& h.string_ids_off == le32_at(data, 60)
    &&& h.type_ids_size == le32_at(data, 64)
    &&& h.type_ids_off == le32_at(data, 68)
    &&& h.proto_ids_size == le32_at(data, 72)
    &&& h.proto_ids_off == le32_at(data, 76)
    &&& h.field_ids_size == le32_at(data, 80)
    &&& h.field_ids_off == le32_at(data, 84)
    &&& h.method_ids_size == le32_at(data, 88)
    &&& h.method_ids_off == le32_at(data, 92)
    &&& h.class_defs_size == le32_at(data, 96)
    &&& h.class_defs_off == le32_at(data, 100)
    &&& h.data_size == le32_at(data, 104)
    &&& h.data_off == le32_at(data, 108)
}

/// The header fields of the file `data`.
pub open spec fn header_of(data: Seq<u8>) -> DexHeader {
    choose|h: DexHeader| is_header_of(h, data)
}

/// A file has one header.
pub proof fn law_one_header(a: DexHeader, b: DexHeader, data: Seq<u8>)
    requires
        is_header_of(a, data),
        is_header_of(b, data),
    ensures
        a == b,
{
    assert forall|i: int| 0 <= i < 8 implies a.magic[i] == b.magic[i] by {
        assert(a.magic@[i] == b.magic@[i]);
    }
    assert(a.magic =~= b.magic);
    assert forall|i: int| 0 <= i < 20 implies a.signature[i] == b.signature[i] by {
        assert(a.signature@[i] == b.signature@[i]);
    }
    assert(a.signature =~= b.signature);
}

impl DexHeader {
    /// Reads the header at the start of `data`.
    pub fn parse(data: &[u8]) -> (r: Result<Self, DexError>)
        ensures
            match r {
                Ok(h) => is_header_of(h, data@) && h == header_of(data@),
                Err(e) => data@.len() < DEX_HEADER_SIZE && e == DexError::TooSmall,
            },
    {
        if data.len() < DEX_HEADER_SIZE {
            return Err(DexError::TooSmall);
        }
        let h = DexHeader {
            magic: [data[0], data[1], data[2], data[3], data[4], data[5], data[6], data[7]],
            checksum: read_le32(data, 8),
            signature: [
                data[12],
                data[13],
                data[14],
                data[15],
                data[16],
                data[17],
                data[18],
                data[19],
                data[20],
                data[21],
                data[22],
                data[23],
                data[24],
                data[25],
                data[26],
                data[27],
                data[28],
                data[29],
                data[30],
                data[31],
            ],
            file_size: read_le32(data, 32),
            header_size: read_le32(data, 36),
            endian_tag: read_le32(data, 40),
            link_size: read_le32(data, 44),
            link_off: read_le32(data, 48),
            map_off: read_le32(data, 52),
            string_ids_size: read_le32(data, 56),
            string_ids_off: read_le32(data, 60),
            type_ids_size: read_le32(data, 64),
            type_ids_off: read_le32(data, 68),
            proto_ids_size: read_le32(data, 72),
            proto_ids_off: read_le32(data, 76),
            field_ids_size: read_le32(data, 80),
            field_ids_off: read_le32(data, 84),
            method_ids_size: read_le32(data, 88),
            method_ids_off: read_le32(data, 92),
            class_defs_size: read_le32(data, 96),
            class_defs_off: read_le32(data, 100),
            data_size: read_le32(data, 104),
            data_off: read_le32(data, 108),
        };
        assert(h.magic@ =~= data@.subrange(0, 8));
        assert(h.signature@ =~= data@.subrange(12, 32));
        proof {
            law_one_header(h, header_of(data@), data@);
        }
        Ok(h)
    }
}

// ---------------------------------------------------------------------------
// ULEB128
// ---------------------------------------------------------------------------

/// The number of values that `n` groups of seven bits can write.
pub open spec fn pow128(n: nat) -> int
    decreases n,
{
    if n == 0 {
        1
    } else {
        128 * pow128((n - 1) as nat)
    }
}

/// The number written from `pos` on in at most `n` bytes, and where it ends: seven
/// bits in each byte, the low ones first, and the eighth bit set in all but the last.
pub open spec fn uleb_groups(data: Seq<u8>, pos: int, n: nat) -> Option<(int, int)>
    decreases n,
{
    if n == 0 || pos >= data.len() {
        None
    } else if data[pos] < 0x80 {
        Some((data[pos] as int, pos + 1))
    } else {
        match uleb_groups(data, pos + 1, (n - 1) as nat) {
            None => None,
            Some((high, end)) => Some((data[pos] - 0x80 + 128 * high, end)),
        }
    }
}

/// The ULEB128 number at `pos` and where it ends. It takes at most five bytes; bits
/// beyond the 32nd are dropped.
pub open spec fn uleb_at(data: Seq<u8>, pos: int) -> Result<(u32, int), DexError> {
    match uleb_groups(data, pos, 5) {
        None => Err(DexError::InvalidUleb128),
        Some((v, end)) => Ok(((v % 0x1_0000_0000) as u32, end)),
    }
}

/// The ULEB128 bytes of `v`.
pub open spec fn uleb_bytes(v: nat) -> Seq<u8>
    decreases v,
{
    if v < 0x80 {
        seq![v as u8]
    } else {
        seq![(0x80 + v % 0x80) as u8] + uleb_bytes(v / 0x80)
    }
}

fn read_groups(data: &[u8], pos: usize, n: u32) -> (r: Option<(u64, usize)>)
    requires
        n <= 5,
    ensures
        match r {
            None => uleb_groups(data@, pos as int, n as nat) is None,
            Some((v, end)) => {
                &&& uleb_groups(data@, pos as int, n as nat) == Some((v as int, end as int))
                &&& v < pow128(n as nat)
                &&& pos < end <= data@.len()
                &&& end - pos <= n
            },
        },
    decreases n,
{
    if n == 0 || pos >= data.len() {
        return None;
    }
    let b: u8 = data[pos];
    if b < 0x80 {
        proof {
            lemma_pow128_positive((n - 1) as nat);
        }
        return Some((b as u64, pos + 1));
    }
    match read_groups(data, pos + 1, n - 1) {
        None => None,
        Some((high, end)) => {
            proof {
                reveal_with_fuel(pow128, 6);
            }
            Some(((b - 0x80) as u64 + 128 * high, end))
        },
    }
}

proof fn lemma_pow128_positive(n: nat)
    ensures
        pow128(n) >= 1,
    decreases n,
{
    if n > 0 {
        lemma_pow128_positive((n - 1) as nat);
    }
}

/// Reads the ULEB128 number at `pos`, and says where the next byte is.
pub fn read_uleb128(data: &[u8], pos: usize) -> (r: Result<(u32, usize), DexError>)
    ensures
        match r {
            Ok((v, end)) => {
                &&& uleb_at(data@, pos as int) == Ok::<(u32, int), DexError>((v, end as int))
                &&& pos < end <= data@.len()
                &&& end - pos <= 5
            },
            Err(e) => uleb_at(data@, pos as int) == Err::<(u32, int), DexError>(e),
        },
{
    match read_groups(data, pos, 5) {
        None => Err(DexError::InvalidUleb128),
        Some((v, end)) => Ok(((v % 0x1_0000_0000) as u32, end)),
    }
}

/// A number that fits in `n` groups is read back from its bytes, whatever stands
/// before and after them.
proof fn lemma_uleb_read_back(v: nat, before: Seq<u8>, after: Seq<u8>, n: nat)
    requires
        n > 0,
        v < pow128(n),
    ensures
        uleb_groups(before + uleb_bytes(v) + after, before.len() as int, n) == Some(
            (v as int, (before.len() + uleb_bytes(v).len()) as int),
        ),
    decreases n,
{
    let data = before + uleb_bytes(v) + after;
    assert(data[before.len() as int] == uleb_bytes(v)[0]);
    if v >= 0x80 {
        let low = seq![(0x80 + v % 0x80) as u8];
        assert(pow128(0) == 1);
        lemma_uleb_read_back(v / 0x80, before + low, after, (n - 1) as nat);
        assert(before + low + uleb_bytes(v / 0x80) + after =~= data);
    }
}

/// Every 32-bit number is read back from its ULEB128 bytes, whatever stands before
/// and after them.
pub proof fn law_uleb_round_trip(v: u32, before: Seq<u8>, after: Seq<u8>)
    ensures
        uleb_at(before + uleb_bytes(v as nat) + after, before.len() as int) == Ok::<
            (u32, int),
            DexError,
        >((v, (before.len() + uleb_bytes(v as nat).len()) as int)),
{
    reveal_with_fuel(pow128, 6);
    lemma_uleb_read_back(v as nat, before, after, 5);
}

// ---------------------------------------------------------------------------
// Identifier tables
// ---------------------------------------------------------------------------

/// What a prototype is: its return type and its parameter types, as descriptors.
pub struct ProtoText {
    pub return_type: Seq<char>,
    pub parameters: Seq<Seq<char>>,
}

/// What a method is: its class, its name and its prototype.
pub struct MethodText {
    pub class_name: Seq<char>,
    pub method_name: Seq<char>,
    pub return_type: Seq<char>,
    pub parameters: Seq<Seq<char>>,
}

/// A method's names, as descriptors.
#[derive(Clone, Debug, PartialEq, Eq)]
pub struct MethodInfo {
    pub class_name: String,
    pub method_name: String,
    pub return_type: String,
    pub parameters: Vec<String>,
}

/// A prototype's types, as descriptors.
#[derive(Clone, Debug, PartialEq, Eq)]
pub struct ProtoInfo {
    pub return_type: String,
    pub parameters: Vec<String>,
}

impl View for MethodInfo {
    type V = MethodText;

    open spec fn view(&self) -> MethodText {
        MethodText {
            class_name: self.class_name@,
            method_name: self.method_name@,
            return_type: self.return_type@,
            parameters: string_texts(self.parameters@),
        }
    }
}

impl View for ProtoInfo {
    type V = ProtoText;

    open spec fn view(&self) -> ProtoText {
        ProtoText { return_type: self.return_type@, parameters: string_texts(self.parameters@) }
    }
}

/// Where entry `idx` of a table of `size`-byte entries at `base` stands. The distance
/// saturates at the largest 32-bit number.
pub open spec fn table_offset(base: u32, idx: u32, size: int) -> Option<int> {
    let distance = if idx * size > u32::MAX {
        u32::MAX as int
    } else {
        idx * size
    };
    if base + distance > u32::MAX {
        None
    } else {
        Some(base + distance)
    }
}

/// The position of the first zero byte from `from` on.
pub open spec fn first_zero(data: Seq<u8>, from: int) -> Option<int>
    decreases data.len() - from,
{
    if from >= data.len() {
        None
    } else if data[from] == 0 {
        Some(from)
    } else {
        first_zero(data, from + 1)
    }
}

/// The text at `offset`: its length in UTF-16 code units as a ULEB128 number, which
/// does not bound the bytes, then Modified UTF-8 up to a zero byte.
pub open spec fn string_data_at(data: Seq<u8>, offset: u32) -> Result<Seq<char>, DexError> {
    if offset >= data.len() {
        Err(DexError::OutOfBounds("string data"))
    } else {
        match uleb_at(data, offset as int) {
            Err(e) => Err(e),
            Ok((_, start)) => match first_zero(data, start) {
                None => Err(DexError::OutOfBounds("string data")),
                Some(end) => Ok(decode(data.subrange(start, end))),
            },
        }
    }
}

/// The text of string `idx`.
pub open spec fn string_at(data: Seq<u8>, h: DexHeader, idx: u32) -> Result<Seq<char>, DexError> {
    if idx >= h.string_ids_size {
        Err(DexError::IndexOutOfBounds { kind: "string", idx })
    } else {
        match table_offset(h.string_ids_off, idx, 4) {
            None => Err(DexError::OutOfBounds("string id offset")),
            Some(at) => if at + 4 > data.len() {
                Err(DexError::OutOfBounds("string id offset"))
            } else {
                string_data_at(data, le32_at(data, at))
            },
        }
    }
}

/// The descriptor of type `idx`.
pub open spec fn descriptor_at(data: Seq<u8>, h: DexHeader, idx: u32) -> Result<
    Seq<char>,
    DexError,
> {
    if idx >= h.type_ids_size {
        Err(DexError::IndexOutOfBounds { kind: "type", idx })
    } else {
        match table_offset(h.type_ids_off, idx, 4) {
            None => Err(DexError::OutOfBounds("type id offset")),
            Some(at) => if at + 4 > data.len() {
                Err(DexError::OutOfBounds("type id offset"))
            } else {
                string_at(data, h, le32_at(data, at))
            },
        }
    }
}

/// The descriptors of the first `n` entries of the type list at `offset`.
pub open spec fn parameters_at(data: Seq<u8>, h: DexHeader, offset: u32, n: nat) -> Result<
    Seq<Seq<char>>,
    DexError,
>
    decreases n,
{
    if n == 0 {
        Ok(seq![])
    } else {
        match parameters_at(data, h, offset, (n - 1) as nat) {
            Err(e) => Err(e),
            Ok(before) => {
                let at = offset + 4 + 2 * (n - 1);
                if at + 2 > data.len() {
                    Err(DexError::OutOfBounds("type item offset"))
                } else {
                    match descriptor_at(data, h, le16_at(data, at) as u32) {
                        Err(e) => Err(e),
                        Ok(text) => Ok(before.push(text)),
                    }
                }
            },
        }
    }
}

/// The descriptors of the type list at `offset`, which starts with its length.
pub open spec fn type_list_at(data: Seq<u8>, h: DexHeader, offset: u32) -> Result<
    Seq<Seq<char>>,
    DexError,
> {
    if offset + 4 > data.len() {
        Err(DexError::OutOfBounds("type list size"))
    } else {
        parameters_at(data, h, offset, le32_at(data, offset as int) as nat)
    }
}

/// Prototype `idx`.
pub open spec fn proto_at(data: Seq<u8>, h: DexHeader, idx: u32) -> Result<ProtoText, DexError> {
    if idx >= h.proto_ids_size {
        Err(DexError::IndexOutOfBounds { kind: "proto", idx })
    } else {
        match table_offset(h.proto_ids_off, idx, 12) {
            None => Err(DexError::OutOfBounds("proto id offset")),
            Some(at) => if at + 12 > data.len() {
                Err(DexError::OutOfBounds("proto id offset"))
            } else {
                match descriptor_at(data, h, le32_at(data, at + 4)) {
                    Err(e) => Err(e),
                    Ok(return_type) => if le32_at(data, at + 8) == 0 {
                        Ok(ProtoText { return_type, parameters: seq![] })
                    } else {
                        match type_list_at(data, h, le32_at(data, at + 8)) {
                            Err(e) => Err(e),
                            Ok(parameters) => Ok(ProtoText { return_type, parameters }),
                        }
                    },
                }
            },
        }
    }
}

/// Method `idx`.
pub open spec fn method_at(data: Seq<u8>, h: DexHeader, idx: u32) -> Result<MethodText, DexError> {
    if idx >= h.method_ids_size {
        Err(DexError::IndexOutOfBounds { kind: "method", idx })
    } else {
        match table_offset(h.method_ids_off, idx, 8) {
            None => Err(DexError::OutOfBounds("method id offset")),
            Some(at) => if at + 8 > data.len() {
                Err(DexError::OutOfBounds("method id offset"))
            } else {
                match descriptor_at(data, h, le16_at(data, at) as u32) {
                    Err(e) => Err(e),
                    Ok(class_name) => match string_at(data, h, le32_at(data, at + 4)) {
                        Err(e) => Err(e),
                        Ok(method_name) => match proto_at(data, h, le16_at(data, at + 2) as u32) {
                            Err(e) => Err(e),
                            Ok(proto) => Ok(
                                MethodText {
                                    class_name,
                                    method_name,
                                    return_type: proto.return_type,
                                    parameters: proto.parameters,
                                },
                            ),
                        },
                    },
                }
            },
        }
    }
}

/// The text of a result.
pub open spec fn text_result(r: Result<String, DexError>) -> Result<Seq<char>, DexError> {
    match r {
        Ok(s) => Ok(s@),
        Err(e) => Err(e),
    }
}

/// The texts of a result.
pub open spec fn texts_result(r: Result<Vec<String>, DexError>) -> Result<Seq<Seq<char>>, DexError> {
    match r {
        Ok(v) => Ok(string_texts(v@)),
        Err(e) => Err(e),
    }
}

/// A DEX file whose header has been read.
#[derive(Clone, Debug)]
pub struct DexParser<'a> {
    data: &'a [u8],
    header: DexHeader,
}

/// The file starts like a DEX file.
pub open spec fn has_dex_magic(data: Seq<u8>) -> bool {
    data.len() >= 4 && le32_at(data, 0) == DEX_FILE_MAGIC
}

fn table_entry(base: u32, idx: u32, size: u32) -> (r: Option<u32>)
    requires
        size <= 16,
    ensures
        match r {
            Some(at) => table_offset(base, idx, size as int) == Some(at as int),
            None => table_offset(base, idx, size as int) is None,
        },
{
    assert(0 <= idx * size <= 0xffff_ffff * 16) by (nonlinear_arith)
        requires
            0 <= idx <= 0xffff_ffff,
            0 <= size <= 16,
    ;
    let product: u64 = (idx as u64) * (size as u64);
    let distance: u64 = if product > u32::MAX as u64 {
        u32::MAX as u64
    } else {
        product
    };
    let at: u64 = base as u64 + distance;
    if at > u32::MAX as u64 {
        None
    } else {
        Some(at as u32)
    }
}

/// Whether `size` bytes stand at `offset`.
fn in_bounds(data: &[u8], offset: u32, size: usize) -> (r: bool)
    ensures
        r == (offset + size <= data@.len()),
        r ==> offset + size <= usize::MAX,
{
    size <= data.len() && offset as u64 <= (data.len() - size) as u64
}

/// A failed list stays failed when it grows.
proof fn lemma_parameters_error(data: Seq<u8>, h: DexHeader, offset: u32, n: nat, m: nat)
    requires
        n <= m,
        parameters_at(data, h, offset, n) is Err,
    ensures
        parameters_at(data, h, offset, m) == parameters_at(data, h, offset, n),
    decreases m - n,
{
    if n < m {
        lemma_parameters_error(data, h, offset, n, (m - 1) as nat);
    }
}

impl<'a> DexParser<'a> {
    /// The bytes of the file.
    pub closed spec fn bytes(&self) -> Seq<u8> {
        self.data@
    }

    /// The fields of the file's header.
    pub closed spec fn head(&self) -> DexHeader {
        self.header
    }

    /// Reads the header and tests the magic number.
    pub fn new(data: &'a [u8]) -> (r: Result<Self, DexError>)
        ensures
            match r {
                Ok(p) => {
                    &&& data@.len() >= DEX_HEADER_SIZE
                    &&& has_dex_magic(data@)
                    &&& p.bytes() == data@
                    &&& is_header_of(p.head(), data@)
                    &&& p.head() == header_of(data@)
                },
                Err(e) => if data@.len() < DEX_HEADER_SIZE {
                    e == DexError::TooSmall
                } else {
                    !has_dex_magic(data@) && e == DexError::InvalidMagic(le32_at(data@, 0))
                },
            },
    {
        let header = match DexHeader::parse(data) {
            Ok(h) => h,
            Err(e) => return Err(e),
        };
        let magic: u32 = read_le32(data, 0);
        if magic != DEX_FILE_MAGIC {
            return Err(DexError::InvalidMagic(magic));
        }
        Ok(DexParser { data, header })
    }

    /// The header.
    pub fn header(&self) -> (r: &DexHeader)
        ensures
            *r == self.head(),
    {
        &self.header
    }

    /// The bytes of the file.
    pub fn data(&self) -> (r: &'a [u8])
        ensures
            r@ == self.bytes(),
    {
        self.data
    }

    /// The text of a string.
    pub fn get_string(&self, string_idx: u32) -> (r: Result<String, DexError>)
        ensures
            text_result(r) == string_at(self.bytes(), self.head(), string_idx),
    {
        if string_idx >= self.header.string_ids_size {
            return Err(DexError::IndexOutOfBounds { kind: "string", idx: string_idx });
        }
        match table_entry(self.header.string_ids_off, string_idx, 4) {
            None => Err(DexError::OutOfBounds("string id offset")),
            Some(at) => match self.read_u32(at, "string id offset") {
                Err(e) => Err(e),
                Ok(offset) => self.read_string_data(offset),
            },
        }
    }

    /// The descriptor of a type.
    pub fn get_type_descriptor(&self, type_idx: u32) -> (r: Result<String, DexError>)
        ensures
            text_result(r) == descriptor_at(self.bytes(), self.head(), type_idx),
    {
        if type_idx >= self.header.type_ids_size {
            return Err(DexError::IndexOutOfBounds { kind: "type", idx: type_idx });
        }
        match table_entry(self.header.type_ids_off, type_idx, 4) {
            None => Err(DexError::OutOfBounds("type id offset")),
            Some(at) => match self.read_u32(at, "type id offset") {
                Err(e) => Err(e),
                Ok(string_idx) => self.get_string(string_idx),
            },
        }
    }

    /// The names of a method.
    pub fn get_method_info(&self, method_idx: u32) -> (r: Result<MethodInfo, DexError>)
        ensures
            match r {
                Ok(info) => method_at(self.bytes(), self.head(), method_idx) == Ok::<
                    MethodText,
                    DexError,
                >(info@),
                Err(e) => method_at(self.bytes(), self.head(), method_idx) == Err::<
                    MethodText,
                    DexError,
                >(e),
            },
    {
        if method_idx >= self.header.method_ids_size {
            return Err(DexError::IndexOutOfBounds { kind: "method", idx: method_idx });
        }
        let at: usize = match table_entry(self.header.method_ids_off, method_idx, 8) {
            None => return Err(DexError::OutOfBounds("method id offset")),
            Some(at) => {
                if !in_bounds(self.data, at, 8) {
                    return Err(DexError::OutOfBounds("method id offset"));
                }
                at as usize
            },
        };
        let class_name = match self.get_type_descriptor(read_le16(self.data, at) as u32) {
            Ok(text) => text,
            Err(e) => return Err(e),
        };
        let method_name = match self.get_string(read_le32(self.data, at + 4)) {
            Ok(text) => text,
            Err(e) => return Err(e),
        };
        match self.get_proto_info(read_le16(self.data, at + 2) as u32) {
            Ok(proto) => Ok(
                MethodInfo {
                    class_name,
                    method_name,
                    return_type: proto.return_type,
                    parameters: proto.parameters,
                },
            ),
            Err(e) => Err(e),
        }
    }

    /// The types of a prototype.
    pub fn get_proto_info(&self, proto_idx: u32) -> (r: Result<ProtoInfo, DexError>)
        ensures
            match r {
                Ok(info) => proto_at(self.bytes(), self.head(), proto_idx) == Ok::<
                    ProtoText,
                    DexError,
                >(info@),
                Err(e) => proto_at(self.bytes(), self.head(), proto_idx) == Err::<
                    ProtoText,
                    DexError,
                >(e),
            },
    {
        if proto_idx >= self.header.proto_ids_size {
            return Err(DexError::IndexOutOfBounds { kind: "proto", idx: proto_idx });
        }
        let at: usize = match table_entry(self.header.proto_ids_off, proto_idx, 12) {
            None => return Err(DexError::OutOfBounds("proto id offset")),
            Some(at) => {
                if !in_bounds(self.data, at, 12) {
                    return Err(DexError::OutOfBounds("proto id offset"));
                }
                at as usize
            },
        };
        let return_type = match self.get_type_descriptor(read_le32(self.data, at + 4)) {
            Ok(text) => text,
            Err(e) => return Err(e),
        };
        let parameters_off: u32 = read_le32(self.data, at + 8);
        let parameters = if parameters_off != 0 {
            match self.get_parameter_types(parameters_off) {
                Ok(parameters) => parameters,
                Err(e) => return Err(e),
            }
        } else {
            let none: Vec<String> = Vec::new();
            assert(string_texts(none@) =~= Seq::<Seq<char>>::empty());
            none
        };
        Ok(ProtoInfo { return_type, parameters })
    }

    /// The text of the string data at `offset`.
    pub fn read_string_data(&self, offset: u32) -> (r: Result<String, DexError>)
        ensures
            text_result(r) == string_data_at(self.bytes(), offset),
    {
        if offset as u64 >= self.data.len() as u64 {
            return Err(DexError::OutOfBounds("string data"));
        }
        let start: usize = match read_uleb128(self.data, offset as usize) {
            Ok((_, start)) => start,
            Err(e) => return Err(e),
        };
        let mut end: usize = start;
        while end < self.data.len() && self.data[end] != 0
            invariant
                start <= end <= self.data.len(),
                first_zero(self.data@, start as int) == first_zero(self.data@, end as int),
            decreases self.data.len() - end,
        {
            end += 1;
        }
        if end == self.data.len() {
            return Err(DexError::OutOfBounds("string data"));
        }
        Ok(decode_mutf8(vstd::slice::slice_subrange(self.data, start, end)))
    }

    /// The descriptors of the type list at `offset`.
    fn get_parameter_types(&self, offset: u32) -> (r: Result<Vec<String>, DexError>)
        ensures
            texts_result(r) == type_list_at(self.bytes(), self.head(), offset),
    {
        let size: u32 = match self.read_u32(offset, "type list size") {
            Ok(size) => size,
            Err(e) => return Err(e),
        };
        let mut parameters: Vec<String> = Vec::new();
        let ghost (d, h) = (self.bytes(), self.head());
        assert(string_texts(parameters@) =~= Seq::<Seq<char>>::empty());
        for i in 0..size
            invariant
                d == self.bytes(),
                h == self.head(),
                offset + 4 <= self.data.len(),
                parameters_at(d, h, offset, i as nat) == Ok::<Seq<Seq<char>>, DexError>(
                    string_texts(parameters@),
                ),
                type_list_at(d, h, offset) == parameters_at(d, h, offset, size as nat),
        {
            let ghost before = string_texts(parameters@);
            let left: usize = self.data.len() - 4 - offset as usize;
            if (left as u64) < 2 * (i as u64) + 2 {
                proof {
                    lemma_parameters_error(d, h, offset, (i + 1) as nat, size as nat);
                }
                return Err(DexError::OutOfBounds("type item offset"));
            }
            let at: usize = offset as usize + 4 + 2 * (i as usize);
            match self.get_type_descriptor(read_le16(self.data, at) as u32) {
                Ok(text) => {
                    parameters.push(text);
                    assert(string_texts(parameters@) =~= before.push(text@));
                },
                Err(e) => {
                    proof {
                        lemma_parameters_error(d, h, offset, (i + 1) as nat, size as nat);
                    }
                    return Err(e);
                },
            }
        }
        Ok(parameters)
    }

    /// The number at `offset`; `label` names it in the error.
    fn read_u32(&self, offset: u32, label: &'static str) -> (r: Result<u32, DexError>)
        ensures
            r == (if offset + 4 <= self.bytes().len() {
                Ok(le32_at(self.bytes(), offset as int))
            } else {
                Err(DexError::OutOfBounds(label))
            }),
    {
        if in_bounds(self.data, offset, 4) {
            Ok(read_le32(self.data, offset as usize))
        } else {
            Err(DexError::OutOfBounds(label))
        }
    }
}

/// A zero byte is found where it is the first one.
proof fn lemma_first_zero(data: Seq<u8>, from: int, at: int)
    requires
        0 <= from <= at < data.len(),
        data[at] == 0,
        forall|i: int| from <= i < at ==> data[i] != 0,
    ensures
        first_zero(data, from) == Some(at),
    decreases at - from,
{
    if from < at {
        lemma_first_zero(data, from + 1, at);
    }
}

/// A text stored as string data, with any length before it, is read back from where
/// it was stored.
pub proof fn law_string_data_read_back(s: Seq<char>, units: u32, before: Seq<u8>, after: Seq<u8>)
    requires
        before.len() <= u32::MAX,
    ensures
        string_data_at(
            before + uleb_bytes(units as nat) + encode(s).push(0) + after,
            before.len() as u32,
        ) == Ok::<Seq<char>, DexError>(s),
{
    let length = uleb_bytes(units as nat);
    let body = encode(s);
    let data = before + length + body.push(0) + after;
    let start = (before.len() + length.len()) as int;
    law_uleb_round_trip(units, before, body.push(0) + after);
    assert(before + length + (body.push(0) + after) =~= data);
    law_mutf8_has_no_zero_byte(s);
    assert forall|i: int| start <= i < start + body.len() implies data[i] != 0 by {
        assert(data[i] == body[i - start]);
    }
    assert(data[start + body.len()] == 0);
    lemma_first_zero(data, start, (start + body.len()) as int);
    assert(data.subrange(start, (start + body.len()) as int) =~= body);
    law_mutf8_round_trip(s);
}

// ---------------------------------------------------------------------------
// Names as Java writes them
// ---------------------------------------------------------------------------

/// The name of a primitive type.
pub open spec fn primitive_name(c: char) -> Option<Seq<char>> {
    if c == 'V' {
        Some("void"@)
    } else if c == 'Z' {
        Some("boolean"@)
    } else if c == 'B' {
        Some("byte"@)
    } else if c == 'S' {
        Some("short"@)
    } else if c == 'C' {
        Some("char"@)
    } else if c == 'I' {
        Some("int"@)
    } else if c == 'J' {
        Some("long"@)
    } else if c == 'F' {
        Some("float"@)
    } else if c == 'D' {
        Some("double"@)
    } else {
        None
    }
}

/// The descriptor of a class: `L`, a name, `;`.
pub open spec fn is_class_descriptor(s: Seq<char>) -> bool {
    s.len() > 2 && s.first() == 'L' && s.last() == ';'
}

/// A class descriptor without its marks, with dots in place of slashes. Any other text
/// stands for itself.
pub open spec fn class_text(s: Seq<char>) -> Seq<char> {
    if is_class_descriptor(s) {
        s.subrange(1, s.len() - 1).map_values(
            |c: char|
                if c == '/' {
                    '.'
                } else {
                    c
                },
        )
    } else {
        s
    }
}

/// A type descriptor as Java writes the type.
pub open spec fn type_text(s: Seq<char>) -> Seq<char>
    decreases s.len(),
{
    if s.len() == 1 && primitive_name(s[0]) is Some {
        primitive_name(s[0])->Some_0
    } else if s.len() > 0 && s[0] == '[' {
        type_text(s.drop_first()) + "[]"@
    } else {
        class_text(s)
    }
}

/// The first `n` types, with a comma and a blank between each two.
pub open spec fn type_list_text(types: Seq<Seq<char>>, n: nat) -> Seq<char>
    decreases n,
{
    if n == 0 {
        seq![]
    } else if n == 1 {
        type_text(types[0])
    } else {
        type_list_text(types, (n - 1) as nat) + ", "@ + type_text(types[n - 1])
    }
}

impl MethodText {
    /// The method as Java writes it, with its return type, its class and its parameters.
    pub open spec fn pretty(self) -> Seq<char> {
        (type_text(self.return_type).push(' ') + class_text(self.class_name)).push('.')
            + self.method_name.push('(') + type_list_text(
            self.parameters,
            self.parameters.len(),
        ).push(')')
    }
}

/// Appends a class name.
fn fmt_class_name(out: &mut String, class_name: &[char])
    ensures
        final(out)@ == old(out)@ + class_text(class_name@),
{
    let ghost before = out@;
    let n: usize = class_name.len();
    if n > 2 && class_name[0] == 'L' && class_name[n - 1] == ';' {
        let ghost text = class_text(class_name@);
        for i in 1..n - 1
            invariant
                n == class_name@.len(),
                n > 2,
                text == class_text(class_name@),
                is_class_descriptor(class_name@),
                out@ == before + text.take(i - 1),
        {
            let c: char = class_name[i];
            out.push(
                if c == '/' {
                    '.'
                } else {
                    c
                },
            );
            assert(out@ =~= before + text.take(i as int));
        }
        assert(text.take(text.len() as int) =~= text);
    } else {
        let text: String = string_of(class_name);
        out.append(text.as_str());
    }
}

/// The name of a primitive type.
fn primitive(c: char) -> (r: Option<&'static str>)
    ensures
        match r {
            Some(name) => primitive_name(c) == Some(name@),
            None => primitive_name(c) is None,
        },
{
    match c {
        'V' => Some("void"),
        'Z' => Some("boolean"),
        'B' => Some("byte"),
        'S' => Some("short"),
        'C' => Some("char"),
        'I' => Some("int"),
        'J' => Some("long"),
        'F' => Some("float"),
        'D' => Some("double"),
        _ => None,
    }
}

/// Appends a type.
fn fmt_type(out: &mut String, type_desc: &[char])
    ensures
        final(out)@ == old(out)@ + type_text(type_desc@),
{
    let ghost before = out@;
    // The leading brackets, then the element type, then a pair of brackets for each.
    let mut rank: usize = 0;
    while rank < type_desc.len() && type_desc[rank] == '['
        invariant
            rank <= type_desc.len(),
            forall|j: int| 0 <= j < rank ==> type_desc@[j] == '[',
        decreases type_desc.len() - rank,
    {
        rank += 1;
    }
    let element = part_of(type_desc, rank, type_desc.len());
    assert(element@ =~= type_desc@.skip(rank as int));
    let name: Option<&'static str> = if element.len() == 1 {
        primitive(element[0])
    } else {
        None
    };
    match name {
        Some(name) => out.append(name),
        None => fmt_class_name(out, element.as_slice()),
    }
    assert(out@ == before + type_text(type_desc@.skip(rank as int)));
    let mut i: usize = rank;
    while i > 0
        invariant
            i <= rank <= type_desc.len(),
            forall|j: int| 0 <= j < rank ==> type_desc@[j] == '[',
            out@ == before + type_text(type_desc@.skip(i as int)),
        decreases i,
    {
        let ghost inner = type_desc@.skip(i as int);
        i -= 1;
        assert(type_desc@.skip(i as int).drop_first() =~= inner);
        out.append("[]");
        assert(out@ =~= before + (type_text(inner) + "[]"@));
        assert(primitive_name('[') is None);
    }
    assert(type_desc@.skip(0) =~= type_desc@);
}

/// A type descriptor as Java writes the type.
pub fn format_type(type_desc: &str) -> (out: String)
    ensures
        out@ == type_text(type_desc@),
{
    let mut out: String = String::new();
    let chars = chars_of(type_desc);
    fmt_type(&mut out, chars.as_slice());
    assert(out@ =~= type_text(type_desc@));
    out
}

impl MethodInfo {
    /// The method as Java writes it.
    pub fn pretty_method(&self) -> (out: String)
        ensures
            out@ == self@.pretty(),
    {
        let ghost m = self@;
        let mut out: String = format_type(self.return_type.as_str());
        out.push(' ');
        let class_name = chars_of(self.class_name.as_str());
        fmt_class_name(&mut out, class_name.as_slice());
        out.push('.');
        out.append(self.method_name.as_str());
        out.push('(');
        let ghost head = (type_text(m.return_type).push(' ') + class_text(m.class_name)).push('.')
            + m.method_name.push('(');
        assert(out@ =~= head);
        assert(head + type_list_text(m.parameters, 0) =~= head);
        for i in 0..self.parameters.len()
            invariant
                m == self@,
                out@ == head + type_list_text(m.parameters, i as nat),
        {
            if i > 0 {
                out.append(", ");
            }
            let parameter = chars_of(self.parameters[i].as_str());
            assert(parameter@ == m.parameters[i as int]);
            fmt_type(&mut out, parameter.as_slice());
            assert(out@ =~= head + type_list_text(m.parameters, (i + 1) as nat));
        }
        out.push(')');
        assert(out@ =~= m.pretty());
        out
    }
}

/// The name of a class is written with a dot for each slash, and otherwise as it is.
pub proof fn law_class_names_are_dotted(name: Seq<char>, other: Seq<char>)
    requires
        name.len() > 0,
        other.len() < 3 || other[0] != 'L' || other.last() != ';',
    ensures
        ({
            let text = class_text(seq!['L'] + name + seq![';']);
            &&& text.len() == name.len()
            &&& forall|i: int|
                0 <= i < name.len() ==> #[trigger] text[i] == (if name[i] == '/' {
                    '.'
                } else {
                    name[i]
                })
        }),
        class_text(other) == other,
{
    let s = seq!['L'] + name + seq![';'];
    assert(s.subrange(1, s.len() - 1) =~= name);
    assert(s.first() == 'L' && s.last() == ';');
}

/// The types that are no classes have their Java names, and an array has that of its elements
/// with a pair of brackets.
pub proof fn law_types_have_their_java_names(element: Seq<char>, name: Seq<char>)
    requires
        name.len() > 0,
    ensures
        type_text(seq!['V']) == "void"@,
        type_text(seq!['Z']) == "boolean"@,
        type_text(seq!['B']) == "byte"@,
        type_text(seq!['S']) == "short"@,
        type_text(seq!['C']) == "char"@,
        type_text(seq!['I']) == "int"@,
        type_text(seq!['J']) == "long"@,
        type_text(seq!['F']) == "float"@,
        type_text(seq!['D']) == "double"@,
        type_text(seq!['['] + element) == type_text(element) + "[]"@,
        type_text(seq!['L'] + name + seq![';']) == class_text(seq!['L'] + name + seq![';']),
{
    let array = seq!['['] + element;
    assert(array.drop_first() =~= element);
    assert(array[0] == '[');
    assert(primitive_name('[') is None);
    let class = seq!['L'] + name + seq![';'];
    assert(class[0] == 'L');
}

/// A method without parameters ends with an empty pair of brackets; each parameter more comes
/// behind those before, with a comma and a blank between.
pub proof fn law_parameters_are_listed_in_order(m: MethodText, parameter: Seq<char>)
    ensures
        m.parameters.len() == 0 ==> m.pretty() == type_text(m.return_type) + " "@ + class_text(
            m.class_name,
        ) + "."@ + m.method_name + "()"@,
        ({
            let more = MethodText { parameters: m.parameters.push(parameter), ..m };
            more.pretty() == m.pretty().drop_last() + (if m.parameters.len() == 0 {
                ""@
            } else {
                ", "@
            }) + type_text(parameter) + ")"@
        }),
{
    reveal_strlit(" ");
    reveal_strlit(".");
    reveal_strlit("()");
    reveal_strlit(")");
    reveal_strlit("");
    let more = MethodText { parameters: m.parameters.push(parameter), ..m };
    let n = m.parameters.len();
    lemma_type_list_of_prefix(m.parameters, parameter, n);
    if n == 0 {
        assert(m.pretty() =~= type_text(m.return_type) + " "@ + class_text(m.class_name) + "."@
            + m.method_name + "()"@);
    }
    assert(more.pretty() =~= m.pretty().drop_last() + (if n == 0 {
        ""@
    } else {
        ", "@
    }) + type_text(parameter) + ")"@);
}

proof fn lemma_type_list_of_prefix(types: Seq<Seq<char>>, more: Seq<char>, n: nat)
    requires
        n <= types.len(),
    ensures
        type_list_text(types.push(more), n) == type_list_text(types, n),
    decreases n,
{
    if n > 0 {
        lemma_type_list_of_prefix(types, more, (n - 1) as nat);
        assert(types.push(more)[n - 1] == types[n - 1]);
    }
}

/// A number of more than five bytes, or one that the end cuts off, is no ULEB128 number.
pub proof fn law_uleb_has_an_end(data: Seq<u8>, pos: int)
    requires
        0 <= pos,
        forall|i: int| pos <= i < pos + 5 && i < data.len() ==> #[trigger] data[i] >= 0x80,
    ensures
        uleb_at(data, pos) == Err::<(u32, int), DexError>(DexError::InvalidUleb128),
{
    reveal_with_fuel(uleb_groups, 6);
}

} // verus!
