use dexdumper::bytes::{find_from, find_subslice, le16, le32, le64};
use dexdumper::dex::{
    format_type, read_uleb128, DexError, DexHeader, DexParser, MethodInfo, DEX_HEADER_SIZE,
};
use dexdumper::mutf8::decode_mutf8;

fn put_u16(data: &mut [u8], off: usize, value: u16) {
    data[off..off + 2].copy_from_slice(&value.to_le_bytes());
}

fn put_u32(data: &mut [u8], off: usize, value: u32) {
    data[off..off + 4].copy_from_slice(&value.to_le_bytes());
}

/// A file with four strings, three types, one prototype and one method:
/// `int Lcom/Foo;.bar(java.lang.String[])`.
fn small_dex() -> Vec<u8> {
    let mut dex = vec![0u8; 0x100];
    dex[0..8].copy_from_slice(b"dex\n035\0");
    put_u32(&mut dex, 32, 0x100);
    put_u32(&mut dex, 36, 0x70);
    put_u32(&mut dex, 40, 0x1234_5678);
    put_u32(&mut dex, 56, 4);
    put_u32(&mut dex, 60, 0x70);
    put_u32(&mut dex, 64, 3);
    put_u32(&mut dex, 68, 0x80);
    put_u32(&mut dex, 72, 1);
    put_u32(&mut dex, 76, 0x8c);
    put_u32(&mut dex, 88, 1);
    put_u32(&mut dex, 92, 0x98);
    // Strings.
    let strings: [&[u8]; 4] = [b"I", b"Lcom/Foo;", b"[Ljava/lang/String;", b"bar"];
    let mut at = 0xb0;
    for (i, s) in strings.iter().enumerate() {
        put_u32(&mut dex, 0x70 + 4 * i, at as u32);
        dex[at] = s.len() as u8;
        dex[at + 1..at + 1 + s.len()].copy_from_slice(s);
        at += s.len() + 2;
    }
    // Types: int, com.Foo, String[].
    put_u32(&mut dex, 0x80, 0);
    put_u32(&mut dex, 0x84, 1);
    put_u32(&mut dex, 0x88, 2);
    // Prototype: shorty, return type, parameters.
    put_u32(&mut dex, 0x8c, 0);
    put_u32(&mut dex, 0x90, 0);
    put_u32(&mut dex, 0x94, 0xa0);
    // Method: class, prototype, name.
    put_u16(&mut dex, 0x98, 1);
    put_u16(&mut dex, 0x9a, 0);
    put_u32(&mut dex, 0x9c, 3);
    // Type list with one type.
    put_u32(&mut dex, 0xa0, 1);
    put_u16(&mut dex, 0xa4, 2);
    dex
}

#[test]
fn uleb128_reads_multibyte_values() {
    assert_eq!(read_uleb128(&[0xe5, 0x8e, 0x26], 0).unwrap(), (624_485, 3));
}

#[test]
fn type_format_matches_java_style() {
    assert_eq!(format_type("I"), "int");
    assert_eq!(format_type("[[I"), "int[][]");
    assert_eq!(format_type("Ljava/lang/String;"), "java.lang.String");
}

#[test]
fn mutf8_decodes_ascii_and_bmp() {
    // ASCII fast path.
    assert_eq!(decode_mutf8(b"hello"), "hello");
    // 2-byte sequence: U+00E9 'é' = C3 A9.
    assert_eq!(decode_mutf8(&[0xC3, 0xA9]), "é");
    // 3-byte sequence: U+4E2D '中' = E4 B8 AD.
    assert_eq!(decode_mutf8(&[0xE4, 0xB8, 0xAD]), "中");
}

#[test]
fn mutf8_decodes_embedded_nul_pair() {
    // MUTF-8 encodes U+0000 as C0 80, which must round-trip to '\0'.
    assert_eq!(decode_mutf8(&[b'a', 0xC0, 0x80, b'b']), "a\u{0000}b");
}

#[test]
fn mutf8_decodes_surrogate_pair() {
    // U+1F600 grinning face. UTF-16: D83D DE00.
    // MUTF-8: ED A0 BD ED B8 80.
    let bytes = [0xED, 0xA0, 0xBD, 0xED, 0xB8, 0x80];
    assert_eq!(decode_mutf8(&bytes), "\u{1F600}");
}

#[test]
fn mutf8_replaces_malformed_with_fffd() {
    // Lone high surrogate (no low surrogate following) decodes to U+FFFD.
    assert_eq!(decode_mutf8(&[0xED, 0xA0, 0xBD]), "\u{FFFD}");
    // Truncated 2-byte sequence.
    assert_eq!(decode_mutf8(&[0xC3]), "\u{FFFD}");
    // Stray continuation byte.
    assert_eq!(decode_mutf8(&[b'a', 0x80, b'b']), "a\u{FFFD}b");
}

#[test]
fn mutf8_handles_truncated_and_broken_sequences() {
    assert_eq!(decode_mutf8(&[]), "");
    // The rest of a cut-off three-byte sequence is one replacement.
    assert_eq!(decode_mutf8(&[b'x', 0xE4, 0xB8]), "x\u{FFFD}");
    // A lead byte without its continuation is replaced, and decoding goes on behind it.
    assert_eq!(decode_mutf8(&[0xC3, b'x']), "\u{FFFD}x");
    // A sequence that the end cuts off takes nothing but its own bytes.
    assert_eq!(decode_mutf8(&[0xE4, b'a']), "\u{FFFD}a");
    assert_eq!(decode_mutf8(&[0xE4]), "\u{FFFD}");
    assert_eq!(decode_mutf8(&[0xE4, 0xE4]), "\u{FFFD}\u{FFFD}");
    assert_eq!(decode_mutf8(&[0xE4, b'x', b'y']), "\u{FFFD}xy");
    // A high surrogate with something else behind it.
    assert_eq!(
        decode_mutf8(&[0xED, 0xA0, 0xBD, 0xE4, 0xB8, 0xAD]),
        "\u{FFFD}中"
    );
    // Four-byte UTF-8 is not part of the encoding.
    assert_eq!(decode_mutf8(&[0xF0, 0x9F]), "\u{FFFD}\u{FFFD}");
}

#[test]
fn pretty_method_uses_class_and_params() {
    let info = MethodInfo {
        class_name: "Lcom/example/Foo;".to_string(),
        method_name: "bar".to_string(),
        return_type: "V".to_string(),
        parameters: vec!["I".to_string(), "Ljava/lang/String;".to_string()],
    };
    assert_eq!(
        info.pretty_method(),
        "void com.example.Foo.bar(int, java.lang.String)"
    );
}

#[test]
fn pretty_method_without_parameters() {
    let info = MethodInfo {
        class_name: "Foo".to_string(),
        method_name: "<init>".to_string(),
        return_type: "[J".to_string(),
        parameters: vec![],
    };
    assert_eq!(info.pretty_method(), "long[] Foo.<init>()");
}

#[test]
fn every_primitive_type_has_its_name() {
    let names = [
        ("V", "void"),
        ("Z", "boolean"),
        ("B", "byte"),
        ("S", "short"),
        ("C", "char"),
        ("I", "int"),
        ("J", "long"),
        ("F", "float"),
        ("D", "double"),
    ];
    for (descriptor, name) in names {
        assert_eq!(format_type(descriptor), name);
    }
    assert_eq!(format_type("Q"), "Q");
    assert_eq!(format_type(""), "");
    assert_eq!(format_type("["), "[]");
    assert_eq!(format_type("L;"), "L;");
    assert_eq!(format_type("[L\u{e9}t\u{e9}/\u{1F600};"), "\u{e9}t\u{e9}.\u{1F600}[]");
    assert_eq!(format_type("Lfoo"), "Lfoo");
}

#[test]
fn uleb128_limits() {
    assert_eq!(read_uleb128(&[0x7f], 0), Ok((127, 1)));
    assert_eq!(read_uleb128(&[0xff, 0xff, 0xff, 0xff, 0x0f], 0), Ok((u32::MAX, 5)));
    // Bits beyond the 32nd are dropped.
    assert_eq!(read_uleb128(&[0x80, 0x80, 0x80, 0x80, 0x7f], 0), Ok((0xf000_0000, 5)));
    // Five continued bytes are too many, and so is a missing one.
    assert_eq!(
        read_uleb128(&[0x80, 0x80, 0x80, 0x80, 0x80, 0x00], 0),
        Err(DexError::InvalidUleb128)
    );
    assert_eq!(read_uleb128(&[0x80], 0), Err(DexError::InvalidUleb128));
    assert_eq!(read_uleb128(&[0x01], 1), Err(DexError::InvalidUleb128));
}

#[test]
fn reads_the_header() {
    let dex = small_dex();
    let header = DexHeader::parse(&dex).unwrap();
    assert_eq!(&header.magic, b"dex\n035\0");
    assert_eq!(header.file_size, 0x100);
    assert_eq!(header.header_size, 0x70);
    assert_eq!(header.string_ids_size, 4);
    assert_eq!(header.method_ids_off, 0x98);
    assert_eq!(header.signature, [0; 20]);
    assert!(matches!(
        DexHeader::parse(&dex[..DEX_HEADER_SIZE - 1]),
        Err(DexError::TooSmall)
    ));
}

#[test]
fn resolves_names_through_the_tables() {
    let dex = small_dex();
    let parser = DexParser::new(&dex).unwrap();
    assert_eq!(parser.data(), dex.as_slice());
    assert_eq!(parser.header().type_ids_size, 3);
    assert_eq!(parser.get_string(3), Ok("bar".to_string()));
    assert_eq!(parser.get_type_descriptor(1), Ok("Lcom/Foo;".to_string()));
    let proto = parser.get_proto_info(0).unwrap();
    assert_eq!(proto.return_type, "I");
    assert_eq!(proto.parameters, vec!["[Ljava/lang/String;".to_string()]);
    let info = parser.get_method_info(0).unwrap();
    assert_eq!(info.pretty_method(), "int com.Foo.bar(java.lang.String[])");
}

#[test]
fn stored_text_is_read_back() {
    let mut dex = small_dex();
    // A stated length, then "é", U+0000 and U+1F600, then the end.
    let stored = [4, 0xC3, 0xA9, 0xC0, 0x80, 0xED, 0xA0, 0xBD, 0xED, 0xB8, 0x80, 0];
    dex.extend_from_slice(&stored);
    let parser = DexParser::new(&dex).unwrap();
    assert_eq!(parser.read_string_data(0x100), Ok("é\0\u{1F600}".to_string()));
    // The stated length does not bound the text.
    let mut longer = dex.clone();
    longer[0x100] = 1;
    let parser = DexParser::new(&longer).unwrap();
    assert_eq!(parser.read_string_data(0x100), Ok("é\0\u{1F600}".to_string()));
}

#[test]
fn reports_each_kind_of_error() {
    let dex = small_dex();
    assert!(matches!(DexParser::new(&dex[..16]), Err(DexError::TooSmall)));
    let mut wrong = dex.clone();
    wrong[0] = b'x';
    assert!(matches!(
        DexParser::new(&wrong),
        Err(DexError::InvalidMagic(0x0a78_6578))
    ));

    let parser = DexParser::new(&dex).unwrap();
    let index = |kind, idx| DexError::IndexOutOfBounds { kind, idx };
    assert_eq!(parser.get_string(4), Err(index("string", 4)));
    assert_eq!(parser.get_type_descriptor(3), Err(index("type", 3)));
    assert_eq!(parser.get_proto_info(1), Err(index("proto", 1)));
    assert_eq!(parser.get_method_info(1), Err(index("method", 1)));
    assert_eq!(parser.read_string_data(0x100), Err(DexError::OutOfBounds("string data")));

    // No zero byte ends the string.
    let mut open = dex.clone();
    open[0xff] = 1;
    open[0xfe] = 1;
    let parser = DexParser::new(&open).unwrap();
    assert_eq!(parser.read_string_data(0xfe), Err(DexError::OutOfBounds("string data")));

    // Tables outside the file.
    let mut far = dex.clone();
    put_u32(&mut far, 60, 0xfe);
    put_u32(&mut far, 68, 0xfe);
    put_u32(&mut far, 76, 0xf8);
    put_u32(&mut far, 92, 0xfc);
    let parser = DexParser::new(&far).unwrap();
    assert_eq!(parser.get_string(0), Err(DexError::OutOfBounds("string id offset")));
    assert_eq!(parser.get_type_descriptor(0), Err(DexError::OutOfBounds("type id offset")));
    assert_eq!(parser.get_proto_info(0), Err(DexError::OutOfBounds("proto id offset")));
    assert_eq!(parser.get_method_info(0), Err(DexError::OutOfBounds("method id offset")));

    // An offset that does not fit in 32 bits.
    let mut wide = dex.clone();
    put_u32(&mut wide, 56, u32::MAX);
    put_u32(&mut wide, 60, 1);
    let parser = DexParser::new(&wide).unwrap();
    assert_eq!(
        parser.get_string(u32::MAX - 1),
        Err(DexError::OutOfBounds("string id offset"))
    );

    // A type list that is cut off.
    let mut list = dex.clone();
    put_u32(&mut list, 0x94, 0xfe);
    let parser = DexParser::new(&list).unwrap();
    assert_eq!(parser.get_proto_info(0), Err(DexError::OutOfBounds("type list size")));
    put_u32(&mut list, 0x94, 0xfc);
    put_u32(&mut list, 0xfc, 1);
    let parser = DexParser::new(&list).unwrap();
    assert_eq!(parser.get_proto_info(0), Err(DexError::OutOfBounds("type item offset")));
}

#[test]
fn dex_errors_have_messages() {
    assert_eq!(DexError::TooSmall.message(), "dex file too small");
    assert_eq!(DexError::InvalidMagic(0xabc).message(), "invalid dex magic: abc");
    assert_eq!(DexError::OutOfBounds("string data").message(), "string data out of bounds");
    assert_eq!(
        DexError::IndexOutOfBounds { kind: "type", idx: 70000 }.message(),
        "type index out of bounds: 70000"
    );
    assert_eq!(DexError::InvalidUleb128.message(), "invalid ULEB128");
}

#[test]
fn finds_overlapping_subslice() {
    assert_eq!(find_subslice(b"aaaab", b"aab"), Some(2));
}

#[test]
fn searches_from_a_position() {
    assert_eq!(find_from(b"dex\ndex\n", b"dex\n", 1), Some(4));
    assert_eq!(find_from(b"dex\ndex\n", b"dex\n", 5), None);
    assert_eq!(find_subslice(b"ab", b"abc"), None);
    assert_eq!(find_subslice(b"abc", b""), Some(0));
}

#[test]
fn reads_little_endian_numbers() {
    let data = [1, 2, 3, 4, 5, 6, 7, 8];
    assert_eq!(le16(&data, 6), Some(0x0807));
    assert_eq!(le16(&data, 7), None);
    assert_eq!(le32(&data, 4), Some(0x0807_0605));
    assert_eq!(le32(&data, 5), None);
    assert_eq!(le64(&data, 0), Some(0x0807_0605_0403_0201));
    assert_eq!(le64(&data, 1), None);
    assert_eq!(le32(&data, usize::MAX), None);
}
