//! Modified UTF-8, the text encoding of DEX files.
//!
//! It differs from UTF-8 in two places: U+0000 is written as the two bytes
//! `C0 80`, so that a zero byte can end a string, and a code point from U+10000
//! on is written as a UTF-16 surrogate pair, three bytes for each surrogate.
use vstd::prelude::*;

verus! {

/// The character that stands for malformed input.
pub const REPLACEMENT: char = '\u{FFFD}';

/// The two-byte form of a code point below 0x800.
pub open spec fn two_bytes(v: int) -> Seq<u8> {
    seq![(0xc0 + v / 0x40) as u8, (0x80 + v % 0x40) as u8]
}

/// The three-byte form of a UTF-16 code unit.
pub open spec fn three_bytes(v: int) -> Seq<u8> {
    seq![(0xe0 + v / 0x1000) as u8, (0x80 + v / 0x40 % 0x40) as u8, (0x80 + v % 0x40) as u8]
}

/// The bytes that encode a character.
pub open spec fn encode_char(c: char) -> Seq<u8> {
    let v = c as int;
    if 1 <= v < 0x80 {
        seq![v as u8]
    } else if v < 0x800 {
        two_bytes(v)
    } else if v < 0x1_0000 {
        three_bytes(v)
    } else {
        three_bytes(0xd800 + (v - 0x1_0000) / 0x400) + three_bytes(0xdc00 + (v - 0x1_0000) % 0x400)
    }
}

/// The bytes that encode a text.
pub open spec fn encode(s: Seq<char>) -> Seq<u8>
    decreases s.len(),
{
    if s.len() == 0 {
        seq![]
    } else {
        encode_char(s[0]) + encode(s.drop_first())
    }
}

/// A byte that continues a sequence.
pub open spec fn is_continuation(b: u8) -> bool {
    0x80 <= b < 0xc0
}

/// A well-formed three-byte sequence stands at `i`.
pub open spec fn three_bytes_at(s: Seq<u8>, i: int) -> bool {
    &&& i + 3 <= s.len()
    &&& 0xe0 <= s[i] < 0xf0
    &&& is_continuation(s[i + 1])
    &&& is_continuation(s[i + 2])
}

/// The code unit of the three-byte sequence at `i`.
pub open spec fn unit_at(s: Seq<u8>, i: int) -> int {
    (s[i] - 0xe0) * 0x1000 + (s[i + 1] - 0x80) * 0x40 + (s[i + 2] - 0x80)
}

/// The first six bytes of `s` write a surrogate pair.
pub open spec fn is_pair(s: Seq<u8>) -> bool {
    &&& three_bytes_at(s, 0)
    &&& three_bytes_at(s, 3)
    &&& 0xd800 <= unit_at(s, 0) < 0xdc00
    &&& 0xdc00 <= unit_at(s, 3) < 0xe000
}

/// The character with that number, or the replacement for a lone surrogate.
pub open spec fn char_or_replacement(v: int) -> char {
    if 0xd800 <= v < 0xe000 {
        REPLACEMENT
    } else {
        v as char
    }
}

/// The first character of `s`, and the number of bytes it takes.
pub open spec fn decode_first(s: Seq<u8>) -> (char, int) {
    let b = s[0];
    if b < 0x80 {
        (b as char, 1)
    } else if 0xc0 <= b < 0xe0 {
        if s.len() >= 2 && is_continuation(s[1]) {
            (((b - 0xc0) * 0x40 + (s[1] - 0x80)) as char, 2)
        } else {
            (REPLACEMENT, 1)
        }
    } else if 0xe0 <= b < 0xf0 {
        if s.len() == 2 && is_continuation(s[1]) {
            (REPLACEMENT, 2)
        } else if s.len() < 3 {
            (REPLACEMENT, 1)
        } else if is_pair(s) {
            ((0x1_0000 + (unit_at(s, 0) - 0xd800) * 0x400 + (unit_at(s, 3) - 0xdc00)) as char, 6)
        } else if three_bytes_at(s, 0) {
            (char_or_replacement(unit_at(s, 0)), 3)
        } else {
            (REPLACEMENT, 1)
        }
    } else {
        (REPLACEMENT, 1)
    }
}

/// The text that `s` encodes, with a replacement for each malformed sequence.
pub open spec fn decode(s: Seq<u8>) -> Seq<char>
    decreases s.len(),
{
    if s.len() == 0 {
        seq![]
    } else {
        let (c, n) = decode_first(s);
        seq![c] + decode(s.skip(n))
    }
}

fn continuation(b: u8) -> (r: bool)
    ensures
        r == is_continuation(b),
{
    0x80 <= b && b < 0xc0
}

/// The code unit of the three-byte sequence at `i`, if one stands there.
fn unit(bytes: &[u8], i: usize) -> (r: Option<u32>)
    requires
        i <= bytes@.len(),
    ensures
        match r {
            Some(v) => three_bytes_at(bytes@, i as int) && v == unit_at(bytes@, i as int),
            None => !three_bytes_at(bytes@, i as int),
        },
{
    if bytes.len() - i < 3 {
        return None;
    }
    let (b0, b1, b2) = (bytes[i], bytes[i + 1], bytes[i + 2]);
    if 0xe0 <= b0 && b0 < 0xf0 && continuation(b1) && continuation(b2) {
        Some((b0 - 0xe0) as u32 * 0x1000 + (b1 - 0x80) as u32 * 0x40 + (b2 - 0x80) as u32)
    } else {
        None
    }
}

/// The character with that number, or the replacement where there is none.
fn char_for(v: u32) -> (c: char)
    requires
        v <= 0x10_ffff,
    ensures
        c == char_or_replacement(v as int),
{
    match char::from_u32(v) {
        Some(c) => c,
        None => REPLACEMENT,
    }
}

/// Decodes the character at `i`.
fn next_char(bytes: &[u8], i: usize) -> (r: (char, usize))
    requires
        i < bytes@.len(),
    ensures
        (r.0, r.1 as int) == decode_first(bytes@.skip(i as int)),
        0 < r.1 <= bytes@.len() - i,
{
    let ghost s = bytes@.skip(i as int);
    assert(i + 3 <= bytes@.len() ==> unit_at(s, 0) == unit_at(bytes@, i as int));
    assert(i + 6 <= bytes@.len() ==> unit_at(s, 3) == unit_at(bytes@, i + 3));
    let b0: u8 = bytes[i];
    let left: usize = bytes.len() - i;
    if b0 < 0x80 {
        (b0 as char, 1)
    } else if 0xc0 <= b0 && b0 < 0xe0 {
        if left >= 2 && continuation(bytes[i + 1]) {
            (char_for((b0 - 0xc0) as u32 * 0x40 + (bytes[i + 1] - 0x80) as u32), 2)
        } else {
            (REPLACEMENT, 1)
        }
    } else if 0xe0 <= b0 && b0 < 0xf0 {
        if left == 2 && continuation(bytes[i + 1]) {
            return (REPLACEMENT, 2);
        }
        if left < 3 {
            return (REPLACEMENT, 1);
        }
        match unit(bytes, i) {
            None => (REPLACEMENT, 1),
            Some(high) => {
                if 0xd800 <= high && high < 0xdc00 {
                    if let Some(low) = unit(bytes, i + 3) {
                        if 0xdc00 <= low && low < 0xe000 {
                            return (char_for(0x1_0000 + (high - 0xd800) * 0x400 + (low - 0xdc00)), 6);
                        }
                    }
                }
                (char_for(high), 3)
            },
        }
    } else {
        (REPLACEMENT, 1)
    }
}

/// Decodes Modified UTF-8. A byte that starts no well-formed sequence becomes U+FFFD, and so
/// does a sequence that the end of the input cuts off; what follows is decoded as it is.
pub fn decode_mutf8(bytes: &[u8]) -> (out: String)
    ensures
        out@ == decode(bytes@),
{
    let mut out: String = String::new();
    let mut i: usize = 0;
    assert(bytes@.skip(0) =~= bytes@);
    while i < bytes.len()
        invariant
            i <= bytes@.len(),
            out@ + decode(bytes@.skip(i as int)) == decode(bytes@),
        decreases bytes@.len() - i,
    {
        let (c, n) = next_char(bytes, i);
        let ghost s = bytes@.skip(i as int);
        assert(s.skip(n as int) =~= bytes@.skip(i + n));
        assert(out@ + (seq![c] + decode(s.skip(n as int))) =~= out@.push(c) + decode(
            s.skip(n as int),
        ));
        out.push(c);
        i = i + n;
    }
    assert(out@ + decode(bytes@.skip(i as int)) =~= out@);
    out
}

/// The three bytes of a code unit are well formed and hold it, wherever they stand.
proof fn lemma_three_bytes(v: int, s: Seq<u8>, i: int)
    requires
        0 <= v < 0x1_0000,
        0 <= i,
        i + 3 <= s.len(),
        s[i] == three_bytes(v)[0],
        s[i + 1] == three_bytes(v)[1],
        s[i + 2] == three_bytes(v)[2],
    ensures
        three_bytes_at(s, i),
        unit_at(s, i) == v,
{
}

/// A character of the basic plane is read back, whatever follows.
proof fn lemma_first_of_basic(c: char, rest: Seq<u8>)
    requires
        (c as int) < 0x1_0000,
    ensures
        decode_first(encode_char(c) + rest) == (c, encode_char(c).len() as int),
{
    let v = c as int;
    let s = encode_char(c) + rest;
    if v >= 0x800 {
        assert(s[0] == three_bytes(v)[0] && s[1] == three_bytes(v)[1] && s[2] == three_bytes(v)[2]);
        lemma_three_bytes(v, s, 0);
    } else if v == 0 || v >= 0x80 {
        assert(s[0] == two_bytes(v)[0] && s[1] == two_bytes(v)[1]);
    }
}

/// The encoding of a character decodes to it, whatever follows.
proof fn lemma_first_of_encoded(c: char, rest: Seq<u8>)
    ensures
        decode_first(encode_char(c) + rest) == (c, encode_char(c).len() as int),
{
    let v = c as int;
    if v < 0x1_0000 {
        lemma_first_of_basic(c, rest);
    } else {
        let s = encode_char(c) + rest;
        let high = 0xd800 + (v - 0x1_0000) / 0x400;
        let low = 0xdc00 + (v - 0x1_0000) % 0x400;
        let (a, b) = (three_bytes(high), three_bytes(low));
        assert(s[0] == a[0] && s[1] == a[1] && s[2] == a[2]);
        assert(s[3] == b[0] && s[4] == b[1] && s[5] == b[2]);
        lemma_three_bytes(high, s, 0);
        lemma_three_bytes(low, s, 3);
        assert(is_pair(s));
    }
}

/// Every text is read back from its encoding.
pub proof fn law_mutf8_round_trip(s: Seq<char>)
    ensures
        decode(encode(s)) == s,
    decreases s.len(),
{
    if s.len() > 0 {
        let rest = encode(s.drop_first());
        lemma_first_of_encoded(s[0], rest);
        law_mutf8_round_trip(s.drop_first());
        assert((encode_char(s[0]) + rest).skip(encode_char(s[0]).len() as int) =~= rest);
        assert(seq![s[0]] + s.drop_first() =~= s);
    }
}

proof fn lemma_no_zero_in_char(c: char, i: int)
    requires
        0 <= i < encode_char(c).len(),
    ensures
        encode_char(c)[i] != 0,
{
    let v = c as int;
    if v >= 0x1_0000 {
        let high = three_bytes(0xd800 + (v - 0x1_0000) / 0x400);
        let low = three_bytes(0xdc00 + (v - 0x1_0000) % 0x400);
        assert(high[0] != 0 && high[1] != 0 && high[2] != 0);
        assert(low[0] != 0 && low[1] != 0 && low[2] != 0);
        assert(i == 0 || i == 1 || i == 2 || i == 3 || i == 4 || i == 5);
    } else {
        assert(i == 0 || i == 1 || i == 2);
    }
}

/// No text is encoded with a zero byte, so a zero byte can end it.
pub proof fn law_mutf8_has_no_zero_byte(s: Seq<char>)
    ensures
        forall|i: int| 0 <= i < encode(s).len() ==> encode(s)[i] != 0,
    decreases s.len(),
{
    if s.len() > 0 {
        law_mutf8_has_no_zero_byte(s.drop_first());
        let (head, rest) = (encode_char(s[0]), encode(s.drop_first()));
        assert forall|i: int| 0 <= i < encode(s).len() implies encode(s)[i] != 0 by {
            if i < head.len() {
                lemma_no_zero_in_char(s[0], i);
            }
            assert(encode(s)[i] == (if i < head.len() {
                head[i]
            } else {
                rest[i - head.len()]
            }));
        }
    }
}

/// Text of ASCII bytes is read byte by byte.
pub proof fn law_mutf8_of_ascii(s: Seq<u8>)
    requires
        forall|i: int| 0 <= i < s.len() ==> s[i] < 0x80,
    ensures
        decode(s) == s.map_values(|b: u8| b as char),
    decreases s.len(),
{
    if s.len() > 0 {
        assert(s.skip(1) =~= s.drop_first());
        law_mutf8_of_ascii(s.drop_first());
        assert(decode(s) =~= s.map_values(|b: u8| b as char));
    } else {
        assert(decode(s) =~= s.map_values(|b: u8| b as char));
    }
}

/// A character of ASCII at the end of any bytes is kept, whatever stands before it.
pub proof fn law_ascii_is_never_lost(s: Seq<u8>, b: u8)
    requires
        b < 0x80,
    ensures
        decode(s.push(b)).len() > 0,
        decode(s.push(b)).last() == b as char,
    decreases s.len(),
{
    let all = s.push(b);
    let (c, n) = decode_first(all);
    if s.len() == 0 {
        assert(all.skip(1) =~= Seq::<u8>::empty());
        assert(decode(all.skip(1)) =~= Seq::<char>::empty());
        assert(decode(all) =~= seq![b as char]);
    } else {
        assert(all[all.len() - 1] == b);
        assert(1 <= n <= s.len());
        assert(all.skip(n) =~= s.skip(n).push(b));
        law_ascii_is_never_lost(s.skip(n), b);
        let rest = decode(all.skip(n));
        assert(decode(all) == seq![c] + rest);
        assert((seq![c] + rest).last() == rest.last());
    }
}

/// A byte that starts no sequence, and a lead byte without the bytes that belong behind it,
/// become one replacement each, and what follows is read as if they were not there.
pub proof fn law_malformed_bytes_are_replaced(b: u8, rest: Seq<u8>)
    ensures
        0x80 <= b < 0xc0 || b >= 0xf0 ==> decode(seq![b] + rest) == seq!['\u{FFFD}'] + decode(rest),
        0xc0 <= b < 0xe0 && (rest.len() == 0 || !(0x80 <= rest[0] < 0xc0)) ==> decode(seq![b] + rest)
            == seq!['\u{FFFD}'] + decode(rest),
        0xe0 <= b < 0xf0 && (rest.len() == 0 || !(0x80 <= rest[0] < 0xc0)) ==> decode(seq![b] + rest)
            == seq!['\u{FFFD}'] + decode(rest),
        0xe0 <= b < 0xf0 && rest.len() >= 2 && !(0x80 <= rest[1] < 0xc0) ==> decode(seq![b] + rest)
            == seq!['\u{FFFD}'] + decode(rest),
        0xe0 <= b < 0xf0 && rest.len() == 1 && 0x80 <= rest[0] < 0xc0 ==> decode(seq![b] + rest)
            == seq!['\u{FFFD}'],
{
    let s = seq![b] + rest;
    assert(s.skip(1) =~= rest);
    assert(s[0] == b);
    if rest.len() > 0 {
        assert(s[1] == rest[0]);
    }
    if rest.len() > 1 {
        assert(s[2] == rest[1]);
    }
    if rest.len() == 1 {
        assert(s.skip(2) =~= Seq::<u8>::empty());
        assert(decode(s.skip(2)) =~= Seq::<char>::empty());
        assert(seq!['\u{FFFD}'] + Seq::<char>::empty() =~= seq!['\u{FFFD}']);
    }
}

/// A surrogate that is not the first of a pair becomes one replacement.
pub proof fn law_lone_surrogates_are_replaced(unit: int, rest: Seq<u8>)
    requires
        0xd800 <= unit < 0xe000,
        unit >= 0xdc00 || rest.len() < 3 || rest[0] != 0xed || rest[1] < 0xb0 || rest[1] >= 0xc0,
    ensures
        decode(three_bytes(unit) + rest) == seq!['\u{FFFD}'] + decode(rest),
{
    let s = three_bytes(unit) + rest;
    lemma_three_bytes(unit, s, 0);
    assert(s.skip(3) =~= rest);
    if rest.len() >= 3 {
        assert(s[3] == rest[0] && s[4] == rest[1] && s[5] == rest[2]);
    }
    assert(!is_pair(s)) by {
        if is_pair(s) {
            assert(unit_at(s, 3) >= 0xdc00);
        }
    }
}

} // verus!
