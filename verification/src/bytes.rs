//! Little-endian reads and byte searches.
use vstd::prelude::*;

verus! {

/// The 16-bit little-endian number at `i`.
pub open spec fn le16_at(s: Seq<u8>, i: int) -> u16 {
    (s[i] + 0x100 * s[i + 1]) as u16
}

/// The 32-bit little-endian number at `i`.
pub open spec fn le32_at(s: Seq<u8>, i: int) -> u32 {
    (s[i] + 0x100 * s[i + 1] + 0x1_0000 * s[i + 2] + 0x100_0000 * s[i + 3]) as u32
}

/// The 64-bit little-endian number at `i`.
pub open spec fn le64_at(s: Seq<u8>, i: int) -> u64 {
    (le32_at(s, i) + 0x1_0000_0000 * le32_at(s, i + 4)) as u64
}

/// The four little-endian bytes of `v`.
pub open spec fn le32_bytes(v: u32) -> Seq<u8> {
    seq![
        (v % 0x100) as u8,
        (v / 0x100 % 0x100) as u8,
        (v / 0x1_0000 % 0x100) as u8,
        (v / 0x100_0000) as u8,
    ]
}

/// Writing a number in little-endian order and reading it gives it back.
pub proof fn law_le32_round_trip(v: u32)
    ensures
        le32_at(le32_bytes(v), 0) == v,
{
}

/// The two little-endian bytes of `v`.
pub open spec fn le16_bytes(v: u16) -> Seq<u8> {
    seq![(v % 0x100) as u8, (v / 0x100) as u8]
}

/// The eight little-endian bytes of `v`.
pub open spec fn le64_bytes(v: u64) -> Seq<u8> {
    le32_bytes((v % 0x1_0000_0000) as u32) + le32_bytes((v / 0x1_0000_0000) as u32)
}

/// These bytes stand in the data at `at`.
pub open spec fn holds_at(data: Seq<u8>, at: int, part: Seq<u8>) -> bool {
    0 <= at && at + part.len() <= data.len() && data.subrange(at, at + part.len()) == part
}

/// Bytes that stand somewhere stand there with each of their two parts.
pub proof fn lemma_holds_both(data: Seq<u8>, at: int, a: Seq<u8>, b: Seq<u8>)
    requires
        holds_at(data, at, a + b),
    ensures
        holds_at(data, at, a),
        holds_at(data, at + a.len(), b),
{
    let all = data.subrange(at, at + (a + b).len());
    assert(data.subrange(at, at + a.len()) =~= a) by {
        assert forall|i: int| 0 <= i < a.len() implies data[at + i] == a[i] by {
            assert(all[i] == (a + b)[i]);
        }
    }
    assert(data.subrange(at + a.len(), at + a.len() + b.len()) =~= b) by {
        assert forall|i: int| 0 <= i < b.len() implies data[at + a.len() + i] == b[i] by {
            assert(all[a.len() + i] == (a + b)[a.len() + i]);
        }
    }
}

/// A two-byte number is read back from where it was written.
pub proof fn lemma_le16_held(data: Seq<u8>, at: int, v: u16)
    requires
        holds_at(data, at, le16_bytes(v)),
    ensures
        le16_at(data, at) == v,
        at + 2 <= data.len(),
{
    let b = le16_bytes(v);
    let part = data.subrange(at, at + 2);
    assert(part[0] == b[0] && part[1] == b[1]);
}

/// A four-byte number is read back from where it was written.
pub proof fn lemma_le32_held(data: Seq<u8>, at: int, v: u32)
    requires
        holds_at(data, at, le32_bytes(v)),
    ensures
        le32_at(data, at) == v,
        at + 4 <= data.len(),
{
    let b = le32_bytes(v);
    let part = data.subrange(at, at + 4);
    law_le32_round_trip(v);
    assert(part[0] == b[0] && part[1] == b[1] && part[2] == b[2] && part[3] == b[3]);
    assert(le32_at(data, at) == le32_at(b, 0));
}

/// An eight-byte number is read back from where it was written.
pub proof fn lemma_le64_held(data: Seq<u8>, at: int, v: u64)
    requires
        holds_at(data, at, le64_bytes(v)),
    ensures
        le64_at(data, at) == v,
        at + 8 <= data.len(),
{
    let (low, high) = ((v % 0x1_0000_0000) as u32, (v / 0x1_0000_0000) as u32);
    lemma_holds_both(data, at, le32_bytes(low), le32_bytes(high));
    lemma_le32_held(data, at, low);
    lemma_le32_held(data, at + 4, high);
}

/// Numbers of two, four and eight bytes are read back from where they were written.
pub proof fn law_numbers_are_read_back(data: Seq<u8>, at: int, a: u16, b: u32, c: u64)
    ensures
        holds_at(data, at, le16_bytes(a)) ==> le16_at(data, at) == a,
        holds_at(data, at, le32_bytes(b)) ==> le32_at(data, at) == b,
        holds_at(data, at, le64_bytes(c)) ==> le64_at(data, at) == c,
{
    if holds_at(data, at, le16_bytes(a)) {
        lemma_le16_held(data, at, a);
    }
    if holds_at(data, at, le32_bytes(b)) {
        lemma_le32_held(data, at, b);
    }
    if holds_at(data, at, le64_bytes(c)) {
        lemma_le64_held(data, at, c);
    }
}

/// `s` with the bytes from `at` on replaced by `part`.
pub open spec fn splice(s: Seq<u8>, at: int, part: Seq<u8>) -> Seq<u8> {
    Seq::new(
        s.len(),
        |i: int|
            if at <= i < at + part.len() {
                part[i - at]
            } else {
                s[i]
            },
    )
}

/// `needle` stands in `haystack` at position `i`.
pub open spec fn occurs_at<T>(haystack: Seq<T>, needle: Seq<T>, i: int) -> bool {
    &&& 0 <= i <= haystack.len() - needle.len()
    &&& haystack.subrange(i, i + needle.len()) == needle
}

/// `i` is the first position, from `from` on, where `needle` stands.
pub open spec fn first_occurrence<T>(haystack: Seq<T>, needle: Seq<T>, from: int, i: int) -> bool {
    &&& from <= i
    &&& occurs_at(haystack, needle, i)
    &&& forall|j: int| from <= j < i ==> !occurs_at(haystack, needle, j)
}

/// The first position, from `from` on, where `needle` stands.
pub open spec fn next_of<T>(haystack: Seq<T>, needle: Seq<T>, from: int) -> Option<int> {
    if exists|i: int| first_occurrence(haystack, needle, from, i) {
        Some(choose|i: int| first_occurrence(haystack, needle, from, i))
    } else {
        None
    }
}

/// There is one first position at most.
pub proof fn lemma_next_of<T>(haystack: Seq<T>, needle: Seq<T>, from: int, i: int)
    ensures
        first_occurrence(haystack, needle, from, i) <==> next_of(haystack, needle, from) == Some(i),
{
    if first_occurrence(haystack, needle, from, i) {
        let j = next_of(haystack, needle, from)->Some_0;
        assert(first_occurrence(haystack, needle, from, j));
    }
}

/// Reads the 16-bit little-endian number at `at`.
pub fn read_le16(data: &[u8], at: usize) -> (r: u16)
    requires
        at + 2 <= data@.len(),
    ensures
        r == le16_at(data@, at as int),
{
    data[at] as u16 + 0x100 * (data[at + 1] as u16)
}

/// Reads the 32-bit little-endian number at `at`.
pub fn read_le32(data: &[u8], at: usize) -> (r: u32)
    requires
        at + 4 <= data@.len(),
    ensures
        r == le32_at(data@, at as int),
{
    data[at] as u32 + 0x100 * (data[at + 1] as u32) + 0x1_0000 * (data[at + 2] as u32) + 0x100_0000
        * (data[at + 3] as u32)
}

/// Reads the 64-bit little-endian number at `at`.
pub fn read_le64(data: &[u8], at: usize) -> (r: u64)
    requires
        at + 8 <= data@.len(),
    ensures
        r == le64_at(data@, at as int),
{
    assert(at + 8 <= data.len());
    read_le32(data, at) as u64 + 0x1_0000_0000 * (read_le32(data, at + 4) as u64)
}

/// The 16-bit little-endian number at `offset`, if the data reaches that far.
pub fn le16(data: &[u8], offset: usize) -> (r: Option<u16>)
    ensures
        r == (if offset + 2 <= data@.len() {
            Some(le16_at(data@, offset as int))
        } else {
            None
        }),
{
    if data.len() >= 2 && offset <= data.len() - 2 {
        Some(read_le16(data, offset))
    } else {
        None
    }
}

/// The 32-bit little-endian number at `offset`, if the data reaches that far.
pub fn le32(data: &[u8], offset: usize) -> (r: Option<u32>)
    ensures
        r == (if offset + 4 <= data@.len() {
            Some(le32_at(data@, offset as int))
        } else {
            None
        }),
{
    if data.len() >= 4 && offset <= data.len() - 4 {
        Some(read_le32(data, offset))
    } else {
        None
    }
}

/// The 64-bit little-endian number at `offset`, if the data reaches that far.
pub fn le64(data: &[u8], offset: usize) -> (r: Option<u64>)
    ensures
        r == (if offset + 8 <= data@.len() {
            Some(le64_at(data@, offset as int))
        } else {
            None
        }),
{
    if data.len() >= 8 && offset <= data.len() - 8 {
        Some(read_le64(data, offset))
    } else {
        None
    }
}

/// Whether `needle` stands in `haystack` at `at`.
pub fn stands_at(haystack: &[u8], needle: &[u8], at: usize) -> (r: bool)
    ensures
        r == occurs_at(haystack@, needle@, at as int),
{
    if needle.len() > haystack.len() || at > haystack.len() - needle.len() {
        return false;
    }
    for i in 0..needle.len()
        invariant
            at + needle.len() <= haystack.len(),
            forall|j: int| 0 <= j < i ==> haystack@[at + j] == needle@[j],
    {
        if haystack[at + i] != needle[i] {
            assert(haystack@.subrange(at as int, at + needle@.len())[i as int] != needle@[i as int]);
            return false;
        }
    }
    assert(haystack@.subrange(at as int, at + needle@.len()) =~= needle@);
    true
}

/// Position of the first occurrence of `needle` at or after `from`.
pub fn find_from(haystack: &[u8], needle: &[u8], from: usize) -> (r: Option<usize>)
    ensures
        match r {
            Some(i) => first_occurrence(haystack@, needle@, from as int, i as int) && next_of(
                haystack@,
                needle@,
                from as int,
            ) == Some(i as int),
            None => next_of(haystack@, needle@, from as int) is None && forall|j: int|
                from <= j ==> !occurs_at(haystack@, needle@, j),
        },
{
    if needle.len() > haystack.len() {
        return None;
    }
    let last: usize = haystack.len() - needle.len();
    let mut i: usize = from;
    while i <= last
        invariant
            from <= i,
            last == haystack@.len() - needle@.len(),
            forall|j: int| from <= j < i ==> !occurs_at(haystack@, needle@, j),
        decreases last + 1 - i,
    {
        if stands_at(haystack, needle, i) {
            assert(first_occurrence(haystack@, needle@, from as int, i as int));
            return Some(i);
        }
        if i == last {
            return None;
        }
        i += 1;
    }
    None
}

/// Position of the first occurrence of `needle`.
pub fn find_subslice(haystack: &[u8], needle: &[u8]) -> (r: Option<usize>)
    ensures
        match r {
            Some(i) => first_occurrence(haystack@, needle@, 0, i as int) && next_of(
                haystack@,
                needle@,
                0,
            ) == Some(i as int),
            None => next_of(haystack@, needle@, 0) is None && forall|j: int|
                !occurs_at(haystack@, needle@, j),
        },
{
    find_from(haystack, needle, 0)
}

/// Writes `part` over the bytes of `out` from `at` on.
pub fn overwrite(out: &mut [u8], at: usize, part: &[u8])
    requires
        at + part@.len() <= old(out)@.len(),
    ensures
        final(out)@ == splice(old(out)@, at as int, part@),
{
    let ghost before = out@;
    for i in 0..part.len()
        invariant
            at + part.len() <= out.len(),
            out@.len() == before.len(),
            out@ == splice(before, at as int, part@.take(i as int)),
    {
        out[at + i] = part[i];
        assert(out@ =~= splice(before, at as int, part@.take(i + 1)));
    }
    assert(part@.take(part@.len() as int) =~= part@);
}

} // verus!
