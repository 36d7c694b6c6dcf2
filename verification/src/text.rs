//! Text as sequences of characters: splitting, searching, and numbers.
use crate::bytes::occurs_at;
use vstd::prelude::*;
use vstd::string::StringExecFns;

verus! {

/// `String::push` appends the character to the end of the string.
pub assume_specification[ String::push ](s: &mut String, c: char)
    ensures
        final(s)@ == old(s)@.push(c),
;

/// `char::from_u32` gives the character with that code point, and `None` for a
/// surrogate or for a number beyond U+10FFFF.
pub assume_specification[ char::from_u32 ](i: u32) -> (r: Option<char>)
    ensures
        r is Some <==> (i <= 0xd7ff || 0xe000 <= i <= 0x10_ffff),
        r matches Some(c) ==> c == i as char,
;

// ---------------------------------------------------------------------------
// Conversions
// ---------------------------------------------------------------------------

/// The texts held by a list of character vectors.
pub open spec fn texts(v: Seq<Vec<char>>) -> Seq<Seq<char>> {
    v.map_values(|x: Vec<char>| x@)
}

/// The texts held by a list of strings.
pub open spec fn string_texts(v: Seq<String>) -> Seq<Seq<char>> {
    v.map_values(|x: String| x@)
}

/// The characters of a string.
pub fn chars_of(s: &str) -> (v: Vec<char>)
    ensures
        v@ == s@,
{
    let mut v: Vec<char> = Vec::new();
    for c in it: s.chars()
        invariant
            v@ == it.seq().take(it.index() as int),
    {
        v.push(c);
    }
    v
}

/// The string made of these characters.
pub fn string_of(v: &[char]) -> (s: String)
    ensures
        s@ == v@,
{
    let mut s: String = String::new();
    for i in 0..v.len()
        invariant
            s@ == v@.take(i as int),
    {
        s.push(v[i]);
        assert(v@.take(i + 1) =~= v@.take(i as int).push(v@[i as int]));
    }
    assert(v@.take(v@.len() as int) =~= v@);
    s
}

/// A copy of the characters from `from` up to `to`.
pub fn part_of(v: &[char], from: usize, to: usize) -> (r: Vec<char>)
    requires
        from <= to <= v@.len(),
    ensures
        r@ == v@.subrange(from as int, to as int),
{
    let mut r: Vec<char> = Vec::new();
    for i in from..to
        invariant
            from <= to <= v@.len(),
            r@ == v@.subrange(from as int, i as int),
    {
        r.push(v[i]);
        assert(v@.subrange(from as int, i + 1) =~= v@.subrange(from as int, i as int).push(
            v@[i as int],
        ));
    }
    r
}

// ---------------------------------------------------------------------------
// Comparison and search
// ---------------------------------------------------------------------------

/// Whether `needle` stands in `text` at `at`.
pub fn text_at(text: &[char], needle: &[char], at: usize) -> (r: bool)
    ensures
        r == occurs_at(text@, needle@, at as int),
{
    if needle.len() > text.len() || at > text.len() - needle.len() {
        return false;
    }
    for i in 0..needle.len()
        invariant
            at + needle.len() <= text.len(),
            forall|j: int| 0 <= j < i ==> text@[at + j] == needle@[j],
    {
        if text[at + i] != needle[i] {
            assert(text@.subrange(at as int, at + needle@.len())[i as int] != needle@[i as int]);
            return false;
        }
    }
    assert(text@.subrange(at as int, at + needle@.len()) =~= needle@);
    true
}

/// Whether two texts are equal.
pub fn same_text(a: &[char], b: &[char]) -> (r: bool)
    ensures
        r == (a@ == b@),
{
    if a.len() != b.len() {
        return false;
    }
    let r: bool = text_at(a, b, 0);
    assert(a@.subrange(0, a@.len() as int) =~= a@);
    r
}

/// `text` starts with `prefix`.
pub open spec fn has_prefix(text: Seq<char>, prefix: Seq<char>) -> bool {
    prefix.len() <= text.len() && text.take(prefix.len() as int) == prefix
}

/// `text` ends with `suffix`.
pub open spec fn has_suffix(text: Seq<char>, suffix: Seq<char>) -> bool {
    suffix.len() <= text.len() && text.skip(text.len() - suffix.len()) == suffix
}

/// `needle` stands somewhere in `text`.
pub open spec fn contains_text(text: Seq<char>, needle: Seq<char>) -> bool {
    exists|i: int| occurs_at(text, needle, i)
}

/// Whether `text` starts with `prefix`.
pub fn starts_with(text: &[char], prefix: &[char]) -> (r: bool)
    ensures
        r == has_prefix(text@, prefix@),
{
    assert(prefix@.len() <= text@.len() ==> text@.take(prefix@.len() as int) =~= text@.subrange(
        0,
        prefix@.len() as int,
    ));
    text_at(text, prefix, 0)
}

/// Whether `text` ends with `suffix`.
pub fn ends_with(text: &[char], suffix: &[char]) -> (r: bool)
    ensures
        r == has_suffix(text@, suffix@),
{
    if suffix.len() > text.len() {
        return false;
    }
    assert(text@.skip(text@.len() - suffix@.len()) =~= text@.subrange(
        text@.len() - suffix@.len(),
        text@.len() as int,
    ));
    text_at(text, suffix, text.len() - suffix.len())
}

/// Position of the first occurrence of `needle` in `text`.
pub fn find_text(text: &[char], needle: &[char]) -> (r: Option<usize>)
    ensures
        match r {
            Some(i) => occurs_at(text@, needle@, i as int) && forall|j: int|
                0 <= j < i ==> !occurs_at(text@, needle@, j),
            None => !contains_text(text@, needle@),
        },
{
    if needle.len() > text.len() {
        return None;
    }
    let last: usize = text.len() - needle.len();
    let mut i: usize = 0;
    while i <= last
        invariant
            last == text@.len() - needle@.len(),
            forall|j: int| 0 <= j < i ==> !occurs_at(text@, needle@, j),
        decreases last + 1 - i,
    {
        if text_at(text, needle, i) {
            return Some(i);
        }
        if i == last {
            return None;
        }
        i += 1;
    }
    None
}

/// Whether `needle` stands somewhere in `text`.
pub fn contains(text: &[char], needle: &[char]) -> (r: bool)
    ensures
        r == contains_text(text@, needle@),
{
    find_text(text, needle).is_some()
}

/// What follows `prefix` in `text`, where `text` starts with it.
pub fn strip_prefix(text: &[char], prefix: &[char]) -> (r: Option<Vec<char>>)
    ensures
        match r {
            Some(rest) => has_prefix(text@, prefix@) && rest@ == text@.skip(prefix@.len() as int),
            None => !has_prefix(text@, prefix@),
        },
{
    if starts_with(text, prefix) {
        Some(part_of(text, prefix.len(), text.len()))
    } else {
        None
    }
}

// ---------------------------------------------------------------------------
// Splitting
// ---------------------------------------------------------------------------

/// The characters with the Unicode property `White_Space`.
pub open spec fn is_white_space(c: char) -> bool {
    let v = c as u32;
    ||| 0x09 <= v <= 0x0d
    ||| v == 0x20
    ||| v == 0x85
    ||| v == 0xa0
    ||| v == 0x1680
    ||| 0x2000 <= v <= 0x200a
    ||| v == 0x2028
    ||| v == 0x2029
    ||| v == 0x202f
    ||| v == 0x205f
    ||| v == 0x3000
}

/// Whether `c` is white space.
pub fn white_space(c: char) -> (r: bool)
    ensures
        r == is_white_space(c),
{
    let v: u32 = c as u32;
    (0x09 <= v && v <= 0x0d) || v == 0x20 || v == 0x85 || v == 0xa0 || v == 0x1680 || (0x2000 <= v
        && v <= 0x200a) || v == 0x2028 || v == 0x2029 || v == 0x202f || v == 0x205f || v == 0x3000
}

/// The words completed by the end of `s`, and the word that is still open there.
pub open spec fn words_so_far(s: Seq<char>) -> (Seq<Seq<char>>, Seq<char>)
    decreases s.len(),
{
    if s.len() == 0 {
        (seq![], seq![])
    } else {
        let (done, open) = words_so_far(s.drop_last());
        if !is_white_space(s.last()) {
            (done, open.push(s.last()))
        } else if open.len() > 0 {
            (done.push(open), seq![])
        } else {
            (done, open)
        }
    }
}

/// The maximal runs of `s` without white space, in order.
pub open spec fn words_of(s: Seq<char>) -> Seq<Seq<char>> {
    let (done, open) = words_so_far(s);
    if open.len() > 0 {
        done.push(open)
    } else {
        done
    }
}

/// Splits a text at white space.
pub fn words(s: &[char]) -> (r: Vec<Vec<char>>)
    ensures
        texts(r@) == words_of(s@),
{
    let mut done: Vec<Vec<char>> = Vec::new();
    let mut open: Vec<char> = Vec::new();
    assert(texts(done@) =~= Seq::<Seq<char>>::empty());
    for i in 0..s.len()
        invariant
            (texts(done@), open@) == words_so_far(s@.take(i as int)),
    {
        let ghost so_far = words_so_far(s@.take(i as int));
        assert(s@.take(i + 1).drop_last() =~= s@.take(i as int));
        if !white_space(s[i]) {
            open.push(s[i]);
        } else if open.len() > 0 {
            let ghost word = open@;
            done.push(open);
            open = Vec::new();
            assert(texts(done@) =~= so_far.0.push(word));
            assert(open@ =~= Seq::<char>::empty());
        }
    }
    assert(s@.take(s@.len() as int) =~= s@);
    let ghost so_far = words_so_far(s@);
    if open.len() > 0 {
        let ghost word = open@;
        done.push(open);
        assert(texts(done@) =~= so_far.0.push(word));
    }
    done
}

/// `s` without a carriage return at its end.
pub open spec fn without_cr(s: Seq<char>) -> Seq<char> {
    if s.len() > 0 && s.last() == '\r' {
        s.drop_last()
    } else {
        s
    }
}

/// The lines completed by the end of `s`, and the line that is still open there.
pub open spec fn lines_so_far(s: Seq<char>) -> (Seq<Seq<char>>, Seq<char>)
    decreases s.len(),
{
    if s.len() == 0 {
        (seq![], seq![])
    } else {
        let (done, open) = lines_so_far(s.drop_last());
        if s.last() == '\n' {
            (done.push(without_cr(open)), seq![])
        } else {
            (done, open.push(s.last()))
        }
    }
}

/// The lines of `s`: each ends with `\n` or `\r\n`, the last one may lack its end.
pub open spec fn lines_of(s: Seq<char>) -> Seq<Seq<char>> {
    let (done, open) = lines_so_far(s);
    if open.len() > 0 {
        done.push(open)
    } else {
        done
    }
}

/// Splits a text into its lines.
pub fn lines(s: &[char]) -> (r: Vec<Vec<char>>)
    ensures
        texts(r@) == lines_of(s@),
{
    let mut done: Vec<Vec<char>> = Vec::new();
    let mut open: Vec<char> = Vec::new();
    assert(texts(done@) =~= Seq::<Seq<char>>::empty());
    for i in 0..s.len()
        invariant
            (texts(done@), open@) == lines_so_far(s@.take(i as int)),
    {
        let ghost so_far = lines_so_far(s@.take(i as int));
        assert(s@.take(i + 1).drop_last() =~= s@.take(i as int));
        if s[i] == '\n' {
            if open.len() > 0 && open[open.len() - 1] == '\r' {
                let ghost whole = open@;
                open.pop();
                assert(open@ =~= whole.drop_last());
            }
            let ghost line = open@;
            done.push(open);
            open = Vec::new();
            assert(texts(done@) =~= so_far.0.push(line));
            assert(open@ =~= Seq::<char>::empty());
        } else {
            open.push(s[i]);
        }
    }
    assert(s@.take(s@.len() as int) =~= s@);
    let ghost so_far = lines_so_far(s@);
    if open.len() > 0 {
        let ghost line = open@;
        done.push(open);
        assert(texts(done@) =~= so_far.0.push(line));
    }
    done
}

/// The fields completed by the end of `s`, and the field that is still open there.
pub open spec fn fields_so_far(s: Seq<char>, sep: char) -> (Seq<Seq<char>>, Seq<char>)
    decreases s.len(),
{
    if s.len() == 0 {
        (seq![], seq![])
    } else {
        let (done, open) = fields_so_far(s.drop_last(), sep);
        if s.last() == sep {
            (done.push(open), seq![])
        } else {
            (done, open.push(s.last()))
        }
    }
}

/// The parts of `s` between the separators: one more than there are separators.
pub open spec fn fields_of(s: Seq<char>, sep: char) -> Seq<Seq<char>> {
    let (done, open) = fields_so_far(s, sep);
    done.push(open)
}

/// Splits a text at every separator.
pub fn fields(s: &[char], sep: char) -> (r: Vec<Vec<char>>)
    ensures
        texts(r@) == fields_of(s@, sep),
{
    let mut done: Vec<Vec<char>> = Vec::new();
    let mut open: Vec<char> = Vec::new();
    assert(texts(done@) =~= Seq::<Seq<char>>::empty());
    for i in 0..s.len()
        invariant
            (texts(done@), open@) == fields_so_far(s@.take(i as int), sep),
    {
        let ghost so_far = fields_so_far(s@.take(i as int), sep);
        assert(s@.take(i + 1).drop_last() =~= s@.take(i as int));
        if s[i] == sep {
            let ghost field = open@;
            done.push(open);
            open = Vec::new();
            assert(texts(done@) =~= so_far.0.push(field));
            assert(open@ =~= Seq::<char>::empty());
        } else {
            open.push(s[i]);
        }
    }
    assert(s@.take(s@.len() as int) =~= s@);
    let ghost so_far = fields_so_far(s@, sep);
    let ghost field = open@;
    done.push(open);
    assert(texts(done@) =~= so_far.0.push(field));
    done
}

/// `s` without the white space at its start.
pub open spec fn trim_start_of(s: Seq<char>) -> Seq<char>
    decreases s.len(),
{
    if s.len() > 0 && is_white_space(s.first()) {
        trim_start_of(s.drop_first())
    } else {
        s
    }
}

/// `s` without the white space at its end.
pub open spec fn trim_end_of(s: Seq<char>) -> Seq<char>
    decreases s.len(),
{
    if s.len() > 0 && is_white_space(s.last()) {
        trim_end_of(s.drop_last())
    } else {
        s
    }
}

/// `s` without the white space at both ends.
pub open spec fn trim_of(s: Seq<char>) -> Seq<char> {
    trim_end_of(trim_start_of(s))
}

/// Removes the white space at both ends.
pub fn trim(s: &[char]) -> (r: Vec<char>)
    ensures
        r@ == trim_of(s@),
{
    let mut from: usize = 0;
    assert(s@.skip(0) =~= s@);
    while from < s.len() && white_space(s[from])
        invariant
            from <= s@.len(),
            trim_start_of(s@) == trim_start_of(s@.skip(from as int)),
        decreases s@.len() - from,
    {
        assert(s@.skip(from as int).drop_first() =~= s@.skip(from + 1));
        from += 1;
    }
    let mut to: usize = s.len();
    assert(s@.subrange(from as int, to as int) =~= s@.skip(from as int));
    while to > from && white_space(s[to - 1])
        invariant
            from <= to <= s@.len(),
            trim_of(s@) == trim_end_of(s@.subrange(from as int, to as int)),
        decreases to,
    {
        assert(s@.subrange(from as int, to as int).drop_last() =~= s@.subrange(
            from as int,
            to - 1,
        ));
        to -= 1;
    }
    part_of(s, from, to)
}

/// Position of the first `c` in `s`.
pub fn position_of(s: &[char], c: char) -> (r: Option<usize>)
    ensures
        match r {
            Some(i) => i < s@.len() && s@[i as int] == c && !s@.take(i as int).contains(c),
            None => !s@.contains(c),
        },
{
    for i in 0..s.len()
        invariant
            forall|j: int| 0 <= j < i ==> s@[j] != c,
    {
        if s[i] == c {
            return Some(i);
        }
    }
    None
}

/// Joins the parts with one blank between each two.
pub open spec fn joined(parts: Seq<Seq<char>>) -> Seq<char>
    decreases parts.len(),
{
    if parts.len() == 0 {
        seq![]
    } else if parts.len() == 1 {
        parts[0]
    } else {
        joined(parts.drop_last()).push(' ') + parts.last()
    }
}

/// Joins the parts from `from` on with one blank between each two.
pub fn join_from(parts: &Vec<Vec<char>>, from: usize) -> (r: String)
    requires
        from <= parts@.len(),
    ensures
        r@ == joined(texts(parts@).skip(from as int)),
{
    let mut r: String = String::new();
    let ghost all = texts(parts@);
    assert(all.subrange(from as int, from as int) =~= Seq::<Seq<char>>::empty());
    for i in from..parts.len()
        invariant
            from <= parts@.len(),
            all == texts(parts@),
            r@ == joined(all.subrange(from as int, i as int)),
    {
        let ghost before = all.subrange(from as int, i as int);
        let ghost after = all.subrange(from as int, i + 1);
        assert(after.drop_last() =~= before);
        if i > from {
            r.push(' ');
        }
        let part: String = string_of(parts[i].as_slice());
        let ghost head = r@;
        r.append(part.as_str());
        if i == from {
            assert(head + part@ =~= part@);
        }
    }
    assert(all.subrange(from as int, parts@.len() as int) =~= all.skip(from as int));
    r
}

// ---------------------------------------------------------------------------
// Numbers
// ---------------------------------------------------------------------------

/// The digit for `d` in a base up to 16, in lower case.
pub open spec fn digit_char(d: int) -> char {
    if d < 10 {
        (48 + d) as char
    } else {
        (87 + d) as char
    }
}

/// `n` in base 16, without leading zeros.
pub open spec fn hex_text(n: nat) -> Seq<char>
    decreases n,
{
    if n < 16 {
        seq![digit_char(n as int)]
    } else {
        hex_text(n / 16).push(digit_char((n % 16) as int))
    }
}

/// `n` in base 10, without leading zeros.
pub open spec fn dec_text(n: nat) -> Seq<char>
    decreases n,
{
    if n < 10 {
        seq![digit_char(n as int)]
    } else {
        dec_text(n / 10).push(digit_char((n % 10) as int))
    }
}

fn push_digit(out: &mut String, d: u8)
    requires
        d < 16,
    ensures
        final(out)@ == old(out)@.push(digit_char(d as int)),
{
    if d < 10 {
        out.push((48 + d) as char);
    } else {
        out.push((87 + d) as char);
    }
}

/// Appends `v` in base 16.
pub fn push_hex(out: &mut String, v: u64)
    ensures
        final(out)@ == old(out)@ + hex_text(v as nat),
    decreases v,
{
    let ghost before = out@;
    if v >= 16 {
        push_hex(out, v / 16);
    }
    push_digit(out, (v % 16) as u8);
    assert(out@ =~= before + hex_text(v as nat));
}

/// Appends `v` in base 10.
pub fn push_dec(out: &mut String, v: u64)
    ensures
        final(out)@ == old(out)@ + dec_text(v as nat),
    decreases v,
{
    let ghost before = out@;
    if v >= 10 {
        push_dec(out, v / 10);
    }
    push_digit(out, (v % 10) as u8);
    assert(out@ =~= before + dec_text(v as nat));
}

/// Why a text is not a number.
#[derive(Clone, Copy, Debug, PartialEq, Eq, Structural)]
pub enum NumError {
    Empty,
    InvalidDigit,
    Overflow,
}

/// The value of `c` as a digit of base `radix`.
pub open spec fn digit_value(c: char, radix: int) -> Option<int> {
    let v = c as u32;
    let d = if 48 <= v <= 57 {
        v - 48
    } else if 97 <= v <= 122 {
        v - 87
    } else if 65 <= v <= 90 {
        v - 55
    } else {
        radix
    };
    if d < radix {
        Some(d)
    } else {
        None
    }
}

/// The value of a run of digits: read from the left, the first digit that is
/// none, or that takes the value beyond `max`, decides the error.
pub open spec fn digits_value(s: Seq<char>, radix: int, max: int) -> Result<int, NumError>
    decreases s.len(),
{
    if s.len() == 0 {
        Ok(0)
    } else {
        match digits_value(s.drop_last(), radix, max) {
            Err(e) => Err(e),
            Ok(v) => match digit_value(s.last(), radix) {
                None => Err(NumError::InvalidDigit),
                Some(d) => if v * radix + d > max {
                    Err(NumError::Overflow)
                } else {
                    Ok(v * radix + d)
                },
            },
        }
    }
}

/// The unsigned number that `s` writes in base `radix`, with an optional plus sign.
pub open spec fn number_of(s: Seq<char>, radix: int, max: int) -> Result<int, NumError> {
    if s.len() == 0 {
        Err(NumError::Empty)
    } else if s[0] == '+' {
        if s.len() == 1 {
            Err(NumError::InvalidDigit)
        } else {
            digits_value(s.drop_first(), radix, max)
        }
    } else {
        digits_value(s, radix, max)
    }
}

/// A first error stays the error of every longer run of digits.
proof fn lemma_digits_error(s: Seq<char>, n: int, radix: int, max: int)
    requires
        0 <= n <= s.len(),
        digits_value(s.take(n), radix, max) is Err,
    ensures
        digits_value(s, radix, max) == digits_value(s.take(n), radix, max),
    decreases s.len() - n,
{
    if n < s.len() {
        assert(s.take(n + 1).drop_last() =~= s.take(n));
        lemma_digits_error(s, n + 1, radix, max);
    } else {
        assert(s.take(n) =~= s);
    }
}

fn digit(c: char, radix: u64) -> (r: Option<u64>)
    requires
        2 <= radix <= 36,
    ensures
        match r {
            Some(d) => digit_value(c, radix as int) == Some(d as int),
            None => digit_value(c, radix as int) is None,
        },
{
    let v: u64 = c as u64;
    let d: u64 = if 48 <= v && v <= 57 {
        v - 48
    } else if 97 <= v && v <= 122 {
        v - 87
    } else if 65 <= v && v <= 90 {
        v - 55
    } else {
        radix
    };
    if d < radix {
        Some(d)
    } else {
        None
    }
}

/// Reads an unsigned number of base `radix` that is at most `max`.
pub fn parse_number(s: &[char], radix: u64, max: u64) -> (r: Result<u64, NumError>)
    requires
        2 <= radix <= 36,
    ensures
        match r {
            Ok(v) => number_of(s@, radix as int, max as int) == Ok::<int, NumError>(v as int),
            Err(e) => number_of(s@, radix as int, max as int) == Err::<int, NumError>(e),
        },
{
    if s.len() == 0 {
        return Err(NumError::Empty);
    }
    let from: usize = if s[0] == '+' {
        1
    } else {
        0
    };
    if from == 1 && s.len() == 1 {
        return Err(NumError::InvalidDigit);
    }
    let ghost run = s@.skip(from as int);
    assert(from == 1 ==> run =~= s@.drop_first());
    assert(from == 0 ==> run =~= s@);
    let mut v: u64 = 0;
    assert(run.take(0) =~= Seq::<char>::empty());
    for i in from..s.len()
        invariant
            2 <= radix <= 36,
            from <= s@.len(),
            from <= 1,
            run == s@.skip(from as int),
            v <= max,
            number_of(s@, radix as int, max as int) == digits_value(run, radix as int, max as int),
            digits_value(run.take(i - from), radix as int, max as int) == Ok::<int, NumError>(
                v as int,
            ),
    {
        let ghost n: int = i - from;
        assert(run.take(n + 1).drop_last() =~= run.take(n));
        assert(run.take(n + 1).last() == s@[i as int]);
        match digit(s[i], radix) {
            None => {
                proof {
                    lemma_digits_error(run, n + 1, radix as int, max as int);
                }
                return Err(NumError::InvalidDigit);
            },
            Some(d) => {
                assert(0 <= v * radix <= 0xffff_ffff_ffff_ffff * 36) by (nonlinear_arith)
                    requires
                        0 <= v <= 0xffff_ffff_ffff_ffff,
                        2 <= radix <= 36,
                ;
                let next: u128 = (v as u128) * (radix as u128) + d as u128;
                if next > max as u128 {
                    proof {
                        lemma_digits_error(run, n + 1, radix as int, max as int);
                    }
                    return Err(NumError::Overflow);
                }
                v = next as u64;
            },
        }
    }
    assert(run.take(run.len() as int) =~= run);
    Ok(v)
}

impl NumError {
    /// What the error says.
    pub open spec fn text(self) -> Seq<char> {
        match self {
            NumError::Empty => "cannot parse integer from empty string"@,
            NumError::InvalidDigit => "invalid digit found in string"@,
            NumError::Overflow => "number too large to fit in target type"@,
        }
    }

    /// The message of the error.
    pub fn message(self) -> (r: &'static str)
        ensures
            r@ == self.text(),
    {
        match self {
            NumError::Empty => "cannot parse integer from empty string",
            NumError::InvalidDigit => "invalid digit found in string",
            NumError::Overflow => "number too large to fit in target type",
        }
    }
}

// ---------------------------------------------------------------------------
// Laws
// ---------------------------------------------------------------------------

/// The text holds no white space.
pub open spec fn is_solid(s: Seq<char>) -> bool {
    forall|i: int| 0 <= i < s.len() ==> !is_white_space(#[trigger] s[i])
}

proof fn lemma_words_behind_a_gap(a: Seq<char>, gap: char, b: Seq<char>)
    requires
        is_white_space(gap),
    ensures
        words_so_far(a.push(gap) + b) == (words_of(a) + words_so_far(b).0, words_so_far(b).1),
    decreases b.len(),
{
    let s = a.push(gap) + b;
    if b.len() == 0 {
        assert(s =~= a.push(gap));
        assert(s.drop_last() =~= a);
        assert(words_so_far(s).0 =~= words_of(a) + words_so_far(b).0);
        assert(words_so_far(s).1 =~= words_so_far(b).1);
    } else {
        lemma_words_behind_a_gap(a, gap, b.drop_last());
        assert(s.drop_last() =~= a.push(gap) + b.drop_last());
        assert(s.last() == b.last());
        assert(words_so_far(s).0 =~= words_of(a) + words_so_far(b).0);
    }
}

proof fn lemma_solid_word_is_open(s: Seq<char>)
    requires
        is_solid(s),
    ensures
        words_so_far(s) == (Seq::<Seq<char>>::empty(), s),
    decreases s.len(),
{
    if s.len() > 0 {
        assert forall|i: int| 0 <= i < s.drop_last().len() implies !is_white_space(
            #[trigger] s.drop_last()[i],
        ) by {
            assert(s.drop_last()[i] == s[i]);
        }
        lemma_solid_word_is_open(s.drop_last());
        assert(s.drop_last().push(s.last()) =~= s);
        assert(!is_white_space(s[s.len() - 1]));
    }
}

/// White space parts a text into the words before it and those behind it; a text without any
/// is one word, unless it is empty.
pub proof fn law_words_are_parted_by_white_space(a: Seq<char>, gap: char, b: Seq<char>, word: Seq<char>)
    ensures
        is_white_space(gap) ==> words_of(a.push(gap) + b) == words_of(a) + words_of(b),
        is_solid(word) && word.len() > 0 ==> words_of(word) == seq![word],
        words_of(Seq::<char>::empty()) == Seq::<Seq<char>>::empty(),
{
    if is_white_space(gap) {
        lemma_words_behind_a_gap(a, gap, b);
        assert(words_of(a.push(gap) + b) =~= words_of(a) + words_of(b));
    }
    if is_solid(word) && word.len() > 0 {
        lemma_solid_word_is_open(word);
        assert(words_of(word) =~= seq![word]);
    }
}

/// White space is what Unicode has for it: the blank, the characters from tab to carriage
/// return, and those of the list beyond ASCII. No letter, digit or mark of ASCII is.
pub proof fn law_ascii_white_space(c: char)
    requires
        (c as u32) < 0x80,
    ensures
        is_white_space(c) <==> c == ' ' || 9 <= c as u32 <= 13,
{
}

proof fn lemma_lines_behind(line: Seq<char>, b: Seq<char>)
    requires
        !line.contains('\n'),
    ensures
        lines_so_far(line.push('\n') + b) == (seq![without_cr(line)] + lines_so_far(b).0, lines_so_far(
            b,
        ).1),
    decreases b.len(),
{
    let s = line.push('\n') + b;
    if b.len() == 0 {
        assert(s =~= line.push('\n'));
        assert(s.drop_last() =~= line);
        lemma_line_is_open(line);
        assert(lines_so_far(s).0 =~= seq![without_cr(line)] + lines_so_far(b).0);
        assert(lines_so_far(s).1 =~= lines_so_far(b).1);
    } else {
        lemma_lines_behind(line, b.drop_last());
        assert(s.drop_last() =~= line.push('\n') + b.drop_last());
        assert(s.last() == b.last());
        assert(lines_so_far(s).0 =~= seq![without_cr(line)] + lines_so_far(b).0);
    }
}

proof fn lemma_line_is_open(s: Seq<char>)
    requires
        !s.contains('\n'),
    ensures
        lines_so_far(s) == (Seq::<Seq<char>>::empty(), s),
    decreases s.len(),
{
    if s.len() > 0 {
        assert forall|i: int| 0 <= i < s.drop_last().len() implies s.drop_last()[i] != '\n' by {
            assert(s.contains(s[i]));
        }
        assert(!s.drop_last().contains('\n'));
        lemma_line_is_open(s.drop_last());
        assert(s.contains(s[s.len() - 1]));
        assert(s.drop_last().push(s.last()) =~= s);
    }
}

/// A line ends with a line feed, before which one carriage return is dropped, and the lines
/// behind it follow. A rest without a line feed is a line too, unless it is empty.
pub proof fn law_lines_end_with_a_line_feed(line: Seq<char>, rest: Seq<char>)
    requires
        !line.contains('\n'),
    ensures
        lines_of(line.push('\n') + rest) == seq![
            if line.len() > 0 && line.last() == '\r' {
                line.drop_last()
            } else {
                line
            },
        ] + lines_of(rest),
        line.len() > 0 ==> lines_of(line) == seq![line],
        lines_of(Seq::<char>::empty()) == Seq::<Seq<char>>::empty(),
{
    lemma_lines_behind(line, rest);
    assert(lines_of(line.push('\n') + rest) =~= seq![without_cr(line)] + lines_of(rest));
    lemma_line_is_open(line);
    if line.len() > 0 {
        assert(lines_of(line) =~= seq![line]);
    }
}

proof fn lemma_fields_behind(field: Seq<char>, sep: char, b: Seq<char>)
    requires
        !field.contains(sep),
    ensures
        fields_so_far(field.push(sep) + b, sep) == (
            seq![field] + fields_so_far(b, sep).0,
            fields_so_far(b, sep).1,
        ),
    decreases b.len(),
{
    let s = field.push(sep) + b;
    if b.len() == 0 {
        assert(s =~= field.push(sep));
        assert(s.drop_last() =~= field);
        lemma_field_is_open(field, sep);
        assert(fields_so_far(s, sep).0 =~= seq![field] + fields_so_far(b, sep).0);
        assert(fields_so_far(s, sep).1 =~= fields_so_far(b, sep).1);
    } else {
        lemma_fields_behind(field, sep, b.drop_last());
        assert(s.drop_last() =~= field.push(sep) + b.drop_last());
        assert(s.last() == b.last());
        assert(fields_so_far(s, sep).0 =~= seq![field] + fields_so_far(b, sep).0);
    }
}

proof fn lemma_field_is_open(s: Seq<char>, sep: char)
    requires
        !s.contains(sep),
    ensures
        fields_so_far(s, sep) == (Seq::<Seq<char>>::empty(), s),
    decreases s.len(),
{
    if s.len() > 0 {
        assert forall|i: int| 0 <= i < s.drop_last().len() implies s.drop_last()[i] != sep by {
            assert(s.contains(s[i]));
        }
        assert(!s.drop_last().contains(sep));
        lemma_field_is_open(s.drop_last(), sep);
        assert(s.contains(s[s.len() - 1]));
        assert(s.drop_last().push(s.last()) =~= s);
    }
}

/// A field ends at the first separator, and the fields behind it follow. A text without a
/// separator is one field, even an empty one.
pub proof fn law_fields_are_parted_by_separators(field: Seq<char>, sep: char, rest: Seq<char>)
    requires
        !field.contains(sep),
    ensures
        fields_of(field.push(sep) + rest, sep) == seq![field] + fields_of(rest, sep),
        fields_of(field, sep) == seq![field],
{
    lemma_fields_behind(field, sep, rest);
    assert(fields_of(field.push(sep) + rest, sep) =~= seq![field] + fields_of(rest, sep));
    lemma_field_is_open(field, sep);
    assert(fields_of(field, sep) =~= seq![field]);
}

/// The text is all white space.
pub open spec fn is_blank(s: Seq<char>) -> bool {
    forall|i: int| 0 <= i < s.len() ==> is_white_space(#[trigger] s[i])
}

/// White space at both ends is removed, and nothing else.
pub proof fn law_white_space_at_the_ends_is_removed(before: Seq<char>, s: Seq<char>, after: Seq<char>)
    requires
        is_blank(before),
        is_blank(after),
        s.len() > 0,
        !is_white_space(s.first()),
        !is_white_space(s.last()),
    ensures
        trim_of(before + s + after) == s,
        trim_of(before) == Seq::<char>::empty(),
{
    lemma_trim_start(before, s + after);
    assert(before + (s + after) =~= before + s + after);
    assert((s + after).first() == s.first());
    lemma_trim_end(s, after);
    lemma_trim_start(before, Seq::empty());
    assert(before + Seq::<char>::empty() =~= before);
}

proof fn lemma_trim_start(before: Seq<char>, rest: Seq<char>)
    requires
        is_blank(before),
        rest.len() > 0 ==> !is_white_space(rest.first()),
    ensures
        trim_start_of(before + rest) == rest,
    decreases before.len(),
{
    let s = before + rest;
    if before.len() > 0 {
        assert(is_white_space(before[0]));
        assert forall|i: int| 0 <= i < before.drop_first().len() implies is_white_space(
            #[trigger] before.drop_first()[i],
        ) by {
            assert(before.drop_first()[i] == before[i + 1]);
        }
        lemma_trim_start(before.drop_first(), rest);
        assert(s.drop_first() =~= before.drop_first() + rest);
        assert(s.first() == before[0]);
    } else {
        assert(s =~= rest);
    }
}

proof fn lemma_trim_end(s: Seq<char>, after: Seq<char>)
    requires
        is_blank(after),
        s.len() > 0,
        !is_white_space(s.last()),
    ensures
        trim_end_of(s + after) == s,
    decreases after.len(),
{
    let all = s + after;
    if after.len() > 0 {
        assert(is_white_space(after[after.len() - 1]));
        assert forall|i: int| 0 <= i < after.drop_last().len() implies is_white_space(
            #[trigger] after.drop_last()[i],
        ) by {
            assert(after.drop_last()[i] == after[i]);
        }
        lemma_trim_end(s, after.drop_last());
        assert(all.drop_last() =~= s + after.drop_last());
        assert(all.last() == after.last());
    } else {
        assert(all =~= s);
    }
}

proof fn lemma_dec_value(n: nat, max: int)
    ensures
        dec_text(n).len() > 0,
        '0' <= dec_text(n)[0] <= '9',
        is_solid(dec_text(n)),
        digits_value(dec_text(n), 10, max) == (if n <= max {
            Ok::<int, NumError>(n as int)
        } else {
            Err(NumError::Overflow)
        }),
    decreases n,
{
    let s = dec_text(n);
    let d = digit_char((n % 10) as int);
    assert(digit_value(d, 10) == Some((n % 10) as int));
    if n >= 10 {
        lemma_dec_value(n / 10, max);
        assert(s.drop_last() =~= dec_text(n / 10));
        assert(s[0] == dec_text(n / 10)[0]);
        assert forall|i: int| 0 <= i < s.len() implies !is_white_space(#[trigger] s[i]) by {
            if i < dec_text(n / 10).len() {
                assert(s[i] == dec_text(n / 10)[i]);
            }
        }
    } else {
        assert(s.drop_last() =~= Seq::<char>::empty());
        assert(digits_value(s.drop_last(), 10, max) == Ok::<int, NumError>(0));
    }
}

proof fn lemma_hex_value(n: nat, max: int)
    ensures
        hex_text(n).len() > 0,
        hex_text(n)[0] != '+',
        is_solid(hex_text(n)),
        !hex_text(n).contains('-'),
        digits_value(hex_text(n), 16, max) == (if n <= max {
            Ok::<int, NumError>(n as int)
        } else {
            Err(NumError::Overflow)
        }),
    decreases n,
{
    let s = hex_text(n);
    let d = digit_char((n % 16) as int);
    assert(digit_value(d, 16) == Some((n % 16) as int));
    assert(d != '-' && d != '+' && !is_white_space(d));
    if n >= 16 {
        lemma_hex_value(n / 16, max);
        let head = hex_text(n / 16);
        assert(s.drop_last() =~= head);
        assert(s[0] == head[0]);
        assert forall|i: int| 0 <= i < s.len() implies !is_white_space(#[trigger] s[i]) && s[i] != '-' by {
            if i < head.len() {
                assert(s[i] == head[i]);
                assert(head.contains(head[i]));
            }
        }
    } else {
        assert(s.drop_last() =~= Seq::<char>::empty());
        assert(digits_value(s.drop_last(), 16, max) == Ok::<int, NumError>(0));
    }
}

/// A number is read back from its text in base 10 and in base 16, with or without a plus sign
/// before it, unless it is beyond the limit.
pub proof fn law_numbers_are_read_back(n: nat, max: int)
    ensures
        number_of(dec_text(n), 10, max) == (if n <= max {
            Ok::<int, NumError>(n as int)
        } else {
            Err(NumError::Overflow)
        }),
        number_of(hex_text(n), 16, max) == (if n <= max {
            Ok::<int, NumError>(n as int)
        } else {
            Err(NumError::Overflow)
        }),
        number_of(seq!['+'] + dec_text(n), 10, max) == number_of(dec_text(n), 10, max),
        is_solid(dec_text(n)) && is_solid(hex_text(n)),
        dec_text(n).len() > 0 && hex_text(n).len() > 0,
{
    lemma_dec_value(n, max);
    lemma_hex_value(n, max);
    let signed = seq!['+'] + dec_text(n);
    assert(signed.drop_first() =~= dec_text(n));
}

/// Digits of base 16 have the same value in either case.
pub proof fn law_case_of_digits_does_not_matter(d: int)
    requires
        0 <= d < 16,
    ensures
        digit_value(digit_char(d), 16) == Some(d),
        10 <= d ==> digit_value((55 + d) as char, 16) == Some(d),
        digit_value(digit_char(d), 10) == (if d < 10 {
            Some(d)
        } else {
            None
        }),
{
}

/// A text with a character that is no digit is no number, and neither is an empty one or a
/// sign alone.
pub proof fn law_other_texts_are_no_numbers(s: Seq<char>, i: int, max: int)
    ensures
        0 <= i < s.len() && !('0' <= s[i] <= '9') && (s[i] != '+' || i > 0) ==> number_of(s, 10, max)
            is Err,
        number_of(Seq::<char>::empty(), 10, max) == Err::<int, NumError>(NumError::Empty),
        number_of(seq!['+'], 10, max) == Err::<int, NumError>(NumError::InvalidDigit),
{
    if 0 <= i < s.len() && !('0' <= s[i] <= '9') && (s[i] != '+' || i > 0) {
        if s[0] == '+' {
            let rest = s.drop_first();
            assert(rest[i - 1] == s[i]);
            lemma_bad_digit(rest, i - 1, max);
        } else {
            lemma_bad_digit(s, i, max);
        }
    }
}

proof fn lemma_no_digit(c: char)
    ensures
        digit_value(c, 10) is None <==> !('0' <= c <= '9'),
{
}

proof fn lemma_bad_digit(s: Seq<char>, i: int, max: int)
    requires
        0 <= i < s.len(),
        !('0' <= s[i] <= '9'),
    ensures
        digits_value(s, 10, max) is Err,
{
    let head = s.take(i + 1);
    assert(head.last() == s[i]);
    lemma_no_digit(s[i]);
    assert(digits_value(head, 10, max) is Err);
    lemma_digits_error(s, i + 1, 10, max);
}

/// A number in base 10 is a run of digits.
pub proof fn lemma_dec_digits(n: nat)
    ensures
        dec_text(n).len() > 0,
        forall|i: int| 0 <= i < dec_text(n).len() ==> '0' <= #[trigger] dec_text(n)[i] <= '9',
    decreases n,
{
    let s = dec_text(n);
    if n >= 10 {
        lemma_dec_digits(n / 10);
        assert forall|i: int| 0 <= i < s.len() implies '0' <= #[trigger] s[i] <= '9' by {
            if i < dec_text(n / 10).len() {
                assert(s[i] == dec_text(n / 10)[i]);
            }
        }
    }
}

/// A number in base 16 holds no hyphen.
pub proof fn lemma_hex_has_no_hyphen(n: nat)
    ensures
        !hex_text(n).contains('-'),
{
    lemma_hex_value(n, n as int);
}

/// Trimming a text leaves its words.
pub proof fn lemma_trimming_leaves_words(s: Seq<char>)
    ensures
        words_of(trim_of(s)) == words_of(s),
{
    lemma_trim_start_leaves_words(s);
    lemma_trim_end_leaves_words(trim_start_of(s));
}

proof fn lemma_trim_start_leaves_words(s: Seq<char>)
    ensures
        words_of(trim_start_of(s)) == words_of(s),
    decreases s.len(),
{
    if s.len() > 0 && is_white_space(s.first()) {
        lemma_trim_start_leaves_words(s.drop_first());
        law_words_are_parted_by_white_space(Seq::empty(), s.first(), s.drop_first(), Seq::empty());
        assert(Seq::<char>::empty().push(s.first()) + s.drop_first() =~= s);
        assert(Seq::<Seq<char>>::empty() + words_of(s.drop_first()) =~= words_of(s.drop_first()));
    }
}

proof fn lemma_trim_end_leaves_words(s: Seq<char>)
    ensures
        words_of(trim_end_of(s)) == words_of(s),
    decreases s.len(),
{
    if s.len() > 0 && is_white_space(s.last()) {
        lemma_trim_end_leaves_words(s.drop_last());
        law_words_are_parted_by_white_space(s.drop_last(), s.last(), Seq::empty(), Seq::empty());
        assert(s.drop_last().push(s.last()) + Seq::<char>::empty() =~= s);
        assert(words_of(s.drop_last()) + Seq::<Seq<char>>::empty() =~= words_of(s.drop_last()));
    }
}

/// A text that starts with no white space keeps its first character when it is trimmed.
pub proof fn lemma_trimming_keeps_the_first(s: Seq<char>)
    requires
        s.len() > 0,
        !is_white_space(s[0]),
    ensures
        trim_of(s).len() > 0,
        trim_of(s)[0] == s[0],
{
    assert(trim_start_of(s) == s);
    lemma_trim_end_keeps_the_first(s);
}

proof fn lemma_trim_end_keeps_the_first(s: Seq<char>)
    requires
        s.len() > 0,
        !is_white_space(s[0]),
    ensures
        trim_end_of(s).len() > 0,
        trim_end_of(s)[0] == s[0],
    decreases s.len(),
{
    if is_white_space(s.last()) {
        assert(s.len() > 1);
        lemma_trim_end_keeps_the_first(s.drop_last());
    }
}

/// The words of a first word, a blank and the rest.
pub proof fn lemma_first_word(word: Seq<char>, gap: char, rest: Seq<char>)
    requires
        is_solid(word),
        word.len() > 0,
        is_white_space(gap),
    ensures
        words_of(word.push(gap) + rest) == seq![word] + words_of(rest),
{
    law_words_are_parted_by_white_space(word, gap, rest, word);
}

} // verus!
