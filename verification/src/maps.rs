//! The memory map and the status of a process, as `/proc` shows them.
use crate::platform::{is_system_dex_path, is_system_path};
use crate::sort::{pair_le, sort_pairs};
use crate::text::{
    chars_of, dec_text, has_prefix, hex_text, is_solid, is_white_space, join_from, joined,
    law_numbers_are_read_back, law_words_are_parted_by_white_space, lemma_first_word,
    lemma_hex_has_no_hyphen, lines, lines_of, number_of, parse_number, part_of, position_of,
    string_of, strip_prefix, texts, words, words_of,
};
use vstd::prelude::*;

verus! {

/// The largest region that is scanned.
pub const MAPS_SCAN_MAX_REGION: u64 = 0x2000_0000;

/// A region of memory, and the file it was mapped from.
#[derive(Clone, Debug, PartialEq, Eq)]
pub struct MapsEntry {
    pub start: u64,
    pub end: u64,
    pub path: String,
}

/// What a region is.
pub struct RegionText {
    pub start: u64,
    pub end: u64,
    pub path: Seq<char>,
}

impl View for MapsEntry {
    type V = RegionText;

    open spec fn view(&self) -> RegionText {
        RegionText { start: self.start, end: self.end, path: self.path@ }
    }
}

/// What some regions are.
pub open spec fn region_texts(v: Seq<MapsEntry>) -> Seq<RegionText> {
    v.map_values(|e: MapsEntry| e@)
}

/// The two numbers of a range `start-end` in base 16.
pub open spec fn range_of(s: Seq<char>) -> Option<(u64, u64)> {
    match s.index_of_first('-') {
        None => None,
        Some(p) => match (
            number_of(s.take(p), 16, u64::MAX as int),
            number_of(s.skip(p + 1), 16, u64::MAX as int),
        ) {
            (Ok(start), Ok(end)) => Some((start as u64, end as u64)),
            _ => None,
        },
    }
}

/// The region that a line describes: the range, the permissions, the offset, the device,
/// the inode, and the path in what follows.
pub open spec fn region_of(line: Seq<char>) -> Option<RegionText> {
    let w = words_of(line);
    if w.len() < 5 {
        None
    } else {
        match range_of(w[0]) {
            None => None,
            Some((start, end)) => Some(RegionText { start, end, path: joined(w.skip(5)) }),
        }
    }
}

/// The region that a line describes, if it can be read.
pub open spec fn readable_region_of(line: Seq<char>) -> Option<RegionText> {
    let w = words_of(line);
    if w.len() >= 2 && has_prefix(w[1], seq!['r']) {
        region_of(line)
    } else {
        None
    }
}

fn parse_range(s: &[char]) -> (r: Option<(u64, u64)>)
    ensures
        r == range_of(s@),
{
    proof {
        s@.index_of_first_ensures('-');
    }
    match position_of(s, '-') {
        None => None,
        Some(p) => {
            proof {
                let q = s@.index_of_first('-')->Some_0;
                if q < p {
                    assert(s@.take(p as int)[q] == '-');
                }
                assert(q == p);
            }
            let size: usize = s.len();
            let first = part_of(s, 0, p);
            let second = part_of(s, p + 1, size);
            assert(first@ =~= s@.take(p as int));
            assert(second@ =~= s@.skip(p + 1));
            match (
                parse_number(first.as_slice(), 16, u64::MAX),
                parse_number(second.as_slice(), 16, u64::MAX),
            ) {
                (Ok(start), Ok(end)) => Some((start, end)),
                _ => None,
            }
        },
    }
}

fn entry_of_words(w: &Vec<Vec<char>>) -> (r: Option<MapsEntry>)
    ensures
        match r {
            Some(e) => w@.len() >= 5 && range_of(w@[0]@) == Some((e.start, e.end)) && e.path@
                == joined(texts(w@).skip(5)),
            None => w@.len() < 5 || range_of(w@[0]@) is None,
        },
{
    if w.len() < 5 {
        return None;
    }
    match parse_range(w[0].as_slice()) {
        None => None,
        Some((start, end)) => Some(MapsEntry { start, end, path: join_from(w, 5) }),
    }
}

/// Reads a line of a memory map.
pub fn parse_maps_entry(line: &str) -> (r: Option<MapsEntry>)
    ensures
        match r {
            Some(e) => region_of(line@) == Some(e@),
            None => region_of(line@) is None,
        },
{
    let w = words(chars_of(line).as_slice());
    assert(w@.len() == words_of(line@).len());
    assert(w@.len() > 0 ==> texts(w@)[0] == w@[0]@);
    entry_of_words(&w)
}

/// Reads a line of a memory map, if the region can be read.
pub fn parse_readable_map_region(line: &str) -> (r: Option<MapsEntry>)
    ensures
        match r {
            Some(e) => readable_region_of(line@) == Some(e@),
            None => readable_region_of(line@) is None,
        },
{
    let w = words(chars_of(line).as_slice());
    assert(w@.len() == words_of(line@).len());
    assert(w@.len() > 0 ==> texts(w@)[0] == w@[0]@);
    assert(w@.len() > 1 ==> texts(w@)[1] == w@[1]@);
    if w.len() < 2 || w[1].len() == 0 || w[1][0] != 'r' {
        assert(has_prefix(words_of(line@)[1], seq!['r']) ==> words_of(line@)[1].take(1)[0] == 'r');
        return None;
    }
    assert(words_of(line@)[1].take(1) =~= seq!['r']);
    entry_of_words(&w)
}

// ---------------------------------------------------------------------------
// Regions to scan
// ---------------------------------------------------------------------------

/// A region that is neither empty nor too large to scan, and not of a file of the system.
pub open spec fn is_scannable(r: RegionText) -> bool {
    r.start < r.end && r.end - r.start <= MAPS_SCAN_MAX_REGION && !is_system_path(r.path)
}

/// The regions to scan that the first `n` lines describe.
pub open spec fn scannable_regions(all: Seq<Seq<char>>, n: nat) -> Seq<RegionText>
    decreases n,
{
    if n == 0 {
        seq![]
    } else {
        let before = scannable_regions(all, (n - 1) as nat);
        match readable_region_of(all[n - 1]) {
            Some(r) => if is_scannable(r) {
                before.push(r)
            } else {
                before
            },
            None => before,
        }
    }
}

/// The regions of a memory map that are worth a scan: those that can be read, are not
/// empty, are not too large and were not mapped from a file of the system.
pub fn regions_to_scan(content: &str) -> (r: Vec<MapsEntry>)
    ensures
        region_texts(r@) == scannable_regions(lines_of(content@), lines_of(content@).len()),
{
    let all = lines(chars_of(content).as_slice());
    let ghost spec_lines = lines_of(content@);
    let mut r: Vec<MapsEntry> = Vec::new();
    assert(region_texts(r@) =~= Seq::<RegionText>::empty());
    for i in 0..all.len()
        invariant
            texts(all@) == spec_lines,
            region_texts(r@) == scannable_regions(spec_lines, i as nat),
    {
        let line = string_of(all[i].as_slice());
        assert(line@ == texts(all@)[i as int]);
        if let Some(e) = parse_readable_map_region(line.as_str()) {
            if e.start < e.end && e.end - e.start <= MAPS_SCAN_MAX_REGION && !is_system_dex_path(
                e.path.as_str(),
            ) {
                let ghost before = region_texts(r@);
                let ghost text = e@;
                r.push(e);
                assert(region_texts(r@) =~= before.push(text));
            }
        }
    }
    assert(all@.len() == spec_lines.len());
    r
}

// ---------------------------------------------------------------------------
// Lookup of an address
// ---------------------------------------------------------------------------

/// The regions that the first `n` lines describe.
pub open spec fn regions_of(all: Seq<Seq<char>>, n: nat) -> Seq<RegionText>
    decreases n,
{
    if n == 0 {
        seq![]
    } else {
        let before = regions_of(all, (n - 1) as nat);
        match region_of(all[n - 1]) {
            Some(r) => before.push(r),
            None => before,
        }
    }
}

/// `order` lists every position of `s` once, by the start of the region there, and by the
/// position where two start alike.
pub open spec fn is_order(s: Seq<RegionText>, order: Seq<int>) -> bool {
    &&& order.len() == s.len()
    &&& forall|i: int| 0 <= i < order.len() ==> 0 <= #[trigger] order[i] < s.len()
    &&& forall|i: int, j: int|
        #![trigger order[i], order[j]]
        0 <= i < j < order.len() ==> s[order[i]].start < s[order[j]].start || (s[order[i]].start
            == s[order[j]].start && order[i] < order[j])
}

/// `out` holds the regions of `s` in the order of their starts; those that start alike
/// stay in their order.
pub open spec fn is_sorted_from(s: Seq<RegionText>, out: Seq<RegionText>) -> bool {
    exists|order: Seq<int>| #[trigger]
        is_order(s, order) && out == Seq::new(order.len(), |i: int| s[order[i]])
}

/// No region comes before one that starts earlier.
pub open spec fn starts_in_order(s: Seq<RegionText>) -> bool {
    forall|i: int, j: int| 0 <= i <= j < s.len() ==> (#[trigger] s[i]).start <= (#[trigger] s[j]).start
}

/// The regions of a process, in the order of their starts.
#[derive(Clone, Debug, PartialEq, Eq)]
pub struct MapsRegions {
    pub regions: Vec<MapsEntry>,
}

impl Default for MapsRegions {
    fn default() -> (r: Self)
        ensures
            r.regions@.len() == 0,
            r.wf(),
    {
        MapsRegions { regions: Vec::new() }
    }
}

fn take_in_order(found: &Vec<MapsEntry>) -> (r: Vec<MapsEntry>)
    ensures
        is_sorted_from(region_texts(found@), region_texts(r@)),
        starts_in_order(region_texts(r@)),
{
    let ghost s = region_texts(found@);
    let mut keys: Vec<(u64, u64)> = Vec::new();
    for i in 0..found.len()
        invariant
            s == region_texts(found@),
            keys@.len() == i,
            forall|j: int|
                0 <= j < i ==> #[trigger] keys@[j] == (s[j].start, j as u64),
    {
        keys.push((found[i].start, i as u64));
    }
    let order = sort_pairs(&keys);
    let ghost places = Seq::new(order@.len(), |i: int| order@[i].1 as int);
    proof {
        assert(keys@.no_duplicates()) by {
            assert forall|i: int, j: int| 0 <= i < keys@.len() && 0 <= j < keys@.len() && i != j
                implies keys@[i] != keys@[j] by {
                assert(keys@[i].1 == i && keys@[j].1 == j);
            }
        }
        keys@.lemma_multiset_has_no_duplicates();
        order@.lemma_multiset_has_no_duplicates_conv();
        assert forall|i: int| 0 <= i < order@.len() implies 0 <= (#[trigger] order@[i]).1 < s.len()
            && order@[i].0 == s[order@[i].1 as int].start by {
            assert(order@.contains(order@[i]));
            assert(keys@.contains(order@[i]));
            let j = keys@.index_of(order@[i]);
            assert(keys@[j] == (s[j].start, j as u64));
        }
        assert forall|i: int, j: int|
            #![trigger places[i], places[j]]
            0 <= i < j < places.len() implies s[places[i]].start < s[places[j]].start || (
        s[places[i]].start == s[places[j]].start && places[i] < places[j]) by {
            assert(pair_le(order@[i], order@[j]));
            assert(order@[i] != order@[j]);
        }
        assert(is_order(s, places));
    }
    let mut out: Vec<MapsEntry> = Vec::new();
    let ghost wanted = Seq::new(places.len(), |i: int| s[places[i]]);
    for i in 0..order.len()
        invariant
            s == region_texts(found@),
            found.len() == s.len(),
            order@.len() == places.len(),
            wanted == Seq::new(places.len(), |i: int| s[places[i]]),
            forall|i: int| 0 <= i < order@.len() ==> places[i] == (#[trigger] order@[i]).1,
            forall|i: int| 0 <= i < order@.len() ==> 0 <= (#[trigger] order@[i]).1 < s.len(),
            region_texts(out@) == wanted.take(i as int),
    {
        let k: usize = order[i].1 as usize;
        let entry = &found[k];
        let copy = MapsEntry {
            start: entry.start,
            end: entry.end,
            path: entry.path.as_str().to_owned(),
        };
        let ghost before = region_texts(out@);
        let ghost text = copy@;
        out.push(copy);
        assert(places[i as int] == order@[i as int].1);
        assert(wanted[i as int] == s[k as int]);
        assert(region_texts(out@) =~= before.push(text));
        assert(wanted.take(i + 1) =~= wanted.take(i as int).push(wanted[i as int]));
        assert(text == s[k as int]);
    }
    assert(wanted.take(wanted.len() as int) =~= wanted);
    proof {
        assert(region_texts(out@) == wanted);
        assert forall|i: int, j: int| 0 <= i <= j < wanted.len() implies (
        #[trigger] wanted[i]).start <= (#[trigger] wanted[j]).start by {
            if i < j {
                let (a, b) = (places[i], places[j]);
            }
        }
    }
    out
}

/// The region that a lookup stops at: the last one that starts at or before `addr`.
pub open spec fn is_candidate(s: Seq<RegionText>, addr: u64, i: int) -> bool {
    &&& 0 <= i < s.len()
    &&& s[i].start <= addr
    &&& i + 1 < s.len() ==> s[i + 1].start > addr
}

impl MapsRegions {
    /// The regions are in the order of their starts.
    pub open spec fn wf(&self) -> bool {
        starts_in_order(region_texts(self.regions@))
    }

    /// Takes the regions of a memory map in place of the earlier ones. Where the map could
    /// not be read, the earlier ones stay.
    pub fn refresh(&mut self, content: Option<&str>)
        requires
            old(self).wf(),
        ensures
            final(self).wf(),
            match content {
                None => *final(self) == *old(self),
                Some(text) => is_sorted_from(
                    regions_of(lines_of(text@), lines_of(text@).len()),
                    region_texts(final(self).regions@),
                ),
            },
    {
        let text = match content {
            None => return,
            Some(text) => text,
        };
        let all = lines(chars_of(text).as_slice());
        let ghost spec_lines = lines_of(text@);
        let mut found: Vec<MapsEntry> = Vec::new();
        assert(region_texts(found@) =~= Seq::<RegionText>::empty());
        for i in 0..all.len()
            invariant
                texts(all@) == spec_lines,
                found.len() <= i,
                region_texts(found@) == regions_of(spec_lines, i as nat),
        {
            let line = string_of(all[i].as_slice());
            assert(line@ == texts(all@)[i as int]);
            if let Some(e) = parse_maps_entry(line.as_str()) {
                let ghost before = region_texts(found@);
                let ghost text = e@;
                found.push(e);
                assert(region_texts(found@) =~= before.push(text));
            }
        }
        assert(all@.len() == spec_lines.len());
        self.regions = take_in_order(&found);
    }

    /// The path of the file that an address was mapped from.
    pub fn lookup(&self, addr: u64) -> (r: Option<&str>)
        requires
            self.wf(),
        ensures
            ({
                let s = region_texts(self.regions@);
                match r {
                    Some(path) => exists|i: int| #[trigger]
                        is_candidate(s, addr, i) && addr < s[i].end && path@ == s[i].path,
                    None => forall|i: int| #[trigger]
                        is_candidate(s, addr, i) ==> addr >= s[i].end,
                }
            }),
    {
        let ghost s = region_texts(self.regions@);
        let mut low: usize = 0;
        let mut high: usize = self.regions.len();
        while low < high
            invariant
                s == region_texts(self.regions@),
                starts_in_order(s),
                low <= high <= self.regions.len(),
                forall|j: int| 0 <= j < low ==> (#[trigger] s[j]).start <= addr,
                forall|j: int| high <= j < s.len() ==> (#[trigger] s[j]).start > addr,
            decreases high - low,
        {
            let middle: usize = low + (high - low) / 2;
            assert(s[middle as int].start == self.regions@[middle as int].start);
            if self.regions[middle].start <= addr {
                low = middle + 1;
            } else {
                high = middle;
            }
        }
        if low == 0 {
            return None;
        }
        assert(is_candidate(s, addr, low - 1));
        let entry = &self.regions[low - 1];
        assert(s[low - 1] == entry@);
        if addr < entry.end {
            Some(entry.path.as_str())
        } else {
            None
        }
    }
}

/// In regions that are in the order of their starts and do not overlap, a lookup finds the
/// one region that holds the address.
pub proof fn law_lookup_finds_the_region(s: Seq<RegionText>, addr: u64, k: int)
    requires
        starts_in_order(s),
        forall|i: int, j: int|
            0 <= i < j < s.len() ==> (#[trigger] s[i]).end <= (#[trigger] s[j]).start,
        0 <= k < s.len(),
        s[k].start <= addr < s[k].end,
    ensures
        is_candidate(s, addr, k),
        forall|i: int| #[trigger] is_candidate(s, addr, i) ==> i == k,
{
    if k + 1 < s.len() {
        assert(s[k].end <= s[k + 1].start);
    }
    assert forall|i: int| #[trigger] is_candidate(s, addr, i) implies i == k by {
        if i < k {
            assert(s[i + 1].start <= s[k].start);
        } else if i > k {
            assert(s[k].end <= s[i].start);
        }
    }
}

// ---------------------------------------------------------------------------
// Process status
// ---------------------------------------------------------------------------

/// The line states the real user id of the process, and it is `uid`.
pub open spec fn is_uid_line(line: Seq<char>, uid: u32) -> bool {
    &&& has_prefix(line, "Uid:"@)
    &&& words_of(line.skip("Uid:"@.len() as int)).len() > 0
    &&& number_of(words_of(line.skip("Uid:"@.len() as int))[0], 10, u32::MAX as int) == Ok::<
        int,
        crate::text::NumError,
    >(uid as int)
}

/// Whether a line of a process status states this user id.
pub fn uid_line_matches(line: &str, uid: u32) -> (r: bool)
    ensures
        r == is_uid_line(line@, uid),
{
    let chars = chars_of(line);
    match strip_prefix(chars.as_slice(), chars_of("Uid:").as_slice()) {
        None => false,
        Some(rest) => {
            let w = words(rest.as_slice());
            assert(w@.len() == words_of(rest@).len());
            if w.len() == 0 {
                return false;
            }
            assert(texts(w@)[0] == w@[0]@);
            match parse_number(w[0].as_slice(), 10, u32::MAX as u64) {
                Ok(v) => v == uid as u64,
                Err(_) => false,
            }
        },
    }
}

/// Whether the status of a process states this user id.
pub fn status_has_uid(status: &str, uid: u32) -> (r: bool)
    ensures
        r == exists|i: int|
            0 <= i < lines_of(status@).len() && is_uid_line(#[trigger] lines_of(status@)[i], uid),
{
    let all = lines(chars_of(status).as_slice());
    let ghost spec_lines = lines_of(status@);
    for i in 0..all.len()
        invariant
            texts(all@) == spec_lines,
            spec_lines == lines_of(status@),
            forall|j: int| 0 <= j < i ==> !is_uid_line(#[trigger] spec_lines[j], uid),
    {
        let line = string_of(all[i].as_slice());
        assert(line@ == texts(all@)[i as int]);
        if uid_line_matches(line.as_str(), uid) {
            assert(is_uid_line(spec_lines[i as int], uid));
            return true;
        }
    }
    assert(all@.len() == spec_lines.len());
    false
}

/// The process id that a directory name under `/proc` is.
pub fn parse_pid(name: &str) -> (r: Option<u32>)
    ensures
        match r {
            Some(pid) => number_of(name@, 10, u32::MAX as int) == Ok::<int, crate::text::NumError>(
                pid as int,
            ),
            None => number_of(name@, 10, u32::MAX as int) is Err,
        },
{
    match parse_number(chars_of(name).as_slice(), 10, u32::MAX as u64) {
        Ok(v) => Some(v as u32),
        Err(_) => None,
    }
}

/// Taking regions in the order of their starts neither loses nor adds one.
pub proof fn law_sorting_keeps_every_region(s: Seq<RegionText>, out: Seq<RegionText>)
    requires
        is_sorted_from(s, out),
    ensures
        out.len() == s.len(),
        starts_in_order(out),
        forall|i: int| 0 <= i < s.len() ==> out.contains(#[trigger] s[i]),
        forall|i: int| 0 <= i < out.len() ==> s.contains(#[trigger] out[i]),
{
    let order = choose|order: Seq<int>| #[trigger]
        is_order(s, order) && out == Seq::new(order.len(), |i: int| s[order[i]]);
    assert(order.no_duplicates());
    order.unique_seq_to_set();
    let places = vstd::set_lib::set_int_range(0, s.len() as int);
    vstd::set_lib::lemma_int_range(0, s.len() as int);
    assert(order.to_set().subset_of(places));
    vstd::set_lib::lemma_subset_equality(order.to_set(), places);
    assert forall|i: int| 0 <= i < s.len() implies out.contains(#[trigger] s[i]) by {
        assert(places.contains(i));
        assert(order.to_set().contains(i));
        let k = order.index_of(i);
        assert(out[k] == s[i]);
    }
    assert forall|i: int| 0 <= i < out.len() implies s.contains(#[trigger] out[i]) by {
        assert(s[order[i]] == out[i]);
    }
}

proof fn lemma_range(start: u64, end: u64)
    ensures
        range_of(hex_text(start as nat).push('-') + hex_text(end as nat)) == Some((start, end)),
        is_solid(hex_text(start as nat).push('-') + hex_text(end as nat)),
{
    let (a, b) = (hex_text(start as nat), hex_text(end as nat));
    let s = a.push('-') + b;
    law_numbers_are_read_back(start as nat, u64::MAX as int);
    law_numbers_are_read_back(end as nat, u64::MAX as int);
    lemma_hex_has_no_hyphen(start as nat);
    assert(s[a.len() as int] == '-');
    assert(s.contains('-'));
    s.index_of_first_ensures('-');
    let p = s.index_of_first('-')->Some_0;
    assert(p == a.len()) by {
        if p < a.len() {
            assert(s[p] == a[p]);
            assert(a.contains(a[p]));
        }
    }
    assert(s.take(p) =~= a);
    assert(s.skip(p + 1) =~= b);
    assert forall|i: int| 0 <= i < s.len() implies !is_white_space(#[trigger] s[i]) by {
        if i < a.len() {
            assert(s[i] == a[i]);
        } else if i > a.len() {
            assert(s[i] == b[i - a.len() - 1]);
        }
    }
}

/// A line of a memory map gives the range in base 16, and the path behind the permissions, the
/// offset, the device and the inode; the words of the path are joined by one blank. A region
/// can be read where its permissions start with `r`.
pub proof fn law_lines_of_a_memory_map(
    start: u64,
    end: u64,
    perms: Seq<char>,
    offset: Seq<char>,
    device: Seq<char>,
    inode: Seq<char>,
    path: Seq<char>,
)
    requires
        is_solid(perms) && perms.len() > 0,
        is_solid(offset) && offset.len() > 0,
        is_solid(device) && device.len() > 0,
        is_solid(inode) && inode.len() > 0,
    ensures
        ({
            let line = (hex_text(start as nat).push('-') + hex_text(end as nat)).push(' ') + (
            perms.push(' ') + (offset.push(' ') + (device.push(' ') + (inode.push(' ') + path))));
            let region = RegionText { start, end, path: joined(words_of(path)) };
            &&& region_of(line) == Some(region)
            &&& readable_region_of(line) == (if perms[0] == 'r' {
                Some(region)
            } else {
                None
            })
        }),
        is_solid(path) ==> joined(words_of(path)) == path,
{
    let range = hex_text(start as nat).push('-') + hex_text(end as nat);
    let t4 = inode.push(' ') + path;
    let t3 = device.push(' ') + t4;
    let t2 = offset.push(' ') + t3;
    let t1 = perms.push(' ') + t2;
    let line = range.push(' ') + t1;
    lemma_range(start, end);
    lemma_first_word(range, ' ', t1);
    lemma_first_word(perms, ' ', t2);
    lemma_first_word(offset, ' ', t3);
    lemma_first_word(device, ' ', t4);
    lemma_first_word(inode, ' ', path);
    let w = words_of(line);
    assert(w =~= seq![range, perms, offset, device, inode] + words_of(path));
    assert(w[0] == range && w[1] == perms);
    assert(w.skip(5) =~= words_of(path));
    assert(perms.take(1) =~= seq![perms[0]]);
    assert(perms[0] != 'r' ==> !has_prefix(perms, seq!['r'])) by {
        if has_prefix(perms, seq!['r']) {
            assert(perms.take(1)[0] == 'r');
        }
    }
    law_words_are_parted_by_white_space(path, ' ', path, path);
    if is_solid(path) && path.len() == 0 {
        assert(path =~= Seq::<char>::empty());
        assert(joined(words_of(path)) =~= path);
    }
}

/// A region is scanned where a line describes it as one that can be read, it is not empty and
/// not larger than 512 MiB, and it was not mapped from a file of the system.
pub proof fn law_regions_that_are_scanned(all: Seq<Seq<char>>, n: nat, r: RegionText)
    requires
        n <= all.len(),
    ensures
        scannable_regions(all, n).contains(r) <==> r.start < r.end && r.end - r.start <= 0x2000_0000
            && !is_system_path(r.path) && exists|i: int|
            0 <= i < n && readable_region_of(#[trigger] all[i]) == Some(r),
    decreases n,
{
    if n > 0 {
        law_regions_that_are_scanned(all, (n - 1) as nat, r);
        let before = scannable_regions(all, (n - 1) as nat);
        let after = scannable_regions(all, n);
        if before.contains(r) {
            let k = before.index_of(r);
            assert(after[k] == r);
            let i = choose|i: int| 0 <= i < n - 1 && readable_region_of(#[trigger] all[i]) == Some(r);
            assert(readable_region_of(all[i]) == Some(r));
        }
        if readable_region_of(all[n - 1]) == Some(r) && is_scannable(r) {
            assert(after.last() == r);
        }
        if after.contains(r) && !before.contains(r) {
            assert(readable_region_of(all[n - 1]) == Some(r));
        }
    }
}

/// Every region that a line describes is taken for a lookup, and no other.
pub proof fn law_regions_that_are_looked_up(all: Seq<Seq<char>>, n: nat, r: RegionText)
    requires
        n <= all.len(),
    ensures
        regions_of(all, n).contains(r) <==> exists|i: int|
            0 <= i < n && region_of(#[trigger] all[i]) == Some(r),
    decreases n,
{
    if n > 0 {
        law_regions_that_are_looked_up(all, (n - 1) as nat, r);
        let before = regions_of(all, (n - 1) as nat);
        let after = regions_of(all, n);
        if before.contains(r) {
            let k = before.index_of(r);
            assert(after[k] == r);
            let i = choose|i: int| 0 <= i < n - 1 && region_of(#[trigger] all[i]) == Some(r);
            assert(region_of(all[i]) == Some(r));
        }
        if region_of(all[n - 1]) == Some(r) {
            assert(after.last() == r);
        }
        if after.contains(r) && !before.contains(r) {
            assert(region_of(all[n - 1]) == Some(r));
        }
    }
}

/// The line `Uid:` of a process status states the real user id first; the ids behind it do not
/// matter.
pub proof fn law_real_user_id_comes_first(uid: u32, other: u32, rest: Seq<char>)
    ensures
        is_uid_line("Uid:"@ + (seq!['\t'] + dec_text(uid as nat)).push('\t') + rest, other) <==> other
            == uid,
{
    reveal_strlit("Uid:");
    let number = dec_text(uid as nat);
    let line = "Uid:"@ + (seq!['\t'] + number).push('\t') + rest;
    law_numbers_are_read_back(uid as nat, u32::MAX as int);
    assert(line.take(4) =~= "Uid:"@);
    let tail = number.push('\t') + rest;
    let none = Seq::<char>::empty();
    assert(line.skip(4) =~= none.push('\t') + tail);
    law_words_are_parted_by_white_space(none, '\t', tail, none);
    lemma_first_word(number, '\t', rest);
    let w = words_of(line.skip(4));
    assert(w =~= seq![number] + words_of(rest));
    assert(w[0] == number);
}

} // verus!
