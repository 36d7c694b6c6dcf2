//! Reassembling a DEX file from chunks that arrive in any order.
use crate::bytes::{overwrite, splice};
use vstd::prelude::*;

verus! {

/// A DEX file of which some bytes have been received.
#[derive(Clone, Debug, PartialEq, Eq)]
pub struct DexRecvState {
    pub total: u32,
    /// The bytes that were received, as half-open intervals: sorted, and neither
    /// overlapping nor adjacent.
    pub intervals: Vec<(u32, u32)>,
    pub buf: Vec<u8>,
}

/// The intervals are not empty, and there is a gap between each two.
pub open spec fn separate(s: Seq<(u32, u32)>) -> bool {
    &&& forall|i: int| 0 <= i < s.len() ==> (#[trigger] s[i]).0 < s[i].1
    &&& forall|i: int, j: int| 0 <= i < j < s.len() ==> (#[trigger] s[i]).1 < (#[trigger] s[j]).0
}

/// A position lies in an interval.
pub open spec fn within(x: int, interval: (u32, u32)) -> bool {
    interval.0 <= x < interval.1
}

/// A position lies in one of the intervals.
pub open spec fn covers(s: Seq<(u32, u32)>, x: int) -> bool {
    exists|i: int| 0 <= i < s.len() && within(x, #[trigger] s[i])
}

/// `s` without the intervals from `a` up to `b`, and with `new` in their place.
pub open spec fn merged(s: Seq<(u32, u32)>, a: int, new: (u32, u32), b: int) -> Seq<(u32, u32)> {
    s.take(a).push(new) + s.skip(b)
}

/// Merging an interval covers what was covered and what it covers itself.
proof fn lemma_merged(s: Seq<(u32, u32)>, a: int, start: u32, end: u32, new: (u32, u32), b: int)
    requires
        separate(s),
        0 <= a <= b <= s.len(),
        new.0 <= start < end <= new.1,
        forall|j: int| 0 <= j < a ==> (#[trigger] s[j]).1 < new.0,
        forall|j: int| b <= j < s.len() ==> new.1 < (#[trigger] s[j]).0,
        forall|x: int|
            #[trigger] within(x, new) <==> start <= x < end || exists|j: int|
                a <= j < b && within(x, #[trigger] s[j]),
    ensures
        separate(merged(s, a, new, b)),
        forall|x: int| #[trigger]
            covers(merged(s, a, new, b), x) <==> covers(s, x) || start <= x < end,
{
    let m = merged(s, a, new, b);
    assert forall|i: int| 0 <= i < m.len() implies #[trigger] m[i] == (if i < a {
        s[i]
    } else if i == a {
        new
    } else {
        s[i - a - 1 + b]
    }) by {}
    assert forall|x: int| #[trigger] covers(m, x) <==> covers(s, x) || start <= x < end by {
        if covers(m, x) {
            let i = choose|i: int| 0 <= i < m.len() && within(x, #[trigger] m[i]);
            if i < a {
                assert(within(x, s[i]));
            } else if i == a {
                assert(within(x, new));
            } else {
                assert(within(x, s[i - a - 1 + b]));
            }
        }
        if covers(s, x) {
            let j = choose|j: int| 0 <= j < s.len() && within(x, #[trigger] s[j]);
            if j < a {
                assert(within(x, m[j]));
            } else if j < b {
                assert(within(x, new));
                assert(within(x, m[a]));
            } else {
                assert(within(x, m[j - b + a + 1]));
            }
        }
        if start <= x < end {
            assert(within(x, new));
            assert(within(x, m[a]));
        }
    }
}

/// `t` is a list of separate intervals that covers what `s` covers and the positions from
/// `start` up to `end`.
pub open spec fn is_union(t: Seq<(u32, u32)>, s: Seq<(u32, u32)>, start: int, end: int) -> bool {
    &&& separate(t)
    &&& forall|x: int| #[trigger] covers(t, x) <==> covers(s, x) || start <= x < end
}

/// The one list of separate intervals that covers what `s` covers and the positions from
/// `start` up to `end`.
pub open spec fn union_of(s: Seq<(u32, u32)>, start: int, end: int) -> Seq<(u32, u32)> {
    choose|t: Seq<(u32, u32)>| is_union(t, s, start, end)
}

/// A list that is the union is the one that `union_of` names.
proof fn lemma_union(t: Seq<(u32, u32)>, s: Seq<(u32, u32)>, start: int, end: int)
    requires
        is_union(t, s, start, end),
    ensures
        union_of(s, start, end) == t,
{
    let u = union_of(s, start, end);
    assert(is_union(u, s, start, end));
    assert forall|x: int| #[trigger] covers(u, x) <==> covers(t, x) by {}
    law_intervals_are_canonical(u, t);
}

/// What of a file has been received.
pub struct RecvText {
    pub total: u32,
    pub intervals: Seq<(u32, u32)>,
    pub buf: Seq<u8>,
}

impl View for DexRecvState {
    type V = RecvText;

    open spec fn view(&self) -> RecvText {
        RecvText { total: self.total, intervals: self.intervals@, buf: self.buf@ }
    }
}

impl RecvText {
    /// Nothing of a file of `total` bytes.
    pub open spec fn fresh(total: u32) -> RecvText {
        RecvText { total, intervals: seq![], buf: Seq::new(total as nat, |i: int| 0u8) }
    }

    /// The intervals are in order and inside the buffer, which has the file's size.
    pub open spec fn wf(self) -> bool {
        &&& separate(self.intervals)
        &&& self.buf.len() == self.total
        &&& forall|i: int| 0 <= i < self.intervals.len() ==> (#[trigger] self.intervals[i]).1
            <= self.total
    }

    /// One interval covers the whole file.
    pub open spec fn complete(self) -> bool {
        self.intervals.len() == 1 && self.intervals[0].0 == 0 && self.intervals[0].1 >= self.total
    }

    /// What has been received once a chunk was taken. A chunk that does not lie inside the
    /// file changes nothing.
    pub open spec fn with_chunk(self, offset: u32, payload: Seq<u8>) -> RecvText {
        if offset + payload.len() <= self.total {
            RecvText {
                total: self.total,
                intervals: union_of(self.intervals, offset as int, offset + payload.len()),
                buf: splice(self.buf, offset as int, payload),
            }
        } else {
            self
        }
    }
}

impl DexRecvState {
    /// Nothing of a file of `total` bytes has been received.
    pub fn new(total: u32) -> (r: Self)
        ensures
            r@ == RecvText::fresh(total),
            r@.wf(),
    {
        let mut buf: Vec<u8> = Vec::new();
        for i in 0..total
            invariant
                buf@ == Seq::new(i as nat, |i: int| 0u8),
        {
            buf.push(0);
            assert(buf@ =~= Seq::new((i + 1) as nat, |i: int| 0u8));
        }
        let r = DexRecvState { total, intervals: Vec::new(), buf };
        assert(r@.intervals =~= Seq::<(u32, u32)>::empty());
        r
    }

    /// Notes that the bytes from `start` up to `end` were received.
    pub fn record(&mut self, start: u32, end: u32)
        requires
            separate(old(self).intervals@),
        ensures
            is_union(final(self).intervals@, old(self).intervals@, start as int, end as int),
            final(self).intervals@ == union_of(old(self).intervals@, start as int, end as int),
            final(self).total == old(self).total,
            final(self).buf == old(self).buf,
    {
        if start >= end {
            proof {
                assert(is_union(self.intervals@, self.intervals@, start as int, end as int));
                lemma_union(self.intervals@, self.intervals@, start as int, end as int);
            }
            return;
        }
        let ghost s = self.intervals@;
        let count: usize = self.intervals.len();
        let mut out: Vec<(u32, u32)> = Vec::new();
        let mut new: (u32, u32) = (start, end);
        let mut i: usize = 0;
        while i < count && self.intervals[i].1 < start
            invariant
                count == s.len(),
                self.intervals@ == s,
                i <= count,
                out@ == s.take(i as int),
                forall|j: int| 0 <= j < i ==> (#[trigger] s[j]).1 < start,
            decreases count - i,
        {
            out.push(self.intervals[i]);
            i += 1;
            assert(out@ =~= s.take(i as int));
        }
        let ghost a = i as int;
        while i < count && self.intervals[i].0 <= new.1
            invariant
                count == s.len(),
                self.intervals@ == s,
                separate(s),
                0 <= a <= i <= count,
                a < count ==> s[a].1 >= start,
                new.0 <= start < end <= new.1,
                forall|j: int| 0 <= j < a ==> (#[trigger] s[j]).1 < new.0,
                forall|x: int|
                    #[trigger] within(x, new) <==> start <= x < end || exists|j: int|
                        a <= j < i && within(x, #[trigger] s[j]),
            decreases count - i,
        {
            let ghost before = new;
            let next = self.intervals[i];
            if next.0 < new.0 {
                new.0 = next.0;
            }
            if next.1 > new.1 {
                new.1 = next.1;
            }
            proof {
                assert(s[i as int].1 >= start) by {
                    if a < i {
                        assert(s[a].1 < s[i as int].0);
                    }
                }
                assert forall|x: int|
                    #[trigger] within(x, new) <==> start <= x < end || exists|j: int|
                        a <= j < i + 1 && within(x, #[trigger] s[j]) by {
                    assert(within(x, new) <==> within(x, before) || within(x, s[i as int]));
                    if exists|j: int| a <= j < i + 1 && within(x, #[trigger] s[j]) {
                        let j = choose|j: int| a <= j < i + 1 && within(x, #[trigger] s[j]);
                        if j < i {
                            assert(within(x, before));
                        }
                    }
                }
            }
            i += 1;
        }
        let ghost b = i as int;
        proof {
            assert forall|j: int| b <= j < s.len() implies new.1 < (#[trigger] s[j]).0 by {
                if b < j {
                    assert(s[b].1 < s[j].0);
                }
            }
            lemma_merged(s, a, start, end, new, b);
        }
        out.push(new);
        while i < count
            invariant
                count == s.len(),
                self.intervals@ == s,
                0 <= a <= b <= i <= count,
                out@ == s.take(a).push(new) + s.subrange(b, i as int),
            decreases count - i,
        {
            out.push(self.intervals[i]);
            i += 1;
            assert(out@ =~= s.take(a).push(new) + s.subrange(b, i as int));
        }
        assert(out@ =~= merged(s, a, new, b));
        proof {
            lemma_union(out@, s, start as int, end as int);
        }
        self.intervals = out;
    }

    /// Whether the whole file was received.
    pub fn is_complete(&self) -> (r: bool)
        ensures
            r == self@.complete(),
    {
        self.intervals.len() == 1 && self.intervals[0].0 == 0 && self.intervals[0].1 >= self.total
    }

    /// Takes a chunk, if it lies inside the file.
    pub fn receive(&mut self, offset: u32, payload: &[u8])
        requires
            old(self)@.wf(),
        ensures
            final(self)@ == old(self)@.with_chunk(offset, payload@),
            final(self)@.wf(),
    {
        let size: u64 = payload.len() as u64;
        if size > self.total as u64 || offset as u64 > self.total as u64 - size {
            return;
        }
        let end: u32 = offset + payload.len() as u32;
        let ghost before = *self;
        overwrite(self.buf.as_mut_slice(), offset as usize, payload);
        self.record(offset, end);
        proof {
            law_chunk_is_added(before@, offset, payload@);
        }
    }
}

// ---------------------------------------------------------------------------
// Laws
// ---------------------------------------------------------------------------

/// There is one list of separate intervals that covers given positions: what was received
/// determines the intervals, whatever the order in which it came.
pub proof fn law_intervals_are_canonical(a: Seq<(u32, u32)>, b: Seq<(u32, u32)>)
    requires
        separate(a),
        separate(b),
        forall|x: int| #[trigger] covers(a, x) <==> covers(b, x),
    ensures
        a == b,
    decreases a.len(),
{
    if a.len() == 0 {
        if b.len() > 0 {
            assert(within(b[0].0 as int, b[0]));
            assert(covers(b, b[0].0 as int));
            assert(covers(a, b[0].0 as int));
        }
        assert(a =~= b);
    } else if b.len() == 0 {
        assert(within(a[0].0 as int, a[0]));
        assert(covers(a, a[0].0 as int));
    } else {
        lemma_first_start(a, b);
        lemma_first_start(b, a);
        lemma_first_end(a, b);
        lemma_first_end(b, a);
        let (c, d) = (a.drop_first(), b.drop_first());
        assert forall|x: int| #[trigger] covers(c, x) <==> covers(d, x) by {
            lemma_rest_covers(a, x);
            lemma_rest_covers(b, x);
            assert(covers(a, x) <==> covers(b, x));
        }
        assert forall|i: int, j: int| 0 <= i < j < c.len() implies (#[trigger] c[i]).1 < (
        #[trigger] c[j]).0 by {
            assert(a[i + 1].1 < a[j + 1].0);
        }
        assert forall|i: int, j: int| 0 <= i < j < d.len() implies (#[trigger] d[i]).1 < (
        #[trigger] d[j]).0 by {
            assert(b[i + 1].1 < b[j + 1].0);
        }
        assert forall|i: int| 0 <= i < c.len() implies (#[trigger] c[i]).0 < c[i].1 by {
            assert(a[i + 1].0 < a[i + 1].1);
        }
        assert forall|i: int| 0 <= i < d.len() implies (#[trigger] d[i]).0 < d[i].1 by {
            assert(b[i + 1].0 < b[i + 1].1);
        }
        law_intervals_are_canonical(c, d);
        assert(a =~= seq![a[0]] + c);
        assert(b =~= seq![b[0]] + d);
    }
}

/// No covered position lies before the first interval.
proof fn lemma_first_start(a: Seq<(u32, u32)>, b: Seq<(u32, u32)>)
    requires
        separate(a),
        separate(b),
        a.len() > 0,
        b.len() > 0,
        forall|x: int| #[trigger] covers(a, x) <==> covers(b, x),
    ensures
        a[0].0 <= b[0].0,
{
    let x = b[0].0 as int;
    assert(within(x, b[0]));
    assert(covers(b, x));
    assert(covers(a, x));
    let i = choose|i: int| 0 <= i < a.len() && within(x, #[trigger] a[i]);
    if i > 0 {
        assert(a[0].1 < a[i].0);
    }
}

/// The first interval ends where the covered positions have their first gap.
proof fn lemma_first_end(a: Seq<(u32, u32)>, b: Seq<(u32, u32)>)
    requires
        separate(a),
        separate(b),
        a.len() > 0,
        b.len() > 0,
        a[0].0 == b[0].0,
        forall|x: int| #[trigger] covers(a, x) <==> covers(b, x),
    ensures
        a[0].1 <= b[0].1,
{
    if a[0].1 > b[0].1 {
        let x = b[0].1 as int;
        assert(within(x, a[0]));
        assert(covers(a, x));
        assert(covers(b, x));
        let i = choose|i: int| 0 <= i < b.len() && within(x, #[trigger] b[i]);
        if i > 0 {
            assert(b[0].1 < b[i].0);
        }
    }
}

/// The intervals behind the first one cover what lies behind its end.
proof fn lemma_rest_covers(a: Seq<(u32, u32)>, x: int)
    requires
        separate(a),
        a.len() > 0,
    ensures
        covers(a.drop_first(), x) <==> covers(a, x) && x >= a[0].1,
{
    let c = a.drop_first();
    if covers(c, x) {
        let i = choose|i: int| 0 <= i < c.len() && within(x, #[trigger] c[i]);
        assert(within(x, a[i + 1]));
        assert(a[0].1 < a[i + 1].0);
    }
    if covers(a, x) && x >= a[0].1 {
        let i = choose|i: int| 0 <= i < a.len() && within(x, #[trigger] a[i]);
        assert(within(x, c[i - 1]));
    }
}

/// A file is complete exactly when it is not empty and every byte of it was received.
pub proof fn law_complete_means_every_byte(s: RecvText)
    requires
        s.wf(),
    ensures
        s.complete() <==> s.total > 0 && forall|x: int|
            0 <= x < s.total ==> #[trigger] covers(s.intervals, x),
{
    let v = s.intervals;
    if s.complete() {
        assert(v[0].0 < v[0].1);
        assert forall|x: int| 0 <= x < s.total implies #[trigger] covers(v, x) by {
            assert(within(x, v[0]));
        }
    }
    if s.total > 0 && forall|x: int| 0 <= x < s.total ==> #[trigger] covers(v, x) {
        assert(covers(v, 0));
        let i = choose|i: int| 0 <= i < v.len() && within(0, #[trigger] v[i]);
        if i > 0 {
            assert(v[0].1 < v[i].0);
        }
        let whole: Seq<(u32, u32)> = seq![(0u32, s.total)];
        assert forall|x: int| #[trigger] covers(v, x) <==> covers(whole, x) by {
            if covers(whole, x) {
                let j = choose|j: int| 0 <= j < whole.len() && within(x, #[trigger] whole[j]);
                assert(0 <= x < s.total);
            }
            if covers(v, x) {
                let j = choose|j: int| 0 <= j < v.len() && within(x, #[trigger] v[j]);
                assert(v[j].1 <= s.total);
                assert(within(x, whole[0]));
            }
        }
        law_intervals_are_canonical(v, whole);
    }
}

/// A chunk keeps the intervals separate and inside the file, and adds its own positions to
/// those that were received.
pub proof fn law_chunk_is_added(s: RecvText, offset: u32, payload: Seq<u8>)
    requires
        s.wf(),
        offset + payload.len() <= s.total,
    ensures
        s.with_chunk(offset, payload).wf(),
        is_union(
            s.with_chunk(offset, payload).intervals,
            s.intervals,
            offset as int,
            offset + payload.len(),
        ),
{
    let t = s.with_chunk(offset, payload).intervals;
    let end = offset + payload.len();
    lemma_union_exists(s.intervals, offset, end as u32);
    assert forall|i: int| 0 <= i < t.len() implies (#[trigger] t[i]).1 <= s.total by {
        let x = t[i].1 - 1;
        assert(within(x, t[i]));
        assert(covers(t, x));
        if covers(s.intervals, x) {
            let j = choose|j: int| 0 <= j < s.intervals.len() && within(x, #[trigger] s.intervals[j]);
            assert(s.intervals[j].1 <= s.total);
        }
    }
}

/// Two chunks leave the same intervals in either order.
pub proof fn law_order_of_chunks_does_not_matter(
    s: RecvText,
    a: u32,
    first: Seq<u8>,
    b: u32,
    second: Seq<u8>,
)
    requires
        s.wf(),
    ensures
        s.with_chunk(a, first).with_chunk(b, second).intervals == s.with_chunk(
            b,
            second,
        ).with_chunk(a, first).intervals,
{
    if a + first.len() <= s.total && b + second.len() <= s.total {
        let (sa, sb) = (s.with_chunk(a, first), s.with_chunk(b, second));
        law_chunk_is_added(s, a, first);
        law_chunk_is_added(s, b, second);
        law_chunk_is_added(sa, b, second);
        law_chunk_is_added(sb, a, first);
        let (u, v) = (sa.with_chunk(b, second).intervals, sb.with_chunk(a, first).intervals);
        assert forall|x: int| #[trigger] covers(u, x) <==> covers(v, x) by {
            assert(covers(sa.intervals, x) <==> covers(s.intervals, x) || a <= x < a + first.len());
            assert(covers(sb.intervals, x) <==> covers(s.intervals, x) || b <= x < b + second.len());
        }
        law_intervals_are_canonical(u, v);
    }
}

/// Separate intervals have a union with any other interval.
proof fn lemma_union_exists(s: Seq<(u32, u32)>, start: u32, end: u32)
    requires
        separate(s),
    ensures
        is_union(union_of(s, start as int, end as int), s, start as int, end as int),
    decreases s.len(),
{
    if start >= end {
        assert(is_union(s, s, start as int, end as int));
    } else {
        let a = lemma_first_reached(s, start, 0);
        let (b, new) = lemma_coalesce(s, start, end, a, a, (start, end));
        lemma_merged(s, a, start, end, new, b);
        assert(is_union(merged(s, a, new, b), s, start as int, end as int));
    }
}

/// The first interval that does not end before `start`.
proof fn lemma_first_reached(s: Seq<(u32, u32)>, start: u32, i: int) -> (a: int)
    requires
        0 <= i <= s.len(),
        forall|j: int| 0 <= j < i ==> (#[trigger] s[j]).1 < start,
    ensures
        i <= a <= s.len(),
        forall|j: int| 0 <= j < a ==> (#[trigger] s[j]).1 < start,
        a < s.len() ==> s[a].1 >= start,
    decreases s.len() - i,
{
    if i < s.len() && s[i].1 < start {
        lemma_first_reached(s, start, i + 1)
    } else {
        i
    }
}

/// Joins an interval with those that overlap or touch it.
proof fn lemma_coalesce(
    s: Seq<(u32, u32)>,
    start: u32,
    end: u32,
    a: int,
    i: int,
    new: (u32, u32),
) -> (r: (int, (u32, u32)))
    requires
        separate(s),
        0 <= a <= i <= s.len(),
        a < s.len() ==> s[a].1 >= start,
        new.0 <= start < end <= new.1,
        forall|j: int| 0 <= j < a ==> (#[trigger] s[j]).1 < new.0,
        forall|x: int|
            #[trigger] within(x, new) <==> start <= x < end || exists|j: int|
                a <= j < i && within(x, #[trigger] s[j]),
    ensures
        a <= r.0 <= s.len(),
        r.1.0 <= start < end <= r.1.1,
        forall|j: int| 0 <= j < a ==> (#[trigger] s[j]).1 < r.1.0,
        forall|j: int| r.0 <= j < s.len() ==> r.1.1 < (#[trigger] s[j]).0,
        forall|x: int|
            #[trigger] within(x, r.1) <==> start <= x < end || exists|j: int|
                a <= j < r.0 && within(x, #[trigger] s[j]),
    decreases s.len() - i,
{
    if i < s.len() && s[i].0 <= new.1 {
        let next = s[i];
        let wider = (
            if next.0 < new.0 {
                next.0
            } else {
                new.0
            },
            if next.1 > new.1 {
                next.1
            } else {
                new.1
            },
        );
        assert(s[i].1 >= start) by {
            if a < i {
                assert(s[a].1 < s[i].0);
            }
        }
        assert forall|x: int|
            #[trigger] within(x, wider) <==> start <= x < end || exists|j: int|
                a <= j < i + 1 && within(x, #[trigger] s[j]) by {
            assert(within(x, wider) <==> within(x, new) || within(x, s[i]));
            if exists|j: int| a <= j < i + 1 && within(x, #[trigger] s[j]) {
                let j = choose|j: int| a <= j < i + 1 && within(x, #[trigger] s[j]);
                if j < i {
                    assert(within(x, new));
                }
            }
        }
        lemma_coalesce(s, start, end, a, i + 1, wider)
    } else {
        assert forall|j: int| i <= j < s.len() implies new.1 < (#[trigger] s[j]).0 by {
            if i < j {
                assert(s[i].1 < s[j].0);
            }
        }
        (i, new)
    }
}

/// Every byte that was received is the byte of the file.
pub open spec fn holds_part_of(s: RecvText, file: Seq<u8>) -> bool {
    &&& s.total == file.len()
    &&& forall|x: int| #[trigger] covers(s.intervals, x) && 0 <= x < file.len() ==> s.buf[x] == file[x]
}

/// A chunk of the file leaves the received bytes those of the file, in whatever order the
/// chunks come.
pub proof fn law_chunk_of_file_is_kept(s: RecvText, offset: u32, payload: Seq<u8>, file: Seq<u8>)
    requires
        s.wf(),
        holds_part_of(s, file),
        offset + payload.len() <= file.len(),
        payload == file.subrange(offset as int, offset + payload.len()),
    ensures
        holds_part_of(s.with_chunk(offset, payload), file),
{
    law_chunk_is_added(s, offset, payload);
    let t = s.with_chunk(offset, payload);
    assert forall|x: int| #[trigger]
        covers(t.intervals, x) && 0 <= x < file.len() implies t.buf[x] == file[x] by {
        if offset <= x < offset + payload.len() {
            assert(payload[x - offset] == file[x]);
        } else {
            assert(covers(s.intervals, x));
        }
    }
}

/// When the whole file was received, the buffer is the file.
pub proof fn law_complete_buffer_is_the_file(s: RecvText, file: Seq<u8>)
    requires
        s.wf(),
        holds_part_of(s, file),
        s.complete(),
    ensures
        s.buf == file,
{
    law_complete_means_every_byte(s);
    assert forall|x: int| 0 <= x < file.len() implies s.buf[x] == file[x] by {
        assert(covers(s.intervals, x));
    }
    assert(s.buf =~= file);
}

/// A chunk that does not lie inside the file changes nothing.
pub proof fn law_chunks_outside_the_file_are_dropped(s: RecvText, offset: u32, payload: Seq<u8>)
    requires
        offset + payload.len() > s.total,
    ensures
        s.with_chunk(offset, payload) == s,
{
}

/// What has been received once some chunks were taken, one after the other.
pub open spec fn after_chunks(s: RecvText, chunks: Seq<(u32, Seq<u8>)>) -> RecvText
    decreases chunks.len(),
{
    if chunks.len() == 0 {
        s
    } else {
        after_chunks(s, chunks.drop_last()).with_chunk(chunks.last().0, chunks.last().1)
    }
}

/// The chunk is a part of the file.
pub open spec fn is_part(chunk: (u32, Seq<u8>), file: Seq<u8>) -> bool {
    chunk.0 + chunk.1.len() <= file.len() && chunk.1 == file.subrange(
        chunk.0 as int,
        chunk.0 + chunk.1.len(),
    )
}

/// A byte of the file is in one of the chunks.
pub open spec fn has_byte(chunks: Seq<(u32, Seq<u8>)>, x: int) -> bool {
    exists|i: int|
        0 <= i < chunks.len() && (#[trigger] chunks[i]).0 <= x < chunks[i].0 + chunks[i].1.len()
}

proof fn lemma_after_chunks(file: Seq<u8>, chunks: Seq<(u32, Seq<u8>)>)
    requires
        file.len() <= u32::MAX,
        forall|i: int| 0 <= i < chunks.len() ==> is_part(#[trigger] chunks[i], file),
    ensures
        ({
            let s = after_chunks(RecvText::fresh(file.len() as u32), chunks);
            &&& s.wf()
            &&& holds_part_of(s, file)
            &&& forall|x: int| #[trigger] covers(s.intervals, x) <==> has_byte(chunks, x)
        }),
    decreases chunks.len(),
{
    let fresh = RecvText::fresh(file.len() as u32);
    if chunks.len() > 0 {
        let rest = chunks.drop_last();
        let last = chunks.last();
        assert(chunks[chunks.len() - 1] == last);
        assert forall|i: int| 0 <= i < rest.len() implies is_part(#[trigger] rest[i], file) by {
            assert(rest[i] == chunks[i]);
        }
        lemma_after_chunks(file, rest);
        let before = after_chunks(fresh, rest);
        let after = after_chunks(fresh, chunks);
        law_chunk_is_added(before, last.0, last.1);
        law_chunk_of_file_is_kept(before, last.0, last.1, file);
        assert forall|x: int| #[trigger] covers(after.intervals, x) <==> has_byte(chunks, x) by {
            if has_byte(rest, x) {
                let i = choose|i: int|
                    0 <= i < rest.len() && (#[trigger] rest[i]).0 <= x < rest[i].0 + rest[i].1.len();
                assert(chunks[i] == rest[i]);
            }
            if has_byte(chunks, x) && !has_byte(rest, x) {
                let i = choose|i: int|
                    0 <= i < chunks.len() && (#[trigger] chunks[i]).0 <= x < chunks[i].0
                        + chunks[i].1.len();
                if i < rest.len() {
                    assert(rest[i] == chunks[i]);
                }
            }
        }
    } else {
        assert forall|x: int| #[trigger] covers(fresh.intervals, x) <==> has_byte(chunks, x) by {}
    }
}

/// Parts of a file, in any order and with any overlaps, make it complete exactly when each of
/// its bytes is in one of them, and then the file itself was received.
pub proof fn law_parts_make_up_the_file(file: Seq<u8>, chunks: Seq<(u32, Seq<u8>)>)
    requires
        0 < file.len() <= u32::MAX,
        forall|i: int| 0 <= i < chunks.len() ==> is_part(#[trigger] chunks[i], file),
    ensures
        ({
            let s = after_chunks(RecvText::fresh(file.len() as u32), chunks);
            &&& s.complete() <==> forall|x: int| 0 <= x < file.len() ==> #[trigger] has_byte(chunks, x)
            &&& s.complete() ==> s.buf == file
        }),
{
    lemma_after_chunks(file, chunks);
    let s = after_chunks(RecvText::fresh(file.len() as u32), chunks);
    law_complete_means_every_byte(s);
    if s.complete() {
        law_complete_buffer_is_the_file(s, file);
        assert forall|x: int| 0 <= x < file.len() implies #[trigger] has_byte(chunks, x) by {
            assert(covers(s.intervals, x));
        }
    }
    if forall|x: int| 0 <= x < file.len() ==> #[trigger] has_byte(chunks, x) {
        assert forall|x: int| 0 <= x < s.total implies #[trigger] covers(s.intervals, x) by {
            assert(has_byte(chunks, x));
        }
    }
}

} // verus!
