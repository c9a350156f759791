//! Tracking which guest memory ranges the firmware accepts before the TD
//! hand-off block is built.

use vstd::prelude::*;

verus! {

broadcast use vstd::seq_lib::group_to_multiset_ensures;

/// A memory range: whether it is accepted, its start, and its end (exclusive).
pub type MemRange = (bool, u64, u64);

/// Inserts `x` after every element whose start is at or below `x`'s start,
/// so that among ranges with equal starts the earlier stays first.
pub open spec fn insert_by_start(sorted: Seq<MemRange>, x: MemRange) -> Seq<MemRange>
    decreases sorted.len(),
{
    if sorted.len() == 0 {
        seq![x]
    } else if sorted.last().1 <= x.1 {
        sorted.push(x)
    } else {
        insert_by_start(sorted.drop_last(), x).push(sorted.last())
    }
}

/// The ranges `s` in a stable order by start (what `sort_by_key` on the
/// start yields).
pub open spec fn sort_by_start(s: Seq<MemRange>) -> Seq<MemRange>
    decreases s.len(),
{
    if s.len() == 0 {
        s
    } else {
        insert_by_start(sort_by_start(s.drop_last()), s.last())
    }
}

/// Ranges are ordered by start.
pub open spec fn starts_sorted(s: Seq<MemRange>) -> bool {
    forall|i: int, j: int| 0 <= i <= j < s.len() ==> s[i].1 <= s[j].1
}

/// What remains of range `r` once `[start, end)` is accepted: an accepted or
/// disjoint range stays whole; otherwise its parts below and above remain.
pub open spec fn trim_range(r: MemRange, start: u64, end: u64) -> Seq<MemRange> {
    if r.0 || r.2 <= start || r.1 >= end {
        seq![r]
    } else {
        (if r.1 < start {
            seq![(false, r.1, start)]
        } else {
            Seq::empty()
        }) + (if r.2 > end {
            seq![(false, end, r.2)]
        } else {
            Seq::empty()
        })
    }
}

/// The ranges `s`, each trimmed by `[start, end)`, in order.
pub open spec fn trim_ranges(s: Seq<MemRange>, start: u64, end: u64) -> Seq<MemRange>
    decreases s.len(),
{
    if s.len() == 0 {
        Seq::empty()
    } else {
        trim_ranges(s.drop_last(), start, end) + trim_range(s.last(), start, end)
    }
}

/// The ranges after accepting `[start, end)`: nothing changes for an empty
/// interval; otherwise the trimmed ranges plus the accepted one, by start.
pub open spec fn accept_ranges(s: Seq<MemRange>, start: u64, end: u64) -> Seq<MemRange> {
    if start >= end {
        s
    } else {
        sort_by_start(trim_ranges(s, start, end).push((true, start, end)))
    }
}

/// Every range starts at or before its end.
pub open spec fn ranges_well_formed(s: Seq<MemRange>) -> bool {
    forall|i: int| 0 <= i < s.len() ==> #[trigger] s[i].1 <= s[i].2
}

/// Keeps the ranges of guest memory, accepted or not.
pub struct MemoryAcceptor {
    pub ranges: Vec<MemRange>,
}

impl View for MemoryAcceptor {
    type V = Seq<MemRange>;

    /// The ranges.
    open spec fn view(&self) -> Seq<MemRange> {
        self.ranges@
    }
}

impl MemoryAcceptor {
    /// Starts with the single unaccepted range `[start, start + size)`.
    pub fn new(start: u64, size: u64) -> (m: Self)
        requires
            start + size <= u64::MAX,
        ensures
            m@ == seq![(false, start, (start + size) as u64)],
    {
        let mut ranges: Vec<MemRange> = Vec::new();
        ranges.push((false, start, start + size));
        assert(ranges@ =~= seq![(false, start, (start + size) as u64)]);
        Self { ranges }
    }

    /// Accepts `[start, end)`: unaccepted ranges that overlap it keep only
    /// their parts outside it, the interval is added as accepted, and the
    /// ranges are ordered by start. An empty interval changes nothing.
    pub fn accept(&mut self, start: u64, end: u64)
        ensures
            final(self)@ == accept_ranges(old(self)@, start, end),
    {
        if start >= end {
            return;
        }
        let mut new_ranges: Vec<MemRange> = Vec::new();
        let mut i: usize = 0;
        assert(self.ranges@.take(0) =~= Seq::<MemRange>::empty());
        while i < self.ranges.len()
            invariant
                i <= self.ranges@.len(),
                new_ranges@ == trim_ranges(self.ranges@.take(i as int), start, end),
            decreases self.ranges@.len() - i,
        {
            let (is_accepted, range_start, range_end) = self.ranges[i];
            let ghost before = new_ranges@;
            if is_accepted || range_end <= start || range_start >= end {
                new_ranges.push((is_accepted, range_start, range_end));
            } else {
                if range_start < start {
                    new_ranges.push((false, range_start, start));
                }
                if range_end > end {
                    new_ranges.push((false, end, range_end));
                }
            }
            assert(self.ranges@.take(i + 1).drop_last() =~= self.ranges@.take(i as int));
            assert(new_ranges@ =~= before + trim_range(self.ranges@[i as int], start, end));
            i = i + 1;
        }
        assert(self.ranges@.take(self.ranges@.len() as int) =~= self.ranges@);
        new_ranges.push((true, start, end));
        self.ranges = sort_ranges_by_start(new_ranges);
    }
}

proof fn lemma_insert_at(sorted: Seq<MemRange>, x: MemRange, j: int)
    requires
        0 <= j <= sorted.len(),
        forall|k: int| j <= k < sorted.len() ==> sorted[k].1 > x.1,
        j > 0 ==> sorted[j - 1].1 <= x.1,
    ensures
        insert_by_start(sorted, x) == sorted.insert(j, x),
    decreases sorted.len(),
{
    if sorted.len() == 0 {
        assert(sorted.insert(j, x) =~= seq![x]);
    } else if j == sorted.len() {
        assert(sorted.insert(j, x) =~= sorted.push(x));
    } else {
        lemma_insert_at(sorted.drop_last(), x, j);
        assert(sorted.drop_last().insert(j, x).push(sorted.last()) =~= sorted.insert(j, x));
    }
}

/// Orders ranges by start, keeping the order of ranges with equal starts.
fn sort_ranges_by_start(v: Vec<MemRange>) -> (r: Vec<MemRange>)
    ensures
        r@ == sort_by_start(v@),
{
    let mut out: Vec<MemRange> = Vec::new();
    let mut i: usize = 0;
    assert(v@.take(0) =~= Seq::<MemRange>::empty());
    while i < v.len()
        invariant
            i <= v@.len(),
            out@ == sort_by_start(v@.take(i as int)),
        decreases v@.len() - i,
    {
        let x = v[i];
        let mut j: usize = out.len();
        while j > 0 && out[j - 1].1 > x.1
            invariant
                j <= out@.len(),
                forall|k: int| j <= k < out@.len() ==> out@[k].1 > x.1,
            decreases j,
        {
            j = j - 1;
        }
        proof {
            lemma_insert_at(out@, x, j as int);
        }
        out.insert(j, x);
        assert(v@.take(i + 1).drop_last() =~= v@.take(i as int));
        i = i + 1;
    }
    assert(v@.take(v@.len() as int) =~= v@);
    out
}

} // verus!

verus! {

proof fn lemma_insert_multiset(s: Seq<MemRange>, x: MemRange)
    ensures
        insert_by_start(s, x).to_multiset() =~= s.to_multiset().insert(x),
        insert_by_start(s, x).len() == s.len() + 1,
    decreases s.len(),
{
    if s.len() == 0 {
        assert(seq![x] =~= Seq::<MemRange>::empty().push(x));
    } else if s.last().1 <= x.1 {
    } else {
        lemma_insert_multiset(s.drop_last(), x);
        assert(s =~= s.drop_last().push(s.last()));
    }
}

proof fn lemma_member_of_insert(s: Seq<MemRange>, x: MemRange, e: MemRange)
    requires
        insert_by_start(s, x).contains(e),
    ensures
        e == x || s.contains(e),
{
    lemma_insert_multiset(s, x);
    assert(insert_by_start(s, x).to_multiset().count(e) > 0);
    if e != x {
        assert(s.to_multiset().count(e) > 0);
    }
}

proof fn lemma_insert_sorted(s: Seq<MemRange>, x: MemRange)
    requires
        starts_sorted(s),
    ensures
        starts_sorted(insert_by_start(s, x)),
    decreases s.len(),
{
    if s.len() > 0 && s.last().1 > x.1 {
        let p = s.drop_last();
        let r = insert_by_start(p, x);
        lemma_insert_sorted(p, x);
        lemma_insert_multiset(p, x);
        assert forall|i: int| 0 <= i < r.len() implies r[i].1 <= s.last().1 by {
            assert(r.contains(r[i]));
            lemma_member_of_insert(p, x, r[i]);
            if r[i] != x {
                let k = choose|k: int| 0 <= k < p.len() && p[k] == r[i];
                assert(s[k] == p[k]);
            }
        }
        assert(insert_by_start(s, x) == r.push(s.last()));
    }
}

/// Sorting by start yields ranges in order of their starts.
pub proof fn lemma_sort_by_start_sorted(s: Seq<MemRange>)
    ensures
        starts_sorted(sort_by_start(s)),
    decreases s.len(),
{
    if s.len() > 0 {
        lemma_sort_by_start_sorted(s.drop_last());
        lemma_insert_sorted(sort_by_start(s.drop_last()), s.last());
    }
}

/// Sorting by start keeps exactly the ranges it is given.
pub proof fn lemma_sort_by_start_permutes(s: Seq<MemRange>)
    ensures
        sort_by_start(s).to_multiset() =~= s.to_multiset(),
    decreases s.len(),
{
    if s.len() > 0 {
        lemma_sort_by_start_permutes(s.drop_last());
        lemma_insert_multiset(sort_by_start(s.drop_last()), s.last());
        assert(s =~= s.drop_last().push(s.last()));
    }
}

proof fn lemma_sort_member(s: Seq<MemRange>, e: MemRange)
    ensures
        sort_by_start(s).contains(e) <==> s.contains(e),
{
    lemma_sort_by_start_permutes(s);
    assert(sort_by_start(s).contains(e) <==> sort_by_start(s).to_multiset().count(e) > 0);
    assert(s.contains(e) <==> s.to_multiset().count(e) > 0);
}

proof fn lemma_trim_member(s: Seq<MemRange>, start: u64, end: u64, e: MemRange)
    requires
        start < end,
        trim_ranges(s, start, end).contains(e),
    ensures
        exists|k: int| 0 <= k < s.len() && #[trigger] trim_range(s[k], start, end).contains(e),
    decreases s.len(),
{
    let p = s.drop_last();
    let t = trim_ranges(p, start, end);
    let l = trim_range(s.last(), start, end);
    let i = choose|i: int| 0 <= i < trim_ranges(s, start, end).len() && trim_ranges(
        s,
        start,
        end,
    )[i] == e;
    if i < t.len() {
        assert(t[i] == e);
        lemma_trim_member(p, start, end, e);
        let k = choose|k: int| 0 <= k < p.len() && #[trigger] trim_range(p[k], start, end).contains(
            e,
        );
        assert(s[k] == p[k]);
    } else {
        assert(l[i - t.len()] == e);
        assert(trim_range(s[s.len() - 1], start, end).contains(e));
    }
}

proof fn lemma_trim_keeps(s: Seq<MemRange>, start: u64, end: u64, k: int)
    requires
        0 <= k < s.len(),
    ensures
        forall|e: MemRange| #[trigger]
            trim_range(s[k], start, end).contains(e) ==> trim_ranges(s, start, end).contains(e),
    decreases s.len(),
{
    let p = s.drop_last();
    let t = trim_ranges(p, start, end);
    let l = trim_range(s.last(), start, end);
    assert(trim_ranges(s, start, end) == t + l);
    if k < s.len() - 1 {
        lemma_trim_keeps(p, start, end, k);
        assert(s[k] == p[k]);
        assert forall|e: MemRange| #[trigger]
            trim_range(s[k], start, end).contains(e) implies (t + l).contains(e) by {
            let i = choose|i: int| 0 <= i < t.len() && t[i] == e;
            assert((t + l)[i] == e);
        }
    } else {
        assert forall|e: MemRange| #[trigger]
            trim_range(s[k], start, end).contains(e) implies (t + l).contains(e) by {
            let i = choose|i: int| 0 <= i < l.len() && l[i] == e;
            assert((t + l)[t.len() + i] == e);
        }
    }
}

/// Accepting `[start, end)` (with `start < end`): afterwards that interval
/// is an accepted range, no unaccepted range overlaps it, every range
/// accepted before is still there, and well-formed ranges stay well-formed.
pub proof fn lemma_accept_ranges(s: Seq<MemRange>, start: u64, end: u64)
    requires
        start < end,
    ensures
        accept_ranges(s, start, end).contains((true, start, end)),
        forall|i: int|
            0 <= i < accept_ranges(s, start, end).len() && !(#[trigger] accept_ranges(
                s,
                start,
                end,
            )[i]).0 ==> accept_ranges(s, start, end)[i].2 <= start || accept_ranges(
                s,
                start,
                end,
            )[i].1 >= end,
        forall|r: MemRange| #[trigger] s.contains(r) && r.0 ==> accept_ranges(
            s,
            start,
            end,
        ).contains(r),
        ranges_well_formed(s) ==> ranges_well_formed(accept_ranges(s, start, end)),
        starts_sorted(accept_ranges(s, start, end)),
{
    let t = trim_ranges(s, start, end);
    let n = t.push((true, start, end));
    let a = accept_ranges(s, start, end);
    lemma_sort_by_start_sorted(n);
    assert(n[n.len() - 1] == (true, start, end));
    lemma_sort_member(n, (true, start, end));
    assert forall|i: int| 0 <= i < a.len() && !(#[trigger] a[i]).0 implies a[i].2 <= start
        || a[i].1 >= end by {
        assert(a.contains(a[i]));
        lemma_sort_member(n, a[i]);
        let j = choose|j: int| 0 <= j < n.len() && n[j] == a[i];
        if j < t.len() {
            assert(t.contains(a[i]));
            lemma_trim_member(s, start, end, a[i]);
        }
    }
    assert forall|r: MemRange| #[trigger] s.contains(r) && r.0 implies a.contains(r) by {
        let k = choose|k: int| 0 <= k < s.len() && s[k] == r;
        lemma_trim_keeps(s, start, end, k);
        assert(trim_range(s[k], start, end)[0] == r);
        assert(trim_range(s[k], start, end).contains(r));
        assert(t.contains(r));
        let i = choose|i: int| 0 <= i < t.len() && t[i] == r;
        assert(n[i] == r);
        lemma_sort_member(n, r);
    }
    if ranges_well_formed(s) {
        assert forall|i: int| 0 <= i < a.len() implies #[trigger] a[i].1 <= a[i].2 by {
            assert(a.contains(a[i]));
            lemma_sort_member(n, a[i]);
            let j = choose|j: int| 0 <= j < n.len() && n[j] == a[i];
            if j < t.len() {
                assert(t.contains(a[i]));
                lemma_trim_member(s, start, end, a[i]);
                let k = choose|k: int| 0 <= k < s.len() && #[trigger] trim_range(
                    s[k],
                    start,
                    end,
                ).contains(a[i]);
                assert(s[k].1 <= s[k].2);
            }
        }
    }
}


/// Some range of `s` holds address `a`.
pub open spec fn covers(s: Seq<MemRange>, a: int) -> bool {
    exists|i: int| 0 <= i < s.len() && (#[trigger] s[i]).1 <= a && a < s[i].2
}

proof fn lemma_trim_range_covers(r: MemRange, start: u64, end: u64, a: int)
    requires
        start < end,
    ensures
        covers(trim_range(r, start, end), a) <==> (r.1 <= a < r.2 && (r.0 || a < start || a
            >= end)),
{
    let t = trim_range(r, start, end);
    if r.0 || r.2 <= start || r.1 >= end {
        if r.1 <= a < r.2 {
            assert(t[0] == r);
        }
    } else {
        let lo: Seq<MemRange> = if r.1 < start {
            seq![(false, r.1, start)]
        } else {
            Seq::empty()
        };
        let hi: Seq<MemRange> = if r.2 > end {
            seq![(false, end, r.2)]
        } else {
            Seq::empty()
        };
        assert(t == lo + hi);
        if covers(t, a) {
            let i = choose|i: int| 0 <= i < t.len() && (#[trigger] t[i]).1 <= a && a < t[i].2;
            if i < lo.len() {
                assert(t[i] == lo[i]);
            } else {
                assert(t[i] == hi[i - lo.len()]);
            }
        }
        if r.1 <= a < r.2 && (a < start || a >= end) {
            if a < start {
                assert(t[0] == (false, r.1, start));
            } else {
                assert(t[lo.len() as int] == (false, end, r.2));
            }
        }
    }
}

proof fn lemma_trim_ranges_covers(s: Seq<MemRange>, start: u64, end: u64, a: int)
    requires
        start < end,
    ensures
        covers(trim_ranges(s, start, end), a) <==> exists|k: int|
            0 <= k < s.len() && (#[trigger] s[k]).1 <= a && a < s[k].2 && (s[k].0 || a < start
                || a >= end),
    decreases s.len(),
{
    if s.len() > 0 {
        let p = s.drop_last();
        let t = trim_ranges(p, start, end);
        let l = trim_range(s.last(), start, end);
        let all = trim_ranges(s, start, end);
        assert(all == t + l);
        lemma_trim_ranges_covers(p, start, end, a);
        lemma_trim_range_covers(s.last(), start, end, a);
        if covers(all, a) {
            let i = choose|i: int| 0 <= i < all.len() && (#[trigger] all[i]).1 <= a && a < all[i].2;
            if i < t.len() {
                assert(all[i] == t[i]);
                assert(covers(t, a));
                let k = choose|k: int|
                    0 <= k < p.len() && (#[trigger] p[k]).1 <= a && a < p[k].2 && (p[k].0 || a
                        < start || a >= end);
                assert(s[k] == p[k]);
            } else {
                assert(all[i] == l[i - t.len()]);
                assert(covers(l, a));
                assert(s[s.len() - 1] == s.last());
            }
        }
        if exists|k: int|
            0 <= k < s.len() && (#[trigger] s[k]).1 <= a && a < s[k].2 && (s[k].0 || a < start
                || a >= end) {
            let k = choose|k: int|
                0 <= k < s.len() && (#[trigger] s[k]).1 <= a && a < s[k].2 && (s[k].0 || a < start
                    || a >= end);
            if k < s.len() - 1 {
                assert(p[k] == s[k]);
                let i = choose|i: int| 0 <= i < t.len() && (#[trigger] t[i]).1 <= a && a < t[i].2;
                assert(all[i] == t[i]);
            } else {
                assert(s[k] == s.last());
                let i = choose|i: int| 0 <= i < l.len() && (#[trigger] l[i]).1 <= a && a < l[i].2;
                assert(all[t.len() + i] == l[i]);
            }
        }
    }
}

proof fn lemma_sort_covers(s: Seq<MemRange>, a: int)
    ensures
        covers(sort_by_start(s), a) <==> covers(s, a),
{
    let t = sort_by_start(s);
    if covers(t, a) {
        let i = choose|i: int| 0 <= i < t.len() && (#[trigger] t[i]).1 <= a && a < t[i].2;
        assert(t.contains(t[i]));
        lemma_sort_member(s, t[i]);
        let j = choose|j: int| 0 <= j < s.len() && s[j] == t[i];
        assert(s[j].1 <= a);
    }
    if covers(s, a) {
        let j = choose|j: int| 0 <= j < s.len() && (#[trigger] s[j]).1 <= a && a < s[j].2;
        assert(s.contains(s[j]));
        lemma_sort_member(s, s[j]);
        let i = choose|i: int| 0 <= i < t.len() && t[i] == s[j];
        assert(t[i].1 <= a);
    }
}

/// Accepting `[start, end)` loses no memory and adds only that interval:
/// an address lies in some range afterwards exactly when it lay in one
/// before or lies in the interval.
pub proof fn lemma_accept_covers(s: Seq<MemRange>, start: u64, end: u64, a: int)
    ensures
        covers(accept_ranges(s, start, end), a) <==> (covers(s, a) || (start <= a < end)),
{
    if start < end {
        let t = trim_ranges(s, start, end);
        let n = t.push((true, start, end));
        lemma_sort_covers(n, a);
        lemma_trim_ranges_covers(s, start, end, a);
        if covers(n, a) {
            let i = choose|i: int| 0 <= i < n.len() && (#[trigger] n[i]).1 <= a && a < n[i].2;
            if i < t.len() {
                assert(n[i] == t[i]);
                assert(covers(t, a));
            }
        }
        if covers(t, a) {
            let i = choose|i: int| 0 <= i < t.len() && (#[trigger] t[i]).1 <= a && a < t[i].2;
            assert(n[i] == t[i]);
        }
        if start <= a < end {
            assert(n[t.len() as int] == (true, start, end));
        }
        if covers(s, a) && !(start <= a < end) {
            let k = choose|k: int| 0 <= k < s.len() && (#[trigger] s[k]).1 <= a && a < s[k].2;
            assert(s[k].1 <= a && a < s[k].2 && (s[k].0 || a < start || a >= end));
        }
    }
}

/// Some range of `s` in state `acc` (accepted or not) holds address `a`.
pub open spec fn covers_as(s: Seq<MemRange>, acc: bool, a: int) -> bool {
    exists|i: int| 0 <= i < s.len() && (#[trigger] s[i]).0 == acc && s[i].1 <= a && a < s[i].2
}

proof fn lemma_trim_range_covers_as(r: MemRange, start: u64, end: u64, acc: bool, a: int)
    requires
        start < end,
    ensures
        covers_as(trim_range(r, start, end), acc, a) <==> (r.0 == acc && r.1 <= a < r.2 && (r.0
            || a < start || a >= end)),
{
    let t = trim_range(r, start, end);
    if r.0 || r.2 <= start || r.1 >= end {
        if r.0 == acc && r.1 <= a < r.2 {
            assert(t[0] == r);
        }
    } else {
        let lo = piece_below(r, start);
        let hi = piece_above(r, end);
        assert(t == lo + hi);
        if covers_as(t, acc, a) {
            let i = choose|i: int|
                0 <= i < t.len() && (#[trigger] t[i]).0 == acc && t[i].1 <= a && a < t[i].2;
            if i < lo.len() {
                assert(t[i] == lo[i]);
            } else {
                assert(t[i] == hi[i - lo.len()]);
            }
        }
        if r.0 == acc && r.1 <= a < r.2 && (a < start || a >= end) {
            if a < start {
                assert(t[0] == (false, r.1, start));
            } else {
                assert(t[lo.len() as int] == (false, end, r.2));
            }
        }
    }
}

proof fn lemma_trim_ranges_covers_as(s: Seq<MemRange>, start: u64, end: u64, acc: bool, a: int)
    requires
        start < end,
    ensures
        covers_as(trim_ranges(s, start, end), acc, a) <==> exists|k: int|
            0 <= k < s.len() && (#[trigger] s[k]).0 == acc && s[k].1 <= a && a < s[k].2 && (
            s[k].0 || a < start || a >= end),
    decreases s.len(),
{
    if s.len() > 0 {
        let p = s.drop_last();
        let t = trim_ranges(p, start, end);
        let l = trim_range(s.last(), start, end);
        let all = trim_ranges(s, start, end);
        assert(all == t + l);
        lemma_trim_ranges_covers_as(p, start, end, acc, a);
        lemma_trim_range_covers_as(s.last(), start, end, acc, a);
        if covers_as(all, acc, a) {
            let i = choose|i: int|
                0 <= i < all.len() && (#[trigger] all[i]).0 == acc && all[i].1 <= a && a
                    < all[i].2;
            if i < t.len() {
                assert(all[i] == t[i]);
                assert(covers_as(t, acc, a));
                let k = choose|k: int|
                    0 <= k < p.len() && (#[trigger] p[k]).0 == acc && p[k].1 <= a && a < p[k].2
                        && (p[k].0 || a < start || a >= end);
                assert(s[k] == p[k]);
            } else {
                assert(all[i] == l[i - t.len()]);
                assert(covers_as(l, acc, a));
                assert(s[s.len() - 1] == s.last());
            }
        }
        if exists|k: int|
            0 <= k < s.len() && (#[trigger] s[k]).0 == acc && s[k].1 <= a && a < s[k].2 && (
            s[k].0 || a < start || a >= end) {
            let k = choose|k: int|
                0 <= k < s.len() && (#[trigger] s[k]).0 == acc && s[k].1 <= a && a < s[k].2 && (
                s[k].0 || a < start || a >= end);
            if k < s.len() - 1 {
                assert(p[k] == s[k]);
                let i = choose|i: int|
                    0 <= i < t.len() && (#[trigger] t[i]).0 == acc && t[i].1 <= a && a < t[i].2;
                assert(all[i] == t[i]);
            } else {
                assert(s[k] == s.last());
                let i = choose|i: int|
                    0 <= i < l.len() && (#[trigger] l[i]).0 == acc && l[i].1 <= a && a < l[i].2;
                assert(all[t.len() + i] == l[i]);
            }
        }
    }
}

proof fn lemma_sort_covers_as(s: Seq<MemRange>, acc: bool, a: int)
    ensures
        covers_as(sort_by_start(s), acc, a) <==> covers_as(s, acc, a),
{
    let t = sort_by_start(s);
    if covers_as(t, acc, a) {
        let i = choose|i: int|
            0 <= i < t.len() && (#[trigger] t[i]).0 == acc && t[i].1 <= a && a < t[i].2;
        assert(t.contains(t[i]));
        lemma_sort_member(s, t[i]);
        let j = choose|j: int| 0 <= j < s.len() && s[j] == t[i];
        assert(s[j].1 <= a);
    }
    if covers_as(s, acc, a) {
        let j = choose|j: int|
            0 <= j < s.len() && (#[trigger] s[j]).0 == acc && s[j].1 <= a && a < s[j].2;
        assert(s.contains(s[j]));
        lemma_sort_member(s, s[j]);
        let i = choose|i: int| 0 <= i < t.len() && t[i] == s[j];
        assert(t[i].1 <= a);
    }
}

/// Accepting `[start, end)` makes exactly that interval accepted: an
/// address is accepted afterwards when it was accepted before or lies in
/// the interval, and it is unaccepted afterwards when it was unaccepted
/// before and lies outside the interval.
#[verifier::spinoff_prover]
#[verifier::rlimit(30)]
pub proof fn lemma_accept_marks(s: Seq<MemRange>, start: u64, end: u64, a: int)
    ensures
        covers_as(accept_ranges(s, start, end), true, a) <==> (covers_as(s, true, a) || (start
            <= a < end)),
        covers_as(accept_ranges(s, start, end), false, a) <==> (covers_as(s, false, a) && !(start
            <= a < end)),
{
    if start < end {
        let x = (true, start, end);
        let t = trim_ranges(s, start, end);
        let n = t.push(x);
        assert(n[t.len() as int] == x);
        lemma_sort_covers_as(n, true, a);
        lemma_sort_covers_as(n, false, a);
        lemma_trim_ranges_covers_as(s, start, end, true, a);
        lemma_trim_ranges_covers_as(s, start, end, false, a);
        assert forall|acc: bool| covers_as(n, acc, a) <==> (covers_as(t, acc, a) || (acc && start
            <= a < end)) by {
            if covers_as(n, acc, a) {
                let i = choose|i: int|
                    0 <= i < n.len() && (#[trigger] n[i]).0 == acc && n[i].1 <= a && a < n[i].2;
                if i < t.len() {
                    assert(n[i] == t[i]);
                }
            }
            if covers_as(t, acc, a) {
                let i = choose|i: int|
                    0 <= i < t.len() && (#[trigger] t[i]).0 == acc && t[i].1 <= a && a < t[i].2;
                assert(n[i] == t[i]);
            }
        }
        if covers_as(s, true, a) {
            let k = choose|k: int|
                0 <= k < s.len() && (#[trigger] s[k]).0 == true && s[k].1 <= a && a < s[k].2;
            assert(s[k].0 || a < start || a >= end);
        }
        if covers_as(s, false, a) && !(start <= a < end) {
            let k = choose|k: int|
                0 <= k < s.len() && (#[trigger] s[k]).0 == false && s[k].1 <= a && a < s[k].2;
            assert(s[k].0 || a < start || a >= end);
        }
    }
}

/// Every range is non-empty and starts where the one before it ends.
pub open spec fn chained(s: Seq<MemRange>) -> bool {
    &&& forall|i: int| 0 <= i < s.len() ==> (#[trigger] s[i]).1 < s[i].2
    &&& forall|i: int| 0 < i < s.len() ==> (#[trigger] s[i]).1 == s[i - 1].2
}

/// The ranges tile `[lo, hi)`: sorted, disjoint and contiguous.
pub open spec fn tiles(s: Seq<MemRange>, lo: int, hi: int) -> bool {
    &&& s.len() > 0
    &&& chained(s)
    &&& s[0].1 == lo
    &&& s.last().2 == hi
}

proof fn lemma_chain_order(s: Seq<MemRange>, i: int, j: int)
    requires
        chained(s),
        0 <= i < j < s.len(),
    ensures
        s[i].2 <= s[j].1,
    decreases j - i,
{
    assert(s[j].1 == s[j - 1].2);
    if j > i + 1 {
        lemma_chain_order(s, i, j - 1);
        assert(s[j - 1].1 < s[j - 1].2);
    }
}

proof fn lemma_chain_concat(a: Seq<MemRange>, b: Seq<MemRange>)
    requires
        chained(a),
        chained(b),
        a.len() > 0 && b.len() > 0 ==> a.last().2 == b[0].1,
    ensures
        chained(a + b),
{
    let c = a + b;
    assert forall|i: int| 0 <= i < c.len() implies (#[trigger] c[i]).1 < c[i].2 by {
        if i < a.len() {
            assert(c[i] == a[i]);
        } else {
            assert(c[i] == b[i - a.len()]);
        }
    }
    assert forall|i: int| 0 < i < c.len() implies (#[trigger] c[i]).1 == c[i - 1].2 by {
        if i < a.len() {
            assert(c[i] == a[i] && c[i - 1] == a[i - 1]);
        } else if i == a.len() {
            assert(c[i] == b[0] && c[i - 1] == a.last());
        } else {
            assert(c[i] == b[i - a.len()] && c[i - 1] == b[i - 1 - a.len()]);
        }
    }
}

proof fn lemma_chain_subrange(s: Seq<MemRange>, i: int, j: int)
    requires
        chained(s),
        0 <= i <= j <= s.len(),
    ensures
        chained(s.subrange(i, j)),
{
    let t = s.subrange(i, j);
    assert forall|k: int| 0 <= k < t.len() implies (#[trigger] t[k]).1 < t[k].2 by {
        assert(t[k] == s[i + k]);
    }
    assert forall|k: int| 0 < k < t.len() implies (#[trigger] t[k]).1 == t[k - 1].2 by {
        assert(t[k] == s[i + k] && t[k - 1] == s[i + k - 1]);
    }
}

proof fn lemma_trim_concat(a: Seq<MemRange>, b: Seq<MemRange>, start: u64, end: u64)
    ensures
        trim_ranges(a + b, start, end) == trim_ranges(a, start, end) + trim_ranges(b, start, end),
    decreases b.len(),
{
    if b.len() == 0 {
        assert(a + b =~= a);
        assert(trim_ranges(a, start, end) + trim_ranges(b, start, end) =~= trim_ranges(a, start, end));
    } else {
        lemma_trim_concat(a, b.drop_last(), start, end);
        assert((a + b).drop_last() =~= a + b.drop_last());
        assert((a + b).last() == b.last());
    }
}

proof fn lemma_trim_kept(a: Seq<MemRange>, start: u64, end: u64)
    requires
        forall|k: int|
            0 <= k < a.len() ==> (#[trigger] a[k]).0 || a[k].2 <= start || a[k].1 >= end,
    ensures
        trim_ranges(a, start, end) == a,
    decreases a.len(),
{
    if a.len() > 0 {
        let p = a.drop_last();
        assert forall|k: int| 0 <= k < p.len() implies (#[trigger] p[k]).0 || p[k].2 <= start
            || p[k].1 >= end by {
            assert(p[k] == a[k]);
        }
        lemma_trim_kept(p, start, end);
        assert(a[a.len() - 1] == a.last());
        assert(p.push(a.last()) =~= a);
    }
}

proof fn lemma_trim_removed(a: Seq<MemRange>, start: u64, end: u64)
    requires
        forall|k: int|
            0 <= k < a.len() ==> !(#[trigger] a[k]).0 && start <= a[k].1 && a[k].2 <= end && start
                < a[k].2 && a[k].1 < end,
    ensures
        trim_ranges(a, start, end) == Seq::<MemRange>::empty(),
    decreases a.len(),
{
    if a.len() > 0 {
        let p = a.drop_last();
        assert forall|k: int| 0 <= k < p.len() implies !(#[trigger] p[k]).0 && start <= p[k].1
            && p[k].2 <= end && start < p[k].2 && p[k].1 < end by {
            assert(p[k] == a[k]);
        }
        lemma_trim_removed(p, start, end);
        assert(a[a.len() - 1] == a.last());
        assert(trim_range(a.last(), start, end) =~= Seq::<MemRange>::empty());
    }
}

proof fn lemma_sort_sorted_identity(t: Seq<MemRange>)
    requires
        starts_sorted(t),
    ensures
        sort_by_start(t) == t,
    decreases t.len(),
{
    if t.len() > 0 {
        let p = t.drop_last();
        assert(starts_sorted(p)) by {
            assert forall|i: int, j: int| 0 <= i <= j < p.len() implies p[i].1 <= p[j].1 by {
                assert(p[i] == t[i] && p[j] == t[j]);
            }
        }
        lemma_sort_sorted_identity(p);
        if p.len() > 0 {
            assert(p.last() == t[t.len() - 2]);
        }
        assert(p.push(t.last()) =~= t);
    }
}

proof fn lemma_first_end_after(s: Seq<MemRange>, x: int, k: int) -> (p: int)
    requires
        0 <= k < s.len(),
        s.last().2 > x,
        forall|j: int| 0 <= j < k ==> (#[trigger] s[j]).2 <= x,
    ensures
        k <= p < s.len(),
        s[p].2 > x,
        forall|j: int| 0 <= j < p ==> (#[trigger] s[j]).2 <= x,
    decreases s.len() - k,
{
    if s[k].2 > x {
        k
    } else {
        assert(k + 1 < s.len());
        lemma_first_end_after(s, x, k + 1)
    }
}

/// What is left of an unaccepted range below `start`.
pub open spec fn piece_below(r: MemRange, start: u64) -> Seq<MemRange> {
    if r.1 < start {
        seq![(false, r.1, start)]
    } else {
        Seq::empty()
    }
}

/// What is left of an unaccepted range above `end`.
pub open spec fn piece_above(r: MemRange, end: u64) -> Seq<MemRange> {
    if r.2 > end {
        seq![(false, end, r.2)]
    } else {
        Seq::empty()
    }
}

/// Accepted ranges do not overlap `[start, end)`.
pub open spec fn accepted_apart(s: Seq<MemRange>, start: u64, end: u64) -> bool {
    forall|i: int| 0 <= i < s.len() && (#[trigger] s[i]).0 ==> s[i].2 <= start || s[i].1 >= end
}

/// `p` is the first range that ends after `start` and `q` the first that
/// reaches `end`.
pub open spec fn bounds_at(s: Seq<MemRange>, start: u64, end: u64, p: int, q: int) -> bool {
    &&& 0 <= p <= q < s.len()
    &&& s[p].1 <= start < s[p].2
    &&& s[q].1 < end <= s[q].2
    &&& forall|j: int| 0 <= j < p ==> (#[trigger] s[j]).2 <= start
}

proof fn lemma_trim_single(r: MemRange, start: u64, end: u64)
    ensures
        trim_ranges(seq![r], start, end) == trim_range(r, start, end),
{
    let one = seq![r];
    assert(one.len() == 1 && one.last() == r);
    assert(one.drop_last() =~= Seq::<MemRange>::empty());
    assert(trim_ranges(one.drop_last(), start, end) == Seq::<MemRange>::empty());
    assert(Seq::<MemRange>::empty() + trim_range(r, start, end) =~= trim_range(r, start, end));
}

/// Trimming removes the ranges strictly between `p` and `q`: they lie
/// inside the interval.
#[verifier::spinoff_prover]
#[verifier::rlimit(30)]
proof fn lemma_trim_inner(s: Seq<MemRange>, start: u64, end: u64, p: int, q: int)
    requires
        chained(s),
        bounds_at(s, start, end, p, q),
        p < q,
        accepted_apart(s, start, end),
    ensures
        trim_ranges(s.subrange(p + 1, q), start, end) == Seq::<MemRange>::empty(),
{
    let mid = s.subrange(p + 1, q);
    assert forall|k: int| 0 <= k < mid.len() implies !(#[trigger] mid[k]).0 && start
        <= mid[k].1 && mid[k].2 <= end && start < mid[k].2 && mid[k].1 < end by {
        assert(mid[k] == s[p + 1 + k]);
        lemma_chain_order(s, p, p + 1 + k);
        lemma_chain_order(s, p + 1 + k, q);
        assert(s[p + 1 + k].1 < s[p + 1 + k].2);
    }
    lemma_trim_removed(mid, start, end);
}

/// The first and the last range that meet the interval are unaccepted, and
/// trimming leaves the part of the first below it and of the last above it.
#[verifier::spinoff_prover]
#[verifier::rlimit(30)]
proof fn lemma_trim_ends(s: Seq<MemRange>, start: u64, end: u64, p: int, q: int)
    requires
        chained(s),
        start < end,
        bounds_at(s, start, end, p, q),
        accepted_apart(s, start, end),
        p < q,
    ensures
        trim_range(s[p], start, end) == piece_below(s[p], start),
        trim_range(s[q], start, end) == piece_above(s[q], end),
{
    lemma_chain_order(s, p, q);
    assert(!s[p].0);
    assert(!s[q].0);
    assert(trim_range(s[p], start, end) =~= piece_below(s[p], start));
    assert(trim_range(s[q], start, end) =~= piece_above(s[q], end));
}

/// Trimming a first range, ranges that vanish, and a last range leaves
/// what is left of the first and of the last.
proof fn lemma_trim_parts(
    first: MemRange,
    mid: Seq<MemRange>,
    last: MemRange,
    start: u64,
    end: u64,
    lb: Seq<MemRange>,
    ha: Seq<MemRange>,
)
    requires
        trim_ranges(mid, start, end) == Seq::<MemRange>::empty(),
        trim_range(first, start, end) == lb,
        trim_range(last, start, end) == ha,
    ensures
        trim_ranges(seq![first] + mid + seq![last], start, end) == lb + ha,
{
    lemma_trim_concat(seq![first], mid, start, end);
    lemma_trim_concat(seq![first] + mid, seq![last], start, end);
    lemma_trim_single(first, start, end);
    lemma_trim_single(last, start, end);
    assert(lb + Seq::<MemRange>::empty() + ha =~= lb + ha);
}

/// Trimming the ranges from `p` to `q` leaves the part of the first below
/// the interval and the part of the last above it.
#[verifier::spinoff_prover]
proof fn lemma_trim_middle(s: Seq<MemRange>, start: u64, end: u64, p: int, q: int)
    requires
        chained(s),
        start < end,
        bounds_at(s, start, end, p, q),
        accepted_apart(s, start, end),
    ensures
        trim_ranges(s.subrange(p, q + 1), start, end) == piece_below(s[p], start) + piece_above(
            s[q],
            end,
        ),
{
    let lb = piece_below(s[p], start);
    let ha = piece_above(s[q], end);
    if p == q {
        assert(!s[p].0);
        assert(trim_range(s[p], start, end) =~= lb + ha);
        assert(s.subrange(p, q + 1) =~= seq![s[p]]);
        lemma_trim_single(s[p], start, end);
    } else {
        lemma_trim_inner(s, start, end, p, q);
        lemma_trim_ends(s, start, end, p, q);
        assert(s.subrange(p, q + 1) =~= seq![s[p]] + s.subrange(p + 1, q) + seq![s[q]]);
        lemma_trim_parts(s[p], s.subrange(p + 1, q), s[q], start, end, lb, ha);
    }
}

/// Trimming keeps the ranges before `p`: they end by `start`.
proof fn lemma_trim_before(s: Seq<MemRange>, start: u64, end: u64, p: int, q: int)
    requires
        bounds_at(s, start, end, p, q),
    ensures
        trim_ranges(s.subrange(0, p), start, end) == s.subrange(0, p),
{
    let a0 = s.subrange(0, p);
    assert forall|k: int| 0 <= k < a0.len() implies (#[trigger] a0[k]).0 || a0[k].2 <= start
        || a0[k].1 >= end by {
        assert(a0[k] == s[k]);
    }
    lemma_trim_kept(a0, start, end);
}

/// Trimming keeps the ranges after `q`: they start at `end` or later.
proof fn lemma_trim_after(s: Seq<MemRange>, start: u64, end: u64, p: int, q: int)
    requires
        chained(s),
        bounds_at(s, start, end, p, q),
    ensures
        trim_ranges(s.subrange(q + 1, s.len() as int), start, end) == s.subrange(
            q + 1,
            s.len() as int,
        ),
{
    let c = s.subrange(q + 1, s.len() as int);
    assert forall|k: int| 0 <= k < c.len() implies (#[trigger] c[k]).0 || c[k].2 <= start
        || c[k].1 >= end by {
        assert(c[k] == s[q + 1 + k]);
        lemma_chain_order(s, q, q + 1 + k);
    }
    lemma_trim_kept(c, start, end);
}

/// Trimming a map trims each of three consecutive parts of it.
#[verifier::spinoff_prover]
#[verifier::rlimit(30)]
proof fn lemma_trim_three(s: Seq<MemRange>, i: int, j: int, start: u64, end: u64)
    requires
        0 <= i <= j <= s.len(),
    ensures
        trim_ranges(s, start, end) == trim_ranges(s.subrange(0, i), start, end) + trim_ranges(
            s.subrange(i, j),
            start,
            end,
        ) + trim_ranges(s.subrange(j, s.len() as int), start, end),
{
    let a = s.subrange(0, i);
    let m = s.subrange(i, j);
    let c = s.subrange(j, s.len() as int);
    assert(s =~= a + m + c);
    lemma_trim_concat(a, m, start, end);
    lemma_trim_concat(a + m, c, start, end);
}

/// Trimming a chained map keeps the ranges before `p` and after `q`.
#[verifier::spinoff_prover]
#[verifier::rlimit(30)]
proof fn lemma_trim_around(s: Seq<MemRange>, start: u64, end: u64, p: int, q: int)
    requires
        chained(s),
        start < end,
        bounds_at(s, start, end, p, q),
        accepted_apart(s, start, end),
    ensures
        trim_ranges(s, start, end) == (s.subrange(0, p) + piece_below(s[p], start)) + (
        piece_above(s[q], end) + s.subrange(q + 1, s.len() as int)),
{
    let n = s.len() as int;
    let a0 = s.subrange(0, p);
    let c = s.subrange(q + 1, n);
    let lb = piece_below(s[p], start);
    let ha = piece_above(s[q], end);
    lemma_trim_before(s, start, end, p, q);
    lemma_trim_after(s, start, end, p, q);
    lemma_trim_middle(s, start, end, p, q);
    lemma_trim_three(s, p, q + 1, start, end);
    assert(a0 + (lb + ha) + c =~= (a0 + lb) + (ha + c));
}

/// The ranges left below the interval tile `[lo, start)`.
#[verifier::spinoff_prover]
#[verifier::rlimit(30)]
proof fn lemma_left_side(s: Seq<MemRange>, start: u64, end: u64, lo: int, hi: int, p: int, q: int)
    requires
        tiles(s, lo, hi),
        start < end,
        bounds_at(s, start, end, p, q),
    ensures
        ({
            let left = s.subrange(0, p) + piece_below(s[p], start);
            &&& chained(left)
            &&& forall|k: int| 0 <= k < left.len() ==> (#[trigger] left[k]).1 < start
            &&& left.len() > 0 ==> left[0].1 == lo && left.last().2 == start
            &&& left.len() == 0 ==> start == lo
        }),
{
    let a0 = s.subrange(0, p);
    let b = piece_below(s[p], start);
    let left = a0 + b;
    lemma_chain_subrange(s, 0, p);
    if p > 0 {
        assert(a0.last() == s[p - 1]);
        assert(s[p].1 == s[p - 1].2);
    }
    lemma_chain_concat(a0, b);
    assert forall|k: int| 0 <= k < left.len() implies (#[trigger] left[k]).1 < start by {
        if k < p {
            assert(left[k] == s[k]);
            assert(s[k].1 < s[k].2);
        } else {
            assert(left[k] == b[0]);
        }
    }
    if left.len() > 0 {
        if p > 0 {
            assert(left[0] == s[0]);
        } else {
            assert(left[0] == b[0]);
        }
        if b.len() > 0 {
            assert(left.last() == b[0]);
        } else {
            assert(left.last() == s[p - 1]);
            assert(s[p].1 == s[p - 1].2);
        }
    }
}

/// The ranges left above the interval tile `[end, hi)`.
#[verifier::spinoff_prover]
#[verifier::rlimit(30)]
proof fn lemma_right_side(s: Seq<MemRange>, start: u64, end: u64, lo: int, hi: int, p: int, q: int)
    requires
        tiles(s, lo, hi),
        start < end,
        bounds_at(s, start, end, p, q),
    ensures
        ({
            let right = piece_above(s[q], end) + s.subrange(q + 1, s.len() as int);
            &&& chained(right)
            &&& forall|k: int| 0 <= k < right.len() ==> (#[trigger] right[k]).1 >= end
            &&& right.len() > 0 ==> right[0].1 == end && right.last().2 == hi
            &&& right.len() == 0 ==> end == hi
        }),
{
    let n = s.len() as int;
    let a = piece_above(s[q], end);
    let c = s.subrange(q + 1, n);
    let right = a + c;
    assert(s.last() == s[n - 1]);
    lemma_chain_subrange(s, q + 1, n);
    if q + 1 < n {
        assert(c[0] == s[q + 1]);
        assert(s[q + 1].1 == s[q].2);
    }
    lemma_chain_concat(a, c);
    assert forall|k: int| 0 <= k < right.len() implies (#[trigger] right[k]).1 >= end by {
        if k < a.len() {
            assert(right[k] == a[0]);
        } else {
            assert(right[k] == c[k - a.len()]);
            lemma_chain_order(s, q, q + 1 + k - a.len());
        }
    }
    if right.len() > 0 {
        if a.len() > 0 {
            assert(right[0] == a[0]);
        } else {
            assert(right[0] == s[q + 1]);
            assert(s[q + 1].1 == s[q].2);
        }
        if c.len() > 0 {
            assert(right.last() == c.last());
            assert(c.last() == s[n - 1]);
        } else {
            assert(q == n - 1);
            assert(right.last() == a[0]);
        }
    } else {
        assert(q == n - 1) by {
            if q < n - 1 {
                assert(c.len() > 0);
            }
        }
    }
}

/// Chained ranges that start below `start`, followed by chained ranges that
/// start at `end` or later, are ordered by start.
#[verifier::spinoff_prover]
#[verifier::rlimit(30)]
proof fn lemma_sides_sorted(left: Seq<MemRange>, right: Seq<MemRange>, start: u64, end: u64)
    requires
        start < end,
        chained(left),
        forall|k: int| 0 <= k < left.len() ==> (#[trigger] left[k]).1 < start,
        chained(right),
        forall|k: int| 0 <= k < right.len() ==> (#[trigger] right[k]).1 >= end,
    ensures
        starts_sorted(left + right),
{
    let t = left + right;
    let l = left.len() as int;
    assert forall|i: int, j: int| 0 <= i <= j < t.len() implies t[i].1 <= t[j].1 by {
        if j < l {
            assert(t[i] == left[i] && t[j] == left[j]);
            if i < j {
                lemma_chain_order(left, i, j);
                assert(left[i].1 < left[i].2);
            }
        } else if i >= l {
            assert(t[i] == right[i - l] && t[j] == right[j - l]);
            if i < j {
                lemma_chain_order(right, i - l, j - l);
                assert(right[i - l].1 < right[i - l].2);
            }
        } else {
            assert(t[i] == left[i]);
            assert(t[j] == right[j - l]);
        }
    }
}

/// Putting the accepted interval between the ranges below it and those
/// above it, by start, tiles `[lo, hi)`.
#[verifier::spinoff_prover]
proof fn lemma_insert_between(
    left: Seq<MemRange>,
    right: Seq<MemRange>,
    start: u64,
    end: u64,
    lo: int,
    hi: int,
)
    requires
        start < end,
        chained(left),
        forall|k: int| 0 <= k < left.len() ==> (#[trigger] left[k]).1 < start,
        left.len() > 0 ==> left[0].1 == lo && left.last().2 == start,
        left.len() == 0 ==> start == lo,
        chained(right),
        forall|k: int| 0 <= k < right.len() ==> (#[trigger] right[k]).1 >= end,
        right.len() > 0 ==> right[0].1 == end && right.last().2 == hi,
        right.len() == 0 ==> end == hi,
    ensures
        tiles(sort_by_start((left + right).push((true, start, end))), lo, hi),
{
    let x = (true, start, end);
    let t = left + right;
    let l = left.len() as int;
    lemma_sides_sorted(left, right, start, end);
    lemma_sort_sorted_identity(t);
    assert(t.push(x).drop_last() =~= t);
    assert(sort_by_start(t.push(x)) == insert_by_start(t, x));
    assert forall|k: int| l <= k < t.len() implies t[k].1 > x.1 by {
        assert(t[k] == right[k - l]);
    }
    if l > 0 {
        assert(t[l - 1] == left[l - 1]);
    }
    lemma_insert_at(t, x, l);
    let r = sort_by_start(t.push(x));
    assert(r =~= left + seq![x] + right);
    assert(chained(seq![x]));
    lemma_chain_concat(left, seq![x]);
    assert((left + seq![x]).last() == x);
    lemma_chain_concat(left + seq![x], right);
    if l > 0 {
        assert(r[0] == left[0]);
    } else {
        assert(r[0] == x);
    }
    if right.len() > 0 {
        assert(r.last() == right.last());
    } else {
        assert(r.last() == x);
    }
}

/// Accepting an interval of a memory map that tiles `[lo, hi)` gives a map
/// that again tiles `[lo, hi)` (sorted, disjoint and contiguous), when the
/// interval is empty, or lies inside `[lo, hi)` and overlaps no accepted
/// range.
#[verifier::spinoff_prover]
#[verifier::rlimit(30)]
pub proof fn lemma_accept_keeps_tiling(s: Seq<MemRange>, start: u64, end: u64, lo: int, hi: int)
    requires
        tiles(s, lo, hi),
        start < end ==> lo <= start && end <= hi && accepted_apart(s, start, end),
    ensures
        tiles(accept_ranges(s, start, end), lo, hi),
{
    if start >= end {
        return;
    }
    let n = s.len() as int;
    assert(s.last() == s[n - 1]);
    let p = lemma_first_end_after(s, start as int, 0);
    let q = lemma_first_end_after(s, end - 1, 0);
    assert(p <= q) by {
        if q < p {
            assert(s[q].2 <= start);
        }
    }
    assert(s[p].1 <= start) by {
        if p > 0 {
            assert(s[p].1 == s[p - 1].2);
        }
    }
    assert(s[q].1 < end) by {
        if q > 0 {
            assert(s[q].1 == s[q - 1].2);
        }
    }
    assert(bounds_at(s, start, end, p, q));
    lemma_trim_around(s, start, end, p, q);
    lemma_left_side(s, start, end, lo, hi, p, q);
    lemma_right_side(s, start, end, lo, hi, p, q);
    let left = s.subrange(0, p) + piece_below(s[p], start);
    let right = piece_above(s[q], end) + s.subrange(q + 1, n);
    lemma_insert_between(left, right, start, end, lo, hi);
}

} // verus!
