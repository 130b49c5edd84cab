//! Closed intervals of logical block addresses and how two of them relate.

use vstd::prelude::*;

verus! {

/// A closed range of block addresses, both bounds included. Intervals are
/// ordered by their start, and by their end where they start alike.
#[derive(Clone, Copy, Debug, PartialEq, Eq, PartialOrd, Ord, Structural)]
pub struct Interval {
    start: u64,
    end: u64,
}

/// How a first interval lies relative to a second one.
#[derive(Clone, Copy, Debug, PartialEq, Eq, Structural)]
pub enum IntervalState {
    /// The two share no block.
    Disjoint,
    /// The two have the same bounds.
    Equal,
    /// The first lies within the second.
    Subset,
    /// The second lies within the first.
    Superset,
    /// The two share blocks, and each has blocks of its own.
    Overlap,
}

/// The relation of the closed interval `[s1, e1]` to `[s2, e2]`.
pub open spec fn interval_relation(s1: int, e1: int, s2: int, e2: int) -> IntervalState {
    if e1 < s2 || s1 > e2 {
        IntervalState::Disjoint
    } else if s1 == s2 && e1 == e2 {
        IntervalState::Equal
    } else if s1 >= s2 && e1 <= e2 {
        IntervalState::Subset
    } else if s1 <= s2 && e1 >= e2 {
        IntervalState::Superset
    } else {
        IntervalState::Overlap
    }
}

/// The relation seen from the other interval.
pub open spec fn mirrored(state: IntervalState) -> IntervalState {
    match state {
        IntervalState::Subset => IntervalState::Superset,
        IntervalState::Superset => IntervalState::Subset,
        other => other,
    }
}

impl Interval {
    /// The first block of the interval.
    pub closed spec fn spec_start(&self) -> u64 {
        self.start
    }

    /// The last block of the interval.
    pub closed spec fn spec_end(&self) -> u64 {
        self.end
    }

    /// The pair of bounds that this interval stands for.
    pub open spec fn view(&self) -> (int, int) {
        (self.spec_start() as int, self.spec_end() as int)
    }

    /// An interval is well formed when it holds at least one block.
    pub open spec fn wf(&self) -> bool {
        self.spec_start() <= self.spec_end()
    }

    /// The interval from `start` to `end`, both included.
    pub fn new(start: u64, end: u64) -> (r: Self)
        ensures
            r.spec_start() == start,
            r.spec_end() == end,
    {
        Interval { start, end }
    }

    /// The first block of the interval.
    pub fn get_start(&self) -> (r: u64)
        ensures
            r == self.spec_start(),
    {
        self.start
    }

    /// The last block of the interval.
    pub fn get_end(&self) -> (r: u64)
        ensures
            r == self.spec_end(),
    {
        self.end
    }
}

/// Classifies `interval1` against `interval2`, both taken as closed ranges.
pub fn check_interval_state(interval1: &Interval, interval2: &Interval) -> (r: IntervalState)
    ensures
        r == interval_relation(interval1@.0, interval1@.1, interval2@.0, interval2@.1),
{
    if interval1.end < interval2.start || interval1.start > interval2.end {
        return IntervalState::Disjoint;
    }
    if interval1.start == interval2.start && interval1.end == interval2.end {
        return IntervalState::Equal;
    }
    if interval1.start >= interval2.start && interval1.end <= interval2.end {
        return IntervalState::Subset;
    }
    if interval1.start <= interval2.start && interval1.end >= interval2.end {
        return IntervalState::Superset;
    }
    IntervalState::Overlap
}

/// Swapping the two intervals keeps `Disjoint`, `Equal` and `Overlap` and
/// exchanges `Subset` with `Superset`: the relation is the same from both
/// sides unless one interval lies within the other.
pub proof fn lemma_relation_mirrored(a: Interval, b: Interval)
    ensures
        interval_relation(b@.0, b@.1, a@.0, a@.1) == mirrored(
            interval_relation(a@.0, a@.1, b@.0, b@.1),
        ),
        interval_relation(a@.0, a@.1, b@.0, b@.1) == interval_relation(b@.0, b@.1, a@.0, a@.1) <==> {
            &&& interval_relation(a@.0, a@.1, b@.0, b@.1) != IntervalState::Subset
            &&& interval_relation(a@.0, a@.1, b@.0, b@.1) != IntervalState::Superset
        },
{
}

/// Whether `a` and `b` share at least one block.
pub open spec fn meets(a: Interval, b: Interval) -> bool {
    interval_relation(a@.0, a@.1, b@.0, b@.1) != IntervalState::Disjoint
}

/// Every interval of `s` holds at least one block.
pub open spec fn all_wf(s: Seq<Interval>) -> bool {
    forall|i: int| 0 <= i < s.len() ==> (#[trigger] s[i]).wf()
}

/// The intervals of `s` come in ascending order of their starts.
pub open spec fn sorted_by_start(s: Seq<Interval>) -> bool {
    forall|i: int, j: int| 0 <= i < j < s.len() ==> s[i].spec_start() <= s[j].spec_start()
}

/// Some interval of `s` starts no later than its predecessor ends.
pub open spec fn adjacent_overlap(s: Seq<Interval>) -> bool {
    exists|i: int| 1 <= i < s.len() && #[trigger] touches_previous(s, i)
}

/// The interval at position `i` starts no later than the one before it ends.
pub open spec fn touches_previous(s: Seq<Interval>, i: int) -> bool {
    s[i].spec_start() <= s[i - 1].spec_end()
}

/// Two intervals at different positions of `s` share a block.
pub open spec fn any_pair_meets(s: Seq<Interval>) -> bool {
    exists|i: int, j: int| pair_meets(s, i, j)
}

/// The intervals at the distinct positions `i` and `j` of `s` share a block.
pub open spec fn pair_meets(s: Seq<Interval>, i: int, j: int) -> bool {
    0 <= i < s.len() && 0 <= j < s.len() && i != j && meets(s[i], s[j])
}

/// `s` with the items at positions `i` and `j` exchanged.
pub open spec fn swapped(s: Seq<Interval>, i: int, j: int) -> Seq<Interval> {
    s.update(i, s[j]).update(j, s[i])
}

/// Exchanging two intervals keeps what the sequence holds, and whether two
/// of them share a block.
proof fn lemma_swap_keeps_pairs(s: Seq<Interval>, i: int, j: int)
    requires
        0 <= i < s.len(),
        0 <= j < s.len(),
    ensures
        any_pair_meets(swapped(s, i, j)) == any_pair_meets(s),
        swapped(s, i, j).to_multiset() == s.to_multiset(),
        all_wf(s) ==> all_wf(swapped(s, i, j)),
{
    let t = swapped(s, i, j);
    let sigma = |k: int| if k == i { j } else if k == j { i } else { k };
    assert forall|k: int| 0 <= k < s.len() implies t[k] == s[sigma(k)] by {}
    if any_pair_meets(s) {
        let (a, b) = choose|a: int, b: int| pair_meets(s, a, b);
        assert(pair_meets(t, sigma(a), sigma(b)));
    }
    if any_pair_meets(t) {
        let (a, b) = choose|a: int, b: int| pair_meets(t, a, b);
        assert(pair_meets(s, sigma(a), sigma(b)));
    }
    broadcast use vstd::multiset::group_multiset_axioms;
    s.to_multiset_ensures();
    vstd::seq_lib::to_multiset_update(s, i, s[j]);
    vstd::seq_lib::to_multiset_update(s.update(i, s[j]), j, s[i]);
    assert(s.contains(s[i]) && s.contains(s[j]));
    assert(t.to_multiset() =~= s.to_multiset());
    if all_wf(s) {
        assert forall|k: int| 0 <= k < t.len() implies (#[trigger] t[k]).wf() by {
            assert(s[sigma(k)].wf());
        }
    }
}

/// In a sorted sequence of well-formed intervals two of them share a block
/// exactly when two neighbours do.
pub proof fn lemma_sorted_overlap(s: Seq<Interval>)
    requires
        all_wf(s),
        sorted_by_start(s),
    ensures
        adjacent_overlap(s) == any_pair_meets(s),
{
    if adjacent_overlap(s) {
        let i = choose|i: int| 1 <= i < s.len() && #[trigger] touches_previous(s, i);
        assert(s[i].wf() && s[i - 1].wf());
        assert(pair_meets(s, i - 1, i));
    }
    if any_pair_meets(s) && !adjacent_overlap(s) {
        let (a, b) = choose|a: int, b: int| pair_meets(s, a, b);
        let (lo, hi) = if a < b { (a, b) } else { (b, a) };
        assert(s[lo].wf() && s[hi].wf());
        assert(touches_previous(s, lo + 1) || s[lo + 1].spec_start() > s[lo].spec_end());
        assert(s[lo + 1].spec_start() <= s[hi].spec_start());
    }
}

/// `s` with `x` put in after the last interval that starts no later than `x`
/// does, where `s` is in ascending order of starts.
pub open spec fn insert_by_start(s: Seq<Interval>, x: Interval) -> Seq<Interval>
    decreases s.len(),
{
    if s.len() == 0 {
        seq![x]
    } else if s.last().spec_start() > x.spec_start() {
        insert_by_start(s.drop_last(), x).push(s.last())
    } else {
        s.push(x)
    }
}

/// The first `k` intervals of `s` in ascending order of their starts;
/// intervals that start alike keep the order in which `s` has them.
pub open spec fn sorted_stably(s: Seq<Interval>, k: int) -> Seq<Interval>
    decreases k,
{
    if k <= 0 {
        Seq::empty()
    } else {
        insert_by_start(sorted_stably(s, k - 1), s[k - 1])
    }
}

/// Sorts `intervals` by start, keeping the order of intervals that start
/// alike, and tells whether two neighbours of the sorted order share a
/// block. For well-formed intervals that is the case exactly when any two of
/// the given intervals share a block.
pub fn check_any_overlaps(intervals: &mut Vec<Interval>) -> (r: bool)
    ensures
        final(intervals)@ == sorted_stably(old(intervals)@, old(intervals)@.len() as int),
        final(intervals)@.to_multiset() == old(intervals)@.to_multiset(),
        sorted_by_start(final(intervals)@),
        r == adjacent_overlap(final(intervals)@),
        all_wf(old(intervals)@) ==> r == any_pair_meets(old(intervals)@),
{
    let n = intervals.len();
    let mut i: usize = 1;
    proof {
        if n > 0 {
            assert(sorted_stably(intervals@, 0) =~= Seq::<Interval>::empty());
            assert(intervals@.take(1) =~= sorted_stably(intervals@, 1));
        }
    }
    while i < n
        invariant
            n == intervals.len(),
            1 <= i,
            intervals@.to_multiset() == old(intervals)@.to_multiset(),
            any_pair_meets(intervals@) == any_pair_meets(old(intervals)@),
            all_wf(old(intervals)@) ==> all_wf(intervals@),
            sorted_by_start(intervals@.take(i as int)) || n == 0,
            i <= n || n == 0,
            n == old(intervals)@.len(),
            n > 0 ==> intervals@.take(i as int) == sorted_stably(old(intervals)@, i as int),
            n > 0 ==> intervals@.skip(i as int) == old(intervals)@.skip(i as int),
        decreases n - i,
    {
        let ghost sp = sorted_stably(old(intervals)@, i as int);
        let ghost x = old(intervals)@[i as int];
        let ghost rest = old(intervals)@.skip(i + 1);
        proof {
            assert(intervals@.skip(i as int)[0] == x);
            assert(intervals@ =~= sp.take(i as int) + seq![x] + sp.skip(i as int) + rest) by {
                assert(sp.take(i as int) =~= sp);
                assert(sp.skip(i as int) =~= Seq::<Interval>::empty());
                assert forall|m: int| 0 <= m < n implies intervals@[m] == (sp + seq![x] + rest)[m] by {
                    if m < i {
                        assert(intervals@.take(i as int)[m] == intervals@[m]);
                    } else {
                        assert(intervals@.skip(i as int)[m - i] == intervals@[m]);
                        assert(old(intervals)@.skip(i as int)[m - i] == old(intervals)@[m]);
                        if m > i {
                            assert(rest[m - i - 1] == old(intervals)@[m]);
                        }
                    }
                }
            }
            assert(sp.take(i as int) =~= sp);
            assert(insert_by_start(sp.take(i as int), x) + sp.skip(i as int) =~= insert_by_start(
                sp,
                x,
            ));
        }
        let mut j: usize = i;
        assert forall|a: int, b: int| 0 <= a < b < i implies intervals@[a].spec_start()
            <= intervals@[b].spec_start() by {
            assert(intervals@.take(i as int)[a].spec_start() <= intervals@.take(i as int)[b].spec_start());
        }
        while j > 0 && intervals[j - 1].start > intervals[j].start
            invariant
                n == intervals.len(),
                j <= i < n,
                intervals@.to_multiset() == old(intervals)@.to_multiset(),
                any_pair_meets(intervals@) == any_pair_meets(old(intervals)@),
                all_wf(old(intervals)@) ==> all_wf(intervals@),
                forall|a: int, b: int|
                    0 <= a < b <= i && a != j && b != j ==> intervals@[a].spec_start()
                        <= intervals@[b].spec_start(),
                forall|b: int| j < b <= i ==> intervals@[j as int].spec_start() <= intervals@[b].spec_start(),
                sp.len() == i,
                intervals@ == sp.take(j as int) + seq![x] + sp.skip(j as int) + rest,
                insert_by_start(sp, x) == insert_by_start(sp.take(j as int), x) + sp.skip(j as int),
            decreases j,
        {
            let ghost before = intervals@;
            proof {
                let shorter = sp.take(j as int);
                assert(shorter.last() == sp[j - 1]);
                assert(before[j - 1] == sp[j - 1]);
                assert(before[j as int] == x);
                assert(shorter.drop_last() =~= sp.take(j - 1));
                assert(insert_by_start(shorter, x) == insert_by_start(sp.take(j - 1), x).push(
                    sp[j - 1],
                ));
                assert(insert_by_start(sp.take(j - 1), x).push(sp[j - 1]) + sp.skip(j as int)
                    =~= insert_by_start(sp.take(j - 1), x) + sp.skip(j - 1));
            }
            let left = intervals[j - 1];
            let right = intervals[j];
            intervals.set(j - 1, right);
            intervals.set(j, left);
            proof {
                assert(intervals@ =~= swapped(before, j - 1, j as int));
                lemma_swap_keeps_pairs(before, j - 1, j as int);
                assert(intervals@ =~= sp.take(j - 1) + seq![x] + sp.skip(j - 1) + rest);
            }
            j -= 1;
        }
        proof {
            let shorter = sp.take(j as int);
            if j > 0 {
                assert(shorter.last() == sp[j - 1]);
                assert(intervals@[j - 1] == sp[j - 1]);
                assert(intervals@[j as int] == x);
            }
            assert(insert_by_start(shorter, x) =~= shorter.push(x));
            assert(intervals@.take(i + 1) =~= insert_by_start(sp, x));
            assert(intervals@.skip(i + 1) =~= rest);
        }
        i += 1;
        assert(sorted_by_start(intervals@.take(i as int)));
    }
    proof {
        if n > 0 {
            assert(intervals@.take(n as int) =~= intervals@);
        } else {
            assert(intervals@ =~= sorted_stably(old(intervals)@, 0));
        }
    }
    let mut k: usize = 1;
    while k < n
        invariant
            n == intervals.len(),
            1 <= k,
            intervals@ == sorted_stably(old(intervals)@, old(intervals)@.len() as int),
            intervals@.to_multiset() == old(intervals)@.to_multiset(),
            sorted_by_start(intervals@),
            all_wf(old(intervals)@) ==> all_wf(intervals@),
            any_pair_meets(intervals@) == any_pair_meets(old(intervals)@),
            forall|m: int| 1 <= m < k && m < n ==> !touches_previous(intervals@, m),
        decreases n - k,
    {
        if intervals[k].start <= intervals[k - 1].end {
            proof {
                assert(touches_previous(intervals@, k as int));
                if all_wf(old(intervals)@) {
                    lemma_sorted_overlap(intervals@);
                }
            }
            return true;
        }
        k += 1;
    }
    proof {
        if all_wf(old(intervals)@) {
            lemma_sorted_overlap(intervals@);
        }
    }
    false
}

/// Adding an interval that equals, or lies within, one already present makes
/// two intervals of the collection share a block.
pub proof fn lemma_contained_interval_overlaps(s: Seq<Interval>, k: int, extra: Interval)
    requires
        0 <= k < s.len(),
        s[k].wf(),
        extra.wf(),
        s[k].spec_start() <= extra.spec_start(),
        extra.spec_end() <= s[k].spec_end(),
    ensures
        any_pair_meets(s.push(extra)),
{
    assert(pair_meets(s.push(extra), k, s.len() as int));
}

} // verus!
