use crate::journey::Boarding;
use crate::network::{PathfindingCost, Timestamp};
use arrayvec::ArrayVec;
use vstd::prelude::*;

verus! {

/// Number of labels a bag can hold.
pub const BAG_CAPACITY: usize = 5;

/// One way of reaching a stop: when, at what cost, and on which vehicle.
#[derive(Clone, Copy, PartialEq, Eq, Structural, Debug)]
pub struct Label {
    pub arrival_time: Timestamp,
    pub cost: PathfindingCost,
    pub boarding: Option<Boarding>,
}

impl Label {
    pub fn new(arrival_time: Timestamp, cost: PathfindingCost) -> (l: Self)
        ensures
            l == (Label { arrival_time, cost, boarding: None }),
    {
        Label { arrival_time, cost, boarding: None }
    }

    /// `self` is at least as good as `other` in both criteria.
    pub open spec fn spec_dominates(&self, other: &Label) -> bool {
        self.arrival_time <= other.arrival_time && self.cost <= other.cost
    }

    #[verifier::when_used_as_spec(spec_dominates)]
    pub fn dominates(&self, other: &Label) -> (r: bool)
        ensures
            r == self.spec_dominates(other),
    {
        self.arrival_time <= other.arrival_time && self.cost <= other.cost
    }
}

#[verifier::external_type_specification]
#[verifier::external_body]
#[verifier::reject_recursive_types(T)]
pub struct ExArrayVec<T, const CAP: usize>(ArrayVec<T, CAP>);

/// The labels that a fixed-capacity vector holds, first to last.
pub uninterp spec fn stored_labels(v: ArrayVec<Label, BAG_CAPACITY>) -> Seq<Label>;

/// `ArrayVec::new_const`: a vector that holds nothing.
#[verifier::external_body]
fn labels_new() -> (v: ArrayVec<Label, BAG_CAPACITY>)
    ensures
        stored_labels(v) == Seq::<Label>::empty(),
{
    ArrayVec::new_const()
}

/// `ArrayVec::len`: the number of elements held.
#[verifier::external_body]
fn labels_len(v: &ArrayVec<Label, BAG_CAPACITY>) -> (n: usize)
    ensures
        n == stored_labels(*v).len(),
{
    v.len()
}

/// Indexing through the vector's slice: a copy of the element at `i`. It
/// panics on `i` beyond the last element, which the precondition leaves out.
#[verifier::external_body]
fn labels_get(v: &ArrayVec<Label, BAG_CAPACITY>, i: usize) -> (l: Label)
    requires
        i < stored_labels(*v).len(),
    ensures
        l == stored_labels(*v)[i as int],
{
    v[i]
}

/// Assignment through the vector's mutable slice: the element at `i` is
/// replaced, the others stay. It panics on `i` beyond the last element, which
/// the precondition leaves out.
#[verifier::external_body]
fn labels_set(v: &mut ArrayVec<Label, BAG_CAPACITY>, i: usize, l: Label)
    requires
        i < stored_labels(*old(v)).len(),
    ensures
        stored_labels(*final(v)) == stored_labels(*old(v)).update(i as int, l),
{
    v[i] = l;
}

/// `ArrayVec::remove`: takes out the element at `i`, hands it back and moves
/// the later ones down by one. It panics on `i` beyond the last element, which
/// the precondition leaves out.
#[verifier::external_body]
fn labels_remove(v: &mut ArrayVec<Label, BAG_CAPACITY>, i: usize) -> (l: Label)
    requires
        i < stored_labels(*old(v)).len(),
    ensures
        l == stored_labels(*old(v))[i as int],
        stored_labels(*final(v)) == stored_labels(*old(v)).remove(i as int),
{
    v.remove(i)
}

/// `ArrayVec::pop`: takes out the last element, if there is one.
#[verifier::external_body]
fn labels_pop(v: &mut ArrayVec<Label, BAG_CAPACITY>) -> (l: Option<Label>)
    ensures
        stored_labels(*old(v)).len() == 0 ==> l.is_none() && stored_labels(*final(v))
            == stored_labels(*old(v)),
        stored_labels(*old(v)).len() > 0 ==> l == Some(stored_labels(*old(v)).last())
            && stored_labels(*final(v)) == stored_labels(*old(v)).drop_last(),
{
    v.pop()
}

/// `ArrayVec::insert`: puts `l` at position `i` and moves the later
/// elements up by one. It panics on a full vector and on `i` beyond the
/// length, which the precondition leaves out.
#[verifier::external_body]
fn labels_insert(v: &mut ArrayVec<Label, BAG_CAPACITY>, i: usize, l: Label)
    requires
        i <= stored_labels(*old(v)).len() < BAG_CAPACITY,
    ensures
        stored_labels(*final(v)) == stored_labels(*old(v)).insert(i as int, l),
{
    v.insert(i, l)
}

/// Labels in strictly increasing order of arrival and strictly decreasing
/// order of cost: none is as good as another in both criteria.
pub open spec fn pareto_front(s: Seq<Label>) -> bool {
    forall|i: int, j: int|
        0 <= i < j < s.len() ==> s[i].arrival_time < s[j].arrival_time && s[i].cost > s[j].cost
}

/// Some label of `s` dominates `l`.
pub open spec fn dominated_by_any(s: Seq<Label>, l: Label) -> bool {
    exists|i: int| 0 <= i < s.len() && (#[trigger] s[i]).spec_dominates(&l)
}

/// How many labels of `s` arrive before `t`.
pub open spec fn count_earlier(s: Seq<Label>, t: Timestamp) -> nat
    decreases s.len(),
{
    if s.len() == 0 {
        0
    } else {
        count_earlier(s.drop_last(), t) + if s.last().arrival_time < t {
            1nat
        } else {
            0nat
        }
    }
}

/// How many labels of `s` cost at least `c`.
pub open spec fn count_costlier(s: Seq<Label>, c: PathfindingCost) -> nat
    decreases s.len(),
{
    if s.len() == 0 {
        0
    } else {
        count_costlier(s.drop_last(), c) + if s.last().cost >= c {
            1nat
        } else {
            0nat
        }
    }
}

/// The labels of `s` that arrive before `new`, then `new`, then the labels
/// of `s` that are cheaper than `new`. On a Pareto front that holds no label
/// dominating `new`, this is `s` with `new` put in its place and the labels
/// that `new` dominates taken out.
pub open spec fn merged(s: Seq<Label>, new: Label) -> Seq<Label> {
    s.subrange(0, count_earlier(s, new.arrival_time) as int) + seq![new] + s.subrange(
        count_costlier(s, new.cost) as int,
        s.len() as int,
    )
}

/// Whether adding `new` to the front `s` changes it: `new` is not dominated,
/// and if the merged front is over capacity, `new` is not its last label.
pub open spec fn add_accepts(s: Seq<Label>, new: Label) -> bool {
    &&& !dominated_by_any(s, new)
    &&& (merged(s, new).len() <= BAG_CAPACITY || count_costlier(s, new.cost) < s.len())
}

/// The front after adding `new` to the front `s`. Over capacity, the label
/// that arrives last gives way.
pub open spec fn add_result(s: Seq<Label>, new: Label) -> Seq<Label> {
    if !add_accepts(s, new) {
        s
    } else if merged(s, new).len() <= BAG_CAPACITY {
        merged(s, new)
    } else {
        merged(s, new).drop_last()
    }
}

proof fn lemma_count_earlier(s: Seq<Label>, t: Timestamp, lo: int)
    requires
        0 <= lo <= s.len(),
        forall|i: int| 0 <= i < lo ==> (#[trigger] s[i]).arrival_time < t,
        forall|i: int| lo <= i < s.len() ==> (#[trigger] s[i]).arrival_time >= t,
    ensures
        count_earlier(s, t) == lo,
    decreases s.len(),
{
    if s.len() > 0 {
        let d = s.drop_last();
        if lo == s.len() {
            lemma_count_earlier(d, t, lo - 1);
        } else {
            lemma_count_earlier(d, t, lo);
        }
    }
}

proof fn lemma_count_costlier(s: Seq<Label>, c: PathfindingCost, hi: int)
    requires
        0 <= hi <= s.len(),
        forall|i: int| 0 <= i < hi ==> (#[trigger] s[i]).cost >= c,
        forall|i: int| hi <= i < s.len() ==> (#[trigger] s[i]).cost < c,
    ensures
        count_costlier(s, c) == hi,
    decreases s.len(),
{
    if s.len() > 0 {
        let d = s.drop_last();
        if hi == s.len() {
            lemma_count_costlier(d, c, hi - 1);
        } else {
            lemma_count_costlier(d, c, hi);
        }
    }
}

/// A bounded Pareto front of labels.
pub struct Bag {
    pub labels: ArrayVec<Label, BAG_CAPACITY>,
}

impl View for Bag {
    type V = Seq<Label>;

    open spec fn view(&self) -> Seq<Label> {
        stored_labels(self.labels)
    }
}

impl Bag {
    /// The bag holds a Pareto front within its capacity.
    pub open spec fn wf(&self) -> bool {
        self@.len() <= BAG_CAPACITY && pareto_front(self@)
    }

    pub fn new() -> (b: Self)
        ensures
            b@ == Seq::<Label>::empty(),
            b.wf(),
    {
        Bag { labels: labels_new() }
    }

    pub fn len(&self) -> (n: usize)
        ensures
            n == self@.len(),
    {
        labels_len(&self.labels)
    }

    pub fn is_empty(&self) -> (r: bool)
        ensures
            r == (self@.len() == 0),
    {
        labels_len(&self.labels) == 0
    }

    /// The label at position `i`, in order of arrival.
    pub fn get(&self, i: usize) -> (l: Label)
        requires
            i < self@.len(),
        ensures
            l == self@[i as int],
    {
        labels_get(&self.labels, i)
    }

    /// The labels, in order of arrival.
    pub fn as_vec(&self) -> (v: Vec<Label>)
        ensures
            v@ == self@,
    {
        let n = labels_len(&self.labels);
        let mut v: Vec<Label> = Vec::new();
        let mut i: usize = 0;
        while i < n
            invariant
                n == self@.len(),
                i <= n,
                v@ == self@.subrange(0, i as int),
            decreases n - i,
        {
            v.push(labels_get(&self.labels, i));
            i += 1;
        }
        v
    }

    /// Whether some label of the bag dominates `other`.
    pub fn dominates(&self, other: &Label) -> (r: bool)
        ensures
            r == dominated_by_any(self@, *other),
    {
        let n = labels_len(&self.labels);
        let mut i: usize = 0;
        while i < n
            invariant
                n == self@.len(),
                i <= n,
                forall|j: int| 0 <= j < i ==> !(#[trigger] self@[j]).spec_dominates(other),
            decreases n - i,
        {
            let label = labels_get(&self.labels, i);
            if label.dominates(other) {
                return true;
            }
            i += 1;
        }
        false
    }

    /// The position of the first label that arrives later than `time`.
    fn partition_point(&self, time: Timestamp) -> (partition: usize)
        ensures
            partition <= self@.len(),
            forall|j: int| 0 <= j < partition ==> (#[trigger] self@[j]).arrival_time <= time,
            partition < self@.len() ==> self@[partition as int].arrival_time > time,
    {
        let len = labels_len(&self.labels);
        let mut partition: usize = 0;
        while partition < len && labels_get(&self.labels, partition).arrival_time <= time
            invariant
                len == self@.len(),
                partition <= len,
                forall|j: int| 0 <= j < partition ==> (#[trigger] self@[j]).arrival_time <= time,
            decreases len - partition,
        {
            partition += 1;
        }
        partition
    }

    /// Whether one of the first `partition` labels costs no more than `cost`.
    fn cheaper_before(&self, partition: usize, cost: PathfindingCost) -> (r: bool)
        requires
            partition <= self@.len(),
        ensures
            r == exists|j: int| 0 <= j < partition && (#[trigger] self@[j]).cost <= cost,
    {
        let mut i: usize = 0;
        while i < partition
            invariant
                i <= partition <= self@.len(),
                forall|j: int| 0 <= j < i ==> (#[trigger] self@[j]).cost > cost,
            decreases partition - i,
        {
            if labels_get(&self.labels, i).cost <= cost {
                return true;
            }
            i += 1;
        }
        false
    }

    /// Takes out the run of labels from `partition` on that cost no less than
    /// `cost`, and says how many they were.
    fn remove_costlier(&mut self, partition: usize, cost: PathfindingCost) -> (removed: usize)
        requires
            partition <= old(self)@.len(),
        ensures
            partition + removed <= old(self)@.len(),
            final(self)@ == old(self)@.subrange(0, partition as int) + old(self)@.subrange(
                partition + removed,
                old(self)@.len() as int,
            ),
            forall|j: int|
                partition <= j < partition + removed ==> (#[trigger] old(self)@[j]).cost >= cost,
            partition + removed < old(self)@.len() ==> old(self)@[partition + removed].cost < cost,
    {
        let ghost s = self@;
        let len = labels_len(&self.labels);
        let mut removed: usize = 0;
        assert(self@ =~= s.subrange(0, partition as int) + s.subrange(
            partition as int,
            s.len() as int,
        ));
        while partition < labels_len(&self.labels) && labels_get(&self.labels, partition).cost
            >= cost
            invariant
                len == s.len(),
                partition <= s.len(),
                partition + removed <= s.len(),
                self@ == s.subrange(0, partition as int) + s.subrange(
                    partition + removed,
                    s.len() as int,
                ),
                forall|j: int|
                    partition <= j < partition + removed ==> (#[trigger] s[j]).cost >= cost,
            decreases s.len() - partition - removed,
        {
            assert(self@[partition as int] == s[partition + removed]);
            labels_remove(&mut self.labels, partition);
            removed += 1;
            assert(self@ =~= s.subrange(0, partition as int) + s.subrange(
                partition + removed,
                s.len() as int,
            ));
        }
        proof {
            if partition + removed < s.len() {
                assert(self@[partition as int] == s[partition + removed]);
            }
        }
        removed
    }

    /// Adds a label unless the bag holds one that dominates it, and takes out
    /// the labels that it dominates. Returns whether the bag changed.
    pub fn add(&mut self, new_label: Label) -> (changed: bool)
        requires
            old(self).wf(),
        ensures
            final(self).wf(),
            final(self)@ == add_result(old(self)@, new_label),
            changed == add_accepts(old(self)@, new_label),
    {
        let ghost s = self@;
        // Position of the first label that arrives later than the new one.
        let partition = self.partition_point(new_label.arrival_time);
        let is_last_label = partition == labels_len(&self.labels);
        // A label up to the partition dominates the new one if it costs no more.
        if self.cheaper_before(partition, new_label.cost) {
            proof {
                let j = choose|j: int| 0 <= j < partition && (#[trigger] s[j]).cost <= new_label.cost;
                assert(s[j].spec_dominates(&new_label));
            }
            return false;
        }
        // The labels after the partition that cost no less are dominated.
        let removed = self.remove_costlier(partition, new_label.cost);
        let ghost hi = partition + removed;
        proof {
            lemma_merge_bounds(s, new_label, partition as int, hi);
        }
        // Arrival times are unique: a label that arrives with the new one
        // stands just before the partition, and costs more.
        if partition > 0 && labels_get(&self.labels, partition - 1).arrival_time
            == new_label.arrival_time {
            labels_set(&mut self.labels, partition - 1, new_label);
            assert(self@ =~= merged(s, new_label));
            return true;
        }
        if labels_len(&self.labels) == BAG_CAPACITY {
            if is_last_label {
                assert(self@ =~= s);
                return false;
            }
            labels_pop(&mut self.labels);
        }
        labels_insert(&mut self.labels, partition, new_label);
        proof {
            if merged(s, new_label).len() <= BAG_CAPACITY {
                assert(self@ =~= merged(s, new_label));
            } else {
                assert(self@ =~= merged(s, new_label).drop_last());
            }
        }
        true
    }
}

/// Where a label that the front `s` does not dominate goes: the labels
/// before `lo` arrive earlier, and the labels from `hi` on are cheaper.
proof fn lemma_merge_bounds(s: Seq<Label>, new: Label, p: int, hi: int)
    requires
        pareto_front(s),
        0 <= p <= hi <= s.len(),
        forall|j: int| 0 <= j < p ==> (#[trigger] s[j]).arrival_time <= new.arrival_time,
        p < s.len() ==> s[p].arrival_time > new.arrival_time,
        forall|j: int| 0 <= j < p ==> (#[trigger] s[j]).cost > new.cost,
        forall|j: int| p <= j < hi ==> (#[trigger] s[j]).cost >= new.cost,
        hi < s.len() ==> s[hi].cost < new.cost,
    ensures
        count_earlier(s, new.arrival_time) == (if p > 0 && s[p - 1].arrival_time
            == new.arrival_time {
            p - 1
        } else {
            p
        }),
        count_costlier(s, new.cost) == hi,
        !dominated_by_any(s, new),
        merged(s, new) == s.subrange(0, count_earlier(s, new.arrival_time) as int) + seq![new]
            + s.subrange(hi, s.len() as int),
        pareto_front(merged(s, new)),
        pareto_front(merged(s, new).drop_last()),
{
    let lo: int = if p > 0 && s[p - 1].arrival_time == new.arrival_time {
        p - 1
    } else {
        p
    };
    assert forall|j: int| p <= j < s.len() implies (#[trigger] s[j]).arrival_time
        > new.arrival_time by {
        if j > p {
            assert(s[p].arrival_time < s[j].arrival_time);
        }
    }
    assert forall|j: int| hi <= j < s.len() implies (#[trigger] s[j]).cost < new.cost by {
        if j > hi {
            assert(s[hi].cost > s[j].cost);
        }
    }
    lemma_count_costlier(s, new.cost, hi);
    assert forall|j: int| 0 <= j < lo implies (#[trigger] s[j]).arrival_time
        < new.arrival_time by {
        if lo < p {
            assert(s[j].arrival_time < s[lo].arrival_time);
        } else if p > 0 && j < p - 1 {
            assert(s[j].arrival_time < s[p - 1].arrival_time);
        }
    }
    lemma_count_earlier(s, new.arrival_time, lo);
    assert(merged(s, new) =~= s.subrange(0, lo) + seq![new] + s.subrange(hi, s.len() as int));
    let m = merged(s, new);
    assert forall|i: int, j: int| 0 <= i < j < m.len() implies m[i].arrival_time
        < m[j].arrival_time && m[i].cost > m[j].cost by {
        if i < lo {
            assert(m[i] == s[i]);
        } else if i > lo {
            assert(m[i] == s[i - lo - 1 + hi]);
        }
        if j < lo {
            assert(m[j] == s[j]);
        } else if j > lo {
            assert(m[j] == s[j - lo - 1 + hi]);
        }
    }
    let d = m.drop_last();
    assert forall|i: int, j: int| 0 <= i < j < d.len() implies d[i].arrival_time
        < d[j].arrival_time && d[i].cost > d[j].cost by {
        assert(d[i] == m[i] && d[j] == m[j]);
    }
}

/// No label of a Pareto front dominates another.
pub proof fn lemma_front_non_dominating(s: Seq<Label>, i: int, j: int)
    requires
        pareto_front(s),
        0 <= i < s.len(),
        0 <= j < s.len(),
        i != j,
    ensures
        !s[i].spec_dominates(&s[j]),
{
    if i < j {
        assert(s[i].cost > s[j].cost);
    } else {
        assert(s[j].arrival_time < s[i].arrival_time);
    }
}

/// Every label of a front after an addition is the added label or was in
/// the front before.
pub proof fn lemma_add_result_members(s: Seq<Label>, new: Label, i: int)
    requires
        0 <= i < add_result(s, new).len(),
    ensures
        add_result(s, new)[i] == new || s.contains(add_result(s, new)[i]),
{
    let m = merged(s, new);
    let lo = count_earlier(s, new.arrival_time) as int;
    let hi = count_costlier(s, new.cost) as int;
    lemma_counts_bounded(s, new);
    if add_accepts(s, new) {
        let x = add_result(s, new)[i];
        assert(x == m[i]);
        if i < lo {
            assert(m[i] == s[i]);
        } else if i > lo {
            assert(m[i] == s[i - lo - 1 + hi]);
        }
    } else {
        assert(s[i] == add_result(s, new)[i]);
    }
}

/// A front is not empty after an addition.
pub proof fn lemma_add_result_nonempty(s: Seq<Label>, new: Label)
    ensures
        add_result(s, new).len() > 0,
{
    lemma_counts_bounded(s, new);
    if s.len() == 0 {
        assert(merged(s, new).len() == 1);
    }
}

/// Some label arrives before the end of time.
pub open spec fn some_in_time(s: Seq<Label>) -> bool {
    exists|i: int| 0 <= i < s.len() && (#[trigger] s[i]).arrival_time < Timestamp::MAX
}

proof fn lemma_earlier_is_counted(s: Seq<Label>, t: Timestamp, i: int)
    requires
        pareto_front(s),
        0 <= i < s.len(),
        s[i].arrival_time < t,
    ensures
        i < count_earlier(s, t),
    decreases s.len(),
{
    let d = s.drop_last();
    if i == s.len() - 1 {
        assert forall|j: int| 0 <= j < d.len() implies (#[trigger] d[j]).arrival_time < t by {
            assert(s[j].arrival_time < s[i].arrival_time);
        }
        lemma_count_earlier(d, t, d.len() as int);
    } else {
        assert forall|a: int, b: int| 0 <= a < b < d.len() implies d[a].arrival_time
            < d[b].arrival_time && d[a].cost > d[b].cost by {
            assert(s[a].arrival_time < s[b].arrival_time);
        }
        lemma_earlier_is_counted(d, t, i);
    }
}

proof fn lemma_all_counted(s: Seq<Label>, t: Timestamp)
    requires
        count_earlier(s, t) >= s.len(),
    ensures
        forall|i: int| 0 <= i < s.len() ==> (#[trigger] s[i]).arrival_time < t,
    decreases s.len(),
{
    if s.len() > 0 {
        let d = s.drop_last();
        lemma_counts_bounded(d, Label { arrival_time: t, cost: 0, boarding: None });
        lemma_all_counted(d, t);
        assert forall|i: int| 0 <= i < s.len() implies (#[trigger] s[i]).arrival_time < t by {
            if i < d.len() {
                assert(d[i] == s[i]);
            }
        }
    }
}

/// A front in which some label arrives before the end of time keeps such a
/// label through an addition, and gets one with a label that does.
pub proof fn lemma_add_keeps_in_time(s: Seq<Label>, new: Label)
    requires
        pareto_front(s),
        s.len() <= BAG_CAPACITY,
        some_in_time(s) || new.arrival_time < Timestamp::MAX,
    ensures
        some_in_time(add_result(s, new)),
{
    let m = merged(s, new);
    let lo = count_earlier(s, new.arrival_time) as int;
    let hi = count_costlier(s, new.cost) as int;
    let r = add_result(s, new);
    lemma_counts_bounded(s, new);
    if !add_accepts(s, new) {
        if !some_in_time(s) {
            if dominated_by_any(s, new) {
                let x = choose|x: int| 0 <= x < s.len() && (#[trigger] s[x]).spec_dominates(&new);
                assert(s[x].arrival_time < Timestamp::MAX);
            } else {
                lemma_all_counted(s, new.arrival_time);
                assert(s[0].arrival_time < Timestamp::MAX);
            }
        }
    } else if new.arrival_time < Timestamp::MAX {
        assert(m[lo] == new);
        assert(r[lo] == new);
    } else {
        let i = choose|i: int| 0 <= i < s.len() && (#[trigger] s[i]).arrival_time < Timestamp::MAX;
        lemma_earlier_is_counted(s, new.arrival_time, i);
        assert(m[i] == s[i]);
        assert(r[i] == s[i]);
    }
}

proof fn lemma_counts_bounded(s: Seq<Label>, new: Label)
    ensures
        count_earlier(s, new.arrival_time) <= s.len(),
        count_costlier(s, new.cost) <= s.len(),
    decreases s.len(),
{
    if s.len() > 0 {
        lemma_counts_bounded(s.drop_last(), new);
    }
}

/// An addition changes the front exactly when it is accepted.
pub proof fn lemma_add_changes(s: Seq<Label>, new: Label)
    requires
        pareto_front(s),
        s.len() <= BAG_CAPACITY,
    ensures
        add_accepts(s, new) <==> add_result(s, new) != s,
{
    if add_accepts(s, new) {
        let m = merged(s, new);
        let lo = count_earlier(s, new.arrival_time) as int;
        lemma_counts_bounded(s, new);
        let r = add_result(s, new);
        if r == s {
            if m.len() <= BAG_CAPACITY {
                assert(m[lo] == new);
                assert(s[lo].spec_dominates(&new));
            } else {
                assert(count_costlier(s, new.cost) < s.len());
                assert(lo < m.len() - 1);
                assert(r[lo] == m[lo]);
                assert(s[lo].spec_dominates(&new));
            }
        }
    }
}

} // verus!
