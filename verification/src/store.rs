//! The coalesced interval store.

use vstd::prelude::*;

use crate::model::covering_interval;
use crate::model::first_from;
use crate::model::lemma_adjacent_implies_wf;
use crate::model::lemma_disjoint_pair;
use crate::model::lemma_first_from_skip;
use crate::model::lemma_member_covers;
use crate::model::lemma_not_dominated_leaves_gap;
use crate::model::lemma_same_limit;
use crate::model::lemma_same_start;
use crate::model::lemma_wf_insert;
use crate::model::lemma_wf_remove;
use crate::model::seq_covers;
use crate::model::seq_wf;

verus! {

/// A set of maximally coalesced half-open intervals `[start, limit)` over
/// `i64`. Overlapping or abutting intervals are fused on insertion, so the
/// stored intervals are always pairwise disjoint with a gap between them.
pub struct CoalescedIntervals {
    intervals: Vec<(i64, i64)>,
}

impl View for CoalescedIntervals {
    type V = Seq<(i64, i64)>;

    closed spec fn view(&self) -> Seq<(i64, i64)> {
        self.intervals@
    }
}

impl CoalescedIntervals {
    /// The stored intervals are non-empty, sorted, and strictly separated.
    pub open spec fn wf(self) -> bool {
        seq_wf(self@)
    }

    /// Creates a new (empty) set of maximally coalesced intervals.
    pub fn new() -> (r: Self)
        ensures
            r.wf(),
            r@ == Seq::<(i64, i64)>::empty(),
    {
        CoalescedIntervals { intervals: Vec::new() }
    }

    /// The value `v` lies inside one of the stored intervals.
    #[verifier::inline]
    pub open spec fn covers(self, v: int) -> bool {
        seq_covers(self@, v)
    }

    /// Checks the structural invariants of the store: every stored interval is
    /// non-empty and each interval ends strictly before the next begins.
    /// Returns whether they hold.
    pub fn check_invariants(&self) -> (ok: bool)
        ensures
            ok == self.wf(),
    {
        let n = self.intervals.len();
        let mut i: usize = 0;
        while i < n
            invariant
                0 <= i <= n,
                n == self@.len(),
                forall|k: int| 0 <= k < i ==> (#[trigger] self@[k]).0 < self@[k].1,
                forall|k: int| 0 <= k && k + 1 <= i && k + 1 < n ==> self@[k].1 < (
                #[trigger] self@[k + 1]).0,
            decreases n - i,
        {
            let (start, limit) = self.intervals[i];
            if start >= limit {
                return false;
            }
            if i + 1 < n {
                let (next_start, _) = self.intervals[i + 1];
                if limit >= next_start {
                    return false;
                }
            }
            i += 1;
        }
        proof {
            lemma_adjacent_implies_wf(self@);
        }
        true
    }

    /// Converts the current interval set to a vector of `(start, limit)`
    /// pairs in ascending order.
    pub fn to_vec(&self) -> (r: Vec<(i64, i64)>)
        ensures
            r@ == self@,
    {
        let n = self.intervals.len();
        let mut r: Vec<(i64, i64)> = Vec::new();
        let mut i: usize = 0;
        while i < n
            invariant
                0 <= i <= n,
                n == self@.len(),
                r@ =~= self@.subrange(0, i as int),
            decreases n - i,
        {
            r.push(self.intervals[i]);
            i += 1;
        }
        proof {
            assert(r@ =~= self@);
        }
        r
    }

    /// Returns the stored interval that contains `value`, or `None` when no
    /// stored interval does. Limits are exclusive: with `[0, 1)` stored, the
    /// value `1` is not contained.
    pub fn get_interval_containing(&self, value: i64) -> (r: Option<(i64, i64)>)
        requires
            self.wf(),
        ensures
            r.is_some() == self.covers(value as int),
            match r {
                Some(p) => self@.contains(p) && p.0 <= value < p.1,
                None => !self.covers(value as int),
            },
    {
        let n = self.intervals.len();
        let mut i: usize = 0;
        while i < n
            invariant
                0 <= i <= n,
                n == self@.len(),
                self.wf(),
                forall|k: int| 0 <= k < i ==> (#[trigger] self@[k]).1 <= value,
            decreases n - i,
        {
            let (start, limit) = self.intervals[i];
            if limit > value {
                if start <= value {
                    proof {
                        assert(self@.contains(self@[i as int]));
                    }
                    return Some((start, limit));
                }
                proof {
                    assert forall|k: int| 0 <= k < n implies !((#[trigger] self@[k]).0 <= value
                        < self@[k].1) by {
                        if k > i {
                            assert(self@[i as int].1 < self@[k].0);
                        }
                    }
                }
                return None;
            }
            i += 1;
        }
        None
    }

    /// Returns the stored interval with the smallest start at or after
    /// `value`, or `None` when every stored interval starts before `value`.
    /// Re-querying with the returned start plus one steps through the stored
    /// intervals in ascending order.
    pub fn get_first_start_from(&self, value: i64) -> (r: Option<(i64, i64)>)
        requires
            self.wf(),
        ensures
            r == first_from(self@, value as int),
            match r {
                Some(p) => self@.contains(p) && p.0 >= value && forall|q: (i64, i64)|
                    #[trigger] self@.contains(q) && q.0 >= value ==> p.0 <= q.0,
                None => forall|p: (i64, i64)| self@.contains(p) ==> p.0 < value,
            },
    {
        let n = self.intervals.len();
        let mut i: usize = 0;
        while i < n
            invariant
                0 <= i <= n,
                n == self@.len(),
                self.wf(),
                forall|k: int| 0 <= k < i ==> (#[trigger] self@[k]).0 < value,
            decreases n - i,
        {
            let (start, limit) = self.intervals[i];
            if start >= value {
                proof {
                    lemma_first_from_skip(self@, value as int, i as int);
                    assert(self@.skip(i as int)[0] == self@[i as int]);
                    assert(self@.contains(self@[i as int]));
                    assert forall|q: (i64, i64)| #[trigger] self@.contains(q) && q.0
                        >= value implies self@[i as int].0 <= q.0 by {
                        let k = choose|k: int| 0 <= k < self@.len() && self@[k] == q;
                        if k > i {
                            assert(self@[i as int].1 < self@[k].0);
                        }
                    }
                }
                return Some((start, limit));
            }
            i += 1;
        }
        proof {
            lemma_first_from_skip(self@, value as int, n as int);
            assert(self@.skip(n as int).len() == 0);
            assert forall|p: (i64, i64)| self@.contains(p) implies p.0 < value by {
                let k = choose|k: int| 0 <= k < self@.len() && self@[k] == p;
            }
        }
        None
    }

    /// Whether some stored interval fully contains `[start, limit)`.
    fn is_dominated_by_existing(&self, start: i64, limit: i64) -> (r: bool)
        requires
            self.wf(),
        ensures
            r == exists|p: (i64, i64)|
                #[trigger] self@.contains(p) && p.0 <= start && limit <= p.1,
    {
        let n = self.intervals.len();
        let mut i: usize = 0;
        while i < n
            invariant
                0 <= i <= n,
                n == self@.len(),
                self.wf(),
                forall|k: int| 0 <= k < i ==> !((#[trigger] self@[k]).0 <= start && limit
                    <= self@[k].1),
            decreases n - i,
        {
            let (existing_start, existing_limit) = self.intervals[i];
            if existing_start <= start && limit <= existing_limit {
                proof {
                    assert(self@.contains(self@[i as int]));
                }
                return true;
            }
            i += 1;
        }
        proof {
            assert forall|p: (i64, i64)|
                #[trigger] self@.contains(p) implies !(p.0 <= start && limit <= p.1) by {
                let k = choose|k: int| 0 <= k < self@.len() && self@[k] == p;
            }
        }
        false
    }

    /// Removes every stored interval fully contained within `[start, limit)`:
    /// every stored `(cs, cl)` with `cs >= start` and `cl <= limit`.
    fn remove_intervals_dominated_by(&mut self, start: i64, limit: i64)
        requires
            old(self).wf(),
        ensures
            final(self).wf(),
            forall|p: (i64, i64)|
                #[trigger] final(self)@.contains(p) <==> (old(self)@.contains(p) && !(start <= p.0
                    && p.1 <= limit)),
    {
        let ghost s0 = self@;
        let n = self.intervals.len();
        let mut kept: Vec<(i64, i64)> = Vec::new();
        let mut i: usize = 0;
        while i < n
            invariant
                0 <= i <= n,
                n == s0.len(),
                self@ == s0,
                seq_wf(s0),
                seq_wf(kept@),
                forall|p: (i64, i64)| #[trigger] kept@.contains(p) <==> exists|k: int|
                    0 <= k < i && #[trigger] s0[k] == p && !(start <= p.0 && p.1 <= limit),
            decreases n - i,
        {
            let p = self.intervals[i];
            if !(start <= p.0 && p.1 <= limit) {
                proof {
                    assert forall|q: (i64, i64)| #[trigger] kept@.contains(q) implies q.1 < p.0 by {
                        let k = choose|k: int|
                            0 <= k < i && #[trigger] s0[k] == q && !(start <= q.0 && q.1 <= limit);
                        assert(s0[k].1 < s0[i as int].0);
                    }
                    assert(p.0 < p.1);
                }
                let ghost kept0 = kept@;
                kept.push(p);
                proof {
                    assert forall|a: int, b: int| 0 <= a < b < kept@.len() implies kept@[a].1
                        < kept@[b].0 by {
                        if b < kept@.len() - 1 {
                            assert(kept0[a].1 < kept0[b].0);
                        } else {
                            assert(kept0.contains(kept0[a]));
                        }
                    }
                    assert forall|q: (i64, i64)| #[trigger] kept@.contains(q) implies exists|k: int|
                        0 <= k < i + 1 && #[trigger] s0[k] == q && !(start <= q.0 && q.1
                            <= limit) by {
                        let m = choose|m: int| 0 <= m < kept@.len() && kept@[m] == q;
                        if m < kept@.len() - 1 {
                            assert(kept0.contains(q));
                            let k = choose|k: int|
                                0 <= k < i && #[trigger] s0[k] == q && !(start <= q.0 && q.1
                                    <= limit);
                        } else {
                            assert(s0[i as int] == q);
                        }
                    }
                    assert forall|q: (i64, i64), k: int|
                        0 <= k < i + 1 && #[trigger] s0[k] == q && !(start <= q.0 && q.1
                            <= limit) implies #[trigger] kept@.contains(q) by {
                        if k < i {
                            assert(kept0.contains(q));
                            let m = choose|m: int| 0 <= m < kept0.len() && kept0[m] == q;
                            assert(kept@[m] == q);
                        } else {
                            assert(kept@[kept@.len() - 1] == q);
                        }
                    }
                }
            } else {
                proof {
                    assert forall|q: (i64, i64)| #[trigger] kept@.contains(q) implies exists|k: int|
                        0 <= k < i + 1 && #[trigger] s0[k] == q && !(start <= q.0 && q.1
                            <= limit) by {
                        let k = choose|k: int|
                            0 <= k < i && #[trigger] s0[k] == q && !(start <= q.0 && q.1 <= limit);
                    }
                }
            }
            i += 1;
        }
        self.intervals = kept;
        proof {
            assert forall|p: (i64, i64)|
                #[trigger] self@.contains(p) implies (s0.contains(p) && !(start <= p.0 && p.1
                    <= limit)) by {
                let k = choose|k: int|
                    0 <= k < n && #[trigger] s0[k] == p && !(start <= p.0 && p.1 <= limit);
                assert(s0.contains(p));
            }
            assert forall|p: (i64, i64)| s0.contains(p) && !(start <= p.0 && p.1
                <= limit) implies #[trigger] self@.contains(p) by {
                let k = choose|k: int| 0 <= k < s0.len() && s0[k] == p;
            }
        }
    }

    /// Inserts the interval `[start, limit)` into the store. It must fit
    /// strictly between the existing intervals, neither touching nor
    /// overlapping any of them.
    fn insert_record(&mut self, start: i64, limit: i64)
        requires
            old(self).wf(),
            start < limit,
            forall|p: (i64, i64)| #[trigger] old(self)@.contains(p) ==> p.1 < start || limit < p.0,
        ensures
            final(self).wf(),
            forall|p: (i64, i64)|
                #[trigger] final(self)@.contains(p) <==> (old(self)@.contains(p) || p == (
                start,
                limit,
            )),
    {
        let ghost s0 = self@;
        let n = self.intervals.len();
        let mut i: usize = 0;
        while i < n && self.intervals[i].0 < start
            invariant
                0 <= i <= n,
                n == s0.len(),
                self@ == s0,
                seq_wf(s0),
                forall|p: (i64, i64)| #[trigger] s0.contains(p) ==> p.1 < start || limit < p.0,
                forall|k: int| 0 <= k < i ==> (#[trigger] s0[k]).0 < start,
            decreases n - i,
        {
            i += 1;
        }
        proof {
            assert forall|k: int| 0 <= k < i implies (#[trigger] s0[k]).1 < start by {
                assert(s0.contains(s0[k]));
            }
            assert forall|k: int| i <= k < n implies limit < (#[trigger] s0[k]).0 by {
                assert(s0.contains(s0[k]));
                if k > i {
                    assert(s0[i as int].1 < s0[k].0);
                }
                assert(s0[k].0 >= start);
            }
            lemma_wf_insert(s0, i as int, (start, limit));
        }
        self.intervals.insert(i, (start, limit));
    }

    /// Removes the stored interval whose start is `value` and returns its
    /// limit. Such an interval must exist.
    fn remove_with_start_at(&mut self, value: i64) -> (r: i64)
        requires
            old(self).wf(),
            exists|p: (i64, i64)| #[trigger] old(self)@.contains(p) && p.0 == value,
        ensures
            final(self).wf(),
            old(self)@.contains((value, r)),
            forall|p: (i64, i64)|
                #[trigger] final(self)@.contains(p) <==> (old(self)@.contains(p) && p.0 != value),
    {
        let ghost s0 = self@;
        proof {
            let q = choose|q: (i64, i64)| s0.contains(q) && q.0 == value;
            let k = choose|k: int| 0 <= k < s0.len() && s0[k] == q;
        }
        let n = self.intervals.len();
        let mut i: usize = 0;
        while self.intervals[i].0 != value
            invariant
                0 <= i < n,
                n == s0.len(),
                self@ == s0,
                seq_wf(s0),
                forall|k: int| 0 <= k < i ==> (#[trigger] s0[k]).0 != value,
                exists|j: int| i <= j < n && (#[trigger] s0[j]).0 == value,
            decreases n - i,
        {
            i += 1;
            proof {
                let j = choose|j: int| i - 1 <= j < n && (#[trigger] s0[j]).0 == value;
                assert(i <= j < n);
            }
        }
        let (_, limit) = self.intervals[i];
        self.intervals.remove(i);
        proof {
            lemma_wf_remove(s0, i as int);
            assert(s0.contains(s0[i as int]));
            assert forall|p: (i64, i64)| #[trigger] s0.contains(p) && p != s0[i as int] implies p.0
                != value by {
                if p.0 == value {
                    lemma_same_start(s0, p, s0[i as int]);
                }
            }
        }
        limit
    }

    /// Removes the stored interval whose limit is `value` and returns its
    /// start. Such an interval must exist.
    fn remove_with_limit_at(&mut self, value: i64) -> (r: i64)
        requires
            old(self).wf(),
            exists|p: (i64, i64)| #[trigger] old(self)@.contains(p) && p.1 == value,
        ensures
            final(self).wf(),
            old(self)@.contains((r, value)),
            forall|p: (i64, i64)|
                #[trigger] final(self)@.contains(p) <==> (old(self)@.contains(p) && p.1 != value),
    {
        let ghost s0 = self@;
        proof {
            let q = choose|q: (i64, i64)| s0.contains(q) && q.1 == value;
            let k = choose|k: int| 0 <= k < s0.len() && s0[k] == q;
        }
        let n = self.intervals.len();
        let mut i: usize = 0;
        while self.intervals[i].1 != value
            invariant
                0 <= i < n,
                n == s0.len(),
                self@ == s0,
                seq_wf(s0),
                forall|k: int| 0 <= k < i ==> (#[trigger] s0[k]).1 != value,
                exists|j: int| i <= j < n && (#[trigger] s0[j]).1 == value,
            decreases n - i,
        {
            i += 1;
            proof {
                let j = choose|j: int| i - 1 <= j < n && (#[trigger] s0[j]).1 == value;
                assert(i <= j < n);
            }
        }
        let (start, _) = self.intervals[i];
        self.intervals.remove(i);
        proof {
            lemma_wf_remove(s0, i as int);
            assert(s0.contains(s0[i as int]));
            assert forall|p: (i64, i64)| #[trigger] s0.contains(p) && p != s0[i as int] implies p.1
                != value by {
                if p.1 == value {
                    lemma_same_limit(s0, p, s0[i as int]);
                }
            }
        }
        start
    }

    /// Adds the interval `[start, limit)` to the current interval set,
    /// fusing it with any stored intervals it overlaps or abuts. Adding an
    /// empty interval, or one that a stored interval already contains,
    /// leaves the set unchanged.
    #[verifier::rlimit(50)]
    pub fn add(&mut self, start: i64, limit: i64)
        requires
            old(self).wf(),
            start <= limit,
        ensures
            final(self).wf(),
            forall|v: int|
                seq_covers(final(self)@, v) <==> (seq_covers(old(self)@, v) || start <= v
                    < limit),
            (forall|v: int| start <= v < limit ==> seq_covers(old(self)@, v)) ==> final(self)@
                == old(self)@,
    {
        let ghost s_old = self@;

        // Ignore empty intervals.
        if start == limit {
            return;
        }

        // No change necessary if an existing interval dominates this one.
        if self.is_dominated_by_existing(start, limit) {
            proof {
                let p = choose|p: (i64, i64)|
                    #[trigger] self@.contains(p) && p.0 <= start && limit <= p.1;
                assert forall|v: int| start <= v < limit implies seq_covers(self@, v) by {
                    lemma_member_covers(self@, p, v);
                }
            }
            return;
        }
        // The domination probe also settles the no-op case of the idempotence
        // postcondition: a fully covered range would have been dominated by a
        // single interval, so from here on some value of the range is still
        // uncovered.
        proof {
            let gap = lemma_not_dominated_leaves_gap(s_old, start, limit);
        }

        self.remove_intervals_dominated_by(start, limit);
        let ghost s1 = self@;

        // If our start is another interval's limit, or our limit is another
        // interval's start, we coalesce with it. Both may hold at once. The
        // maximal-coalescing invariant means at most one interval can collide
        // with each edge.
        let collision_left: Option<(i64, i64)> = self.find_collision_left(start, limit);
        let collision_right: Option<(i64, i64)> = self.find_collision_right(start, limit);

        match (collision_left, collision_right) {
            (None, None) => {
                proof {
                    assert forall|p: (i64, i64)| #[trigger] s1.contains(p) implies (p.1 < start
                        || limit < p.0) by {
                        assert(s_old.contains(p));
                        if p.1 >= start {
                            assert(p.1 > limit);
                            if p.0 <= limit {
                                assert(false);
                            }
                        }
                    }
                }
                self.insert_record(start, limit);
                proof {
                    let merged = (start, limit);
                    assert forall|p: (i64, i64)| #[trigger] s_old.contains(p) implies
                        self@.contains(p) || (merged.0 <= p.0 && p.1 <= merged.1) by {
                        if s1.contains(p) {
                            assert(self@.contains(p));
                        }
                    }
                    assert forall|p: (i64, i64)| #[trigger] self@.contains(p) implies
                        s_old.contains(p) || p == merged by {
                        if p != merged {
                            assert(s1.contains(p));
                        }
                    }
                    self.lemma_add_coverage(s_old, start, limit, merged);
                }
            }
            // Collision on the right edge.
            (None, Some((collided_start, collided_limit))) => {
                proof {
                    assert(s_old.contains((collided_start, collided_limit)));
                    assert(collided_limit > limit);
                }
                let removed_limit = self.remove_with_start_at(collided_start);
                proof {
                    lemma_same_start(
                        s1,
                        (collided_start, removed_limit),
                        (collided_start, collided_limit),
                    );
                }
                let ghost s2 = self@;
                proof {
                    assert forall|p: (i64, i64)| #[trigger] s2.contains(p) implies (p.1 < start
                        || collided_limit < p.0) by {
                        assert(s1.contains(p) && p != (collided_start, collided_limit));
                        assert(s_old.contains(p));
                        if p.1 >= start {
                            assert(p.1 > limit);
                            lemma_disjoint_pair(s1, p, (collided_start, collided_limit));
                            assert(collided_limit < p.0);
                        }
                    }
                }
                self.insert_record(start, collided_limit);
                proof {
                    let merged = (start, collided_limit);
                    assert forall|p: (i64, i64)| #[trigger] s_old.contains(p) implies
                        self@.contains(p) || (merged.0 <= p.0 && p.1 <= merged.1) by {
                        if s1.contains(p) {
                            if p != (collided_start, collided_limit) {
                                assert(s2.contains(p));
                                assert(self@.contains(p));
                            }
                        }
                    }
                    assert forall|p: (i64, i64)| #[trigger] self@.contains(p) implies
                        s_old.contains(p) || p == merged by {
                        if p != merged {
                            assert(s2.contains(p));
                            assert(s1.contains(p));
                        }
                    }
                    assert(s_old.contains((collided_start, collided_limit)) && collided_limit
                        == merged.1 && collided_start <= limit);
                    self.lemma_add_coverage(s_old, start, limit, merged);
                }
            }
            // Collision on the left edge.
            (Some((collided_start, collided_limit)), None) => {
                proof {
                    assert(s_old.contains((collided_start, collided_limit)));
                    assert(collided_start < start);
                }
                let removed_limit = self.remove_with_start_at(collided_start);
                proof {
                    lemma_same_start(
                        s1,
                        (collided_start, removed_limit),
                        (collided_start, collided_limit),
                    );
                }
                let ghost s2 = self@;
                proof {
                    assert forall|p: (i64, i64)| #[trigger] s2.contains(p) implies (p.1
                        < collided_start || limit < p.0) by {
                        assert(s1.contains(p) && p != (collided_start, collided_limit));
                        assert(s_old.contains(p));
                        lemma_disjoint_pair(s1, p, (collided_start, collided_limit));
                        if collided_limit < p.0 {
                            assert(p.0 > limit);
                        }
                    }
                }
                self.insert_record(collided_start, limit);
                proof {
                    let merged = (collided_start, limit);
                    assert forall|p: (i64, i64)| #[trigger] s_old.contains(p) implies
                        self@.contains(p) || (merged.0 <= p.0 && p.1 <= merged.1) by {
                        if s1.contains(p) {
                            if p != (collided_start, collided_limit) {
                                assert(s2.contains(p));
                                assert(self@.contains(p));
                            }
                        }
                    }
                    assert forall|p: (i64, i64)| #[trigger] self@.contains(p) implies
                        s_old.contains(p) || p == merged by {
                        if p != merged {
                            assert(s2.contains(p));
                            assert(s1.contains(p));
                        }
                    }
                    assert(s_old.contains((collided_start, collided_limit)) && collided_start
                        == merged.0 && start <= collided_limit);
                    self.lemma_add_coverage(s_old, start, limit, merged);
                }
            }
            // Collision on both edges.
            (Some((left_start, left_limit)), Some((right_start, right_limit))) => {
                proof {
                    assert(s_old.contains((left_start, left_limit)));
                    assert(s_old.contains((right_start, right_limit)));
                    assert((left_start, left_limit) != (right_start, right_limit));
                    assert(left_start < start);
                    assert(limit < right_limit);
                }
                let removed_left_limit = self.remove_with_start_at(left_start);
                proof {
                    lemma_same_start(
                        s1,
                        (left_start, removed_left_limit),
                        (left_start, left_limit),
                    );
                }
                let ghost s2 = self@;
                proof {
                    assert(s2.contains((right_start, right_limit)));
                }
                let removed_right_start = self.remove_with_limit_at(right_limit);
                proof {
                    lemma_same_limit(
                        s2,
                        (removed_right_start, right_limit),
                        (right_start, right_limit),
                    );
                }
                let ghost s3 = self@;
                proof {
                    assert forall|p: (i64, i64)| #[trigger] s3.contains(p) implies (p.1
                        < left_start || right_limit < p.0) by {
                        assert(s2.contains(p) && p != (right_start, right_limit));
                        assert(s1.contains(p) && p != (left_start, left_limit));
                        assert(s_old.contains(p));
                        lemma_disjoint_pair(s1, p, (left_start, left_limit));
                        if left_limit < p.0 {
                            lemma_disjoint_pair(s1, p, (right_start, right_limit));
                            if p.1 < right_start {
                                assert(false);
                            }
                        }
                    }
                }
                self.insert_record(left_start, right_limit);
                proof {
                    let merged = (left_start, right_limit);
                    assert forall|p: (i64, i64)| #[trigger] s_old.contains(p) implies
                        self@.contains(p) || (merged.0 <= p.0 && p.1 <= merged.1) by {
                        if s1.contains(p) {
                            if p != (left_start, left_limit) && p != (right_start, right_limit) {
                                assert(s2.contains(p));
                                assert(s3.contains(p));
                                assert(self@.contains(p));
                            }
                        }
                    }
                    assert forall|p: (i64, i64)| #[trigger] self@.contains(p) implies
                        s_old.contains(p) || p == merged by {
                        if p != merged {
                            assert(s3.contains(p));
                            assert(s2.contains(p));
                            assert(s1.contains(p));
                        }
                    }
                    assert(s_old.contains((left_start, left_limit)) && left_start == merged.0
                        && start <= left_limit);
                    assert(s_old.contains((right_start, right_limit)) && right_limit == merged.1
                        && right_start <= limit);
                    self.lemma_add_coverage(s_old, start, limit, merged);
                }
            }
        }
    }

    /// After a merge that replaced the colliding and dominated intervals with
    /// the single interval `merged`, the covered values are the old ones plus
    /// the freshly added range.
    proof fn lemma_add_coverage(
        self,
        s_old: Seq<(i64, i64)>,
        start: i64,
        limit: i64,
        merged: (i64, i64),
    )
        requires
            seq_wf(s_old),
            start < limit,
            merged.0 <= start < limit <= merged.1,
            self@.contains(merged),
            // every old value stays covered:
            forall|p: (i64, i64)| #[trigger] s_old.contains(p) ==> self@.contains(p) || (merged.0
                <= p.0 && p.1 <= merged.1),
            // every new member is an old one or the merged interval:
            forall|p: (i64, i64)| #[trigger] self@.contains(p) ==> s_old.contains(p) || p
                == merged,
            // the merged interval reaches beyond [start, limit) only along old
            // intervals:
            merged.0 < start ==> exists|p: (i64, i64)|
                #[trigger] s_old.contains(p) && p.0 == merged.0 && start <= p.1,
            limit < merged.1 ==> exists|p: (i64, i64)|
                #[trigger] s_old.contains(p) && p.1 == merged.1 && p.0 <= limit,
        ensures
            forall|v: int|
                #[trigger] seq_covers(self@, v) <==> (seq_covers(s_old, v) || start <= v < limit),
    {
        assert forall|v: int| seq_covers(self@, v) implies (seq_covers(s_old, v) || start <= v
            < limit) by {
            let p = covering_interval(self@, v);
            if p == merged {
                if v < start {
                    let q = choose|q: (i64, i64)|
                        #[trigger] s_old.contains(q) && q.0 == merged.0 && start <= q.1;
                    lemma_member_covers(s_old, q, v);
                } else if v >= limit {
                    let q = choose|q: (i64, i64)|
                        #[trigger] s_old.contains(q) && q.1 == merged.1 && q.0 <= limit;
                    lemma_member_covers(s_old, q, v);
                }
            } else {
                lemma_member_covers(s_old, p, v);
            }
        }
        assert forall|v: int| (seq_covers(s_old, v) || start <= v < limit) implies seq_covers(
            self@,
            v,
        ) by {
            if start <= v < limit {
                lemma_member_covers(self@, merged, v);
            } else {
                let p = covering_interval(s_old, v);
                if self@.contains(p) {
                    lemma_member_covers(self@, p, v);
                } else {
                    lemma_member_covers(self@, merged, v);
                }
            }
        }
    }

    /// Finds a stored interval colliding with the left edge of
    /// `[start, limit)`: one whose limit lies within `[start, limit]`
    /// inclusive, so that its right edge touches or overlaps the new
    /// interval's left side.
    fn find_collision_left(&self, start: i64, limit: i64) -> (r: Option<(i64, i64)>)
        requires
            self.wf(),
        ensures
            match r {
                Some(p) => self@.contains(p) && start <= p.1 <= limit,
                None => forall|p: (i64, i64)|
                    #[trigger] self@.contains(p) ==> !(start <= p.1 <= limit),
            },
    {
        let n = self.intervals.len();
        let mut i: usize = 0;
        while i < n
            invariant
                0 <= i <= n,
                n == self@.len(),
                self.wf(),
                forall|k: int| 0 <= k < i ==> !(start <= (#[trigger] self@[k]).1 <= limit),
            decreases n - i,
        {
            let (other_start, other_limit) = self.intervals[i];
            if start <= other_limit && other_limit <= limit {
                proof {
                    assert(self@.contains(self@[i as int]));
                }
                return Some((other_start, other_limit));
            }
            i += 1;
        }
        proof {
            assert forall|p: (i64, i64)| #[trigger] self@.contains(p) implies !(start <= p.1
                <= limit) by {
                let k = choose|k: int| 0 <= k < self@.len() && self@[k] == p;
            }
        }
        None
    }

    /// Finds a stored interval colliding with the right edge of
    /// `[start, limit)`: one whose start lies within `[start, limit]`
    /// inclusive, so that its left edge touches or overlaps the new
    /// interval's right side.
    fn find_collision_right(&self, start: i64, limit: i64) -> (r: Option<(i64, i64)>)
        requires
            self.wf(),
        ensures
            match r {
                Some(p) => self@.contains(p) && start <= p.0 <= limit,
                None => forall|p: (i64, i64)|
                    #[trigger] self@.contains(p) ==> !(start <= p.0 <= limit),
            },
    {
        let n = self.intervals.len();
        let mut i: usize = 0;
        while i < n
            invariant
                0 <= i <= n,
                n == self@.len(),
                self.wf(),
                forall|k: int| 0 <= k < i ==> !(start <= (#[trigger] self@[k]).0 <= limit),
            decreases n - i,
        {
            let (other_start, other_limit) = self.intervals[i];
            if start <= other_start && other_start <= limit {
                proof {
                    assert(self@.contains(self@[i as int]));
                }
                return Some((other_start, other_limit));
            }
            i += 1;
        }
        proof {
            assert forall|p: (i64, i64)| #[trigger] self@.contains(p) implies !(start <= p.0
                <= limit) by {
                let k = choose|k: int| 0 <= k < self@.len() && self@[k] == p;
            }
        }
        None
    }
}

} // verus!
