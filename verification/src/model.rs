//! Mathematical model of a coalesced interval set.
//!
//! A store's contents are modelled as a sequence of `(start, limit)` pairs,
//! each standing for the half-open range `[start, limit)`. The central
//! well-formedness predicate [`seq_wf`] says that every interval is non-empty
//! and that the sequence is sorted with a strict gap between any two
//! intervals; this is exactly the "maximally coalesced" shape, since two
//! intervals separated by a gap can never be merged.

use vstd::prelude::*;

verus! {

/// The intervals are non-empty, sorted ascending by start, and any two of
/// them are separated by at least one value that neither contains.
pub open spec fn seq_wf(s: Seq<(i64, i64)>) -> bool {
    &&& forall|i: int| 0 <= i < s.len() ==> s[i].0 < s[i].1
    &&& forall|i: int, j: int| 0 <= i < j < s.len() ==> s[i].1 < s[j].0
}

/// The value `v` lies inside one of the stored half-open intervals.
pub open spec fn seq_covers(s: Seq<(i64, i64)>, v: int) -> bool {
    exists|i: int| 0 <= i < s.len() && (#[trigger] s[i]).0 <= v < s[i].1
}

/// The smallest stored interval whose start is at or after `v`, if any.
pub open spec fn first_from(s: Seq<(i64, i64)>, v: int) -> Option<(i64, i64)>
    decreases s.len(),
{
    if s.len() == 0 {
        None
    } else if s[0].0 >= v {
        Some(s[0])
    } else {
        first_from(s.drop_first(), v)
    }
}

/// Two stored intervals that share a start are the same interval.
pub proof fn lemma_same_start(s: Seq<(i64, i64)>, p: (i64, i64), q: (i64, i64))
    requires
        seq_wf(s),
        s.contains(p),
        s.contains(q),
        p.0 == q.0,
    ensures
        p == q,
{
    let i = choose|i: int| 0 <= i < s.len() && s[i] == p;
    let j = choose|j: int| 0 <= j < s.len() && s[j] == q;
    if i < j {
        assert(s[i].1 < s[j].0);
    } else if j < i {
        assert(s[j].1 < s[i].0);
    }
}

/// Two stored intervals that share a limit are the same interval.
pub proof fn lemma_same_limit(s: Seq<(i64, i64)>, p: (i64, i64), q: (i64, i64))
    requires
        seq_wf(s),
        s.contains(p),
        s.contains(q),
        p.1 == q.1,
    ensures
        p == q,
{
    let i = choose|i: int| 0 <= i < s.len() && s[i] == p;
    let j = choose|j: int| 0 <= j < s.len() && s[j] == q;
    if i < j {
        assert(s[i].1 < s[j].0);
    } else if j < i {
        assert(s[j].1 < s[i].0);
    }
}

/// A value lies in at most one stored interval: whenever two stored intervals
/// both contain the same value, they are the same interval.
pub proof fn lemma_containing_unique(s: Seq<(i64, i64)>, v: int, p: (i64, i64), q: (i64, i64))
    requires
        seq_wf(s),
        s.contains(p),
        s.contains(q),
        p.0 <= v < p.1,
        q.0 <= v < q.1,
    ensures
        p == q,
{
    let i = choose|i: int| 0 <= i < s.len() && s[i] == p;
    let j = choose|j: int| 0 <= j < s.len() && s[j] == q;
    if i < j {
        assert(s[i].1 < s[j].0);
    } else if j < i {
        assert(s[j].1 < s[i].0);
    }
}

/// Two distinct stored intervals are strictly separated.
pub proof fn lemma_disjoint_pair(s: Seq<(i64, i64)>, p: (i64, i64), q: (i64, i64))
    requires
        seq_wf(s),
        s.contains(p),
        s.contains(q),
        p != q,
    ensures
        p.1 < q.0 || q.1 < p.0,
{
    let i = choose|i: int| 0 <= i < s.len() && s[i] == p;
    let j = choose|j: int| 0 <= j < s.len() && s[j] == q;
    if i < j {
        assert(s[i].1 < s[j].0);
    } else {
        assert(s[j].1 < s[i].0);
    }
}

/// A stored interval covers every value inside it.
pub proof fn lemma_member_covers(s: Seq<(i64, i64)>, p: (i64, i64), v: int)
    requires
        s.contains(p),
        p.0 <= v < p.1,
    ensures
        seq_covers(s, v),
{
    let k = choose|k: int| 0 <= k < s.len() && s[k] == p;
    assert((#[trigger] s[k]).0 <= v < s[k].1);
}

/// Picks the stored interval that contains a covered value.
pub proof fn covering_interval(s: Seq<(i64, i64)>, v: int) -> (p: (i64, i64))
    requires
        seq_covers(s, v),
    ensures
        s.contains(p),
        p.0 <= v < p.1,
{
    let k = choose|k: int| 0 <= k < s.len() && (#[trigger] s[k]).0 <= v < s[k].1;
    assert(s.contains(s[k]));
    s[k]
}

/// When a whole non-empty range `[start, limit)` is covered, a single stored
/// interval dominates it: strict gaps leave no way to cover the range with
/// more than one stored interval.
pub proof fn lemma_full_cover_implies_dominating(s: Seq<(i64, i64)>, start: i64, limit: i64)
    requires
        seq_wf(s),
        start < limit,
        forall|v: int| start <= v < limit ==> seq_covers(s, v),
    ensures
        exists|p: (i64, i64)| s.contains(p) && p.0 <= start && limit <= p.1,
{
    assert(seq_covers(s, start as int));
    let i = choose|i: int| 0 <= i < s.len() && (#[trigger] s[i]).0 <= start < s[i].1;
    if s[i].1 < limit {
        // The value at s[i].1 would have to be covered by a second interval,
        // which the strict gaps rule out.
        assert(seq_covers(s, s[i].1 as int));
        let j = choose|j: int| 0 <= j < s.len() && (#[trigger] s[j]).0 <= s[i].1 < s[j].1;
        if i < j {
            assert(s[i].1 < s[j].0);
        } else if j < i {
            assert(s[j].1 < s[i].0);
        }
        assert(false);
    }
    assert(s.contains(s[i]));
}

/// Skipping a prefix whose starts all lie before `v` does not change which
/// interval is the first one starting at or after `v`.
pub proof fn lemma_first_from_skip(s: Seq<(i64, i64)>, v: int, n: int)
    requires
        0 <= n <= s.len(),
        forall|k: int| 0 <= k < n ==> (#[trigger] s[k]).0 < v,
    ensures
        first_from(s, v) == first_from(s.skip(n), v),
    decreases n,
{
    if n == 0 {
        assert(s.skip(0) =~= s);
    } else {
        assert(s.drop_first() =~= s.skip(1));
        assert(forall|k: int| 0 <= k < n - 1 ==> (#[trigger] s.skip(1)[k]).0 < v);
        lemma_first_from_skip(s.skip(1), v, n - 1);
        assert(s.skip(1).skip(n - 1) =~= s.skip(n));
    }
}

/// Traversal entry point: querying from the smallest representable value
/// yields the first stored interval, or nothing when the store is empty.
pub proof fn lemma_traversal_start(s: Seq<(i64, i64)>)
    requires
        seq_wf(s),
    ensures
        first_from(s, i64::MIN as int) == if s.len() > 0 {
            Some(s[0])
        } else {
            None::<(i64, i64)>
        },
{
}

/// Traversal step: querying from one past a stored interval's start yields
/// the following stored interval, or nothing after the last one. Iterating
/// this way therefore enumerates exactly the stored sequence in order.
pub proof fn lemma_traversal_step(s: Seq<(i64, i64)>, i: int)
    requires
        seq_wf(s),
        0 <= i < s.len(),
    ensures
        first_from(s, s[i].0 + 1) == if i + 1 < s.len() {
            Some(s[i + 1])
        } else {
            None::<(i64, i64)>
        },
{
    let v = s[i].0 + 1;
    assert forall|k: int| 0 <= k < i + 1 implies (#[trigger] s[k]).0 < v by {
        if k < i {
            assert(s[k].1 < s[i].0);
        }
    }
    lemma_first_from_skip(s, v, i + 1);
    if i + 1 < s.len() {
        assert(s[i].1 < s[i + 1].0);
        assert(s.skip(i + 1)[0] == s[i + 1]);
    }
}

/// Removing one interval keeps the sequence well formed, and the remaining
/// members are exactly the old ones other than the removed interval.
pub proof fn lemma_wf_remove(s: Seq<(i64, i64)>, i: int)
    requires
        seq_wf(s),
        0 <= i < s.len(),
    ensures
        seq_wf(s.remove(i)),
        forall|p: (i64, i64)| s.remove(i).contains(p) <==> (s.contains(p) && p != s[i]),
{
    s.remove_ensures(i);
    let t = s.remove(i);
    assert forall|a: int, b: int| 0 <= a < b < t.len() implies t[a].1 < t[b].0 by {
        if b < i {
            assert(t[a] == s[a] && t[b] == s[b]);
        } else if a >= i {
            assert(t[a] == s[a + 1] && t[b] == s[b + 1]);
        } else {
            assert(t[a] == s[a] && t[b] == s[b + 1]);
        }
    }
    assert forall|p: (i64, i64)| t.contains(p) implies (s.contains(p) && p != s[i]) by {
        let k = choose|k: int| 0 <= k < t.len() && t[k] == p;
        if k < i {
            assert(s[k] == p);
            assert(s[k].1 < s[i].0 && s[k].0 < s[k].1);
        } else {
            assert(s[k + 1] == p);
            assert(s[i].1 < s[k + 1].0 && s[i].0 < s[i].1);
        }
    }
    assert forall|p: (i64, i64)| s.contains(p) && p != s[i] implies t.contains(p) by {
        let k = choose|k: int| 0 <= k < s.len() && s[k] == p;
        if k < i {
            assert(t[k] == p);
        } else {
            assert(t[k - 1] == p);
        }
    }
}

/// Inserting an interval that fits strictly between its neighbours keeps the
/// sequence well formed and adds exactly that interval to the members.
pub proof fn lemma_wf_insert(s: Seq<(i64, i64)>, i: int, x: (i64, i64))
    requires
        seq_wf(s),
        0 <= i <= s.len(),
        x.0 < x.1,
        forall|k: int| 0 <= k < i ==> (#[trigger] s[k]).1 < x.0,
        forall|k: int| i <= k < s.len() ==> x.1 < (#[trigger] s[k]).0,
    ensures
        seq_wf(s.insert(i, x)),
        forall|p: (i64, i64)| s.insert(i, x).contains(p) <==> (s.contains(p) || p == x),
{
    s.insert_ensures(i, x);
    let t = s.insert(i, x);
    assert forall|a: int, b: int| 0 <= a < b < t.len() implies t[a].1 < t[b].0 by {
        if b < i {
            assert(t[a] == s[a] && t[b] == s[b]);
        } else if a > i {
            assert(t[a] == s[a - 1] && t[b] == s[b - 1]);
        } else if a == i && b > i {
            assert(t[a] == x && t[b] == s[b - 1]);
        } else if a < i && b == i {
            assert(t[a] == s[a] && t[b] == x);
        } else {
            assert(t[a] == s[a] && t[b] == s[b - 1]);
            if a < i && i <= b - 1 {
                assert(s[a].1 < x.0 && x.1 < s[b - 1].0);
            }
        }
    }
    assert forall|a: int| 0 <= a < t.len() implies t[a].0 < t[a].1 by {
        if a < i {
            assert(t[a] == s[a]);
        } else if a == i {
            assert(t[a] == x);
        } else {
            assert(t[a] == s[a - 1]);
        }
    }
    assert forall|p: (i64, i64)| t.contains(p) implies (s.contains(p) || p == x) by {
        let k = choose|k: int| 0 <= k < t.len() && t[k] == p;
        if k < i {
            assert(s[k] == p);
        } else if k > i {
            assert(s[k - 1] == p);
        }
    }
    assert forall|p: (i64, i64)| s.contains(p) || p == x implies t.contains(p) by {
        if p == x {
            assert(t[i] == p);
        } else {
            let k = choose|k: int| 0 <= k < s.len() && s[k] == p;
            if k < i {
                assert(t[k] == p);
            } else {
                assert(t[k + 1] == p);
            }
        }
    }
}

/// Strict gaps between adjacent intervals, together with non-emptiness,
/// already give the full pairwise separation of a well-formed sequence.
pub proof fn lemma_adjacent_implies_wf(s: Seq<(i64, i64)>)
    requires
        forall|i: int| 0 <= i < s.len() ==> (#[trigger] s[i]).0 < s[i].1,
        forall|i: int| 0 <= i && i + 1 < s.len() ==> s[i].1 < (#[trigger] s[i + 1]).0,
    ensures
        seq_wf(s),
{
    assert forall|i: int, j: int| 0 <= i < j < s.len() implies s[i].1 < s[j].0 by {
        lemma_gap_chain(s, i, j);
    }
}

proof fn lemma_gap_chain(s: Seq<(i64, i64)>, i: int, j: int)
    requires
        forall|k: int| 0 <= k < s.len() ==> (#[trigger] s[k]).0 < s[k].1,
        forall|k: int| 0 <= k && k + 1 < s.len() ==> s[k].1 < (#[trigger] s[k + 1]).0,
        0 <= i < j < s.len(),
    ensures
        s[i].1 < s[j].0,
    decreases j - i,
{
    if i + 1 < j {
        lemma_gap_chain(s, i + 1, j);
        assert(s[i].1 < s[i + 1].0);
    }
}

/// Every member of a well-formed sequence starts at or after the first one.
proof fn lemma_first_start_is_least(s: Seq<(i64, i64)>, p: (i64, i64))
    requires
        seq_wf(s),
        s.contains(p),
        s.len() > 0,
    ensures
        s[0].0 <= p.0,
{
    let k = choose|k: int| 0 <= k < s.len() && s[k] == p;
    if k > 0 {
        assert(s[0].1 < s[k].0);
    }
}

/// Dropping the first interval keeps a well-formed sequence well formed.
proof fn lemma_wf_tail(s: Seq<(i64, i64)>)
    requires
        seq_wf(s),
        s.len() > 0,
    ensures
        seq_wf(s.drop_first()),
{
    assert(forall|k: int| 0 <= k < s.drop_first().len() ==> #[trigger] s.drop_first()[k] == s[k
        + 1]);
}

/// After dropping the first interval, the remaining coverage is the old one
/// outside the dropped interval.
proof fn lemma_covers_tail(s: Seq<(i64, i64)>, v: int)
    requires
        seq_wf(s),
        s.len() > 0,
    ensures
        seq_covers(s.drop_first(), v) <==> (seq_covers(s, v) && !(s[0].0 <= v < s[0].1)),
{
    let t = s.drop_first();
    assert(forall|k: int| 0 <= k < t.len() ==> #[trigger] t[k] == s[k + 1]);
    if seq_covers(t, v) {
        let k = choose|k: int| 0 <= k < t.len() && (#[trigger] t[k]).0 <= v < t[k].1;
        assert(s[0].1 < s[k + 1].0);
        assert((#[trigger] s[k + 1]).0 <= v < s[k + 1].1);
    }
    if seq_covers(s, v) && !(s[0].0 <= v < s[0].1) {
        let k = choose|k: int| 0 <= k < s.len() && (#[trigger] s[k]).0 <= v < s[k].1;
        assert(k > 0);
        assert((#[trigger] t[k - 1]).0 <= v < t[k - 1].1);
    }
}

/// Maximal coalescing makes the representation canonical: two well-formed
/// interval sequences that cover exactly the same values are equal.
pub proof fn lemma_coverage_determines_representation(a: Seq<(i64, i64)>, b: Seq<(i64, i64)>)
    requires
        seq_wf(a),
        seq_wf(b),
        forall|v: int| seq_covers(a, v) <==> seq_covers(b, v),
    ensures
        a == b,
    decreases a.len(),
{
    if a.len() == 0 {
        if b.len() > 0 {
            lemma_member_covers(b, b[0], b[0].0 as int);
            let p = covering_interval(a, b[0].0 as int);
        }
        assert(a =~= b);
    } else if b.len() == 0 {
        lemma_member_covers(a, a[0], a[0].0 as int);
        let p = covering_interval(b, a[0].0 as int);
        assert(false);
    } else {
        // The two first intervals share their start...
        lemma_member_covers(a, a[0], a[0].0 as int);
        lemma_member_covers(b, b[0], b[0].0 as int);
        let q = covering_interval(b, a[0].0 as int);
        let p = covering_interval(a, b[0].0 as int);
        lemma_first_start_is_least(b, q);
        lemma_first_start_is_least(a, p);
        assert(a[0].0 == b[0].0);
        lemma_same_start(b, q, b[0]);
        lemma_same_start(a, p, a[0]);
        // ... and their limit, since each one's limit would otherwise be
        // covered by a second interval on the other side.
        if a[0].1 < b[0].1 {
            lemma_member_covers(b, b[0], a[0].1 as int);
            let r = covering_interval(a, a[0].1 as int);
            lemma_disjoint_pair(a, r, a[0]);
            assert(false);
        }
        if b[0].1 < a[0].1 {
            lemma_member_covers(a, a[0], b[0].1 as int);
            let r = covering_interval(b, b[0].1 as int);
            lemma_disjoint_pair(b, r, b[0]);
            assert(false);
        }
        assert(a[0] == b[0]);
        assert forall|v: int| seq_covers(a.drop_first(), v) <==> seq_covers(
            b.drop_first(),
            v,
        ) by {
            lemma_covers_tail(a, v);
            lemma_covers_tail(b, v);
        }
        lemma_wf_tail(a);
        lemma_wf_tail(b);
        lemma_coverage_determines_representation(a.drop_first(), b.drop_first());
        assert forall|k: int| 0 <= k < a.len() implies a[k] == b[k] by {
            if k > 0 {
                assert(a.drop_first()[k - 1] == b.drop_first()[k - 1]);
            }
        }
        assert(a =~= b);
    }
}

/// When no stored interval dominates the non-empty range `[start, limit)`,
/// some value of the range is left uncovered.
pub proof fn lemma_not_dominated_leaves_gap(s: Seq<(i64, i64)>, start: i64, limit: i64) -> (w: int)
    requires
        seq_wf(s),
        start < limit,
        forall|p: (i64, i64)| #[trigger] s.contains(p) ==> !(p.0 <= start && limit <= p.1),
    ensures
        start <= w < limit,
        !seq_covers(s, w),
{
    if forall|v: int| start <= v < limit ==> seq_covers(s, v) {
        lemma_full_cover_implies_dominating(s, start, limit);
        assert(false);
    }
    choose|v: int| start <= v < limit && !seq_covers(s, v)
}

/// Sortedness and disjointness: in a well-formed sequence every interval has
/// `start < limit`, and each interval ends strictly before the next begins.
pub proof fn lemma_sorted_disjoint(s: Seq<(i64, i64)>)
    requires
        seq_wf(s),
    ensures
        forall|i: int| 0 <= i < s.len() ==> s[i].0 < s[i].1,
        forall|i: int| 0 <= i && i + 1 < s.len() ==> s[i].1 < #[trigger] s[i + 1].0,
{
}

} // verus!
