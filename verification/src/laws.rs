//! Proved properties of the room counter, chief among them: the count equals
//! the greatest number of meetings in progress at any one instant.

use crate::meeting::Meeting;
use crate::rooms::insert_end;
use crate::rooms::lemma_insert_end_len;
use crate::rooms::lemma_meeting_order_total;
use crate::rooms::lemma_sorted_meetings_len;
use crate::rooms::lemma_tracks_after_len;
use crate::rooms::meeting_le;
use crate::rooms::meeting_order;
use crate::rooms::min_rooms;
use crate::rooms::sorted_meetings;
use crate::rooms::tracks_after;
use crate::rooms::tracks_needed;
use vstd::prelude::*;
use vstd::relations::sorted_by;
use vstd::seq_lib::lemma_sorted_unique;

verus! {

broadcast use vstd::seq_lib::group_to_multiset_ensures;

/// Is meeting `m` in progress at time `t`? Half-open: a meeting occupies the
/// instants from its start up to, but not including, its end.
pub open spec fn active_at(m: Meeting, t: int) -> bool {
    m.spec_start() <= t < m.spec_end()
}

/// How many of the first `j` meetings of `s` are in progress at time `t`.
pub open spec fn active_before(s: Seq<Meeting>, j: int, t: int) -> nat
    decreases j,
{
    if j <= 0 {
        0
    } else {
        active_before(s, j - 1, t) + (if active_at(s[j - 1], t) {
            1nat
        } else {
            0nat
        })
    }
}

/// How many meetings of `s` are in progress at time `t`.
pub open spec fn active_count(s: Seq<Meeting>, t: int) -> nat {
    active_before(s, s.len() as int, t)
}

/// How many of the first `j` meetings of `s` end strictly after time `t`.
spec fn ends_above(s: Seq<Meeting>, j: int, t: int) -> nat
    decreases j,
{
    if j <= 0 {
        0
    } else {
        ends_above(s, j - 1, t) + (if s[j - 1].spec_end() > t {
            1nat
        } else {
            0nat
        })
    }
}

/// How many entries of `q` lie strictly above `t`.
spec fn count_above(q: Seq<int>, t: int) -> nat
    decreases q.len(),
{
    if q.len() == 0 {
        0
    } else {
        (if q[0] > t {
            1nat
        } else {
            0nat
        }) + count_above(q.drop_first(), t)
    }
}

/// How many tracks meeting `k` of `s` demands: among the meetings up to and
/// including it, those whose end lies strictly after its start.
spec fn demand_at(s: Seq<Meeting>, k: int) -> nat {
    ends_above(s, k + 1, s[k].spec_start())
}

/// The largest demand among the first `j` meetings of `s`.
spec fn peak_before(s: Seq<Meeting>, j: int) -> nat
    decreases j,
{
    if j <= 0 {
        0
    } else {
        let p = peak_before(s, j - 1);
        let d = demand_at(s, j - 1);
        if d > p {
            d
        } else {
            p
        }
    }
}

/// Start times never decrease along `s`.
pub open spec fn starts_ascending(s: Seq<Meeting>) -> bool {
    forall|i: int, j: int|
        0 <= i <= j < s.len() ==> #[trigger] s[i].spec_start() <= #[trigger] s[j].spec_start()
}

/// Every meeting of `s` ends strictly after it starts.
pub open spec fn all_positive(s: Seq<Meeting>) -> bool {
    forall|i: int| 0 <= i < s.len() ==> (#[trigger] s[i].spec_start()) < s[i].spec_end()
}

/// Entries of `q` never decrease.
spec fn values_ascending(q: Seq<int>) -> bool {
    forall|i: int, j: int| 0 <= i <= j < q.len() ==> #[trigger] q[i] <= #[trigger] q[j]
}

proof fn lemma_count_above_le_len(q: Seq<int>, t: int)
    ensures
        count_above(q, t) <= q.len(),
    decreases q.len(),
{
    if q.len() > 0 {
        lemma_count_above_le_len(q.drop_first(), t);
    }
}

proof fn lemma_count_above_insert_end(q: Seq<int>, e: int, t: int)
    ensures
        count_above(insert_end(q, e), t) == count_above(q, t) + (if e > t {
            1nat
        } else {
            0nat
        }),
    decreases q.len(),
{
    if q.len() == 0 {
        let r = insert_end(q, e);
        assert(r =~= seq![e]);
        assert(r.drop_first() =~= Seq::<int>::empty());
        assert(count_above(r.drop_first(), t) == 0);
    } else if e <= q[0] {
        let r = seq![e] + q;
        assert(r[0] == e);
        assert(r.drop_first() =~= q);
    } else {
        lemma_count_above_insert_end(q.drop_first(), e, t);
        let r = seq![q[0]] + insert_end(q.drop_first(), e);
        assert(r[0] == q[0]);
        assert(r.drop_first() =~= insert_end(q.drop_first(), e));
    }
}

proof fn lemma_count_above_all(q: Seq<int>, t: int)
    requires
        values_ascending(q),
        q.len() > 0,
        q[0] > t,
    ensures
        count_above(q, t) == q.len(),
    decreases q.len(),
{
    if q.len() == 1 {
        assert(q.drop_first().len() == 0);
        assert(count_above(q.drop_first(), t) == 0);
    } else {
        assert(q.drop_first()[0] == q[1]);
        assert(q[0] <= q[1]);
        assert forall|i: int, j: int| 0 <= i <= j < q.drop_first().len() implies #[trigger] q
            .drop_first()[i] <= #[trigger] q.drop_first()[j] by {
            assert(q[i + 1] <= q[j + 1]);
        }
        lemma_count_above_all(q.drop_first(), t);
    }
}

proof fn lemma_insert_end_lower(r: Seq<int>, e: int, b: int)
    requires
        e >= b,
        forall|i: int| 0 <= i < r.len() ==> #[trigger] r[i] >= b,
    ensures
        forall|i: int| 0 <= i < insert_end(r, e).len() ==> #[trigger] insert_end(r, e)[i] >= b,
    decreases r.len(),
{
    if r.len() == 0 {
    } else if e <= r[0] {
    } else {
        assert forall|i: int| 0 <= i < r.drop_first().len() implies #[trigger] r.drop_first()[i]
            >= b by {
            assert(r[i + 1] >= b);
        }
        lemma_insert_end_lower(r.drop_first(), e, b);
        assert forall|i: int| 0 <= i < insert_end(r, e).len() implies #[trigger] insert_end(r, e)[i]
            >= b by {
            if i == 0 {
                assert(insert_end(r, e)[0] == r[0]);
            } else {
                assert(insert_end(r, e)[i] == insert_end(r.drop_first(), e)[i - 1]);
            }
        }
    }
}

proof fn lemma_insert_end_ascending(r: Seq<int>, e: int)
    requires
        values_ascending(r),
    ensures
        values_ascending(insert_end(r, e)),
    decreases r.len(),
{
    if r.len() == 0 {
    } else if e <= r[0] {
        let q = seq![e] + r;
        assert forall|i: int, j: int| 0 <= i <= j < q.len() implies #[trigger] q[i] <= #[trigger] q[j] by {
            if i == 0 {
                if j > 0 {
                    assert(q[j] == r[j - 1]);
                    assert(r[0] <= r[j - 1]);
                }
            } else {
                assert(q[i] == r[i - 1] && q[j] == r[j - 1]);
            }
        }
    } else {
        assert forall|i: int, j: int| 0 <= i <= j < r.drop_first().len() implies #[trigger] r
            .drop_first()[i] <= #[trigger] r.drop_first()[j] by {
            assert(r[i + 1] <= r[j + 1]);
        }
        assert forall|i: int| 0 <= i < r.drop_first().len() implies #[trigger] r.drop_first()[i]
            >= r[0] by {
            assert(r[0] <= r[i + 1]);
        }
        lemma_insert_end_ascending(r.drop_first(), e);
        lemma_insert_end_lower(r.drop_first(), e, r[0]);
        let q = seq![r[0]] + insert_end(r.drop_first(), e);
        assert forall|i: int, j: int| 0 <= i <= j < q.len() implies #[trigger] q[i] <= #[trigger] q[j] by {
            if i == 0 {
                if j > 0 {
                    assert(q[j] == insert_end(r.drop_first(), e)[j - 1]);
                    assert(insert_end(r.drop_first(), e)[j - 1] >= r[0]);
                }
            } else {
                assert(q[i] == insert_end(r.drop_first(), e)[i - 1]);
                assert(q[j] == insert_end(r.drop_first(), e)[j - 1]);
            }
        }
    }
}

proof fn lemma_tracks_ascending(s: Seq<Meeting>, j: int)
    ensures
        values_ascending(tracks_after(s, j)),
    decreases j,
{
    if j <= 0 {
        assert(tracks_after(s, j) =~= Seq::<int>::empty());
    } else {
        lemma_tracks_ascending(s, j - 1);
        let prev = tracks_after(s, j - 1);
        let m = s[j - 1];
        if prev.len() > 0 && prev[0] <= m.spec_start() {
            assert forall|x: int, y: int| 0 <= x <= y < prev.drop_first().len() implies #[trigger] prev
                .drop_first()[x] <= #[trigger] prev.drop_first()[y] by {
                assert(prev[x + 1] <= prev[y + 1]);
            }
            lemma_insert_end_ascending(prev.drop_first(), m.spec_end());
        } else {
            lemma_insert_end_ascending(prev, m.spec_end());
        }
    }
}

/// After `j` meetings of a start-sorted, positive-length sequence, the sweep
/// keeps exactly as many tracks as the largest demand seen so far, and the
/// kept end times count the still-running meetings exactly, for any time from
/// the last processed start onward.
proof fn lemma_sweep_invariant(s: Seq<Meeting>, j: int)
    requires
        1 <= j <= s.len(),
        starts_ascending(s),
        all_positive(s),
    ensures
        tracks_after(s, j).len() == peak_before(s, j),
        forall|t: int| #[trigger] count_above(tracks_after(s, j), t) <= ends_above(s, j, t),
        forall|t: int|
            t >= s[j - 1].spec_start() ==> ends_above(s, j, t) <= #[trigger] count_above(
                tracks_after(s, j),
                t,
            ),
    decreases j,
{
    let m = s[j - 1];
    let st = m.spec_start();
    let en = m.spec_end();
    let cur = tracks_after(s, j);
    assert(st < en);
    if j == 1 {
        assert(tracks_after(s, 0) =~= Seq::<int>::empty());
        assert(insert_end(Seq::empty(), en) =~= seq![en]);
        assert(cur =~= seq![en]);
        assert(ends_above(s, 0, st) == 0);
        assert(demand_at(s, 0) == 1);
        assert(peak_before(s, 0) == 0);
        assert(peak_before(s, 1) == 1);
        assert forall|t: int| #[trigger] count_above(cur, t) == ends_above(s, 1, t) by {
            assert(cur.drop_first() =~= Seq::<int>::empty());
            assert(count_above(cur.drop_first(), t) == 0);
            assert(ends_above(s, 0, t) == 0);
        }
    } else {
        lemma_sweep_invariant(s, j - 1);
        let prev = tracks_after(s, j - 1);
        lemma_tracks_after_len(s, j - 1);
        lemma_tracks_ascending(s, j - 1);
        let st_prev = s[j - 2].spec_start();
        assert(st_prev <= st);
        if prev[0] <= st {
            let popped = prev.drop_first();
            assert(cur == insert_end(popped, en));
            lemma_insert_end_len(popped, en);
            assert forall|t: int| #[trigger] count_above(cur, t) <= ends_above(s, j, t) by {
                lemma_count_above_insert_end(popped, en, t);
                assert(count_above(prev, t) == (if prev[0] > t {
                    1nat
                } else {
                    0nat
                }) + count_above(popped, t));
                assert(count_above(prev, t) <= ends_above(s, j - 1, t));
            }
            assert forall|t: int| t >= st implies ends_above(s, j, t) <= #[trigger] count_above(
                cur,
                t,
            ) by {
                lemma_count_above_insert_end(popped, en, t);
                assert(ends_above(s, j - 1, t) <= count_above(prev, t));
                assert(count_above(prev, t) == (if prev[0] > t {
                    1nat
                } else {
                    0nat
                }) + count_above(popped, t));
                assert(!(prev[0] > t));
            }
            // the newcomer's demand is covered by the tracks already kept
            assert(ends_above(s, j - 1, st) <= count_above(prev, st));
            assert(count_above(prev, st) == (if prev[0] > st {
                1nat
            } else {
                0nat
            }) + count_above(popped, st));
            lemma_count_above_le_len(popped, st);
            assert(demand_at(s, j - 1) == ends_above(s, j - 1, st) + 1);
            assert(demand_at(s, j - 1) <= prev.len());
            assert(peak_before(s, j) == peak_before(s, j - 1));
        } else {
            assert(cur == insert_end(prev, en));
            lemma_insert_end_len(prev, en);
            lemma_count_above_all(prev, st);
            assert(count_above(prev, st) <= ends_above(s, j - 1, st));
            assert(ends_above(s, j - 1, st) <= count_above(prev, st));
            assert(demand_at(s, j - 1) == prev.len() + 1);
            assert(peak_before(s, j) == prev.len() + 1);
            assert forall|t: int| #[trigger] count_above(cur, t) <= ends_above(s, j, t) by {
                lemma_count_above_insert_end(prev, en, t);
                assert(count_above(prev, t) <= ends_above(s, j - 1, t));
            }
            assert forall|t: int| t >= st implies ends_above(s, j, t) <= #[trigger] count_above(
                cur,
                t,
            ) by {
                lemma_count_above_insert_end(prev, en, t);
                assert(ends_above(s, j - 1, t) <= count_above(prev, t));
            }
        }
    }
}

proof fn lemma_demand_le_peak(s: Seq<Meeting>, k: int, j: int)
    requires
        0 <= k < j,
    ensures
        demand_at(s, k) <= peak_before(s, j),
    decreases j,
{
    if k < j - 1 {
        lemma_demand_le_peak(s, k, j - 1);
    }
}

proof fn lemma_peak_attained(s: Seq<Meeting>, j: int) -> (k: int)
    requires
        1 <= j,
    ensures
        0 <= k < j,
        demand_at(s, k) == peak_before(s, j),
    decreases j,
{
    if j == 1 {
        0
    } else {
        if demand_at(s, j - 1) > peak_before(s, j - 1) {
            j - 1
        } else {
            let k = lemma_peak_attained(s, j - 1);
            k
        }
    }
}

proof fn lemma_active_prefix_mono(s: Seq<Meeting>, j1: int, j2: int, t: int)
    requires
        0 <= j1 <= j2,
    ensures
        active_before(s, j1, t) <= active_before(s, j2, t),
    decreases j2,
{
    if j1 < j2 {
        lemma_active_prefix_mono(s, j1, j2 - 1, t);
    }
}

proof fn lemma_ends_eq_active(s: Seq<Meeting>, j: int, t: int)
    requires
        forall|i: int| 0 <= i < j ==> #[trigger] s[i].spec_start() <= t,
    ensures
        ends_above(s, j, t) == active_before(s, j, t),
    decreases j,
{
    if j > 0 {
        lemma_ends_eq_active(s, j - 1, t);
    }
}

proof fn lemma_active_le_ends(s: Seq<Meeting>, j: int, t: int, b: int)
    requires
        forall|i: int| 0 <= i < j && active_at(#[trigger] s[i], t) ==> s[i].spec_end() > b,
    ensures
        active_before(s, j, t) <= ends_above(s, j, b),
    decreases j,
{
    if j > 0 {
        lemma_active_le_ends(s, j - 1, t, b);
    }
}

proof fn lemma_active_stops(s: Seq<Meeting>, j1: int, j2: int, t: int)
    requires
        0 <= j1 <= j2,
        forall|i: int| j1 <= i < j2 ==> !active_at(#[trigger] s[i], t),
    ensures
        active_before(s, j2, t) == active_before(s, j1, t),
    decreases j2,
{
    if j1 < j2 {
        lemma_active_stops(s, j1, j2 - 1, t);
    }
}

proof fn lemma_last_active_index(s: Seq<Meeting>, j: int, t: int) -> (k: int)
    requires
        active_before(s, j, t) > 0,
    ensures
        0 <= k < j,
        active_at(s[k], t),
        forall|i: int| k < i < j ==> !active_at(#[trigger] s[i], t),
    decreases j,
{
    if active_at(s[j - 1], t) {
        j - 1
    } else {
        let k = lemma_last_active_index(s, j - 1, t);
        k
    }
}

/// For start-sorted meetings of positive length, the sweep keeps exactly as
/// many tracks as the greatest number of meetings in progress at any instant.
proof fn lemma_sweep_is_peak_overlap(s: Seq<Meeting>)
    requires
        starts_ascending(s),
        all_positive(s),
    ensures
        forall|t: int| #[trigger] active_count(s, t) <= tracks_needed(s),
        s.len() >= 1 ==> exists|t: int| #[trigger] active_count(s, t) == tracks_needed(s),
{
    let n = s.len() as int;
    if n == 0 {
        assert(tracks_after(s, 0) =~= Seq::<int>::empty());
        assert forall|t: int| #[trigger] active_count(s, t) <= tracks_needed(s) by {
            assert(active_before(s, 0, t) == 0);
        }
    } else {
        lemma_sweep_invariant(s, n);
        assert forall|t: int| #[trigger] active_count(s, t) <= tracks_needed(s) by {
            if active_before(s, n, t) > 0 {
                let k = lemma_last_active_index(s, n, t);
                lemma_active_stops(s, k + 1, n, t);
                assert(s[k].spec_start() <= t);
                assert forall|i: int|
                    0 <= i < k + 1 && active_at(#[trigger] s[i], t) implies s[i].spec_end() > s[
                    k
                ].spec_start() by {}
                lemma_active_le_ends(s, k + 1, t, s[k].spec_start());
                lemma_demand_le_peak(s, k, n);
            }
        }
        let k = lemma_peak_attained(s, n);
        let t0 = s[k].spec_start();
        assert forall|i: int| 0 <= i < k + 1 implies #[trigger] s[i].spec_start() <= t0 by {}
        lemma_ends_eq_active(s, k + 1, t0);
        lemma_active_prefix_mono(s, k + 1, n, t0);
        assert(active_count(s, t0) >= tracks_needed(s));
        assert(active_count(s, t0) == tracks_needed(s));
    }
}

proof fn lemma_active_prefix_agree(a: Seq<Meeting>, b: Seq<Meeting>, j: int, t: int)
    requires
        j <= a.len(),
        j <= b.len(),
        forall|i: int| 0 <= i < j ==> a[i] == b[i],
    ensures
        active_before(a, j, t) == active_before(b, j, t),
    decreases j,
{
    if j > 0 {
        lemma_active_prefix_agree(a, b, j - 1, t);
    }
}

proof fn lemma_active_remove(s: Seq<Meeting>, k: int, t: int)
    requires
        0 <= k < s.len(),
    ensures
        active_count(s, t) == active_count(s.remove(k), t) + (if active_at(s[k], t) {
            1nat
        } else {
            0nat
        }),
    decreases s.len(),
{
    let n = s.len() as int;
    let rm = s.remove(k);
    if k == n - 1 {
        lemma_active_prefix_agree(s, rm, n - 1, t);
    } else {
        let s1 = s.subrange(0, n - 1);
        lemma_active_prefix_agree(s, s1, n - 1, t);
        assert(active_count(s, t) == active_count(s1, t) + (if active_at(s[n - 1], t) {
            1nat
        } else {
            0nat
        }));
        lemma_active_remove(s1, k, t);
        assert(rm[n - 2] == s[n - 1]);
        assert(rm.subrange(0, n - 2) =~= s1.remove(k));
        lemma_active_prefix_agree(rm, s1.remove(k), n - 2, t);
        assert(active_count(rm, t) == active_before(rm, n - 2, t) + (if active_at(s[n - 1], t) {
            1nat
        } else {
            0nat
        }));
        assert(s1[k] == s[k]);
    }
}

/// The number of meetings in progress at `t` depends only on which meetings
/// there are, never on their order.
proof fn lemma_active_count_permutation(a: Seq<Meeting>, b: Seq<Meeting>, t: int)
    requires
        a.to_multiset() == b.to_multiset(),
    ensures
        active_count(a, t) == active_count(b, t),
    decreases a.len(),
{
    if a.len() == 0 {
        assert(a.to_multiset().len() == 0);
        assert(b.len() == 0);
    } else {
        let n = a.len() as int;
        let x = a[n - 1];
        assert(a.contains(x));
        assert(a.to_multiset().count(x) > 0);
        assert(b.to_multiset().count(x) > 0);
        assert(b.contains(x));
        let k = choose|k: int| 0 <= k < b.len() && b[k] == x;
        lemma_active_remove(a, n - 1, t);
        lemma_active_remove(b, k, t);
        assert(a.remove(n - 1).to_multiset() == a.to_multiset().remove(x));
        assert(b.remove(k).to_multiset() == b.to_multiset().remove(x));
        lemma_active_count_permutation(a.remove(n - 1), b.remove(k), t);
    }
}

/// Rearranging the meetings never changes the room count: the result depends
/// only on which meetings are in the collection.
pub proof fn lemma_order_irrelevant(a: Seq<Meeting>, b: Seq<Meeting>)
    requires
        a.to_multiset() == b.to_multiset(),
    ensures
        min_rooms(a) == min_rooms(b),
{
    lemma_meeting_order_total();
    lemma_sorted_meetings_len(a);
    lemma_sorted_meetings_len(b);
    lemma_sorted_unique(sorted_meetings(a), sorted_meetings(b), meeting_order());
}

/// An empty collection needs no room; a non-empty one needs at least one.
pub proof fn lemma_room_count_bounds(s: Seq<Meeting>)
    ensures
        s.len() == 0 ==> min_rooms(s) == 0,
        s.len() >= 1 ==> min_rooms(s) >= 1,
{
    lemma_sorted_meetings_len(s);
    let ss = sorted_meetings(s);
    if s.len() == 0 {
        assert(tracks_after(ss, 0) =~= Seq::<int>::empty());
    } else {
        lemma_tracks_after_len(ss, ss.len() as int);
    }
}

/// A single meeting needs exactly one room.
pub proof fn lemma_single_meeting(s: Seq<Meeting>)
    requires
        s.len() == 1,
    ensures
        min_rooms(s) == 1,
{
    lemma_meeting_order_total();
    lemma_sorted_meetings_len(s);
    let leq = meeting_order();
    assert(sorted_by(s, leq));
    lemma_sorted_unique(sorted_meetings(s), s, leq);
    assert(tracks_after(s, 0) =~= Seq::<int>::empty());
    assert(insert_end(Seq::empty(), s[0].spec_end()) =~= seq![s[0].spec_end()]);
    assert(tracks_after(s, 1).len() == 1);
}

proof fn lemma_identical_fold(s: Seq<Meeting>, j: int)
    requires
        0 <= j <= s.len(),
        forall|i: int| 0 <= i < s.len() ==> #[trigger] s[i] == s[0],
        s.len() >= 1 ==> s[0].spec_start() < s[0].spec_end(),
    ensures
        tracks_after(s, j).len() == j,
        forall|q: int| 0 <= q < j ==> #[trigger] tracks_after(s, j)[q] == s[0].spec_end(),
    decreases j,
{
    if j <= 0 {
        assert(tracks_after(s, j) =~= Seq::<int>::empty());
    } else {
        lemma_identical_fold(s, j - 1);
        let prev = tracks_after(s, j - 1);
        let m = s[j - 1];
        assert(m == s[0]);
        let en = s[0].spec_end();
        if j == 1 {
            assert(insert_end(Seq::empty(), en) =~= seq![en]);
        } else {
            assert(prev[0] == en);
            assert(prev[0] > m.spec_start());
            assert(tracks_after(s, j) == insert_end(prev, en));
            assert(insert_end(prev, en) =~= seq![en] + prev);
        }
    }
}

/// Identical meetings of positive length all overlap one another: as many
/// rooms are needed as there are meetings.
pub proof fn lemma_identical_meetings(s: Seq<Meeting>)
    requires
        s.len() >= 1,
        forall|i: int| 0 <= i < s.len() ==> #[trigger] s[i] == s[0],
        s[0].spec_start() < s[0].spec_end(),
    ensures
        min_rooms(s) == s.len(),
{
    lemma_meeting_order_total();
    lemma_sorted_meetings_len(s);
    let leq = meeting_order();
    assert forall|i: int, j: int| 0 <= i < j < s.len() implies #[trigger] leq(s[i], s[j]) by {
        assert(s[i] == s[0] && s[j] == s[0]);
        assert(meeting_le(s[0], s[0]));
    }
    lemma_sorted_unique(sorted_meetings(s), s, leq);
    lemma_identical_fold(s, s.len() as int);
}

proof fn lemma_chain_reach(s: Seq<Meeting>, i: int, j: int)
    requires
        forall|q: int| 0 <= q < s.len() ==> #[trigger] s[q].spec_start() <= s[q].spec_end(),
        forall|q: int|
            0 <= q && q + 1 < s.len() ==> #[trigger] s[q + 1].spec_start() == s[q].spec_end(),
        0 <= i < j < s.len(),
    ensures
        s[i].spec_end() <= s[j].spec_start(),
    decreases j - i,
{
    if j == i + 1 {
        assert(s[i + 1].spec_start() == s[i].spec_end());
    } else {
        lemma_chain_reach(s, i, j - 1);
        assert(s[(j - 1) + 1].spec_start() == s[j - 1].spec_end());
    }
}

proof fn lemma_chain_fold(s: Seq<Meeting>, j: int)
    requires
        1 <= j <= s.len(),
        forall|q: int| 0 <= q < s.len() ==> #[trigger] s[q].spec_start() <= s[q].spec_end(),
        forall|q: int|
            0 <= q && q + 1 < s.len() ==> #[trigger] s[q + 1].spec_start() == s[q].spec_end(),
    ensures
        tracks_after(s, j) == seq![s[j - 1].spec_end()],
    decreases j,
{
    if j == 1 {
        assert(tracks_after(s, 0) =~= Seq::<int>::empty());
        assert(insert_end(Seq::empty(), s[0].spec_end()) =~= seq![s[0].spec_end()]);
        assert(tracks_after(s, 1) =~= seq![s[0].spec_end()]);
    } else {
        lemma_chain_fold(s, j - 1);
        let prev = tracks_after(s, j - 1);
        assert(prev[0] == s[j - 2].spec_end());
        assert(s[(j - 2) + 1].spec_start() == s[j - 2].spec_end());
        assert(prev[0] <= s[j - 1].spec_start());
        assert(prev.drop_first() =~= Seq::<int>::empty());
        assert(insert_end(Seq::empty(), s[j - 1].spec_end()) =~= seq![s[j - 1].spec_end()]);
        assert(tracks_after(s, j) =~= seq![s[j - 1].spec_end()]);
    }
}

/// A chain of touching meetings, each starting exactly when the previous one
/// ends, fits in a single room.
pub proof fn lemma_touching_chain(s: Seq<Meeting>)
    requires
        s.len() >= 1,
        forall|q: int| 0 <= q < s.len() ==> #[trigger] s[q].spec_start() <= s[q].spec_end(),
        forall|q: int|
            0 <= q && q + 1 < s.len() ==> #[trigger] s[q + 1].spec_start() == s[q].spec_end(),
    ensures
        min_rooms(s) == 1,
{
    lemma_meeting_order_total();
    lemma_sorted_meetings_len(s);
    let leq = meeting_order();
    assert forall|i: int, j: int| 0 <= i < j < s.len() implies #[trigger] leq(s[i], s[j]) by {
        lemma_chain_reach(s, i, j);
        assert(s[i].spec_start() <= s[i].spec_end());
        assert(s[j].spec_start() <= s[j].spec_end());
        assert(meeting_le(s[i], s[j]));
    }
    lemma_sorted_unique(sorted_meetings(s), s, leq);
    lemma_chain_fold(s, s.len() as int);
}

/// The room count equals the greatest number of meetings in progress at any
/// one instant, for meetings of positive length: no instant sees more
/// meetings than rooms, and some instant sees exactly as many.
pub proof fn lemma_rooms_match_peak_overlap(s: Seq<Meeting>)
    requires
        all_positive(s),
    ensures
        forall|t: int| #[trigger] active_count(s, t) <= min_rooms(s),
        s.len() >= 1 ==> exists|t: int| #[trigger] active_count(s, t) == min_rooms(s),
{
    lemma_meeting_order_total();
    lemma_sorted_meetings_len(s);
    let ss = sorted_meetings(s);
    let leq = meeting_order();
    assert forall|i: int| 0 <= i < ss.len() implies (#[trigger] ss[i].spec_start()) < ss[
        i
    ].spec_end() by {
        let x = ss[i];
        assert(ss.contains(x));
        assert(ss.to_multiset().count(x) > 0);
        assert(s.to_multiset().count(x) > 0);
        assert(s.contains(x));
        let q = choose|q: int| 0 <= q < s.len() && s[q] == x;
        assert(s[q].spec_start() < s[q].spec_end());
    }
    assert forall|i: int, j: int|
        0 <= i <= j < ss.len() implies #[trigger] ss[i].spec_start() <= #[trigger] ss[
        j
    ].spec_start() by {
        if i < j {
            assert(leq(ss[i], ss[j]));
            assert(meeting_le(ss[i], ss[j]));
        }
    }
    lemma_sweep_is_peak_overlap(ss);
    assert forall|t: int| #[trigger] active_count(s, t) <= min_rooms(s) by {
        lemma_active_count_permutation(s, ss, t);
        assert(active_count(ss, t) <= tracks_needed(ss));
    }
    if s.len() >= 1 {
        let t0 = choose|t: int| #[trigger] active_count(ss, t) == tracks_needed(ss);
        lemma_active_count_permutation(s, ss, t0);
        assert(active_count(s, t0) == min_rooms(s));
    }
}

} // verus!

