//! The room counter: meetings are sorted by start time, and a sweep keeps the
//! end times of the tracks in use, always reclaiming the earliest-ending track
//! when it is free by the time the next meeting starts.

use crate::laws::active_count;
use crate::laws::all_positive;
use crate::laws::lemma_rooms_match_peak_overlap;
use crate::meeting::lemma_meeting_determined_by_times;
use crate::meeting::Meeting;
use vstd::prelude::*;
use vstd::relations::sorted_by;
use vstd::relations::total_ordering;
use vstd::seq_lib::lemma_sorted_unique;
use vstd::seq_lib::to_multiset_insert;

verus! {

broadcast use vstd::seq_lib::group_to_multiset_ensures;

/// Orders meetings by ascending start time, breaking ties by end time: the
/// order in which the counter processes meetings.
pub open spec fn meeting_le(a: Meeting, b: Meeting) -> bool {
    a.spec_start() < b.spec_start() || (a.spec_start() == b.spec_start() && a.spec_end()
        <= b.spec_end())
}

/// `meeting_le` as a value, so that every use names one and the same ordering.
pub open spec fn meeting_order() -> spec_fn(Meeting, Meeting) -> bool {
    |a: Meeting, b: Meeting| meeting_le(a, b)
}

/// The ordering on meetings is total.
pub proof fn lemma_meeting_order_total()
    ensures
        total_ordering(meeting_order()),
{
    let leq = meeting_order();
    assert forall|a: Meeting, b: Meeting| #[trigger] leq(a, b) && #[trigger] leq(b, a) implies a
        == b by {
        lemma_meeting_determined_by_times(a, b);
    }
}

/// All consecutive pairs of `s` are in order.
pub open spec fn meetings_ascending(s: Seq<Meeting>) -> bool {
    forall|i: int, j: int| 0 <= i < j < s.len() ==> meeting_le(#[trigger] s[i], #[trigger] s[j])
}

/// Insert `e` into the ascending sequence `r`, keeping it ascending.
pub open spec fn insert_end(r: Seq<int>, e: int) -> Seq<int>
    decreases r.len(),
{
    if r.len() == 0 {
        seq![e]
    } else if e <= r[0] {
        seq![e] + r
    } else {
        seq![r[0]] + insert_end(r.drop_first(), e)
    }
}

/// The end times (ascending) of the tracks in use after the first `j`
/// meetings of `s` have been processed in order: each meeting reclaims the
/// earliest-ending track if that track ends by the meeting's start, and then
/// books a track ending at its own end time.
pub open spec fn tracks_after(s: Seq<Meeting>, j: int) -> Seq<int>
    decreases j,
{
    if j <= 0 {
        Seq::empty()
    } else {
        let prev = tracks_after(s, j - 1);
        let m = s[j - 1];
        if prev.len() > 0 && prev[0] <= m.spec_start() {
            insert_end(prev.drop_first(), m.spec_end())
        } else {
            insert_end(prev, m.spec_end())
        }
    }
}

/// How many tracks the sweep keeps for the meetings of `s`, in the given order.
pub open spec fn tracks_needed(s: Seq<Meeting>) -> nat {
    tracks_after(s, s.len() as int).len()
}

/// The meetings of `s`, arranged by ascending start time, ties by end time.
pub open spec fn sorted_meetings(s: Seq<Meeting>) -> Seq<Meeting> {
    s.sort_by(meeting_order())
}

/// The least number of rooms that can host all the meetings of `s`.
pub open spec fn min_rooms(s: Seq<Meeting>) -> nat {
    tracks_needed(sorted_meetings(s))
}

pub proof fn lemma_insert_end_len(r: Seq<int>, e: int)
    ensures
        insert_end(r, e).len() == r.len() + 1,
    decreases r.len(),
{
    if r.len() == 0 {
    } else if e <= r[0] {
    } else {
        lemma_insert_end_len(r.drop_first(), e);
    }
}

pub proof fn lemma_tracks_after_len(s: Seq<Meeting>, j: int)
    requires
        1 <= j,
    ensures
        tracks_after(s, j).len() >= 1,
    decreases j,
{
    let prev = tracks_after(s, j - 1);
    let m = s[j - 1];
    if prev.len() > 0 && prev[0] <= m.spec_start() {
        lemma_insert_end_len(prev.drop_first(), m.spec_end());
    } else {
        lemma_insert_end_len(prev, m.spec_end());
    }
}

/// Where a left-to-right scan for the first element at least `e` stops is
/// where `insert_end` puts `e`.
pub proof fn lemma_insert_end_at(r: Seq<int>, e: int, k: int)
    requires
        0 <= k <= r.len(),
        forall|i: int| 0 <= i < k ==> r[i] < e,
        k < r.len() ==> e <= r[k],
    ensures
        insert_end(r, e) == r.insert(k, e),
    decreases k,
{
    if k == 0 {
        assert(insert_end(r, e) =~= r.insert(0, e));
    } else {
        assert(r[0] < e);
        lemma_insert_end_at(r.drop_first(), e, k - 1);
        assert(seq![r[0]] + r.drop_first().insert(k - 1, e) =~= r.insert(k, e));
    }
}

/// The sorted sequence of the input has the input's length.
pub proof fn lemma_sorted_meetings_len(s: Seq<Meeting>)
    ensures
        sorted_meetings(s).len() == s.len(),
        sorted_meetings(s).to_multiset() == s.to_multiset(),
        sorted_by(sorted_meetings(s), meeting_order()),
{
    lemma_meeting_order_total();
    s.lemma_sort_by_ensures(meeting_order());
    assert(s.to_multiset().len() == s.len());
    assert(sorted_meetings(s).to_multiset().len() == sorted_meetings(s).len());
}

/// Carrier for the room-counting routine.
pub struct Solution {}

/// True when `a` must come strictly before `b` in the processing order.
fn meeting_before(a: &Meeting, b: &Meeting) -> (r: bool)
    ensures
        r == !meeting_le(*b, *a),
{
    a.start() < b.start() || (a.start() == b.start() && a.end() < b.end())
}

/// Rearranges `v` by ascending start time, ties by end time.
fn sort_meetings(v: &mut Vec<Meeting>)
    ensures
        final(v)@ == sorted_meetings(old(v)@),
{
    let ghost orig = v@;
    let mut out: Vec<Meeting> = Vec::new();
    let mut i: usize = 0;
    while i < v.len()
        invariant
            v@ == orig,
            i <= orig.len(),
            meetings_ascending(out@),
            out@.to_multiset() == orig.subrange(0, i as int).to_multiset(),
        decreases orig.len() - i,
    {
        let m = v[i];
        let ghost prev_out = out@;
        let mut k: usize = 0;
        while k < out.len() && meeting_before(&out[k], &m)
            invariant
                out@ == prev_out,
                k <= out@.len(),
                forall|q: int| 0 <= q < k ==> !meeting_le(m, #[trigger] out@[q]),
            decreases out@.len() - k,
        {
            k += 1;
        }
        out.insert(k, m);
        proof {
            let ki = k as int;
            assert forall|x: int, y: int| 0 <= x < y < out@.len() implies meeting_le(
                #[trigger] out@[x],
                #[trigger] out@[y],
            ) by {
                if y < ki {
                    assert(out@[x] == prev_out[x] && out@[y] == prev_out[y]);
                } else if x < ki && y == ki {
                    assert(out@[x] == prev_out[x] && out@[y] == m);
                    assert(!meeting_le(m, prev_out[x]));
                } else if x < ki && y > ki {
                    assert(out@[x] == prev_out[x] && out@[y] == prev_out[y - 1]);
                } else if x == ki {
                    assert(out@[x] == m && out@[y] == prev_out[y - 1]);
                    assert(ki < prev_out.len() ==> meeting_le(m, prev_out[ki]));
                } else {
                    assert(out@[x] == prev_out[x - 1] && out@[y] == prev_out[y - 1]);
                }
            }
            to_multiset_insert(prev_out, ki, m);
            assert(orig.subrange(0, i + 1) =~= orig.subrange(0, i as int).push(orig[i as int]));
        }
        i += 1;
    }
    proof {
        lemma_meeting_order_total();
        assert(orig.subrange(0, orig.len() as int) =~= orig);
        orig.lemma_sort_by_ensures(meeting_order());
        let leq = meeting_order();
        assert forall|x: int, y: int| 0 <= x < y < out@.len() implies #[trigger] leq(
            out@[x],
            out@[y],
        ) by {
            assert(meeting_le(out@[x], out@[y]));
        }
        lemma_sorted_unique(out@, sorted_meetings(orig), meeting_order());
        assert(out@ =~= sorted_meetings(orig));
    }
    *v = out;
}

impl Solution {
    /// Counts the fewest rooms that can host all of `meetings`: two meetings
    /// may share a room exactly when one ends no later than the other starts.
    /// When every meeting has positive length, the count equals the greatest
    /// number of meetings in progress at any one instant. As an observable
    /// side effect the collection is left rearranged by ascending start time,
    /// ties by end time. An empty collection needs no room.
    pub fn min_meeting_rooms(meetings: &mut Vec<Meeting>) -> (rooms: usize)
        ensures
            final(meetings)@ == sorted_meetings(old(meetings)@),
            rooms == min_rooms(old(meetings)@),
            all_positive(old(meetings)@) ==> forall|t: int|
                #[trigger] active_count(old(meetings)@, t) <= rooms,
            all_positive(old(meetings)@) && old(meetings)@.len() >= 1 ==> exists|t: int|
                #[trigger] active_count(old(meetings)@, t) == rooms,
    {
        proof {
            if all_positive(old(meetings)@) {
                lemma_rooms_match_peak_overlap(old(meetings)@);
            }
        }
        sort_meetings(meetings);
        let ghost ss = meetings@;
        proof {
            lemma_sorted_meetings_len(old(meetings)@);
        }
        let n = meetings.len();
        if n == 0 {
            return 0;
        }
        let mut tracks: Vec<usize> = Vec::new();
        let first_end = meetings[0].end();
        tracks.push(first_end);
        proof {
            assert(tracks_after(ss, 0) =~= Seq::empty());
            assert(insert_end(Seq::empty(), ss[0].spec_end()) =~= seq![ss[0].spec_end()]);
            assert(tracks_after(ss, 1) =~= seq![ss[0].spec_end()]);
        }
        let mut i: usize = 1;
        while i < n
            invariant
                1 <= i <= n,
                meetings@ == ss,
                n == ss.len(),
                tracks@.len() >= 1,
                tracks@.len() == tracks_after(ss, i as int).len(),
                forall|q: int|
                    0 <= q < tracks@.len() ==> #[trigger] tracks@[q] as int == tracks_after(
                        ss,
                        i as int,
                    )[q],
            decreases n - i,
        {
            let ghost cur = tracks_after(ss, i as int);
            let st = meetings[i].start();
            if tracks[0] <= st {
                tracks.remove(0);
                proof {
                    assert forall|q: int| 0 <= q < tracks@.len() implies #[trigger] tracks@[q] as int
                        == cur.drop_first()[q] by {}
                }
            }
            let ghost fold_base = if cur[0] <= ss[i as int].spec_start() {
                cur.drop_first()
            } else {
                cur
            };
            let ghost base = tracks@;
            proof {
                assert(base.len() == fold_base.len());
                assert(forall|q: int|
                    0 <= q < base.len() ==> #[trigger] base[q] as int == fold_base[q]);
            }
            let en = meetings[i].end();
            let mut k: usize = 0;
            while k < tracks.len() && tracks[k] < en
                invariant
                    tracks@ == base,
                    k <= base.len(),
                    forall|q: int| 0 <= q < k ==> #[trigger] base[q] < en,
                decreases base.len() - k,
            {
                k += 1;
            }
            tracks.insert(k, en);
            proof {
                let ki = k as int;
                assert forall|q: int| 0 <= q < ki implies fold_base[q] < en as int by {
                    assert(base[q] < en);
                }
                if ki < fold_base.len() {
                    assert(base[ki] >= en);
                    assert(fold_base[ki] >= en as int);
                }
                lemma_insert_end_at(fold_base, en as int, ki);
                assert(tracks_after(ss, i + 1) == insert_end(fold_base, en as int));
                assert(tracks@ == base.insert(ki, en));
                assert forall|q: int| 0 <= q < tracks@.len() implies #[trigger] tracks@[q] as int
                    == tracks_after(ss, i + 1)[q] by {
                    if q < ki {
                        assert(tracks@[q] == base[q]);
                        assert(tracks_after(ss, i + 1)[q] == fold_base[q]);
                    } else if q == ki {
                        assert(tracks@[q] == en);
                        assert(tracks_after(ss, i + 1)[q] == en as int);
                    } else {
                        assert(tracks@[q] == base[q - 1]);
                        assert(tracks_after(ss, i + 1)[q] == fold_base[q - 1]);
                    }
                }
                lemma_insert_end_len(fold_base, en as int);
            }
            i += 1;
        }
        tracks.len()
    }
}

} // verus!
