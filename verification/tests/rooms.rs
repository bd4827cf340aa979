use meeting_rooms::InvalidInterval;
use meeting_rooms::Meeting;
use meeting_rooms::Solution;
use meeting_rooms::TestFixtures;

fn meeting(start: usize, end: usize) -> Meeting {
    Meeting::new(start, end).unwrap()
}

fn meetings(pairs: &[(usize, usize)]) -> Vec<Meeting> {
    pairs.iter().map(|&(s, e)| meeting(s, e)).collect()
}

fn count(pairs: &[(usize, usize)]) -> usize {
    let mut v = meetings(pairs);
    Solution::min_meeting_rooms(&mut v)
}

/// Independent cross-check: sweep of +1 at each start and -1 at each end,
/// sorted by time with ends processed before starts at equal timestamps.
fn peak_overlap(pairs: &[(usize, usize)]) -> usize {
    let mut events: Vec<(usize, i64)> = Vec::new();
    for &(s, e) in pairs {
        events.push((s, 1));
        events.push((e, -1));
    }
    events.sort_by(|a, b| (a.0, a.1).cmp(&(b.0, b.1)));
    let mut current: i64 = 0;
    let mut best: i64 = 0;
    for (_, delta) in events {
        current += delta;
        if current > best {
            best = current;
        }
    }
    best as usize
}

#[test]
fn test_1() {
    let result = Solution::min_meeting_rooms(&mut TestFixtures::test_fixture_1());
    assert_eq!(result, 2);
}

#[test]
fn test_2() {
    let result = Solution::min_meeting_rooms(&mut TestFixtures::test_fixture_2());
    assert_eq!(result, 1);
}

#[test]
fn empty_input_needs_no_room() {
    assert_eq!(count(&[]), 0);
}

#[test]
fn single_meeting_needs_one_room() {
    assert_eq!(count(&[(3, 9)]), 1);
}

#[test]
fn single_zero_length_meeting_needs_one_room() {
    assert_eq!(count(&[(5, 5)]), 1);
}

#[test]
fn identical_meetings_each_need_a_room() {
    assert_eq!(count(&[(2, 8), (2, 8), (2, 8), (2, 8)]), 4);
}

#[test]
fn touching_chain_shares_one_room() {
    assert_eq!(count(&[(1, 2), (2, 3), (3, 4)]), 1);
}

#[test]
fn all_mutually_overlapping() {
    assert_eq!(count(&[(1, 5), (2, 6), (3, 7)]), 3);
}

#[test]
fn four_staggered_meetings() {
    assert_eq!(count(&[(1, 5), (2, 6), (3, 7), (4, 8)]), 4);
}

#[test]
fn last_meeting_is_not_forgotten() {
    // the final meeting of the sorted order must be processed too
    assert_eq!(count(&[(0, 1), (10, 20), (15, 25)]), 2);
}

#[test]
fn disjoint_meetings_share_one_room() {
    assert_eq!(count(&[(8, 9), (0, 2), (4, 6)]), 1);
}

#[test]
fn result_is_order_independent() {
    let base = [(0, 30), (5, 10), (15, 20)];
    assert_eq!(count(&base), 2);
    assert_eq!(count(&[(5, 10), (0, 30), (15, 20)]), 2);
    assert_eq!(count(&[(15, 20), (5, 10), (0, 30)]), 2);
    assert_eq!(count(&[(15, 20), (0, 30), (5, 10)]), 2);
}

#[test]
fn collection_is_left_sorted_by_start() {
    let mut v = TestFixtures::test_fixture_2();
    let result = Solution::min_meeting_rooms(&mut v);
    assert_eq!(result, 1);
    assert_eq!(v.len(), 2);
    assert_eq!((v[0].start(), v[0].end()), (2, 4));
    assert_eq!((v[1].start(), v[1].end()), (7, 10));
}

#[test]
fn equal_starts_are_sorted_by_end() {
    let mut v = meetings(&[(5, 9), (5, 7), (5, 8)]);
    let result = Solution::min_meeting_rooms(&mut v);
    assert_eq!(result, 3);
    let ends: Vec<usize> = v.iter().map(|m| m.end()).collect();
    assert_eq!(ends, vec![7, 8, 9]);
}

#[test]
fn counter_matches_independent_sweep() {
    let cases: [&[(usize, usize)]; 5] = [
        &[(0, 30), (5, 10), (15, 20)],
        &[(1, 5), (2, 6), (3, 7)],
        &[(1, 2), (2, 3), (3, 4)],
        &[(0, 10), (10, 20), (5, 15), (3, 7), (18, 25), (2, 3)],
        &[(4, 9)],
    ];
    for pairs in cases {
        assert_eq!(count(pairs), peak_overlap(pairs));
    }
}

#[test]
fn zero_length_meeting_inside_another_needs_its_own_room() {
    // (0, 10) runs strictly across the instant 5, so (5, 5) cannot share it
    assert_eq!(count(&[(0, 10), (5, 5)]), 2);
}

#[test]
fn zero_length_meeting_between_touching_meetings_shares_a_room() {
    assert_eq!(count(&[(0, 5), (5, 5), (5, 10)]), 1);
}

#[test]
fn meeting_length_is_end_minus_start() {
    assert_eq!(meeting(3, 9).length(), 6);
    assert_eq!(meeting(4, 4).length(), 0);
}

#[test]
fn meeting_reports_its_times() {
    let m = meeting(7, 10);
    assert_eq!(m.start(), 7);
    assert_eq!(m.end(), 10);
}

#[test]
fn meeting_ending_before_it_starts_is_rejected() {
    let r = Meeting::new(5, 3);
    assert_eq!(r, Err(InvalidInterval { start: 5, end: 3 }));
}

#[test]
fn fixtures_hold_the_expected_meetings() {
    let f1 = TestFixtures::test_fixture_1();
    let times: Vec<(usize, usize)> = f1.iter().map(|m| (m.start(), m.end())).collect();
    assert_eq!(times, vec![(0, 30), (5, 10), (15, 20)]);
    let f2 = TestFixtures::test_fixture_2();
    let times: Vec<(usize, usize)> = f2.iter().map(|m| (m.start(), m.end())).collect();
    assert_eq!(times, vec![(7, 10), (2, 4)]);
}
