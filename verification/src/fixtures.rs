//! Ready-made meeting collections for trying out the counter.

use crate::meeting::Meeting;
use vstd::prelude::*;

verus! {

/// Carrier for the ready-made collections.
pub struct TestFixtures {}

/// Builds a meeting whose times are known to be in order.
fn fixture_meeting(start: usize, end: usize) -> (m: Meeting)
    requires
        start <= end,
    ensures
        m.spec_start() == start,
        m.spec_end() == end,
{
    match Meeting::new(start, end) {
        Ok(m) => m,
        Err(_) => vstd::pervasive::unreached(),
    }
}

impl TestFixtures {
    /// Three meetings of which the later two fit around the first: two rooms.
    pub fn test_fixture_1() -> (v: Vec<Meeting>)
        ensures
            v@.len() == 3,
            v@[0].spec_start() == 0 && v@[0].spec_end() == 30,
            v@[1].spec_start() == 5 && v@[1].spec_end() == 10,
            v@[2].spec_start() == 15 && v@[2].spec_end() == 20,
    {
        let mut v: Vec<Meeting> = Vec::new();
        v.push(fixture_meeting(0, 30));
        v.push(fixture_meeting(5, 10));
        v.push(fixture_meeting(15, 20));
        v
    }

    /// Two meetings that never overlap: one room.
    pub fn test_fixture_2() -> (v: Vec<Meeting>)
        ensures
            v@.len() == 2,
            v@[0].spec_start() == 7 && v@[0].spec_end() == 10,
            v@[1].spec_start() == 2 && v@[1].spec_end() == 4,
    {
        let mut v: Vec<Meeting> = Vec::new();
        v.push(fixture_meeting(7, 10));
        v.push(fixture_meeting(2, 4));
        v
    }
}

} // verus!
