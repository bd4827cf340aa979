//! The `Meeting` record: one booking with a start and an end time.

use vstd::prelude::*;

verus! {

/// One booking. The times are non-negative integers, and `end >= start`
/// always holds; zero-length meetings are allowed.
#[derive(Debug, PartialEq, Eq, Structural, Clone, Copy)]
pub struct Meeting {
    start: usize,
    end: usize,
}

/// Returned when a meeting would end before it starts.
#[derive(Debug, PartialEq, Eq, Structural, Clone, Copy)]
pub struct InvalidInterval {
    pub start: usize,
    pub end: usize,
}

impl Meeting {
    /// The start time, as a mathematical integer.
    pub closed spec fn spec_start(self) -> int {
        self.start as int
    }

    /// The end time, as a mathematical integer.
    pub closed spec fn spec_end(self) -> int {
        self.end as int
    }

    #[verifier::type_invariant]
    spec fn wf(self) -> bool {
        self.start <= self.end
    }

    /// Builds a meeting, rejecting one that would end before it starts.
    pub fn new(start: usize, end: usize) -> (r: Result<Meeting, InvalidInterval>)
        ensures
            r is Ok <==> start <= end,
            r matches Ok(m) ==> m.spec_start() == start && m.spec_end() == end,
            r matches Err(e) ==> e == (InvalidInterval { start, end }),
    {
        if start <= end {
            Ok(Meeting { start, end })
        } else {
            Err(InvalidInterval { start, end })
        }
    }

    /// The start time.
    pub fn start(&self) -> (r: usize)
        ensures
            r == self.spec_start(),
            self.spec_start() <= self.spec_end(),
    {
        proof {
            use_type_invariant(self);
        }
        self.start
    }

    /// The end time.
    pub fn end(&self) -> (r: usize)
        ensures
            r == self.spec_end(),
            self.spec_start() <= self.spec_end(),
    {
        proof {
            use_type_invariant(self);
        }
        self.end
    }

    /// How long the meeting lasts.
    pub fn length(&self) -> (r: usize)
        ensures
            r == self.spec_end() - self.spec_start(),
    {
        proof {
            use_type_invariant(self);
        }
        self.end - self.start
    }
}

/// A meeting is nothing but its two times: equal times give equal meetings.
pub proof fn lemma_meeting_determined_by_times(a: Meeting, b: Meeting)
    requires
        a.spec_start() == b.spec_start(),
        a.spec_end() == b.spec_end(),
    ensures
        a == b,
{
}

} // verus!
