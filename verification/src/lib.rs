//! Minimum meeting rooms: given a collection of meetings, each a start and an
//! end time, compute the least number of rooms needed so that no two meetings
//! sharing a room overlap. Meetings touching end to end may share a room.

pub mod fixtures;
pub mod laws;
pub mod meeting;
pub mod rooms;

pub use fixtures::TestFixtures;
pub use meeting::InvalidInterval;
pub use meeting::Meeting;
pub use rooms::Solution;
