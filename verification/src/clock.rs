use crate::calendar::{is_calendar_date, Date, DateSpec, Time, TimeSpec, Timestamp, TimestampSpec};
use vstd::prelude::*;

verus! {

/// Something that tells the present moment.
pub trait TimeFactory {
    fn now(&self) -> Timestamp;
}

/// A clock that stands still.
#[derive(Debug, Clone, Copy)]
pub struct FrozenTimeFactory {
    time: Timestamp,
}

impl View for FrozenTimeFactory {
    type V = TimestampSpec;

    closed spec fn view(&self) -> TimestampSpec {
        self.time@
    }
}

impl FrozenTimeFactory {
    /// A clock that stands at minute `i` of hour `h` of the given day,
    /// which must exist.
    pub fn new(y: i32, m: u32, d: u32, h: u32, i: u32) -> (factory: FrozenTimeFactory)
        requires
            is_calendar_date(y as int, m as int, d as int),
            h < 24,
            i < 60,
        ensures
            factory@ == (TimestampSpec {
                date: DateSpec { year: y as int, month: m as int, day: d as int },
                time: TimeSpec { hour: h as int, minute: i as int },
            }),
    {
        FrozenTimeFactory { time: Timestamp::new(Date::from_ymd(y, m, d), Time::from_hm(h, i)) }
    }
}

impl TimeFactory for FrozenTimeFactory {
    fn now(&self) -> (now: Timestamp)
        ensures
            now@ == self@,
    {
        self.time
    }
}

} // verus!
