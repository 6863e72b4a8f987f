//! Calendar objects: dates, time zones and events.

pub mod civil;
pub mod date;
pub mod tz;
pub mod timezone;
pub mod observance;
pub mod tzresolver;
pub mod event;
pub mod ics;

pub use self::date::{CalCompType, CalDate, CalDateTime, CalDateType};
pub use self::event::{CalEvent, CalEventStatus, DateContext, ObjectsError, RangeEdge};
pub use self::timezone::{
    CalMonDayDesc, CalRRule, CalRRuleSide, CalTimeZone, CalTimeZoneObservance, CalWDayDesc,
    Calendar,
};
pub use self::tz::{ResolvedDateTime, Zone};
pub use self::tzresolver::CalendarTimeZoneResolver;
