//! The timezone registry of an installer: the rows of the system's
//! `zone1970.tab`, every timezone it names in sorted order, the timezones of
//! each territory, and the menus from which a timezone is chosen.
use vstd::prelude::*;

pub mod choice;
pub mod order;
pub mod registry;
pub mod table;
pub mod text;

pub use choice::{
    all_timezones_menu, timezone_menu, timezone_pick, TimezonePick, SEE_ALL_TIMEZONES, UTC,
};
pub use registry::{Error, Registry};
pub use table::load_timezones_table;

verus! {

} // verus!
