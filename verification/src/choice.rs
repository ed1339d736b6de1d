//! The choice of a timezone: the menus offered, and what a pick from them
//! means. Showing a menu and reading the pick is the caller's part.
use vstd::prelude::*;

use crate::registry::{str_views, string_views, Registry};

verus! {

/// The menu entry that leads on to the list of all timezones.
pub const SEE_ALL_TIMEZONES: &'static str = "See all timezones";

/// The timezone offered after those of a territory.
pub const UTC: &'static str = "UTC";

/// What a pick from the first menu means.
pub enum TimezonePick {
    /// This timezone was chosen.
    Chosen(String),
    /// The user asked for the list of all timezones.
    SeeAll,
}

/// The first menu for a territory: the entry that leads to all timezones,
/// then the territory's timezones in the table's order, then UTC.
pub fn timezone_menu<'a>(reg: &'a Registry, code2: &str) -> (menu: Vec<&'a str>)
    ensures
        str_views(menu@) == seq![SEE_ALL_TIMEZONES@] + reg.territory_zones(code2@) + seq![UTC@],
{
    let mut menu = reg.timezones_for_territory(code2);
    let ghost zones = str_views(menu@);
    menu.push(UTC);
    menu.insert(0, SEE_ALL_TIMEZONES);
    assert(str_views(menu@) =~= seq![SEE_ALL_TIMEZONES@] + zones + seq![UTC@]);
    menu
}

/// The second menu: every timezone, sorted.
pub fn all_timezones_menu(reg: &Registry) -> (menu: Vec<&str>)
    ensures
        str_views(menu@) == reg.zones(),
{
    let all = reg.all_timezones();
    let mut menu: Vec<&str> = Vec::new();
    let mut i: usize = 0;
    while i < all.len()
        invariant
            i <= all.len(),
            string_views(all@) == reg.zones(),
            str_views(menu@) == string_views(all@).take(i as int),
        decreases all.len() - i,
    {
        let ghost before = menu@;
        menu.push(all[i].as_str());
        assert(str_views(menu@) =~= str_views(before).push(string_views(all@)[i as int]));
        assert(string_views(all@).take(i + 1) =~= string_views(all@).take(i as int).push(
            string_views(all@)[i as int],
        ));
        i += 1;
    }
    assert(string_views(all@).take(all.len() as int) =~= string_views(all@));
    menu
}

/// What picking `choice` from the first menu means: the list of all
/// timezones for its first entry, else the timezone picked.
pub fn timezone_pick(choice: &str) -> (pick: TimezonePick)
    ensures
        choice@ == SEE_ALL_TIMEZONES@ ==> pick is SeeAll,
        choice@ != SEE_ALL_TIMEZONES@ ==> (pick matches TimezonePick::Chosen(tz) && tz@
            == choice@),
{
    let picked: String = choice.to_owned();
    let see_all: String = SEE_ALL_TIMEZONES.to_owned();
    if picked == see_all {
        TimezonePick::SeeAll
    } else {
        TimezonePick::Chosen(picked)
    }
}

} // verus!
