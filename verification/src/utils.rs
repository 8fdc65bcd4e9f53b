//! Small helpers shared by the engine and by rendering code.

use vstd::prelude::*;
use crate::cache::{ColorDefinitionModel, ColorPalette};
use crate::event::Event;

verus! {

/// The English name of a month, for month numbers in `1..=12`.
pub open spec fn spec_month_name(month: u32) -> Seq<char> {
    if month == 1 {
        "January"@
    } else if month == 2 {
        "February"@
    } else if month == 3 {
        "March"@
    } else if month == 4 {
        "April"@
    } else if month == 5 {
        "May"@
    } else if month == 6 {
        "June"@
    } else if month == 7 {
        "July"@
    } else if month == 8 {
        "August"@
    } else if month == 9 {
        "September"@
    } else if month == 10 {
        "October"@
    } else if month == 11 {
        "November"@
    } else {
        "December"@
    }
}

/// Maps a month number in `1..=12` to its English name.
pub fn month_to_str(month: u32) -> (r: &'static str)
    requires
        1 <= month <= 12,
    ensures
        r@ == spec_month_name(month),
{
    match month {
        1 => "January",
        2 => "February",
        3 => "March",
        4 => "April",
        5 => "May",
        6 => "June",
        7 => "July",
        8 => "August",
        9 => "September",
        10 => "October",
        11 => "November",
        _ => "December",
    }
}

/// The fallback colour used when an event names no colour, names one the
/// palette does not define, or names one without a foreground.
pub open spec fn spec_default_color() -> Seq<char> {
    "#FFFFFF"@
}

/// The hex foreground colour an event is drawn with.
pub open spec fn spec_event_color(
    color_id: Option<Seq<char>>,
    palette: Map<Seq<char>, ColorDefinitionModel>,
) -> Seq<char> {
    match color_id {
        None => spec_default_color(),
        Some(cid) => if palette.contains_key(cid) {
            match palette[cid].foreground {
                Some(fg) => fg,
                None => spec_default_color(),
            }
        } else {
            spec_default_color()
        },
    }
}

/// Looks up the foreground colour for `event` in `palette`, falling back
/// to the default wherever the lookup gives out.
pub fn get_event_color(event: &Event, palette: &ColorPalette) -> (r: String)
    requires
        palette.wf(),
    ensures
        r@ == spec_event_color(event@.color_id, palette@),
{
    match &event.color_id {
        None => String::new().concat("#FFFFFF"),
        Some(cid) => match palette.get(cid) {
            None => String::new().concat("#FFFFFF"),
            Some(def) => match &def.foreground {
                Some(fg) => fg.clone(),
                None => String::new().concat("#FFFFFF"),
            },
        },
    }
}

/// Character-wise string equality, with the view equality it decides.
pub fn str_eq(a: &str, b: &str) -> (r: bool)
    ensures
        r == (a@ == b@),
{
    let na = a.unicode_len();
    let nb = b.unicode_len();
    if na != nb {
        return false;
    }
    for i in 0..na
        invariant
            na == a@.len(),
            na == b@.len(),
            forall|k: int| 0 <= k < i ==> a@[k] == b@[k],
    {
        if a.get_char(i) != b.get_char(i) {
            return false;
        }
    }
    proof {
        assert(a@ =~= b@);
    }
    true
}

} // verus!
