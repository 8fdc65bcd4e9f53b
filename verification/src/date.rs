//! Calendar dates as plain values.
//!
//! Events are bucketed by the local calendar date of their start. The engine
//! never does calendar arithmetic on dates; it only uses them as keys, so a
//! date is just its year, month and day. Callers that obtain dates from a
//! time-zone library convert them to this form at the boundary.

use vstd::prelude::*;
use crate::num::{render_dec, spec_dec};

verus! {

/// A calendar date in the local time zone, used as a bucket key.
#[derive(Clone, Copy, Debug, Hash, PartialEq, Eq, Structural)]
pub struct Date {
    pub year: u32,
    pub month: u32,
    pub day: u32,
}

impl View for Date {
    type V = Date;

    open spec fn view(&self) -> Date {
        *self
    }
}

impl DeepView for Date {
    type V = Date;

    open spec fn deep_view(&self) -> Date {
        *self
    }
}

/// A date in the common `year-month-day` digit form, four digits of year
/// and two each of month and day; years beyond four digits lose their
/// upper digits here (display only — the persisted format keeps them).
pub open spec fn spec_date_iso(d: Date) -> Seq<char> {
    spec_dec(d.year as nat, 4) + "-"@ + spec_dec(d.month as nat, 2) + "-"@ + spec_dec(
        d.day as nat,
        2,
    )
}

impl Date {
    pub fn new(year: u32, month: u32, day: u32) -> (r: Date)
        ensures
            r == (Date { year, month, day }),
    {
        Date { year, month, day }
    }

    /// The date written out as `year-month-day`.
    pub fn iso(&self) -> (r: String)
        ensures
            r@ == spec_date_iso(*self),
    {
        let mut out = String::new();
        proof {
            assert(out@ + spec_dec(self.year as nat, 4) =~= spec_dec(self.year as nat, 4));
        }
        render_dec(&mut out, self.year as u64, 4);
        out.append("-");
        render_dec(&mut out, self.month as u64, 2);
        out.append("-");
        render_dec(&mut out, self.day as u64, 2);
        out
    }
}

} // verus!
