use vstd::prelude::*;

pub mod eframe_tools;
pub mod err_tools;
pub mod files;
pub mod live_watch;
pub mod windows;
pub mod string_tools;

use crate::string_tools::{dec_seq, number_string};

verus! {

/// The rendering "H:M -- S" of a clock reading.
pub open spec fn time_text(h: u32, m: u32, s: u32) -> Seq<char> {
    dec_seq(h as nat) + ":"@ + dec_seq(m as nat) + " -- "@ + dec_seq(s as nat)
}

/// Relies on chrono::Utc::now and chrono::Timelike::{hour, minute, second}:
/// the reading is whatever the clock says, with the hour below 24 and the
/// minute and second below 60.
#[verifier::external_body]
fn clock_hms() -> (r: (u32, u32, u32))
    ensures
        r.0 < 24 && r.1 < 60 && r.2 < 60,
{
    let t = chrono::Utc::now();
    (chrono::Timelike::hour(&t), chrono::Timelike::minute(&t), chrono::Timelike::second(&t))
}

/// Renders one clock reading the way the log timestamps it.
pub fn format_time(h: u32, m: u32, s: u32) -> (r: String)
    ensures
        r@ == time_text(h, m, s),
{
    let mut r = number_string(h);
    r.append(":");
    let ms = number_string(m);
    r.append(ms.as_str());
    r.append(" -- ");
    let ss = number_string(s);
    r.append(ss.as_str());
    proof {
        assert(r@ =~= time_text(h, m, s));
    }
    r
}

/// The current time of day, rendered as the log timestamps it.
pub fn time_of_day() -> (r: String)
    ensures
        exists|h: u32, m: u32, s: u32|
            h < 24 && m < 60 && s < 60 && r@ == #[trigger] time_text(h, m, s),
{
    let (h, m, s) = clock_hms();
    let r = format_time(h, m, s);
    proof {
        assert(h < 24 && m < 60 && s < 60 && r@ == time_text(h, m, s));
    }
    r
}

} // verus!
