//! Rows prepared for the history views: each stored day labelled for a
//! bar chart, either with its full `day-month-year` text or with its
//! two-digit day of month.

use vstd::prelude::*;
use crate::date::Date;
use crate::store::{InputLine, dmy_text};
use crate::text::{dec_u64, pad2_of, pad2_u64};

verus! {

/// Which screen the interface shows.
#[derive(Clone, Copy, PartialEq, Eq, Structural, Debug)]
pub enum Window {
    Main,
}

/// Which span of history the display covers.
#[derive(Clone, Copy, PartialEq, Eq, Structural, Debug)]
pub enum TimeFrame {
    Past30,
}

/// Rows ready to draw: one label and one value per day.
#[derive(Debug)]
pub struct DisplayData {
    pub time_frame: TimeFrame,
    pub data: Vec<(String, u64)>,
}

/// A date as `day-month-year`, the label of the terminal chart.
pub fn date_label(d: Date) -> (r: String)
    requires
        d.representable(),
    ensures
        r@ == dmy_text(d),
{
    proof {
        reveal_strlit("-");
    }
    let mut out = dec_u64(d.day as u64);
    out.append("-");
    let m = dec_u64(d.month as u64);
    out.append(m.as_str());
    out.append("-");
    let y = dec_u64(d.year as u64);
    out.append(y.as_str());
    proof {
        assert(out@ =~= dmy_text(d));
    }
    out
}

/// A date's day of month, zero-padded to two digits; the label of the
/// tray chart.
pub fn day_label(d: Date) -> (r: String)
    ensures
        r@ == pad2_of(d.day as int),
{
    pad2_u64(d.day as u64)
}

impl DisplayData {
    /// Pairs every row with its `day-month-year` label.
    pub fn build(time_frame: TimeFrame, input_lines: &Vec<InputLine>) -> (r: DisplayData)
        requires
            forall|i: int|
                0 <= i < input_lines@.len() ==> (#[trigger] input_lines@[i]).date.representable(),
        ensures
            r.time_frame == time_frame,
            r.data@.len() == input_lines@.len(),
            forall|i: int|
                0 <= i < input_lines@.len() ==> (#[trigger] r.data@[i]).1 == input_lines@[i].blocks
                    && r.data@[i].0@ == dmy_text(input_lines@[i].date),
    {
        let mut data: Vec<(String, u64)> = Vec::new();
        let mut i: usize = 0;
        while i < input_lines.len()
            invariant
                i <= input_lines@.len(),
                forall|k: int|
                    0 <= k < input_lines@.len() ==> (#[trigger] input_lines@[k])
                        .date.representable(),
                data@.len() == i,
                forall|k: int|
                    0 <= k < i ==> (#[trigger] data@[k]).1 == input_lines@[k].blocks
                        && data@[k].0@ == dmy_text(input_lines@[k].date),
            decreases input_lines@.len() - i,
        {
            let il = input_lines[i];
            data.push((date_label(il.date), il.blocks));
            i = i + 1;
        }
        DisplayData { time_frame, data }
    }
}

/// Pairs every row with its two-digit day label, the form the history
/// chart of the tray asks for.
pub fn chart_data(input_lines: &Vec<InputLine>) -> (r: Vec<(String, u64)>)
    ensures
        r@.len() == input_lines@.len(),
        forall|i: int|
            0 <= i < input_lines@.len() ==> (#[trigger] r@[i]).1 == input_lines@[i].blocks
                && r@[i].0@ == pad2_of(input_lines@[i].date.day as int),
{
    let mut r: Vec<(String, u64)> = Vec::new();
    let mut i: usize = 0;
    while i < input_lines.len()
        invariant
            i <= input_lines@.len(),
            r@.len() == i,
            forall|k: int|
                0 <= k < i ==> (#[trigger] r@[k]).1 == input_lines@[k].blocks && r@[k].0@ == pad2_of(
                    input_lines@[k].date.day as int,
                ),
        decreases input_lines@.len() - i,
    {
        let il = input_lines[i];
        r.push((day_label(il.date), il.blocks));
        i = i + 1;
    }
    r
}

} // verus!
