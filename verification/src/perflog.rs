//! The lines of the timing log.
use crate::text::{decimal, decimal_string, decimal_wide};
use vstd::prelude::*;

verus! {

/// The variable that names the log file.
pub const ENV_VAR: &'static str = "WIKITUI_PERF_LOG";

/// A line of the log: when it was written, and its fields.
pub fn event_line(t_us: u128, fields: &str) -> (r: String)
    ensures
        r@ == "{\"t_us\":"@ + decimal(t_us as nat) + ","@ + fields@ + "}\n"@,
{
    let mut out = "{\"t_us\":".to_owned();
    out.push_str(decimal_wide(t_us).as_str());
    out.push_str(",");
    out.push_str(fields);
    out.push_str("}\n");
    out
}

/// The fields of a drawn frame.
pub fn frame_fields(draw_us: u128, mode: &str, scroll: u16, frame_index: u64) -> (r: String)
    ensures
        r@ == "\"ev\":\"frame\",\"n\":"@ + decimal(frame_index as nat) + ",\"draw_us\":"@ + decimal(
            draw_us as nat,
        ) + ",\"mode\":\""@ + mode@ + "\",\"scroll\":"@ + decimal(scroll as nat),
{
    let mut out = "\"ev\":\"frame\",\"n\":".to_owned();
    out.push_str(decimal_string(frame_index).as_str());
    out.push_str(",\"draw_us\":");
    out.push_str(decimal_wide(draw_us).as_str());
    out.push_str(",\"mode\":\"");
    out.push_str(mode);
    out.push_str("\",\"scroll\":");
    out.push_str(decimal_string(scroll as u64).as_str());
    out
}

/// The fields of a phase of the start.
pub fn mark_fields(phase: &str) -> (r: String)
    ensures
        r@ == "\"ev\":\"mark\",\"phase\":\""@ + phase@ + "\""@,
{
    let mut out = "\"ev\":\"mark\",\"phase\":\"".to_owned();
    out.push_str(phase);
    out.push_str("\"");
    out
}

/// The fields of a rendered suggestion list.
pub fn typeahead_fields(waited_us: u128, suggestions: usize) -> (r: String)
    ensures
        r@ == "\"ev\":\"typeahead_render\",\"us\":"@ + decimal(waited_us as nat)
            + ",\"suggestions\":"@ + decimal(suggestions as nat),
{
    let mut out = "\"ev\":\"typeahead_render\",\"us\":".to_owned();
    out.push_str(decimal_wide(waited_us).as_str());
    out.push_str(",\"suggestions\":");
    out.push_str(decimal_string(suggestions as u64).as_str());
    out
}

} // verus!
