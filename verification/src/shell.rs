//! Decisions of the tray and the details window: the tooltip text, what a
//! menu entry or a click does, and where the window opens.
use crate::models::SummarySnapshot;
use crate::speed::{format_speed, speed_label};
use vstd::prelude::*;

verus! {

/// The texts joined with `separator` between each two.
pub open spec fn joined(parts: Seq<Seq<char>>, separator: Seq<char>) -> Seq<char>
    decreases parts.len(),
{
    if parts.len() == 0 {
        Seq::empty()
    } else if parts.len() == 1 {
        parts[0]
    } else {
        joined(parts.drop_last(), separator) + separator + parts.last()
    }
}

/// The adapters line of the tooltip: their names joined by commas, or a note
/// that there is none.
pub open spec fn adapters_text(adapters: Seq<Seq<char>>) -> Seq<char> {
    if adapters.len() == 0 {
        "暂无可用网卡"@
    } else {
        joined(adapters, ", "@)
    }
}

/// The tray tooltip: title, download rate, upload rate and adapters, one per line.
pub open spec fn tooltip_text(down_bps: nat, up_bps: nat, adapters: Seq<Seq<char>>) -> Seq<char> {
    "网速监控\n下载: "@ + speed_label(down_bps) + "\n上传: "@ + speed_label(up_bps) + "\n网卡: "@
        + adapters_text(adapters)
}

/// Joins texts with a separator, as `join` does on a slice of strings.
pub fn join_strings(parts: &Vec<String>, separator: &str) -> (r: String)
    ensures
        r@ == joined(parts@.map_values(|s: String| s@), separator@),
{
    let ghost view = parts@.map_values(|s: String| s@);
    let mut r = String::new();
    let mut i: usize = 0;
    while i < parts.len()
        invariant
            view == parts@.map_values(|s: String| s@),
            i <= parts@.len(),
            r@ == joined(view.take(i as int), separator@),
        decreases parts@.len() - i,
    {
        if i > 0 {
            r.append(separator);
        }
        r.append(parts[i].as_str());
        proof {
            assert(view.take(i + 1).drop_last() =~= view.take(i as int));
            assert(view.take(i + 1).last() == parts@[i as int]@);
            if i == 0 {
                assert(view.take(1).len() == 1);
            }
        }
        i = i + 1;
    }
    proof {
        assert(view.take(i as int) =~= view);
    }
    r
}

/// The tooltip for a summary of the network rates.
pub fn tray_tooltip(summary: &SummarySnapshot) -> (r: String)
    ensures
        r@ == tooltip_text(
            summary.down_bps as nat,
            summary.up_bps as nat,
            summary.adapters@.map_values(|s: String| s@),
        ),
{
    let mut r = String::from_str("网速监控\n下载: ");
    let down = format_speed(summary.down_bps);
    r.append(down.as_str());
    r.append("\n上传: ");
    let up = format_speed(summary.up_bps);
    r.append(up.as_str());
    r.append("\n网卡: ");
    if summary.adapters.len() == 0 {
        r.append("暂无可用网卡");
    } else {
        let adapters = join_strings(&summary.adapters, ", ");
        r.append(adapters.as_str());
    }
    r
}

/// What a tray menu entry does.
#[derive(Debug, Clone, Copy, PartialEq, Eq, Structural)]
pub enum MenuAction {
    /// Show the details window and ask for per-process monitoring.
    OpenDetails,
    /// Ask for per-process monitoring again.
    RetryMonitoring,
    /// Stop per-process monitoring.
    StopMonitoring,
    /// Quit the program.
    Quit,
    /// Not an entry of this menu.
    Ignore,
}

/// The action of the menu entry with this id.
pub fn menu_action(id: &str) -> (r: MenuAction)
    ensures
        r == if id@ == "open"@ {
            MenuAction::OpenDetails
        } else if id@ == "retry"@ {
            MenuAction::RetryMonitoring
        } else if id@ == "stop"@ {
            MenuAction::StopMonitoring
        } else if id@ == "quit"@ {
            MenuAction::Quit
        } else {
            MenuAction::Ignore
        },
{
    let id = String::from_str(id);
    if id == String::from_str("open") {
        MenuAction::OpenDetails
    } else if id == String::from_str("retry") {
        MenuAction::RetryMonitoring
    } else if id == String::from_str("stop") {
        MenuAction::StopMonitoring
    } else if id == String::from_str("quit") {
        MenuAction::Quit
    } else {
        MenuAction::Ignore
    }
}

/// Whether a click on the tray icon opens the details: only the release of
/// the left button does.
pub fn click_opens_details(left_button: bool, released: bool) -> (r: bool)
    ensures
        r == (left_button && released),
{
    left_button && released
}

/// Where the details window goes: its bottom-right corner 24 pixels left of
/// and 56 pixels above the monitor's, sizes read as `i32` the way `as` reads
/// them, and no coordinate below zero. `None` where a step of the sum leaves
/// `i32`.
pub open spec fn window_origin(origin: int, monitor_extent: u32, extent: u32, margin: int) -> Option<i32> {
    let a = origin + (monitor_extent as i32);
    let b = a - (extent as i32);
    let c = b - margin;
    if a < i32::MIN || a > i32::MAX || b < i32::MIN || b > i32::MAX || c < i32::MIN || c > i32::MAX {
        None
    } else if c < 0 {
        Some(0i32)
    } else {
        Some(c as i32)
    }
}

fn place(origin: i32, monitor_extent: u32, extent: u32, margin: i32) -> (r: Option<i32>)
    requires
        0 <= margin <= 100,
    ensures
        r == window_origin(origin as int, monitor_extent, extent, margin as int),
{
    let a = origin as i64 + (monitor_extent as i32) as i64;
    if a < i32::MIN as i64 || a > i32::MAX as i64 {
        return None;
    }
    let b = a - (extent as i32) as i64;
    if b < i32::MIN as i64 || b > i32::MAX as i64 {
        return None;
    }
    let c = b - margin as i64;
    if c < i32::MIN as i64 || c > i32::MAX as i64 {
        return None;
    }
    if c < 0 {
        Some(0)
    } else {
        Some(c as i32)
    }
}

/// The position of the details window on a monitor with this origin and
/// size, for a window of this size.
pub fn details_window_position(
    monitor_x: i32,
    monitor_y: i32,
    monitor_width: u32,
    monitor_height: u32,
    width: u32,
    height: u32,
) -> (r: Option<(i32, i32)>)
    ensures
        r == match (
            window_origin(monitor_x as int, monitor_width, width, 24),
            window_origin(monitor_y as int, monitor_height, height, 56),
        ) {
            (Some(x), Some(y)) => Some((x, y)),
            _ => None,
        },
{
    let x = place(monitor_x, monitor_width, width, 24);
    let y = place(monitor_y, monitor_height, height, 56);
    match (x, y) {
        (Some(x), Some(y)) => Some((x, y)),
        _ => None,
    }
}

} // verus!
