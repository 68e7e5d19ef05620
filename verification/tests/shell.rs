use netmonitor::models::SummarySnapshot;
use netmonitor::shell::{click_opens_details, details_window_position, join_strings, menu_action, tray_tooltip, MenuAction};

#[test]
fn tooltip_without_adapters() {
    let s = SummarySnapshot { down_bps: 0, up_bps: 999, sampled_at: 1, adapters: Vec::new() };
    assert_eq!(tray_tooltip(&s), "网速监控\n下载: 0 bps\n上传: 999 bps\n网卡: 暂无可用网卡");
}

#[test]
fn tooltip_with_adapters() {
    let s = SummarySnapshot {
        down_bps: 12_500_000,
        up_bps: 1_250,
        sampled_at: 1,
        adapters: vec!["Ethernet".to_string(), "Wi-Fi".to_string()],
    };
    assert_eq!(tray_tooltip(&s), "网速监控\n下载: 12.5 Mbps\n上传: 1.2 Kbps\n网卡: Ethernet, Wi-Fi");
}

#[test]
fn join_matches_slice_join() {
    let parts = vec!["a".to_string(), String::new(), "c".to_string()];
    assert_eq!(join_strings(&parts, ", "), parts.join(", "));
    assert_eq!(join_strings(&Vec::new(), ", "), "");
    assert_eq!(join_strings(&vec!["only".to_string()], "-"), "only");
}

#[test]
fn menu_entries() {
    assert_eq!(menu_action("open"), MenuAction::OpenDetails);
    assert_eq!(menu_action("retry"), MenuAction::RetryMonitoring);
    assert_eq!(menu_action("stop"), MenuAction::StopMonitoring);
    assert_eq!(menu_action("quit"), MenuAction::Quit);
    assert_eq!(menu_action("Open"), MenuAction::Ignore);
    assert_eq!(menu_action(""), MenuAction::Ignore);
}

#[test]
fn only_left_release_opens_details() {
    assert!(click_opens_details(true, true));
    assert!(!click_opens_details(true, false));
    assert!(!click_opens_details(false, true));
    assert!(!click_opens_details(false, false));
}

#[test]
fn window_goes_to_bottom_right() {
    assert_eq!(details_window_position(0, 0, 1920, 1080, 920, 680), Some((976, 344)));
    assert_eq!(details_window_position(1920, 0, 1920, 1080, 920, 680), Some((2896, 344)));
}

#[test]
fn window_never_goes_below_zero() {
    assert_eq!(details_window_position(0, 0, 800, 600, 920, 680), Some((0, 0)));
    assert_eq!(details_window_position(-1920, 0, 1920, 1080, 920, 680), Some((0, 344)));
}

#[test]
fn window_sizes_read_as_signed() {
    // A width past i32::MAX reads as a negative number, as `as i32` gives it.
    assert_eq!(details_window_position(0, 0, 1920, 1080, u32::MAX, 680), Some((1920 + 1 - 24, 344)));
    assert_eq!(details_window_position(i32::MAX, 0, 10, 1080, 0, 680), None);
}
