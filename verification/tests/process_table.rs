use netmonitor::process_table::{image_name_for_process, process_names_from, ProcessBucket, ProcessTable};
use std::collections::HashMap;

fn names(entries: &[(u32, &str)]) -> HashMap<u32, String> {
    entries.iter().map(|(pid, name)| (*pid, name.to_string())).collect()
}

#[test]
fn empty_bucket() {
    let b = ProcessBucket::default();
    assert_eq!((b.down_bytes, b.up_bytes, b.image_name.as_str()), (0, 0, ""));
}

#[test]
fn new_table_knows_only_names() {
    let t = ProcessTable::new(names(&[(1, "a.exe")]));
    assert_eq!(t.names.get(&1).map(String::as_str), Some("a.exe"));
    assert!(t.display_names.is_empty());
    assert!(t.counters.is_empty());
}

#[test]
fn process_start_names_and_end_forgets() {
    let mut t = ProcessTable::new(HashMap::new());
    t.record_process_event(1, 10, Some("app.exe".to_string()));
    assert_eq!(t.names.get(&10).map(String::as_str), Some("app.exe"));
    t.record_process_event(3, 10, Some("C:\\Apps\\app.exe".to_string()));
    assert_eq!(t.names.get(&10).map(String::as_str), Some("C:\\Apps\\app.exe"));
    // A bare name does not replace a known path.
    t.record_process_event(1, 10, Some("app.exe".to_string()));
    assert_eq!(t.names.get(&10).map(String::as_str), Some("C:\\Apps\\app.exe"));
    // An event without a name changes nothing; other kinds are ignored.
    t.record_process_event(1, 10, None);
    t.record_process_event(7, 10, Some("other".to_string()));
    assert_eq!(t.names.get(&10).map(String::as_str), Some("C:\\Apps\\app.exe"));
    t.cache_display_name(10, "App".to_string());
    t.record_process_event(2, 10, None);
    assert!(t.names.get(&10).is_none());
    assert!(t.display_names.get(&10).is_none());
    t.record_process_event(1, 11, Some("b".to_string()));
    t.record_process_event(4, 11, None);
    assert!(t.names.get(&11).is_none());
}

#[test]
fn tcp_events_count_bytes_by_direction() {
    let mut t = ProcessTable::new(names(&[(5, "/usr/bin/curl")]));
    assert!(t.record_tcp_event(10, 5, 100));
    assert!(t.record_tcp_event(11, 5, 40));
    assert!(t.record_tcp_event(11, 5, 2));
    let b = t.counters.get(&5).unwrap();
    assert_eq!((b.down_bytes, b.up_bytes, b.image_name.as_str()), (42, 100, "/usr/bin/curl"));
}

#[test]
fn tcp_events_that_do_not_count() {
    let mut t = ProcessTable::new(HashMap::new());
    assert!(t.record_tcp_event(12, 5, 100));
    assert!(t.record_tcp_event(10, 0, 100));
    assert!(t.counters.is_empty());
    assert!(t.record_tcp_event(10, 6, 1));
    assert_eq!(t.counters.get(&6).unwrap().image_name, "");
}

#[test]
fn tcp_event_past_u64_is_refused() {
    let mut t = ProcessTable::new(HashMap::new());
    t.counters.insert(9, ProcessBucket { down_bytes: u64::MAX - 1, up_bytes: 0, image_name: String::new() });
    assert!(!t.record_tcp_event(11, 9, 2));
    assert_eq!(t.counters.get(&9).unwrap().down_bytes, u64::MAX - 1);
    assert!(t.record_tcp_event(11, 9, 1));
    assert_eq!(t.counters.get(&9).unwrap().down_bytes, u64::MAX);
}

#[test]
fn drain_reports_ranked_and_empties_counters() {
    let mut t = ProcessTable::new(names(&[(1, "/bin/alpha"), (2, "beta.exe")]));
    t.record_tcp_event(11, 1, 100);
    t.record_tcp_event(10, 1, 10);
    t.record_tcp_event(11, 2, 100);
    t.record_tcp_event(10, 2, 20);
    t.record_tcp_event(11, 3, 500);
    t.counters.insert(4, ProcessBucket { down_bytes: 0, up_bytes: 0, image_name: "idle".to_string() });
    let report = t.drain().unwrap();
    let pids: Vec<u32> = report.iter().map(|p| p.pid).collect();
    assert_eq!(pids, vec![3, 2, 1]);
    assert_eq!(report[0].image_name, "pid-3");
    assert_eq!(report[0].display_name, "pid 3");
    assert_eq!((report[0].down_bps, report[0].up_bps), (4000, 0));
    assert_eq!(report[1].image_name, "beta.exe");
    assert_eq!(report[1].display_name, "beta");
    assert_eq!((report[1].down_bps, report[1].up_bps), (800, 160));
    assert_eq!(report[2].display_name, "alpha");
    assert!(t.counters.is_empty());
    assert_eq!(t.display_names.get(&2).map(String::as_str), Some("beta"));
    assert!(t.display_names.get(&4).is_none());
    assert!(t.drain().unwrap().is_empty());
}

#[test]
fn drain_breaks_ties_by_display_name() {
    let mut t = ProcessTable::new(HashMap::new());
    t.cache_display_name(1, "zeta".to_string());
    t.cache_display_name(2, "Alpha".to_string());
    t.cache_display_name(3, "alpha".to_string());
    for pid in 1..=3 {
        t.record_tcp_event(11, pid, 50);
        t.record_tcp_event(10, pid, 5);
    }
    let report = t.drain().unwrap();
    let shown: Vec<&str> = report.iter().map(|p| p.display_name.as_str()).collect();
    assert_eq!(shown, vec!["Alpha", "alpha", "zeta"]);
}

#[test]
fn drain_keeps_cached_display_names() {
    let mut t = ProcessTable::new(names(&[(8, "chrome.exe")]));
    t.cache_display_name(8, "Browser".to_string());
    t.cache_display_name(8, "Other".to_string());
    t.record_tcp_event(11, 8, 1);
    let report = t.drain().unwrap();
    assert_eq!(report[0].display_name, "Browser");
    let mut fresh = ProcessTable::new(names(&[(8, "chrome.exe")]));
    fresh.record_tcp_event(11, 8, 1);
    assert_eq!(fresh.drain().unwrap()[0].display_name, "Google Chrome");
}

#[test]
fn drain_refuses_rates_past_u64() {
    let mut t = ProcessTable::new(HashMap::new());
    t.counters.insert(1, ProcessBucket { down_bytes: u64::MAX / 8 + 1, up_bytes: 0, image_name: String::new() });
    assert!(t.drain().is_none());
    assert_eq!(t.counters.len(), 1);
}

#[test]
fn pending_display_names_lists_active_unnamed() {
    let mut t = ProcessTable::new(names(&[(1, "a.exe")]));
    t.record_tcp_event(11, 1, 1);
    t.record_tcp_event(11, 2, 1);
    t.cache_display_name(2, "Two".to_string());
    t.counters.insert(3, ProcessBucket::default());
    let pending = t.pending_display_names();
    assert_eq!(pending, vec![(1, "a.exe".to_string())]);
}

#[test]
fn image_names_of_processes() {
    assert_eq!(image_name_for_process(Some("C:\\x.exe".to_string()), "x.exe".to_string()), "C:\\x.exe");
    assert_eq!(image_name_for_process(Some(String::new()), "x.exe".to_string()), "x.exe");
    assert_eq!(image_name_for_process(None, "x.exe".to_string()), "x.exe");
    let m = process_names_from(vec![
        (1, Some("/a".to_string()), "a".to_string()),
        (2, None, "b".to_string()),
        (1, None, "again".to_string()),
    ]);
    assert_eq!(m.len(), 2);
    assert_eq!(m.get(&1).map(String::as_str), Some("again"));
    assert_eq!(m.get(&2).map(String::as_str), Some("b"));
}
