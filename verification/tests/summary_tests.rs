use file_monitor::history::EventType;
use file_monitor::summary::get_summary_file_path;
use file_monitor::summary::MonitoredFile;
use file_monitor::summary::ObservedFile;
use file_monitor::summary::Summary;
use file_monitor::MonitorError;

fn observed(subfolder: &str, name: &str, modified_time: i64) -> ObservedFile {
    ObservedFile {
        subfolder: subfolder.to_string(),
        name: name.to_string(),
        modified_time,
    }
}

fn ledger_entry(summary: &Summary, key: &str) -> MonitoredFile {
    for f in summary.files.iter() {
        if f.get_key() == key {
            return f.duplicate();
        }
    }
    panic!("no ledger entry under key {}", key);
}

#[test]
fn bootstrap_scan_registers_without_change() {
    let mut s = Summary::new("Docs");
    let obs = vec![observed("notes", "a.txt", 1_000), observed("notes", "b.txt", 2_000)];
    s.scan_self(&obs, false, 1_001);
    assert_eq!(s.scans.len(), 1);
    assert_eq!(s.scans[0].checked_file_count, 2);
    assert_eq!(s.scans[0].changed_file_count, 0);
    assert_eq!(s.scans[0].time, 1_001);
    assert!(!s.scans[0].is_gen);
    assert_eq!(s.files.len(), 2);
    for f in s.files.iter() {
        assert_eq!(f.time_added, None);
        assert_eq!(f.time_latest_edit, None);
        assert_eq!(f.time_latest_gen, None);
        assert_eq!(f.edit_count, 0);
        assert_eq!(f.gen_count, 0);
    }
}

#[test]
fn edit_after_baseline_is_counted_once() {
    let mut s = Summary::new("Docs");
    s.scan_self(&vec![observed("notes", "a.txt", 1_000)], false, 1_001);
    // the file is edited at 1_005, the next scan runs at 1_010
    s.scan_self(&vec![observed("notes", "a.txt", 1_005)], false, 1_010);
    assert_eq!(s.scans.len(), 2);
    assert_eq!(s.scans[1].checked_file_count, 1);
    assert_eq!(s.scans[1].changed_file_count, 1);
    let f = ledger_entry(&s, "notes/a.txt");
    assert_eq!(f.time_latest_edit, Some(1_005));
    assert_eq!(f.edit_count, 1);
    assert_eq!(f.gen_count, 0);
    assert_eq!(f.time_added, None);
}

#[test]
fn unchanged_file_is_not_counted() {
    let mut s = Summary::new("Docs");
    s.scan_self(&vec![observed("notes", "a.txt", 1_000)], false, 1_001);
    // modification time not after the baseline: no change
    s.scan_self(&vec![observed("notes", "a.txt", 1_000)], false, 1_010);
    assert_eq!(s.scans[1].checked_file_count, 1);
    assert_eq!(s.scans[1].changed_file_count, 0);
    let f = ledger_entry(&s, "notes/a.txt");
    assert_eq!(f.edit_count, 0);
    assert_eq!(f.time_latest_edit, None);
}

#[test]
fn edit_and_gen_tracking_are_independent() {
    let mut s = Summary::new("Docs");
    s.scan_self(&vec![observed("notes", "a.txt", 1_000)], false, 1_001);
    s.scan_self(&vec![observed("notes", "a.txt", 1_005)], false, 1_010);
    s.scan_self(&vec![observed("notes", "a.txt", 1_015)], true, 1_020);
    let f = ledger_entry(&s, "notes/a.txt");
    assert_eq!(f.time_latest_edit, Some(1_005));
    assert_eq!(f.time_latest_gen, Some(1_015));
    assert_eq!(f.edit_count, 1);
    assert_eq!(f.gen_count, 1);
}

#[test]
fn file_appearing_after_baseline_gets_time_added() {
    let mut s = Summary::new("Docs");
    s.scan_self(&vec![observed("notes", "a.txt", 1_000)], false, 1_001);
    s.scan_self(
        &vec![observed("notes", "a.txt", 900), observed("notes", "new.txt", 1_500)],
        false,
        1_600,
    );
    assert_eq!(s.scans[1].checked_file_count, 2);
    assert_eq!(s.scans[1].changed_file_count, 1);
    let f = ledger_entry(&s, "notes/new.txt");
    assert_eq!(f.time_added, Some(1_500));
    assert_eq!(f.edit_count, 0);
    assert_eq!(f.gen_count, 0);
}

#[test]
fn added_time_wins_over_later_edit() {
    let mut s = Summary::new("Docs");
    s.scan_self(&vec![], false, 100);
    // appears after the baseline, then is edited later
    s.scan_self(&vec![observed("notes", "a.txt", 150)], false, 200);
    s.scan_self(&vec![observed("notes", "a.txt", 250)], false, 300);
    let f = ledger_entry(&s, "notes/a.txt");
    assert_eq!(f.time_added, Some(150));
    assert_eq!(f.time_latest_edit, Some(250));
    assert_eq!(f.get_time_latest(), Some((150, EventType::Add)));
}

#[test]
fn latest_event_picks_the_later_side() {
    let mut f = MonitoredFile::new("notes", "a.txt");
    assert_eq!(f.get_time_latest(), None);
    f.time_latest_gen = Some(50);
    assert_eq!(f.get_time_latest(), Some((50, EventType::Gen)));
    f.time_latest_edit = Some(60);
    assert_eq!(f.get_time_latest(), Some((60, EventType::Edit)));
    f.time_latest_gen = Some(70);
    assert_eq!(f.get_time_latest(), Some((70, EventType::Gen)));
    // an exact tie reports the edit
    f.time_latest_gen = Some(60);
    assert_eq!(f.get_time_latest(), Some((60, EventType::Edit)));
}

#[test]
fn make_key_joins_subfolder_and_name() {
    assert_eq!(MonitoredFile::make_key("tools", "nav.txt"), "tools/nav.txt");
    assert_eq!(MonitoredFile::make_key("", "x"), "/x");
    let f = MonitoredFile::new("tools/nav", "page.txt");
    assert_eq!(f.get_key(), "tools/nav/page.txt");
}

#[test]
fn recent_activity_filters_by_window_and_sorts_by_key() {
    let now: i64 = 1_000_000;
    let minute: i64 = 60;
    let mut s = Summary::new("Docs");
    s.scan_self(&vec![], false, 1);
    // events at 5, 30 and 200 minutes before `now`; names chosen out of order
    s.scan_self(&vec![observed("notes", "young.txt", now - 5 * minute)], false, now - 4 * minute);
    s.scan_self(
        &vec![observed("notes", "ancient.txt", now - 200 * minute)],
        false,
        now - 199 * minute,
    );
    s.scan_self(&vec![observed("notes", "middle.txt", now - 30 * minute)], false, now - 29 * minute);
    let report = s.recent_activity(now, 120);
    assert_eq!(report.len(), 2);
    assert_eq!(report[0].key, "notes/middle.txt");
    assert_eq!(report[0].time, now - 30 * minute);
    assert_eq!(report[0].label, EventType::Add);
    assert_eq!(report[1].key, "notes/young.txt");
    assert_eq!(report[1].time, now - 5 * minute);
}

#[test]
fn recent_activity_includes_the_cutoff_boundary() {
    let now: i64 = 10_000;
    let mut s = Summary::new("Docs");
    s.scan_self(&vec![], false, 1);
    // exactly at the cutoff: now - 120 minutes
    s.scan_self(&vec![observed("n", "edge.txt", now - 7_200)], false, now - 7_000);
    let report = s.recent_activity(now, 120);
    assert_eq!(report.len(), 1);
    assert_eq!(report[0].key, "n/edge.txt");
    let report = s.recent_activity(now + 1, 120);
    assert_eq!(report.len(), 0);
}

#[test]
fn duplicate_then_validate_returns_the_same_summary() {
    let mut s = Summary::new("Docs");
    s.scan_self(&vec![observed("notes", "a.txt", 1_000)], false, 1_001);
    s.scan_self(&vec![observed("notes", "a.txt", 1_005)], true, 1_010);
    let copy = s.duplicate();
    assert_eq!(copy, s);
    match copy.into_validated("Docs") {
        Ok(back) => assert_eq!(back, s),
        Err(_) => panic!("an unmodified summary must validate"),
    }
}

#[test]
fn validation_rejects_a_foreign_identity() {
    let s = Summary::new("Docs");
    assert_eq!(s.into_validated("Other"), Err(MonitorError::CorruptState));
}

#[test]
fn validation_rejects_duplicate_ledger_keys() {
    let mut s = Summary::new("Docs");
    s.files.push(MonitoredFile::new("notes", "a.txt"));
    s.files.push(MonitoredFile::new("notes", "a.txt"));
    assert_eq!(s.into_validated("Docs"), Err(MonitorError::CorruptState));
}

#[test]
fn counter_headroom_is_decided() {
    let mut s = Summary::new("Docs");
    assert!(s.check_counter_headroom(10));
    let mut f = MonitoredFile::new("n", "a");
    f.edit_count = usize::MAX - 1;
    s.files.push(f);
    assert!(s.check_counter_headroom(1));
    assert!(!s.check_counter_headroom(2));
}

#[test]
fn summary_file_path_sits_in_the_history_folder() {
    let project = file_monitor::model::Project::new(
        "Docs",
        "/data/docs",
        "/history/Docs",
        vec!["notes".to_string()],
        300,
    );
    assert_eq!(get_summary_file_path(&project), "/history/Docs/summary.json");
}

#[test]
fn gen_pass_counts_on_the_gen_side() {
    let mut s = Summary::new("Docs");
    s.scan_self(&vec![observed("notes", "a.txt", 1_000)], false, 1_001);
    s.scan_self(&vec![observed("notes", "a.txt", 1_005)], true, 1_010);
    assert!(s.scans[1].is_gen);
    assert_eq!(s.scans[1].changed_file_count, 1);
    let f = ledger_entry(&s, "notes/a.txt");
    assert_eq!(f.time_latest_gen, Some(1_005));
    assert_eq!(f.gen_count, 1);
    assert_eq!(f.edit_count, 0);
    assert_eq!(f.time_latest_edit, None);
}

#[test]
fn each_changed_file_counts_once_per_scan() {
    let mut s = Summary::new("Docs");
    s.scan_self(
        &vec![observed("notes", "a.txt", 1_000), observed("notes", "b.txt", 1_000)],
        false,
        1_001,
    );
    s.scan_self(
        &vec![observed("notes", "a.txt", 1_005), observed("notes", "b.txt", 1_006)],
        false,
        1_010,
    );
    assert_eq!(s.scans[1].checked_file_count, 2);
    assert_eq!(s.scans[1].changed_file_count, 2);
    assert_eq!(ledger_entry(&s, "notes/a.txt").edit_count, 1);
    assert_eq!(ledger_entry(&s, "notes/b.txt").edit_count, 1);
}

#[test]
fn recent_activity_of_an_untouched_project_is_empty() {
    let s = Summary::new("Docs");
    assert_eq!(s.recent_activity(1_000_000, 120).len(), 0);
}

#[test]
fn recent_activity_orders_across_subfolders() {
    let now: i64 = 100_000;
    let mut s = Summary::new("Docs");
    s.scan_self(&vec![], false, 1);
    s.scan_self(
        &vec![
            observed("tools/nav", "menu.txt", now - 60),
            observed("a", "z.txt", now - 60),
            observed("tools", "alpha.txt", now - 60),
        ],
        false,
        now - 30,
    );
    let report = s.recent_activity(now, 120);
    let keys: Vec<&str> = report.iter().map(|e| e.key.as_str()).collect();
    assert_eq!(keys, vec!["a/z.txt", "tools/alpha.txt", "tools/nav/menu.txt"]);
}
