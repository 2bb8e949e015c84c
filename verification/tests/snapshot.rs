use sherlock::injection::AllocEvent;
use sherlock::injection::MAX_STACK_DEPTH;
use sherlock::snapshot::build_snapshot;
use sherlock::snapshot::is_alive;
use sherlock::snapshot::selection;
use sherlock::snapshot::target_status;
use sherlock::state::Controls;
use sherlock::state::ViewMode;
use sherlock::tracker::Tracker;

fn ev(kind: u8, ptr: usize, size: usize, site: usize) -> AllocEvent {
    let mut frames = [0usize; MAX_STACK_DEPTH];
    frames[0] = site;
    AllocEvent {
        kind,
        ptr,
        old_ptr: 0,
        size,
        align: 0,
        frames,
        frame_count: 1,
    }
}

fn tracker() -> Tracker {
    let mut t = Tracker::new(0);
    t.apply(ev(0, 0x10, 100, 0xA), &None);
    t.apply(ev(0, 0x20, 50, 0xB), &None);
    t.apply(ev(1, 0x10, 0, 0xA), &None);
    t
}

fn controls(view: ViewMode, selected: isize) -> Controls {
    Controls {
        view: view.as_u8(),
        selected,
        ..Controls::new()
    }
}

#[test]
fn the_status_follows_the_process() {
    assert_eq!(target_status(None, true), "standalone");
    assert_eq!(target_status(Some(4), true), "running");
    assert_eq!(target_status(Some(4), false), "exited");
}

#[test]
fn the_selection_counts_from_the_newest() {
    assert_eq!(selection(ViewMode::Live, -1, 5), None);
    assert_eq!(selection(ViewMode::Live, 2, 5), Some(2));
    assert_eq!(selection(ViewMode::Live, 9, 5), Some(4));
    assert_eq!(selection(ViewMode::Live, 9, 0), None);
    assert_eq!(selection(ViewMode::Leaks, 2, 5), None);
}

#[test]
fn a_live_snapshot_shows_the_selected_stack() {
    let mut t = tracker();
    let note = Some("note".to_string());
    let c = controls(ViewMode::Live, 1);
    let snap = build_snapshot(&mut t, &None, &c, 7, "running", true, &note, 12);
    assert_eq!(snap.status, "running");
    assert_eq!((snap.active_count, snap.active_bytes, snap.peak_bytes), (1, 50, 150));
    assert_eq!((snap.alloc_count, snap.free_count, snap.temporary_count), (2, 1, 1));
    assert_eq!((snap.total_events, snap.dropped, snap.total_allocated), (3, 7, 150));
    assert!(snap.paused);
    assert_eq!(snap.recent.len(), 3);
    assert_eq!(snap.offenders, vec![("0xb".to_string(), 50)]);
    assert_eq!(snap.selected, Some(1));
    let chosen = snap.selected_view.unwrap();
    assert_eq!(chosen.header, "#2 malloc ptr=0x20 size=50");
    assert_eq!(chosen.stack, vec!["0xb"]);
    assert!(snap.flame.is_none() && snap.heatmap.is_none() && snap.leaks.is_none());
    assert_eq!(snap.note, note);
}

#[test]
fn each_view_gets_its_own_data() {
    let mut t = tracker();
    let flame = build_snapshot(&mut t, &None, &controls(ViewMode::Flame, 3), 0, "running", false, &None, 1);
    assert_eq!(flame.flame.unwrap().total, 50);
    assert!(flame.selected.is_none() && flame.selected_view.is_none());
    let heat = build_snapshot(&mut t, &None, &controls(ViewMode::Heatmap, -1), 0, "running", false, &None, 1);
    assert_eq!(heat.heatmap.unwrap().sites, vec!["0xa", "0xb"]);
    let young = build_snapshot(&mut t, &None, &controls(ViewMode::Leaks, -1), 0, "running", false, &None, 1);
    let young = young.leaks.unwrap();
    assert_eq!((young.total_count, young.definite), (0, false));
    let gone = build_snapshot(&mut t, &None, &controls(ViewMode::Leaks, -1), 0, "exited", false, &None, 1);
    let gone = gone.leaks.unwrap();
    assert_eq!((gone.total_count, gone.total_bytes, gone.definite), (1, 50, true));
}

#[test]
fn a_zombie_has_exited() {
    assert!(is_alive("41 (prog) S 1 41 41 0"));
    assert!(is_alive("41 (prog) R 1 41 41 0"));
    assert!(!is_alive("41 (prog) Z 1 41 41 0"));
    assert!(!is_alive("41 (prog) X 1 41 41 0"));
    assert!(is_alive("41 (a) Z b) S 1 41 41 0"));
    assert!(!is_alive("41 (a) S b) Z 1 41 41 0"));
    assert!(is_alive(""));
    assert!(is_alive("41 (prog)"));
    assert_eq!(target_status(Some(41), is_alive("41 (prog) Z 1")), "exited");
}
