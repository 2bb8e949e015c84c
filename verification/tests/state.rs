use sherlock::state::handle_key;
use sherlock::state::kind_name;
use sherlock::state::signal_name;
use sherlock::state::Controls;
use sherlock::state::KeyCode;
use sherlock::state::KeyPress;
use sherlock::state::Snapshot;
use sherlock::state::ViewMode;
use sherlock::state::MAX_SELECT;

fn press(code: KeyCode) -> KeyPress {
    KeyPress {
        code,
        control: false,
    }
}

#[test]
fn views_cycle_and_survive_as_numbers() {
    let mut mode = ViewMode::Live;
    for expected in [ViewMode::Flame, ViewMode::Heatmap, ViewMode::Leaks, ViewMode::Live] {
        mode = mode.next();
        assert_eq!(mode, expected);
        assert_eq!(ViewMode::from_u8(mode.as_u8()), mode);
    }
    assert_eq!(ViewMode::from_u8(200), ViewMode::Live);
}

#[test]
fn keys_switch_what_they_name() {
    let mut c = Controls::new();
    handle_key(press(KeyCode::Char(' ')), &mut c);
    assert!(c.paused);
    handle_key(press(KeyCode::Char('?')), &mut c);
    assert!(c.show_help);
    handle_key(press(KeyCode::Char('h')), &mut c);
    handle_key(press(KeyCode::Char(' ')), &mut c);
    assert_eq!(c, Controls::new());
    for (key, view) in [('4', 3u8), ('3', 2), ('2', 1), ('1', 0)] {
        handle_key(press(KeyCode::Char(key)), &mut c);
        assert_eq!(c.view, view);
    }
    handle_key(press(KeyCode::Tab), &mut c);
    assert_eq!(c.view, 1);
    handle_key(press(KeyCode::Other), &mut c);
    handle_key(press(KeyCode::Char('x')), &mut c);
    assert_eq!(c.view, 1);
}

#[test]
fn quitting_takes_q_or_control_c() {
    let mut c = Controls::new();
    handle_key(press(KeyCode::Char('c')), &mut c);
    assert!(!c.quit);
    handle_key(KeyPress { code: KeyCode::Char('c'), control: true }, &mut c);
    assert!(c.quit);
    let mut c = Controls::new();
    handle_key(press(KeyCode::Char('q')), &mut c);
    assert!(c.quit);
    handle_key(press(KeyCode::Char(' ')), &mut c);
    assert!(c.quit);
}

#[test]
fn the_selection_stays_in_the_list() {
    let mut c = Controls::new();
    handle_key(press(KeyCode::Down), &mut c);
    assert_eq!(c.selected, -1);
    for _ in 0..300 {
        handle_key(press(KeyCode::Up), &mut c);
    }
    assert_eq!(c.selected, MAX_SELECT);
    handle_key(press(KeyCode::Char('j')), &mut c);
    assert_eq!(c.selected, MAX_SELECT - 1);
    handle_key(press(KeyCode::Char('k')), &mut c);
    assert_eq!(c.selected, MAX_SELECT);
    handle_key(press(KeyCode::Esc), &mut c);
    assert_eq!(c.selected, -1);
}

#[test]
fn kinds_and_signals_have_names() {
    let names: Vec<&str> = (0..8).map(kind_name).collect();
    assert_eq!(
        names,
        vec![
            "malloc",
            "free",
            "calloc",
            "realloc",
            "posix_memalign",
            "aligned_alloc",
            "CRASH",
            "?"
        ]
    );
    let signals: Vec<&str> = [4, 6, 7, 8, 11, 9].into_iter().map(signal_name).collect();
    assert_eq!(signals, vec!["SIGILL", "SIGABRT", "SIGBUS", "SIGFPE", "SIGSEGV", "signal"]);
}

#[test]
fn the_first_snapshot_is_empty() {
    let snap = Snapshot::default();
    assert_eq!(snap.status, "connecting");
    assert_eq!(snap.view, ViewMode::Live);
    assert!(snap.recent.is_empty());
    assert!(snap.selected.is_none());
}
