use sherlock::drain::exit_summary;
use sherlock::drain::export_message;
use sherlock::drain::parse_args;
use sherlock::drain::secs_to_ticks;
use sherlock::drain::symbols_note;
use sherlock::drain::Action;
use sherlock::drain::Args;
use sherlock::drain::DrainLoop;
use sherlock::drain::Event;
use sherlock::injection::AllocEvent;
use sherlock::dump::dump_secs;
use sherlock::dump::Dump;
use sherlock::launch::analyzer_args;
use sherlock::launch::analyzer_build_args;
use sherlock::launch::compile_args;
use sherlock::launch::compiler_for;
use sherlock::launch::profiler_build_args;
use sherlock::launch::first_root;
use sherlock::launch::root_candidates;
use sherlock::launch::run_dir_name;
use sherlock::launch::shm_name_for;
use sherlock::launch::target_name;
use sherlock::tracker::Counts;

fn args(list: &[&str]) -> Args {
    parse_args(&list.iter().map(|s| s.to_string()).collect())
}

#[test]
fn an_empty_command_line_asks_for_the_defaults() {
    let a = args(&[]);
    assert_eq!(a.binary, None);
    assert_eq!(a.pid, None);
    assert_eq!(a.shm_name, None);
    assert_eq!(a.offender_depth, 0);
    assert_eq!(a.leak_age_secs, 3);
    assert_eq!(a.export, None);
    assert!(a.unrecognized.is_empty());
}

#[test]
fn flags_take_the_argument_after_them() {
    let a = args(&[
        "--binary", "/b", "--pid", "42", "what", "--offender-depth", "2", "--leak-age", "9",
        "--shm-name", "/s", "--export", "out", "--pid", "43",
    ]);
    assert_eq!(a.binary.as_deref(), Some("/b"));
    assert_eq!(a.pid, Some(43));
    assert_eq!(a.shm_name.as_deref(), Some("/s"));
    assert_eq!(a.offender_depth, 2);
    assert_eq!(a.leak_age_secs, 9);
    assert_eq!(a.export.as_deref(), Some("out"));
    assert_eq!(a.unrecognized, vec!["what"]);
}

#[test]
fn numbers_that_are_none_fall_back() {
    let a = args(&["--pid", "4294967296", "--offender-depth", "x", "--leak-age", "-1"]);
    assert_eq!((a.pid, a.offender_depth, a.leak_age_secs), (None, 0, 3));
    let b = args(&["--leak-age", "7", "--pid", "1", "--leak-age"]);
    assert_eq!((b.pid, b.leak_age_secs), (Some(1), 3));
    let c = args(&["--binary", "--pid"]);
    assert_eq!(c.binary.as_deref(), Some("--pid"));
}

#[test]
fn the_analyzer_understands_the_launcher() {
    let line = analyzer_args("/tmp/t", 77, "/ring", "/tmp/report");
    let a = parse_args(&line);
    assert_eq!(a.binary.as_deref(), Some("/tmp/t"));
    assert_eq!(a.pid, Some(77));
    assert_eq!(a.shm_name.as_deref(), Some("/ring"));
    assert_eq!(a.export.as_deref(), Some("/tmp/report"));
    assert!(a.unrecognized.is_empty());
}

#[test]
fn seconds_become_ticks() {
    assert_eq!(secs_to_ticks(0), 1);
    assert_eq!(secs_to_ticks(1), 4);
    assert_eq!(secs_to_ticks(3), 12);
}

#[test]
fn the_note_tells_why_symbols_are_missing() {
    assert_eq!(symbols_note(true, None), None);
    assert_eq!(
        symbols_note(true, Some("gone".to_string())).unwrap(),
        "symbols unavailable: gone"
    );
    assert_eq!(symbols_note(false, None).unwrap(), "running without symbols (raw addresses)");
}

fn look(now: u64) -> Event {
    Event::Looked {
        quit: false,
        paused: false,
        now,
    }
}

#[test]
fn a_round_of_the_loop() {
    let mut l = DrainLoop::new(1000);
    assert_eq!(l.step(look(1001)), Action::Pop);
    assert_eq!(l.step(Event::Popped { found: true }), Action::Pop);
    assert_eq!(l.step(Event::Popped { found: false }), Action::Check);
    assert_eq!(l.step(Event::Checked { now: 1002 }), Action::Publish);
    assert_eq!(l.step(Event::Published { now: 1003 }), Action::Look);
    assert_eq!(l.step(look(1004)), Action::Pop);
    assert_eq!(l.step(Event::Popped { found: false }), Action::Check);
    assert_eq!(l.step(Event::Checked { now: 1035 }), Action::Rest);
    assert_eq!(l.step(Event::Rested), Action::Look);
    assert_eq!(l.step(look(1250)), Action::Tick);
    assert_eq!(l.step(Event::Ticked { now: 1251 }), Action::Pop);
    assert_eq!(l.last_heat, 1251);
    assert_eq!(
        l.step(Event::Looked { quit: true, paused: false, now: 9999 }),
        Action::Finish
    );
}

#[test]
fn a_paused_loop_takes_no_events() {
    let mut l = DrainLoop::new(0);
    let paused = Event::Looked {
        quit: false,
        paused: true,
        now: 300,
    };
    assert_eq!(l.step(paused), Action::Tick);
    assert_eq!(l.step(Event::Ticked { now: 301 }), Action::Check);
    assert_eq!(l.step(Event::Checked { now: 302 }), Action::Publish);
    assert_eq!(l.step(Event::Published { now: 303 }), Action::Rest);
}

#[test]
fn a_batch_has_an_end() {
    let mut l = DrainLoop::new(0);
    assert_eq!(l.step(look(1)), Action::Pop);
    let mut taken = 0;
    loop {
        taken += 1;
        if l.step(Event::Popped { found: true }) != Action::Pop {
            break;
        }
    }
    assert_eq!(taken, 50_000);
}

#[test]
fn the_session_ends_with_a_summary() {
    assert_eq!(
        export_message("a;b 1\nc 2\n", "/tmp/x"),
        "analyzer: wrote 2 live-allocation stacks to /tmp/x (open with flamegraph.pl or speedscope)"
    );
    assert_eq!(export_message("", "p").split(' ').nth(2), Some("0"));
    assert_eq!(export_message("one", "p").split(' ').nth(2), Some("1"));
    let counts = Counts {
        active_count: 3,
        active_bytes: 0,
        peak_bytes: 99,
        total_allocated: 0,
        alloc_count: 12,
        free_count: 0,
        temporary_count: 0,
        total_events: 0,
    };
    assert_eq!(
        exit_summary(&counts),
        "analyzer: peak live heap 99 B · 12 allocations · 3 still live at exit"
    );
}

fn ev(kind: u8, ptr: usize, old_ptr: usize) -> AllocEvent {
    AllocEvent {
        kind,
        ptr,
        old_ptr,
        ..Default::default()
    }
}

#[test]
fn a_dump_counts_events_and_live_pointers() {
    let mut d = Dump::new();
    assert!(d.can_count());
    for e in [ev(0, 1, 0), ev(2, 2, 0), ev(4, 3, 0), ev(5, 0, 0), ev(1, 1, 0), ev(3, 9, 2), ev(3, 0, 3), ev(77, 5, 0)] {
        assert_eq!(d.count(&e), None);
    }
    assert_eq!(d.exit_code(), 1);
    let crash = AllocEvent {
        kind: 6,
        ptr: 0xDEAD,
        old_ptr: 0x10,
        size: 11,
        frame_count: 4,
        ..Default::default()
    };
    assert_eq!(
        d.count(&crash).unwrap(),
        "CRASH  signal=11 fault_addr=0x10 pc=0xdead frames=4"
    );
    assert_eq!(d.summary(5), "total events: 9, crashes: 1, live pointers: 1, dropped: 5");
    assert_eq!(d.exit_code(), 0);
}

#[test]
fn a_dump_lasts_five_seconds_unless_told_otherwise() {
    assert_eq!(dump_secs(None), 5);
    assert_eq!(dump_secs(Some("30".to_string())), 30);
    assert_eq!(dump_secs(Some("soon".to_string())), 5);
}

#[test]
fn the_launcher_builds_and_runs() {
    assert_eq!(compiler_for(Some("c")), "cc");
    assert_eq!(compiler_for(Some("cpp")), "c++");
    assert_eq!(compiler_for(None), "c++");
    assert_eq!(target_name(Some("leaks")), "leaks");
    assert_eq!(target_name(None), "target");
    assert_eq!(
        compile_args(&vec!["-O2".to_string(), "-lm".to_string()], "/run/t", "t.c"),
        vec!["-g", "-fno-omit-frame-pointer", "-O0", "-O2", "-lm", "-o", "/run/t", "t.c"]
    );
    assert_eq!(profiler_build_args()[6..], ["--features", "profiler-hooks"]);
    assert_eq!(analyzer_build_args(), vec!["build", "-p", "analyzer"]);
    assert_eq!(shm_name_for(12), "/profiler_ring_12");
    assert_eq!(run_dir_name(12), "sherlock-12");
}

#[test]
fn the_sources_are_looked_for_in_order() {
    let list = |names: &[&str]| names.iter().map(|s| s.to_string()).collect::<Vec<_>>();
    assert_eq!(
        root_candidates(
            Some("/asked".to_string()),
            &list(&["/a/b", "/a", "/"]),
            &list(&["/bin"]),
            Some("/built".to_string())
        ),
        list(&["/asked", "/a/b", "/a", "/", "/bin", "/built"])
    );
    assert_eq!(root_candidates(None, &list(&[]), &list(&["/x"]), None), list(&["/x"]));
}

#[test]
fn the_first_root_that_qualifies_is_taken() {
    let places: Vec<String> = ["/a", "/b", "/c"].iter().map(|s| s.to_string()).collect();
    assert_eq!(first_root(&places, &vec![false, true, true]), Some("/b".to_string()));
    assert_eq!(first_root(&places, &vec![true, false, false]), Some("/a".to_string()));
    assert_eq!(first_root(&places, &vec![false, false, false]), None);
    assert_eq!(first_root(&vec![], &vec![]), None);
}
