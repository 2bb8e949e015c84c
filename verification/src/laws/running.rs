//! How the programs behave: the keys, the snapshots, the draining loop, the command lines.

use crate::drain::asked_from;
use crate::drain::drain_step;
use crate::drain::line_count;
use crate::drain::note_text;
use crate::drain::ticks_in;
use crate::drain::Action;
use crate::drain::Asked;
use crate::drain::DrainLoop;
use crate::drain::Event;
use crate::dump::crash_line;
use crate::dump::live_after;
use crate::injection::AllocEvent;
use crate::launch::ring_name;
use crate::laws::numerals::law_numbers_are_written;
use crate::ledger::applied;
use crate::ledger::live_bytes;
use crate::ledger::stack_labels;
use crate::ledger::Ledger;
use crate::ledger::Names;
use crate::snapshot::last_place;
use crate::snapshot::shows_ledger;
use crate::snapshot::state_letter;
use crate::snapshot::status_text;
use crate::state::after_key;
use crate::state::signal_text;
use crate::state::Controls;
use crate::state::KeyCode;
use crate::state::KeyPress;
use crate::state::Snapshot;
use crate::state::ViewMode;
use crate::symbols::texts;
use crate::text::decimal;
use crate::text::hex;
use crate::text::number;
use crate::tracker::fault_of;
use crate::tracker::shown;
use crate::views::is_flame_view;
use crate::views::is_heat_view;
use crate::views::is_leak_view;
use crate::views::is_offender_list;
use vstd::prelude::*;

verus! {

/// The view that comes after another.
pub open spec fn view_after(view: ViewMode) -> ViewMode {
    match view {
        ViewMode::Live => ViewMode::Flame,
        ViewMode::Flame => ViewMode::Heatmap,
        ViewMode::Heatmap => ViewMode::Leaks,
        ViewMode::Leaks => ViewMode::Live,
    }
}

/// What each key does, and that no key does anything else.
pub proof fn law_keys_do_what_they_say(key: KeyPress, controls: Controls)
    requires
        -1 <= controls.selected <= 199,
    ensures
        ({
            let next = after_key(key, controls);
            let up = key.code == KeyCode::Up || key.code == KeyCode::Char('k');
            let down = key.code == KeyCode::Down || key.code == KeyCode::Char('j');
            &&& next.quit <==> controls.quit || key.code == KeyCode::Char('q') || (key.code
                == KeyCode::Char('c') && key.control)
            &&& next.paused != controls.paused <==> key.code == KeyCode::Char(' ')
            &&& next.show_help != controls.show_help <==> key.code == KeyCode::Char('?')
                || key.code == KeyCode::Char('h')
            &&& next.selected == if up && controls.selected < 199 {
                controls.selected + 1
            } else if down && controls.selected > -1 {
                controls.selected - 1
            } else if key.code == KeyCode::Esc {
                -1
            } else {
                controls.selected as int
            }
            &&& ViewMode::from_u8(next.view) == if key.code == KeyCode::Char('1') {
                ViewMode::Live
            } else if key.code == KeyCode::Char('2') {
                ViewMode::Flame
            } else if key.code == KeyCode::Char('3') {
                ViewMode::Heatmap
            } else if key.code == KeyCode::Char('4') {
                ViewMode::Leaks
            } else if key.code == KeyCode::Tab {
                view_after(ViewMode::from_u8(controls.view))
            } else {
                ViewMode::from_u8(controls.view)
            }
        }),
{
}

/// A snapshot shows the ledger as it is: its counters, its recent events and its crash; the 20
/// heaviest call sites; and of the other views the one that was asked for, and no other. Whatever
/// is live counts as leaked once the target has exited, and only then.
pub proof fn law_snapshots_show_the_ledger(
    snap: Snapshot,
    l: Ledger,
    known: Names,
    controls: Controls,
    leak_age_ticks: u64,
)
    requires
        shows_ledger(snap, l, known, controls, leak_age_ticks),
    ensures
        snap.active_count == l.blocks.len(),
        snap.active_bytes == live_bytes(l.blocks),
        snap.peak_bytes == l.peak_bytes,
        snap.total_allocated == l.total_allocated,
        snap.alloc_count == l.alloc_count,
        snap.free_count == l.free_count,
        snap.temporary_count == l.temporary_count,
        snap.total_events == l.total_events,
        snap.heap_series@ == l.heap_series,
        snap.offender_depth == l.offender_depth,
        shown(snap.recent@) == l.recent,
        fault_of(snap.crash) == l.crash,
        snap.show_help == controls.show_help,
        snap.view == ViewMode::from_u8(controls.view),
        is_offender_list(snap.offenders@, l.blocks, 20),
        snap.flame is Some <==> snap.view == ViewMode::Flame,
        snap.heatmap is Some <==> snap.view == ViewMode::Heatmap,
        snap.leaks is Some <==> snap.view == ViewMode::Leaks,
        snap.flame matches Some(flame) ==> is_flame_view(
            flame,
            l.blocks,
            |addr: usize| crate::ledger::address_label(l.names, known, addr),
        ),
        snap.heatmap matches Some(heat) ==> is_heat_view(heat, l, 24),
        snap.leaks matches Some(leaks) ==> is_leak_view(
            leaks,
            l,
            leak_age_ticks,
            snap.status@ == "exited"@,
            50,
        ),
{
    assert(crate::ledger::labeller(l.names, known) =~= (|addr: usize|
        crate::ledger::address_label(l.names, known, addr)));
}

/// In the live view, and only there, an event can be selected: the one at the given place from
/// the newest, or the oldest if there are fewer. What is shown of it is its line and its stack.
pub proof fn law_selected_events_are_shown(
    snap: Snapshot,
    l: Ledger,
    known: Names,
    controls: Controls,
    leak_age_ticks: u64,
)
    requires
        shows_ledger(snap, l, known, controls, leak_age_ticks),
        l.recent.len() <= usize::MAX,
    ensures
        ({
            let wanted = ViewMode::from_u8(controls.view) == ViewMode::Live && controls.selected
                >= 0 && l.recent.len() > 0;
            let back = if controls.selected < l.recent.len() {
                controls.selected as int
            } else {
                l.recent.len() - 1
            };
            let event = l.recent[l.recent.len() - 1 - back];
            &&& snap.selected is Some <==> wanted
            &&& snap.selected_view is Some <==> wanted
            &&& wanted ==> {
                &&& snap.selected->0 == back
                &&& snap.selected_view->0.header@ == "#"@ + decimal(event.seq) + " "@
                    + crate::state::kind_text(event.kind) + " ptr=0x"@ + hex(event.ptr as nat)
                    + " size="@ + decimal(event.size as nat)
                &&& texts(snap.selected_view->0.stack@) == stack_labels(
                    l.names,
                    known,
                    event.frames,
                )
            }
        }),
{
}

/// The target is standalone without a process id; or else running as long as it is alive, and
/// then exited.
pub proof fn law_targets_run_until_they_exit(pid: Option<u32>, alive: bool)
    ensures
        status_text(pid, alive) == "standalone"@ <==> pid is None,
        status_text(pid, alive) == "running"@ <==> pid is Some && alive,
        status_text(pid, alive) == "exited"@ <==> pid is Some && !alive,
{
    reveal_strlit("standalone");
    reveal_strlit("running");
    reveal_strlit("exited");
    assert("standalone"@.len() == 10);
    assert("running"@.len() == 7);
    assert("exited"@.len() == 6);
}

/// The state of a process stands a blank behind the bracket that closes its name, whatever
/// brackets the name holds.
pub proof fn law_states_stand_behind_the_name(name: Seq<char>, state: char, rest: Seq<char>)
    requires
        !rest.contains(')'),
        state != ')',
    ensures
        state_letter(name + seq![')', ' ', state] + rest) == Some(state),
{
    let stat = name + seq![')', ' ', state] + rest;
    assert forall|i: int| name.len() < i < stat.len() implies stat[i] != ')' by {
        if i >= name.len() + 3 {
            assert(rest.contains(rest[i - name.len() - 3]));
        }
    }
    lemma_last(stat, ')', name.len() as int);
}

proof fn lemma_last(text: Seq<char>, c: char, at: int)
    requires
        0 <= at < text.len(),
        text[at] == c,
        forall|i: int| at < i < text.len() ==> text[i] != c,
    ensures
        last_place(text, c) == at,
    decreases text.len(),
{
    if at < text.len() - 1 {
        lemma_last(text.drop_last(), c, at);
    }
}

/// A second has four ticks; no time is less than one.
pub proof fn law_a_second_has_four_ticks(secs: nat)
    ensures
        ticks_in(secs) == if secs == 0 {
            1
        } else {
            4 * secs
        },
{
}

/// One step of the draining loop. A round looks at the controls; ends a tick if 250 ms have
/// passed since the last; takes events, at most 50000, unless it is paused; publishes if 33 ms
/// have passed since the last time; and rests if there was no event.
pub proof fn law_rounds_take_their_course(state: DrainLoop, event: Event)
    ensures
        ({
            let (next, action) = drain_step(state, event);
            let events = if next.paused {
                Action::Check
            } else {
                Action::Pop
            };
            let end = if next.drained == 0 {
                Action::Rest
            } else {
                Action::Look
            };
            match event {
                Event::Looked { quit, paused, now } => if quit {
                    action == Action::Finish
                } else {
                    &&& next.paused == paused && next.drained == 0
                    &&& next.last_heat == state.last_heat && next.last_publish
                        == state.last_publish
                    &&& action == if now >= state.last_heat + 250 {
                        Action::Tick
                    } else {
                        events
                    }
                },
                Event::Ticked { now } => {
                    &&& next == (DrainLoop { last_heat: now, ..state })
                    &&& action == events
                },
                Event::Popped { found } => {
                    &&& found && state.drained < 50000 ==> next == (DrainLoop {
                        drained: (state.drained + 1) as u32,
                        ..state
                    })
                    &&& !found ==> next == state
                    &&& action == if found && state.drained + 1 < 50000 {
                        events
                    } else {
                        Action::Check
                    }
                },
                Event::Checked { now } => {
                    &&& next == state
                    &&& action == if state.last_publish is None || now >= state.last_publish->0
                        + 33 {
                        Action::Publish
                    } else {
                        end
                    }
                },
                Event::Published { now } => {
                    &&& next == (DrainLoop { last_publish: Some(now), ..state })
                    &&& action == end
                },
                Event::Rested => next == state && action == Action::Look,
            }
        }),
{
}

/// The note about symbols: there is one just if they are missing, and it says why.
pub proof fn law_missing_symbols_are_noted(attached: bool, failure: Option<Seq<char>>)
    ensures
        note_text(attached, failure) is None <==> attached && failure is None,
        !attached ==> note_text(attached, failure) == Some(
            "running without symbols (raw addresses)"@,
        ),
        attached && failure is Some ==> note_text(attached, failure) == Some(
            "symbols unavailable: "@ + failure->0,
        ),
{
}

/// A flag on the command line takes the argument behind it and sets what it names, and nothing
/// else; a number that cannot be read gives the default; what is no flag is noted and passed over.
pub proof fn law_flags_set_what_they_name(args: Seq<Seq<char>>, i: int, so_far: Asked)
    requires
        0 <= i < args.len(),
    ensures
        ({
            let flag = args[i];
            let next = if i + 1 < args.len() {
                Some(args[i + 1])
            } else {
                None
            };
            let read = |max: nat|
                match next {
                    Some(text) => number(text, 10, max),
                    None => None,
                };
            let all = asked_from(args, i, so_far);
            &&& flag == "--binary"@ ==> all == asked_from(
                args,
                i + 2,
                Asked { binary: next, ..so_far },
            )
            &&& flag == "--pid"@ ==> all == asked_from(
                args,
                i + 2,
                Asked {
                    pid: match read(u32::MAX as nat) {
                        Some(n) => Some(n as u32),
                        None => None,
                    },
                    ..so_far
                },
            )
            &&& flag == "--shm-name"@ ==> all == asked_from(
                args,
                i + 2,
                Asked { shm_name: next, ..so_far },
            )
            &&& flag == "--offender-depth"@ ==> all == asked_from(
                args,
                i + 2,
                Asked {
                    offender_depth: match read(usize::MAX as nat) {
                        Some(n) => n,
                        None => 0,
                    },
                    ..so_far
                },
            )
            &&& flag == "--leak-age"@ ==> all == asked_from(
                args,
                i + 2,
                Asked {
                    leak_age_secs: match read(u64::MAX as nat) {
                        Some(n) => n,
                        None => 3,
                    },
                    ..so_far
                },
            )
            &&& flag == "--export"@ ==> all == asked_from(
                args,
                i + 2,
                Asked { export: next, ..so_far },
            )
            &&& flag != "--binary"@ && flag != "--pid"@ && flag != "--shm-name"@ && flag
                != "--offender-depth"@ && flag != "--leak-age"@ && flag != "--export"@ ==> all
                == asked_from(
                args,
                i + 1,
                Asked { unrecognized: so_far.unrecognized.push(flag), ..so_far },
            )
        }),
        asked_from(args, args.len() as int, so_far) == so_far,
        asked_from(args, args.len() as int + 1, so_far) == so_far,
{
    reveal_strlit("--binary");
    reveal_strlit("--pid");
    reveal_strlit("--shm-name");
    reveal_strlit("--offender-depth");
    reveal_strlit("--leak-age");
    reveal_strlit("--export");
    assert("--pid"@.len() == 5);
    assert("--binary"@.len() == 8);
    assert("--shm-name"@.len() == 10);
    assert("--export"@.len() == 8);
    assert("--export"@[2] != "--binary"@[2]);
    assert("--offender-depth"@.len() == 16);
    assert("--leak-age"@.len() == 10);
    assert("--leak-age"@[2] != "--shm-name"@[2]);
}

/// Every line that ends in a line feed counts, and nothing else does.
pub proof fn law_lines_are_counted(text: Seq<char>, line: Seq<char>)
    requires
        text.len() == 0 || text.last() == '\n',
        !line.contains('\n'),
    ensures
        line_count(text + line + seq!['\n']) == line_count(text) + 1,
        line_count(Seq::empty()) == 0,
    decreases line.len(),
{
    let all = text + line + seq!['\n'];
    assert(all.drop_last() =~= text + line);
    if line.len() == 0 {
        assert(text + line =~= text);
    } else {
        assert forall|i: int| 0 <= i < line.len() implies line[i] != '\n' by {
            assert(line.contains(line[i]));
        }
        lemma_open_line(text, line);
        assert((text + line).last() == line.last());
        assert(line[line.len() - 1] != '\n');
    }
}

proof fn lemma_open_line(text: Seq<char>, line: Seq<char>)
    requires
        text.len() == 0 || text.last() == '\n',
        line.len() > 0,
        forall|i: int| 0 <= i < line.len() ==> line[i] != '\n',
    ensures
        line_count(text + line) == line_count(text) + 1,
    decreases line.len(),
{
    let all = text + line;
    let before = text + line.drop_last();
    assert(all.drop_last() =~= before);
    if line.len() == 1 {
        assert(before =~= text);
    } else {
        lemma_open_line(text, line.drop_last());
        assert(before.last() == line[line.len() - 2]);
    }
}

/// The headless drain and the ledger agree on which addresses are live (a failed realloc aside,
/// and address 0, which is none).
pub proof fn law_dump_and_ledger_agree(l: Ledger, live: Set<usize>, ev: AllocEvent, known: Names)
    requires
        !l.blocks.contains_key(0),
        live.remove(0) == l.blocks.dom(),
        ev.kind <= 6,
        ev.kind == 3 ==> ev.ptr != 0,
    ensures
        live_after(live, ev).remove(0) == applied(l, ev, known).blocks.dom(),
        !applied(l, ev, known).blocks.contains_key(0),
{
    assert forall|ptr: usize| ptr != 0 implies live.contains(ptr) == l.blocks.dom().contains(
        ptr,
    ) by {
        assert(live.remove(0).contains(ptr) == live.contains(ptr));
    }
    assert(live_after(live, ev).remove(0) =~= applied(l, ev, known).blocks.dom());
}

/// The line for a crash tells its signal, what it touched, where it stood and how deep.
pub proof fn law_crash_lines_tell_all(ev: AllocEvent)
    ensures
        crash_line(ev) == "CRASH  signal="@ + decimal(ev.size as nat) + " fault_addr=0x"@ + hex(
            ev.old_ptr as nat,
        ) + " pc=0x"@ + hex(ev.ptr as nat) + " frames="@ + decimal(ev.frame_count as nat),
{
}

/// Launchers that run side by side use different segments.
pub proof fn law_segments_do_not_collide(one: u32, other: u32)
    requires
        one != other,
    ensures
        ring_name(one) != ring_name(other),
{
    law_numbers_are_written(one as nat, 0);
    law_numbers_are_written(other as nat, 0);
    let head = "/profiler_ring_"@;
    if ring_name(one) == ring_name(other) {
        assert(ring_name(one).skip(head.len() as int) =~= decimal(one as nat));
        assert(ring_name(other).skip(head.len() as int) =~= decimal(other as nat));
    }
}

/// The signals that end a program have their names.
pub proof fn law_signals_have_their_names(sig: i32)
    ensures
        signal_text(sig) == match sig {
            4 => "SIGILL"@,
            6 => "SIGABRT"@,
            7 => "SIGBUS"@,
            8 => "SIGFPE"@,
            11 => "SIGSEGV"@,
            _ => "signal"@,
        },
{
}

/// The views are numbered from 0 in the order of their tabs; any other number stands for the
/// first.
pub proof fn law_views_are_numbered(number: u8)
    ensures
        ViewMode::Live.as_u8() == 0,
        ViewMode::Flame.as_u8() == 1,
        ViewMode::Heatmap.as_u8() == 2,
        ViewMode::Leaks.as_u8() == 3,
        number < 4 ==> ViewMode::from_u8(number).as_u8() == number,
        number >= 4 ==> ViewMode::from_u8(number) == ViewMode::Live,
        number < 3 ==> ViewMode::from_u8(number).next() == ViewMode::from_u8((number + 1) as u8),
{
}

} // verus!
