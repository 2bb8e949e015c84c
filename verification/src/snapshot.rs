//! Puts together what one frame of the user interface shows.

use crate::ledger::learned_all;
use crate::ledger::labeller;
use crate::ledger::live_addresses;
use crate::ledger::live_bytes;
use crate::ledger::stack_labels;
use crate::ledger::Ledger;
use crate::ledger::Names;
use crate::ledger::Shown;
use crate::resolver::Resolver;
use crate::state::kind_name;
use crate::state::kind_text;
use crate::state::Controls;
use crate::state::SelectedView;
use crate::state::Snapshot;
use crate::state::ViewMode;
use crate::symbols::text_of;
use crate::symbols::texts;
use crate::text::chars_of;
use crate::text::decimal;
use crate::text::hex;
use crate::text::push_decimal;
use crate::text::push_hex;
use crate::text::same_text;
use crate::tracker::fault_of;
use crate::tracker::known_to;
use crate::tracker::shown;
use crate::tracker::Counts;
use crate::tracker::DisplayEvent;
use crate::tracker::Tracker;
use crate::views::heat_countable;
use crate::views::is_flame_view;
use crate::views::is_heat_view;
use crate::views::is_leak_view;
use crate::views::is_offender_list;
use vstd::prelude::*;
use vstd::string::StringExecFns;

verus! {

/// How many call sites the list of offenders shows.
pub const MAX_OFFENDERS: usize = 20;

/// How many call sites the heatmap shows.
pub const MAX_HEAT_SITES: usize = 24;

/// How many call sites the list of leaks shows.
pub const MAX_LEAK_SITES: usize = 50;

/// The last place that holds `c`, or -1.
pub open spec fn last_place(text: Seq<char>, c: char) -> int
    decreases text.len(),
{
    if text.len() == 0 || text.last() == c {
        text.len() - 1
    } else {
        last_place(text.drop_last(), c)
    }
}

/// The letter for the state of a process in its status line: the name of the program stands in
/// round brackets and may hold some itself; the letter comes a blank after the last of them.
pub open spec fn state_letter(stat: Seq<char>) -> Option<char> {
    let at = last_place(stat, ')') + 2;
    if 2 <= at < stat.len() {
        Some(stat[at])
    } else {
        None
    }
}

/// Whether a process runs on, given its status line (the text of `/proc/<pid>/stat`): not once it
/// is dead, or a zombie that nobody has waited for.
pub fn is_alive(stat: &str) -> (alive: bool)
    ensures
        alive == !(state_letter(stat@) == Some('Z') || state_letter(stat@) == Some('X')),
{
    let chars = chars_of(stat);
    let mut end: usize = chars.len();
    assert(chars@.take(end as int) =~= chars@);
    while end > 0 && chars[end - 1] != ')'
        invariant
            end <= chars.len(),
            last_place(chars@.take(end as int), ')') == last_place(chars@, ')'),
        decreases end,
    {
        assert(chars@.take(end as int).drop_last() =~= chars@.take(end - 1));
        end -= 1;
    }
    assert(last_place(chars@, ')') == end - 1);
    if end == 0 || end >= chars.len() - 1 {
        return true;
    }
    chars[end + 1] != 'Z' && chars[end + 1] != 'X'
}

/// What is known of the target: nothing without a process id, or else whether it is alive.
pub open spec fn status_text(pid: Option<u32>, alive: bool) -> Seq<char> {
    match pid {
        None => "standalone"@,
        Some(_) => if alive {
            "running"@
        } else {
            "exited"@
        },
    }
}

/// The status of the target, given whether its process still exists.
pub fn target_status(pid: Option<u32>, alive: bool) -> (status: &'static str)
    ensures
        status@ == status_text(pid, alive),
{
    match pid {
        None => "standalone",
        Some(_) => if alive {
            "running"
        } else {
            "exited"
        },
    }
}

/// The place of the selected event, counted from the newest: in the live view only, and the
/// oldest event if fewer are there.
pub open spec fn selection_of(view: ViewMode, selected: isize, count: nat) -> Option<usize> {
    if view == ViewMode::Live && selected >= 0 && count > 0 {
        if selected < count {
            Some(selected as usize)
        } else {
            Some((count - 1) as usize)
        }
    } else {
        None
    }
}

/// The place of the selected event among `count` events, counted from the newest.
pub fn selection(view: ViewMode, selected: isize, count: usize) -> (place: Option<usize>)
    ensures
        place == selection_of(view, selected, count as nat),
{
    if view == ViewMode::Live && selected >= 0 && count > 0 {
        let wanted: usize = selected as usize;
        if wanted < count {
            Some(wanted)
        } else {
            Some(count - 1)
        }
    } else {
        None
    }
}

/// The line above the call stack of a selected event.
pub open spec fn header_of(event: Shown) -> Seq<char> {
    "#"@ + decimal(event.seq) + " "@ + kind_text(event.kind) + " ptr=0x"@ + hex(event.ptr as nat)
        + " size="@ + decimal(event.size as nat)
}

fn event_header(event: &DisplayEvent) -> (header: String)
    ensures
        header@ == header_of(event@),
{
    let mut header = "#".to_owned();
    push_decimal(&mut header, event.seq);
    header.append(" ");
    header.append(kind_name(event.kind));
    header.append(" ptr=0x");
    push_hex(&mut header, event.ptr as u64);
    header.append(" size=");
    push_decimal(&mut header, event.size as u64);
    header
}

/// The addresses whose names a snapshot asks for.
pub open spec fn snapshot_asks(l: Ledger, view: ViewMode, selected: isize) -> Set<usize> {
    match selection_of(view, selected, l.recent.len()) {
        Some(place) => l.recent[l.recent.len() - 1 - place].frames.to_set(),
        None => if view == ViewMode::Flame {
            live_addresses(l.blocks)
        } else {
            Set::empty()
        },
    }
}

/// `snap` shows the ledger `l` as `controls` ask for it.
pub open spec fn shows_ledger(
    snap: Snapshot,
    l: Ledger,
    known: Names,
    controls: Controls,
    leak_age_ticks: u64,
) -> bool {
    let view = ViewMode::from_u8(controls.view);
    &&& snap.view == view
    &&& snap.show_help == controls.show_help
    &&& snap.active_count == l.blocks.len()
    &&& snap.active_bytes == live_bytes(l.blocks)
    &&& snap.peak_bytes == l.peak_bytes
    &&& snap.total_allocated == l.total_allocated
    &&& snap.alloc_count == l.alloc_count
    &&& snap.free_count == l.free_count
    &&& snap.temporary_count == l.temporary_count
    &&& snap.total_events == l.total_events
    &&& snap.heap_series@ == l.heap_series
    &&& snap.offender_depth == l.offender_depth
    &&& shown(snap.recent@) == l.recent
    &&& is_offender_list(snap.offenders@, l.blocks, MAX_OFFENDERS as nat)
    &&& fault_of(snap.crash) == l.crash
    &&& snap.selected == selection_of(view, controls.selected, l.recent.len())
    &&& match (snap.selected, snap.selected_view) {
        (Some(place), Some(chosen)) => {
            let event = l.recent[l.recent.len() - 1 - place];
            &&& chosen.header@ == header_of(event)
            &&& texts(chosen.stack@) == stack_labels(l.names, known, event.frames)
        },
        (None, None) => true,
        _ => false,
    }
    &&& match snap.flame {
        Some(flame) => view == ViewMode::Flame && is_flame_view(
            flame,
            l.blocks,
            labeller(l.names, known),
        ),
        None => view != ViewMode::Flame,
    }
    &&& match snap.heatmap {
        Some(heat) => view == ViewMode::Heatmap && is_heat_view(heat, l, MAX_HEAT_SITES as nat),
        None => view != ViewMode::Heatmap,
    }
    &&& match snap.leaks {
        Some(leaks) => view == ViewMode::Leaks && is_leak_view(
            leaks,
            l,
            leak_age_ticks,
            snap.status@ == "exited"@,
            MAX_LEAK_SITES as nat,
        ),
        None => view != ViewMode::Leaks,
    }
}

/// What the user interface shows of `tracker` now. `status` is that of the target; once it has
/// exited, all that is live counts as leaked.
pub fn build_snapshot(
    tracker: &mut Tracker,
    resolver: &Option<Resolver>,
    controls: &Controls,
    dropped: u64,
    status: &'static str,
    paused: bool,
    note: &Option<String>,
    leak_age_ticks: u64,
) -> (snap: Snapshot)
    requires
        old(tracker).wf(),
        ViewMode::from_u8(controls.view) == ViewMode::Heatmap ==> heat_countable(
            old(tracker)@.heat,
        ),
    ensures
        final(tracker).wf(),
        final(tracker)@ == (Ledger {
            names: learned_all(
                old(tracker)@.names,
                known_to(*resolver),
                snapshot_asks(
                    old(tracker)@,
                    ViewMode::from_u8(controls.view),
                    controls.selected,
                ),
            ),
            ..old(tracker)@
        }),
        shows_ledger(snap, old(tracker)@, known_to(*resolver), *controls, leak_age_ticks),
        snap.status == status,
        snap.dropped == dropped,
        snap.paused == paused,
        text_of(snap.note) == text_of(*note),
{
    let ghost l = tracker@;
    let ghost known = known_to(*resolver);
    let view = ViewMode::from_u8(controls.view);
    let recent = tracker.recent_events();
    let offenders = tracker.top_offenders(MAX_OFFENDERS);
    let crash = tracker.crash_info();
    let offender_depth = tracker.offender_depth();
    let counts: Counts = tracker.counts();
    let heap_series = tracker.heap_series();
    let selected = selection(view, controls.selected, recent.len());
    let selected_view = match selected {
        Some(place) => {
            let event = &recent[recent.len() - 1 - place];
            assert(event@ == l.recent[l.recent.len() - 1 - place]);
            let header = event_header(event);
            let stack = tracker.resolve_stack(event.frames.as_slice(), resolver);
            Some(SelectedView { header, stack })
        },
        None => None,
    };
    let flame = if view == ViewMode::Flame {
        Some(tracker.build_flame(resolver))
    } else {
        None
    };
    let ghost asked = snapshot_asks(l, view, controls.selected);
    proof {
        if selected is None && view != ViewMode::Flame {
            assert(learned_all(l.names, known, asked) =~= l.names);
        }
        assert(tracker@ =~= (Ledger { names: learned_all(l.names, known, asked), ..l }));
    }
    let heatmap = if view == ViewMode::Heatmap {
        Some(tracker.build_heat(MAX_HEAT_SITES))
    } else {
        None
    };
    let leaks = if view == ViewMode::Leaks {
        Some(tracker.build_leaks(leak_age_ticks, same_text(status, "exited"), MAX_LEAK_SITES))
    } else {
        None
    };
    let note = match note {
        Some(text) => Some(text.clone()),
        None => None,
    };
    Snapshot {
        status,
        active_count: counts.active_count,
        active_bytes: counts.active_bytes,
        peak_bytes: counts.peak_bytes,
        total_allocated: counts.total_allocated,
        alloc_count: counts.alloc_count,
        free_count: counts.free_count,
        temporary_count: counts.temporary_count,
        heap_series,
        total_events: counts.total_events,
        dropped,
        paused,
        offender_depth,
        view,
        recent,
        offenders,
        crash,
        selected,
        selected_view,
        flame,
        heatmap,
        leaks,
        show_help: controls.show_help,
        note,
    }
}

} // verus!
