//! What a ledger that was kept from the start says of all that has happened since.

use crate::injection::AllocEvent;
use crate::ledger::applied;
use crate::ledger::allocates;
use crate::ledger::blank;
use crate::ledger::cold;
use crate::ledger::fits;
use crate::ledger::heat_row;
use crate::ledger::heated;
use crate::ledger::law_events_keep_the_ledger_sound;
use crate::ledger::law_ticks_keep_the_ledger_sound;
use crate::ledger::live_bytes;
use crate::ledger::site_of;
use crate::ledger::sound;
use crate::ledger::ticked;
use crate::ledger::Ledger;
use crate::ledger::Names;
use crate::ledger::HEAT_BUCKETS;
use crate::state::HeatView;
use crate::tally::total;
use crate::views::heat_rows;
use crate::views::is_heat_view;
use crate::views::is_warm;
use crate::views::law_ranking_is_full;
use crate::views::lemma_cold_total;
use crate::views::lemma_unrolled_total;
use crate::views::ranked;
use crate::views::row_total;
use crate::views::unrolled;
use crate::views::warmth;
use vstd::prelude::*;
use vstd::set_lib::lemma_len_subset;

verus! {

/// One thing that happens to a ledger.
pub enum Happening {
    /// An event, with the names that are known at the time.
    Event { ev: AllocEvent, known: Names },
    Tick,
}

/// The ledger after `what`.
pub open spec fn happened(l: Ledger, what: Happening) -> Ledger {
    match what {
        Happening::Event { ev, known } => applied(l, ev, known),
        Happening::Tick => ticked(l),
    }
}

/// The ledger after all that happened since the start.
pub open spec fn after(depth: nat, history: Seq<Happening>) -> Ledger
    decreases history.len(),
{
    if history.len() == 0 {
        blank(depth)
    } else {
        happened(after(depth, history.drop_last()), history.last())
    }
}

/// `what` can be counted.
pub open spec fn countable(l: Ledger, what: Happening) -> bool {
    match what {
        Happening::Event { ev, known } => fits(l, ev, known),
        Happening::Tick => l.tick < u64::MAX,
    }
}

/// All that happened could be counted at the time.
pub open spec fn all_counted(depth: nat, history: Seq<Happening>) -> bool
    decreases history.len(),
{
    history.len() > 0 ==> all_counted(depth, history.drop_last()) && countable(
        after(depth, history.drop_last()),
        history.last(),
    )
}

/// Whether an event hands out memory, or at least was asked to: a failed `realloc` does not.
pub open spec fn gives_heat(ev: AllocEvent) -> bool {
    allocates(ev.kind) || (ev.kind == 3 && ev.ptr != 0)
}

/// The bytes that `site` is held responsible for in `what`, if it happens to `l`.
pub open spec fn bytes_asked(l: Ledger, what: Happening, site: Seq<char>) -> nat {
    match what {
        Happening::Event { ev, known } => if gives_heat(ev) && site_of(
            l.names,
            known,
            ev.stack(),
            l.offender_depth,
        ) == site {
            ev.size as nat
        } else {
            0
        },
        Happening::Tick => 0,
    }
}

/// The bytes that `site` allocated in the tick with number `tick`.
pub open spec fn allocated_in(
    depth: nat,
    history: Seq<Happening>,
    site: Seq<char>,
    tick: int,
) -> nat
    decreases history.len(),
{
    if history.len() == 0 {
        0
    } else {
        let earlier = history.drop_last();
        let l = after(depth, earlier);
        allocated_in(depth, earlier, site, tick) + if l.tick == tick {
            bytes_asked(l, history.last(), site)
        } else {
            0
        }
    }
}

/// The bytes that `site` allocated in each of the last [`HEAT_BUCKETS`] ticks, the oldest first
/// and the current one last.
pub open spec fn window(depth: nat, history: Seq<Happening>, site: Seq<char>) -> Seq<nat> {
    Seq::new(
        HEAT_BUCKETS as nat,
        |i: int|
            allocated_in(
                depth,
                history,
                site,
                after(depth, history).tick - (HEAT_BUCKETS - 1) + i,
            ),
    )
}

/// The bytes that `site` allocated in the last [`HEAT_BUCKETS`] ticks.
pub open spec fn window_bytes(depth: nat, history: Seq<Happening>, site: Seq<char>) -> nat {
    total(window(depth, history, site), |bytes: nat| bytes)
}

/// The call sites that allocated anything in the last [`HEAT_BUCKETS`] ticks.
pub open spec fn active_sites(depth: nat, history: Seq<Happening>) -> Set<Seq<char>> {
    Set::new(|site: Seq<char>| window_bytes(depth, history, site) > 0)
}

/// A ledger that was kept from the start is sound.
pub proof fn law_kept_ledgers_are_sound(depth: nat, history: Seq<Happening>)
    requires
        all_counted(depth, history),
    ensures
        sound(after(depth, history)),
    decreases history.len(),
{
    if history.len() > 0 {
        let l = after(depth, history.drop_last());
        law_kept_ledgers_are_sound(depth, history.drop_last());
        match history.last() {
            Happening::Event { ev, known } => {
                law_events_keep_the_ledger_sound(l, ev, known);
            },
            Happening::Tick => {
                law_ticks_keep_the_ledger_sound(l);
            },
        }
    }
}

/// Whether `what` hands out a block; one at address 0 is none.
pub open spec fn hands_out(what: Happening) -> bool {
    what matches Happening::Event { ev, .. } && gives_heat(ev) && ev.ptr != 0
}

/// How many bytes `what` hands out.
pub open spec fn bytes_out(what: Happening) -> nat {
    match what {
        Happening::Event { ev, .. } if hands_out(what) => ev.size as nat,
        _ => 0,
    }
}

pub open spec fn is_event() -> spec_fn(Happening) -> bool {
    |what: Happening| what is Event
}

pub open spec fn is_free() -> spec_fn(Happening) -> bool {
    |what: Happening| what matches Happening::Event { ev, .. } && ev.kind == 1
}

pub open spec fn is_allocation() -> spec_fn(Happening) -> bool {
    |what: Happening| hands_out(what)
}

pub open spec fn is_tick() -> spec_fn(Happening) -> bool {
    |what: Happening| what is Tick
}

/// How many things of a kind have happened.
pub open spec fn times(history: Seq<Happening>, kind: spec_fn(Happening) -> bool) -> nat {
    history.filter(kind).len()
}

/// How many frees came in the same tick as the allocation of what they freed.
pub open spec fn short_lives(depth: nat, history: Seq<Happening>) -> nat
    decreases history.len(),
{
    if history.len() == 0 {
        0
    } else {
        let l = after(depth, history.drop_last());
        short_lives(depth, history.drop_last()) + match history.last() {
            Happening::Event { ev, .. } if ev.kind == 1 && l.blocks.contains_key(ev.ptr)
                && l.blocks[ev.ptr].alloc_tick == l.tick => 1nat,
            _ => 0nat,
        }
    }
}

/// The bytes that were live after the first `k` things that happened.
pub open spec fn live_after(depth: nat, history: Seq<Happening>, k: int) -> nat {
    live_bytes(after(depth, history.take(k)).blocks)
}

/// The counters say what has happened: how many events, ticks and frees there were, how many
/// blocks were handed out and with how many bytes in all, and how many of them lived no longer
/// than a tick; and the peak is the most that was ever live.
pub proof fn law_counters_say_what_happened(depth: nat, history: Seq<Happening>)
    requires
        all_counted(depth, history),
    ensures
        ({
            let l = after(depth, history);
            &&& l.total_events == times(history, is_event())
            &&& l.tick == times(history, is_tick())
            &&& l.free_count == times(history, is_free())
            &&& l.alloc_count == times(history, is_allocation())
            &&& l.total_allocated == total(history, |what: Happening| bytes_out(what))
            &&& l.temporary_count == short_lives(depth, history)
            &&& forall|k: int|
                0 <= k <= history.len() ==> #[trigger] live_after(depth, history, k)
                    <= l.peak_bytes
            &&& exists|k: int|
                0 <= k <= history.len() && #[trigger] live_after(depth, history, k)
                    == l.peak_bytes
        }),
    decreases history.len(),
{
    let l = after(depth, history);
    assert(history.take(history.len() as int) =~= history);
    assert(live_after(depth, history, history.len() as int) == live_bytes(l.blocks));
    law_kept_ledgers_are_sound(depth, history);
    if history.len() == 0 {
        lemma_nothing_happened();
    } else {
        let earlier = history.drop_last();
        let last = history.last();
        let p = after(depth, earlier);
        law_counters_say_what_happened(depth, earlier);
        assert(history =~= earlier.push(last));
        lemma_times_push(earlier, last, is_event());
        lemma_times_push(earlier, last, is_tick());
        lemma_times_push(earlier, last, is_free());
        lemma_times_push(earlier, last, is_allocation());
        assert forall|k: int| 0 <= k <= earlier.len() implies #[trigger] live_after(
            depth,
            history,
            k,
        ) == live_after(depth, earlier, k) by {
            assert(history.take(k) =~= earlier.take(k));
        }
        assert(l.peak_bytes >= p.peak_bytes);
        assert forall|k: int| 0 <= k <= history.len() implies #[trigger] live_after(
            depth,
            history,
            k,
        ) <= l.peak_bytes by {
            if k <= earlier.len() {
                assert(live_after(depth, earlier, k) <= p.peak_bytes);
            }
        }
        if l.peak_bytes == p.peak_bytes {
            let k = choose|k: int|
                0 <= k <= earlier.len() && #[trigger] live_after(depth, earlier, k)
                    == p.peak_bytes;
            assert(live_after(depth, history, k) == l.peak_bytes);
        } else {
            assert(live_after(depth, history, history.len() as int) == l.peak_bytes);
        }
    }
}

proof fn lemma_nothing_happened()
    ensures
        forall|kind: spec_fn(Happening) -> bool| #[trigger]
            times(Seq::<Happening>::empty(), kind) == 0,
        live_bytes(blank(0).blocks) == 0,
{
    reveal(Seq::filter);
}

proof fn lemma_times_push(
    history: Seq<Happening>,
    what: Happening,
    kind: spec_fn(Happening) -> bool,
)
    ensures
        times(history.push(what), kind) == times(history, kind) + if kind(what) {
            1nat
        } else {
            0nat
        },
{
    reveal(Seq::filter);
    assert(history.push(what).drop_last() =~= history);
}

/// Nothing was allocated in ticks that are yet to come.
proof fn lemma_future_is_empty(depth: nat, history: Seq<Happening>, site: Seq<char>, tick: int)
    requires
        tick > after(depth, history).tick,
    ensures
        allocated_in(depth, history, site, tick) == 0,
    decreases history.len(),
{
    if history.len() > 0 {
        lemma_future_is_empty(depth, history.drop_last(), site, tick);
    }
}

/// The place in the ring of heat of the tick that was `back` ticks ago.
spec fn cell_of(cursor: nat, back: nat) -> int {
    (cursor + HEAT_BUCKETS - back) % HEAT_BUCKETS as int
}

/// An event adds to the current tick what its call site asked for, and to nothing else.
proof fn lemma_event_heat(l: Ledger, ev: AllocEvent, known: Names, site: Seq<char>, at: int)
    requires
        sound(l),
        fits(l, ev, known),
        0 <= at < HEAT_BUCKETS,
    ensures
        heat_row(applied(l, ev, known).heat, site)[at] == heat_row(l.heat, site)[at] + if at
            == l.cursor {
            bytes_asked(l, Happening::Event { ev, known }, site)
        } else {
            0
        },
{
    let found = site_of(l.names, known, ev.stack(), l.offender_depth);
    let next = applied(l, ev, known).heat;
    if gives_heat(ev) {
        assert(next == heated(l.heat, l.cursor, found, ev.size as nat));
        assert(heat_row(l.heat, found).len() == HEAT_BUCKETS);
    } else {
        assert(next == l.heat);
    }
}

/// A tick clears the place that the ring comes to, and nothing else.
proof fn lemma_tick_heat(l: Ledger, site: Seq<char>, at: int)
    requires
        sound(l),
        0 <= at < HEAT_BUCKETS,
    ensures
        heat_row(ticked(l).heat, site)[at] == if at == ticked(l).cursor {
            0
        } else {
            heat_row(l.heat, site)[at]
        },
{
    if l.heat.contains_key(site) {
        assert(l.heat[site].len() == HEAT_BUCKETS);
    }
}

/// The heat row of a call site holds what it allocated `back` ticks ago.
proof fn lemma_heat_cell(depth: nat, history: Seq<Happening>, site: Seq<char>, back: nat)
    requires
        all_counted(depth, history),
        back < HEAT_BUCKETS,
    ensures
        heat_row(after(depth, history).heat, site)[cell_of(after(depth, history).cursor, back)]
            == allocated_in(depth, history, site, after(depth, history).tick - back),
    decreases history.len(),
{
    let l = after(depth, history);
    if history.len() > 0 {
        let earlier = history.drop_last();
        let p = after(depth, earlier);
        law_kept_ledgers_are_sound(depth, earlier);
        match history.last() {
            Happening::Event { ev, known } => {
                lemma_heat_cell(depth, earlier, site, back);
                lemma_event_heat(p, ev, known, site, cell_of(p.cursor, back));
                assert(l.tick == p.tick && l.cursor == p.cursor);
            },
            Happening::Tick => {
                lemma_tick_heat(p, site, cell_of(l.cursor, back));
                if back == 0 {
                    lemma_future_is_empty(depth, earlier, site, l.tick as int);
                } else {
                    lemma_heat_cell(depth, earlier, site, (back - 1) as nat);
                    assert(cell_of(l.cursor, back) == cell_of(p.cursor, (back - 1) as nat));
                }
            },
        }
    }
}

/// The heat row of a call site, from the oldest tick on, holds what it allocated in each of the
/// last [`HEAT_BUCKETS`] ticks, the current one last.
pub proof fn law_heat_is_what_was_allocated(depth: nat, history: Seq<Happening>, site: Seq<char>)
    requires
        all_counted(depth, history),
    ensures
        ({
            let l = after(depth, history);
            let row = unrolled(heat_row(l.heat, site), l.cursor);
            &&& row.map_values(|v: u64| v as nat) == window(depth, history, site)
            &&& row_total(row) == window_bytes(depth, history, site)
            &&& warmth(l.heat)(site) == window_bytes(depth, history, site)
        }),
{
    let l = after(depth, history);
    law_kept_ledgers_are_sound(depth, history);
    let row = unrolled(heat_row(l.heat, site), l.cursor);
    let shown = row.map_values(|v: u64| v as nat);
    let asked = window(depth, history, site);
    assert forall|i: int| 0 <= i < HEAT_BUCKETS implies #[trigger] shown[i] == asked[i] by {
        lemma_heat_cell(depth, history, site, (HEAT_BUCKETS - 1 - i) as nat);
    }
    assert(shown =~= asked);
    lemma_same_total(row, asked);
    lemma_unrolled_total(heat_row(l.heat, site), l.cursor);
}

proof fn lemma_same_total(row: Seq<u64>, asked: Seq<nat>)
    requires
        row.map_values(|v: u64| v as nat) == asked,
    ensures
        row_total(row) == total(asked, |bytes: nat| bytes),
    decreases row.len(),
{
    if row.len() > 0 {
        assert(row.drop_last().map_values(|v: u64| v as nat) =~= asked.drop_last());
        assert(asked.last() == row.last());
        lemma_same_total(row.drop_last(), asked.drop_last());
    }
}

/// There are only so many call sites that allocated anything of late: those that the ledger finds
/// warm.
proof fn lemma_active_sites(depth: nat, history: Seq<Happening>)
    requires
        all_counted(depth, history),
    ensures
        active_sites(depth, history).finite(),
        forall|site: Seq<char>| #[trigger]
            active_sites(depth, history).contains(site) == is_warm(after(depth, history).heat)(site),
{
    let heat = after(depth, history).heat;
    law_kept_ledgers_are_sound(depth, history);
    let active = active_sites(depth, history);
    assert forall|site: Seq<char>| #[trigger] active.contains(site) == is_warm(heat)(site) by {
        law_heat_is_what_was_allocated(depth, history, site);
    }
    assert forall|site: Seq<char>| active.contains(site) implies heat.dom().contains(site) by {
        if !heat.contains_key(site) {
            lemma_cold_total(cold());
        }
    }
    lemma_len_subset(active, heat.dom());
}

/// The heatmap shows as many call sites as it may and as allocated anything in the last
/// [`HEAT_BUCKETS`] ticks: different ones, those that allocated most, in that order; and of each
/// what it allocated tick by tick.
pub proof fn law_heatmap_shows_what_was_allocated(
    depth: nat,
    history: Seq<Happening>,
    view: HeatView,
    n: nat,
)
    requires
        all_counted(depth, history),
        is_heat_view(view, after(depth, history), n),
    ensures
        ({
            let active = active_sites(depth, history);
            &&& active.finite()
            &&& view.sites@.len() == if active.len() <= n {
                active.len()
            } else {
                n
            }
            &&& forall|i: int| #![trigger view.sites@[i]]
                0 <= i < view.sites@.len() ==> active.contains(view.sites@[i]@)
                    && view.cells@[i]@.map_values(|v: u64| v as nat) == window(
                    depth,
                    history,
                    view.sites@[i]@,
                )
            &&& forall|i: int, j: int| #![trigger view.sites@[i], view.sites@[j]]
                0 <= i < j < view.sites@.len() ==> view.sites@[i]@ != view.sites@[j]@
                    && window_bytes(depth, history, view.sites@[i]@) >= window_bytes(
                    depth,
                    history,
                    view.sites@[j]@,
                )
            &&& forall|site: Seq<char>, i: int| #![trigger active.contains(site), view.sites@[i]]
                active.contains(site) && (forall|k: int|
                    0 <= k < view.sites@.len() ==> (#[trigger] view.sites@[k])@ != site) && 0 <= i
                    < view.sites@.len() ==> window_bytes(depth, history, site) <= window_bytes(
                    depth,
                    history,
                    view.sites@[i]@,
                )
        }),
{
    let l = after(depth, history);
    let active = active_sites(depth, history);
    let rows = heat_rows(view);
    lemma_active_sites(depth, history);
    let inside = |site: Seq<char>| active.contains(site);
    assert(inside =~= is_warm(l.heat));
    law_ranking_is_full(rows, active, warmth(l.heat), n);
    assert forall|i: int| #![trigger view.sites@[i]]
        0 <= i < view.sites@.len() implies active.contains(view.sites@[i]@)
        && view.cells@[i]@.map_values(|v: u64| v as nat) == window(depth, history, view.sites@[i]@)
        && rows[i].1 == window_bytes(depth, history, view.sites@[i]@) by {
        law_heat_is_what_was_allocated(depth, history, view.sites@[i]@);
        assert(is_warm(l.heat)(rows[i].0));
        assert(view.cells@[i]@ == unrolled(heat_row(l.heat, view.sites@[i]@), l.cursor));
    }
    assert forall|i: int, j: int| #![trigger view.sites@[i], view.sites@[j]]
        0 <= i < j < view.sites@.len() implies view.sites@[i]@ != view.sites@[j]@ && window_bytes(
        depth,
        history,
        view.sites@[i]@,
    ) >= window_bytes(depth, history, view.sites@[j]@) by {
        assert(rows[i].0 != rows[j].0 && rows[i].1 >= rows[j].1);
    }
    assert forall|site: Seq<char>, i: int| #![trigger active.contains(site), view.sites@[i]]
        active.contains(site) && (forall|k: int|
            0 <= k < view.sites@.len() ==> (#[trigger] view.sites@[k])@ != site) && 0 <= i
            < view.sites@.len() implies window_bytes(depth, history, site) <= window_bytes(
        depth,
        history,
        view.sites@[i]@,
    ) by {
        law_heat_is_what_was_allocated(depth, history, site);
        assert(is_warm(l.heat)(site));
        if ranked(rows, site) {
            let k = choose|k: int| 0 <= k < rows.len() && (#[trigger] rows[k]).0 == site;
            assert(view.sites@[k]@ == site);
        }
        assert(warmth(l.heat)(site) <= rows[i].1);
    }
}

/// A free leaves the heatmap as it is.
pub proof fn law_frees_leave_the_heatmap_alone(
    l: Ledger,
    ev: AllocEvent,
    known: Names,
    view: HeatView,
    n: nat,
)
    requires
        ev.kind == 1,
    ensures
        is_heat_view(view, applied(l, ev, known), n) == is_heat_view(view, l, n),
{
}

} // verus!
