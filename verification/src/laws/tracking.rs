//! What becomes of events in the ledger.

use crate::injection::AllocEvent;
use crate::ledger::address_labels;
use crate::ledger::applied;
use crate::ledger::fits;
use crate::ledger::heat_row;
use crate::ledger::live_bytes;
use crate::ledger::names_for;
use crate::ledger::site_of;
use crate::ledger::sound;
use crate::ledger::stack_labels;
use crate::ledger::ticked;
use crate::ledger::ticked_times;
use crate::ledger::Fault;
use crate::ledger::Ledger;
use crate::ledger::Names;
use crate::text::hex;
use vstd::prelude::*;

verus! {

/// The names that an address has: those that were found first, or else those that are known now,
/// if any.
pub open spec fn names_seen(names: Names, known: Names, addr: usize) -> Seq<Seq<char>> {
    match (names.get(addr), known.get(addr)) {
        (Some(first), _) => first,
        (None, Some(now)) => now,
        (None, None) => Seq::empty(),
    }
}

/// A call stack is shown frame by frame: two in a row are shown one after the other, and a single
/// frame by all its names, innermost first, or by its address if it has none.
pub proof fn law_stacks_are_shown_frame_by_frame(
    names: Names,
    known: Names,
    near: Seq<usize>,
    far: Seq<usize>,
    addr: usize,
)
    ensures
        stack_labels(names, known, near + far) == stack_labels(names, known, near) + stack_labels(
            names,
            known,
            far,
        ),
        stack_labels(names, known, seq![addr]) == if names_seen(names, known, addr).len() > 0 {
            names_seen(names, known, addr)
        } else {
            seq!["0x"@ + hex(addr as nat)]
        },
        stack_labels(names, known, Seq::empty()) == Seq::<Seq<char>>::empty(),
    decreases far.len(),
{
    reveal_with_fuel(stack_labels, 3);
    assert(seq![addr].drop_last() =~= Seq::<usize>::empty());
    assert(stack_labels(names, known, seq![addr]) =~= address_labels(names, known, addr));
    if far.len() == 0 {
        assert(near + far =~= near);
        assert(stack_labels(names, known, near) + Seq::<Seq<char>>::empty() =~= stack_labels(
            names,
            known,
            near,
        ));
    } else {
        assert((near + far).drop_last() =~= near + far.drop_last());
        law_stacks_are_shown_frame_by_frame(names, known, near, far.drop_last(), addr);
        assert(stack_labels(names, known, near + far) =~= stack_labels(names, known, near)
            + stack_labels(names, known, far));
    }
}

/// Held responsible is the frame at the given depth, or the outermost one if there are fewer,
/// under its first name or else its address.
pub proof fn law_frame_at_the_depth_is_responsible(
    names: Names,
    known: Names,
    frames: Seq<usize>,
    depth: nat,
)
    ensures
        frames.len() == 0 ==> site_of(names, known, frames, depth) == "?"@,
        depth < frames.len() ==> site_of(names, known, frames, depth) == site_of(
            names,
            known,
            seq![frames[depth as int]],
            0,
        ),
        0 < frames.len() <= depth ==> site_of(names, known, frames, depth) == site_of(
            names,
            known,
            seq![frames.last()],
            0,
        ),
        forall|addr: usize|
            site_of(names, known, #[trigger] seq![addr], 0) == if names_seen(
                names,
                known,
                addr,
            ).len() > 0 {
                names_seen(names, known, addr)[0]
            } else {
                "0x"@ + hex(addr as nat)
            },
{
}

/// The call stack that an event carries.
pub open spec fn stack_in(ev: AllocEvent) -> Seq<usize> {
    Seq::new(ev.frame_count as nat, |i: int| ev.frames@[i])
}

/// An allocation is entered under its address, with its size and its stack and as of now, and
/// leaves every other block alone. One at address 0 leaves all of them alone.
pub proof fn law_allocations_are_entered(l: Ledger, ev: AllocEvent, known: Names)
    requires
        ev.kind != 1 && ev.kind != 3 && ev.kind != 6,
        ev.frame_count <= 32,
    ensures
        ({
            let blocks = applied(l, ev, known).blocks;
            &&& ev.ptr == 0 ==> blocks == l.blocks
            &&& ev.ptr != 0 ==> {
                &&& blocks.contains_key(ev.ptr)
                &&& blocks[ev.ptr].size == ev.size
                &&& blocks[ev.ptr].frames == stack_in(ev)
                &&& blocks[ev.ptr].alloc_tick == l.tick
                &&& blocks[ev.ptr].site == site_of(
                    l.names,
                    known,
                    stack_in(ev),
                    l.offender_depth,
                )
                &&& forall|ptr: usize|
                    ptr != ev.ptr ==> blocks.contains_key(ptr) == l.blocks.contains_key(ptr)
                        && #[trigger] blocks[ptr] == l.blocks[ptr]
            }
        }),
{
    assert(ev.stack() =~= stack_in(ev));
    let blocks = applied(l, ev, known).blocks;
    assert forall|ptr: usize| ev.ptr != 0 && ptr != ev.ptr implies blocks.contains_key(ptr)
        == l.blocks.contains_key(ptr) && #[trigger] blocks[ptr] == l.blocks[ptr] by {}
}

/// A free takes out the block at its address, and no other.
pub proof fn law_frees_take_out_one_block(l: Ledger, ev: AllocEvent, known: Names)
    requires
        ev.kind == 1,
    ensures
        ({
            let blocks = applied(l, ev, known).blocks;
            &&& !blocks.contains_key(ev.ptr)
            &&& forall|ptr: usize|
                ptr != ev.ptr ==> blocks.contains_key(ptr) == l.blocks.contains_key(ptr)
                    && #[trigger] blocks[ptr] == l.blocks[ptr]
            &&& applied(l, ev, known).heat == l.heat
            &&& applied(l, ev, known).alloc_count == l.alloc_count
        }),
{
}

/// A realloc that worked leaves the blocks that a free of the old one and an allocation of the
/// new one leave.
pub proof fn law_realloc_is_free_and_malloc(
    l: Ledger,
    realloc: AllocEvent,
    free: AllocEvent,
    malloc: AllocEvent,
    known: Names,
)
    requires
        realloc.kind == 3 && free.kind == 1 && malloc.kind == 0,
        realloc.ptr != 0,
        free.ptr == realloc.old_ptr,
        malloc.ptr == realloc.ptr,
        malloc.size == realloc.size,
        malloc.frames == realloc.frames && malloc.frame_count == realloc.frame_count,
    ensures
        applied(l, realloc, known).blocks == applied(applied(l, free, known), malloc, known).blocks,
        applied(l, realloc, known).heat == applied(applied(l, free, known), malloc, known).heat,
        applied(l, realloc, known).total_allocated == l.total_allocated + realloc.size,
        applied(l, realloc, known).alloc_count == l.alloc_count + 1,
{
    let freed = applied(l, free, known);
    assert forall|addr: usize| #[trigger] names_for(freed.names, known, addr) == names_for(
        l.names,
        known,
        addr,
    ) by {}
    assert(malloc.stack() =~= realloc.stack());
    assert(site_of(freed.names, known, malloc.stack(), l.offender_depth) == site_of(
        l.names,
        known,
        realloc.stack(),
        l.offender_depth,
    )) by {
        if malloc.stack().len() > 0 {
            let at = crate::ledger::site_index(malloc.stack(), l.offender_depth);
            assert(names_for(freed.names, known, malloc.stack()[at]) == names_for(
                l.names,
                known,
                malloc.stack()[at],
            ));
        }
    }
}

/// A block counts as short-lived just if it is freed before a tick ends: not if it lives on into
/// the next one.
pub proof fn law_short_lives_end_within_a_tick(
    l: Ledger,
    malloc: AllocEvent,
    free: AllocEvent,
    known: Names,
    ticks: nat,
)
    requires
        malloc.kind != 1 && malloc.kind != 3 && malloc.kind != 6,
        malloc.ptr != 0,
        free.kind == 1,
        free.ptr == malloc.ptr,
    ensures
        ({
            let held = ticked_times(applied(l, malloc, known), ticks);
            applied(held, free, known).temporary_count == if ticks == 0 {
                l.temporary_count + 1
            } else {
                l.temporary_count
            }
        }),
{
    lemma_ticks_keep_blocks(applied(l, malloc, known), ticks);
}

/// The free of a block that is not there is counted as a free and as nothing else.
pub proof fn law_stray_frees_change_no_block(l: Ledger, free: AllocEvent, known: Names)
    requires
        free.kind == 1,
        !l.blocks.contains_key(free.ptr),
    ensures
        applied(l, free, known).blocks == l.blocks,
        applied(l, free, known).temporary_count == l.temporary_count,
        applied(l, free, known).free_count == l.free_count + 1,
{
    assert(applied(l, free, known).blocks =~= l.blocks);
}

/// Ticks change no block and no counter but that of ticks.
pub proof fn lemma_ticks_keep_blocks(l: Ledger, ticks: nat)
    ensures
        ticked_times(l, ticks).blocks == l.blocks,
        ticked_times(l, ticks).tick == l.tick + ticks,
        ticked_times(l, ticks).temporary_count == l.temporary_count,
        ticked_times(l, ticks).offender_depth == l.offender_depth,
    decreases ticks,
{
    if ticks > 0 {
        lemma_ticks_keep_blocks(l, (ticks - 1) as nat);
    }
}

/// The newest of the recent events is the one that came last, as it came in (a crash has no
/// size); before it stand the events that stood there, without the oldest once there are 200.
pub proof fn law_recent_events_are_the_last(l: Ledger, ev: AllocEvent, known: Names)
    requires
        sound(l),
        ev.frame_count <= 32,
    ensures
        ({
            let recent = applied(l, ev, known).recent;
            let old = if l.recent.len() < 200 {
                l.recent
            } else {
                l.recent.skip(1)
            };
            &&& recent.len() == old.len() + 1
            &&& recent.take(old.len() as int) == old
            &&& recent.last().seq == l.total_events + 1
            &&& recent.last().kind == ev.kind
            &&& recent.last().ptr == ev.ptr
            &&& recent.last().size == if ev.kind == 6 {
                0
            } else {
                ev.size
            }
            &&& recent.last().frames == stack_in(ev)
            &&& ev.kind != 6 ==> recent.last().offender == site_of(
                l.names,
                known,
                stack_in(ev),
                l.offender_depth,
            )
            &&& ev.kind == 6 && ev.frame_count > 0 ==> recent.last().offender == stack_labels(
                l.names,
                known,
                stack_in(ev),
            )[0]
            &&& ev.kind == 6 && ev.frame_count == 0 ==> recent.last().offender == "?"@
        }),
{
    assert(ev.stack() =~= stack_in(ev));
    let recent = applied(l, ev, known).recent;
    let old = if l.recent.len() < 200 {
        l.recent
    } else {
        l.recent.skip(1)
    };
    assert(recent.take(old.len() as int) =~= old);
    if ev.frame_count > 0 {
        lemma_stacks_have_labels(l.names, known, ev.stack());
    }
}

proof fn lemma_stacks_have_labels(names: Names, known: Names, frames: Seq<usize>)
    ensures
        stack_labels(names, known, frames).len() >= frames.len(),
    decreases frames.len(),
{
    if frames.len() > 0 {
        lemma_stacks_have_labels(names, known, frames.drop_last());
    }
}

/// At the end of a tick the live bytes are noted; the samples before are kept, but for the oldest
/// once there are 240.
pub proof fn law_heap_samples_are_live_bytes(l: Ledger)
    requires
        sound(l),
    ensures
        ({
            let series = ticked(l).heap_series;
            let old = if l.heap_series.len() < 240 {
                l.heap_series
            } else {
                l.heap_series.skip(1)
            };
            &&& series.len() == old.len() + 1
            &&& series.take(old.len() as int) == old
            &&& series.last() == live_bytes(l.blocks)
            &&& ticked(l).blocks == l.blocks
            &&& ticked(l).tick == l.tick + 1
        }),
{
    let series = ticked(l).heap_series;
    let old = if l.heap_series.len() < 240 {
        l.heap_series
    } else {
        l.heap_series.skip(1)
    };
    assert(series.take(old.len() as int) =~= old);
}

/// An allocation (also one that failed, but not a failed realloc) warms its call site in the
/// current tick by its size; nothing else gets warmer, and no other event warms anything.
pub proof fn law_allocations_warm_their_site(
    l: Ledger,
    ev: AllocEvent,
    known: Names,
    site: Seq<char>,
    at: int,
)
    requires
        sound(l),
        fits(l, ev, known),
        0 <= at < 48,
    ensures
        ({
            let warms = ev.kind != 1 && ev.kind != 6 && !(ev.kind == 3 && ev.ptr == 0);
            let by = site_of(l.names, known, stack_in(ev), l.offender_depth);
            heat_row(applied(l, ev, known).heat, site)[at] == heat_row(l.heat, site)[at] + if warms
                && site == by && at == l.cursor {
                ev.size as int
            } else {
                0
            }
        }),
        applied(l, ev, known).cursor == l.cursor,
{
    assert(ev.stack() =~= stack_in(ev));
    if l.heat.contains_key(site) {
        assert(l.heat[site].len() == 48);
    }
}

/// A crash that the hooks record comes out as it went in: with its signal, with the address that
/// it touched and the place where it stood, and with the labels of all its frames.
pub proof fn law_crashes_come_out_as_they_went_in(
    l: Ledger,
    known: Names,
    ev: AllocEvent,
    signal: i32,
    pc: usize,
    fault_addr: usize,
    frames: [usize; 32],
    frame_count: u8,
)
    requires
        frame_count <= 32,
        ev == crate::injection::crash_of(signal, pc, fault_addr, frames, frame_count),
    ensures
        applied(l, ev, known).crash == Some(
            Fault {
                signal,
                fault_addr,
                pc,
                frames: stack_labels(
                    l.names,
                    known,
                    Seq::new(frame_count as nat, |i: int| frames@[i]),
                ),
            },
        ),
        applied(l, ev, known).blocks == l.blocks,
{
    assert(ev.stack() =~= Seq::new(frame_count as nat, |i: int| frames@[i]));
    assert((signal as usize) as i32 == signal) by (bit_vector);
}

/// An event can be counted just if no counter passes the largest number: not that of events, not
/// the bytes in all if it hands out a block, and not the heat of its call site if it warms it.
pub proof fn law_events_can_be_counted(l: Ledger, ev: AllocEvent, known: Names)
    ensures
        fits(l, ev, known) <==> {
            let by = site_of(l.names, known, ev.stack(), l.offender_depth);
            let serves = ev.kind != 1 && ev.kind != 6;
            &&& ev.frame_count <= 32
            &&& l.total_events < u64::MAX
            &&& serves && ev.ptr != 0 ==> l.total_allocated + ev.size <= u64::MAX
            &&& serves && (ev.kind != 3 || ev.ptr != 0) ==> heat_row(l.heat, by)[l.cursor as int]
                + ev.size <= u64::MAX
        },
{
}

} // verus!
