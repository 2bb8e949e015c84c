//! What the hooks record, and how call stacks are found.

use crate::bootstrap::law_blocks_are_aligned;
use crate::bootstrap::place;
use crate::injection::event_of;
use crate::injection::route_of;
use crate::injection::EventKind;
use crate::injection::Request;
use crate::injection::Route;
use crate::ledger::applied;
use crate::ledger::Ledger;
use crate::ledger::Names;
use crate::ring_buffer::mismatch_text;
use crate::ring_buffer::pending;
use crate::ring_buffer::slot_of;
use crate::stack_walk::callers;
use crate::stack_walk::chain;
use crate::stack_walk::chain_above;
use crate::stack_walk::trace;
use crate::stack_walk::Memory;
use crate::state::kind_text;
use crate::text::decimal;
use vstd::arithmetic::power2::is_pow2;
use vstd::prelude::*;

verus! {

/// Whether a frame stands at `rbp`: its address is a multiple of 8 but not 0, and the word above
/// can be read and holds a return address.
pub open spec fn has_frame(mem: Memory, rbp: usize) -> bool {
    rbp != 0 && rbp % 8 == 0 && (mem(rbp.wrapping_add(8)) matches Some(ret) && ret != 0)
}

/// Whether the frame at `rbp` was called from the one at `next`: the word at `rbp` can be read
/// and points there, which is further up but less than 1 MiB away.
pub open spec fn called_from(mem: Memory, rbp: usize, next: usize) -> bool {
    mem(rbp) == Some(next) && rbp < next < rbp + 1048576
}

/// `rbps` are frames, each called from the next, and `rets` what they return to.
pub open spec fn is_stack(mem: Memory, rbps: Seq<usize>, rets: Seq<usize>) -> bool {
    &&& rbps.len() == rets.len()
    &&& forall|i: int| #![trigger rbps[i]]
        0 <= i < rbps.len() ==> has_frame(mem, rbps[i]) && mem(rbps[i].wrapping_add(8)) == Some(
            rets[i],
        )
    &&& forall|i: int| #![trigger rbps[i]]
        0 <= i < rbps.len() - 1 ==> called_from(mem, rbps[i], rbps[i + 1])
}

/// What a stack returns to is recorded, nearest caller first, as far as there is room.
pub proof fn law_stacks_are_recorded(
    mem: Memory,
    rbps: Seq<usize>,
    rets: Seq<usize>,
    room: nat,
)
    requires
        is_stack(mem, rbps, rets),
        rbps.len() > 0,
        rets.len() <= room,
    ensures
        chain(mem, rbps[0], room).len() >= rets.len(),
        chain(mem, rbps[0], room).take(rets.len() as int) == rets,
    decreases rbps.len(),
{
    let found = chain(mem, rbps[0], room);
    assert(has_frame(mem, rbps[0]));
    assert(found =~= seq![rets[0]] + callers(mem, rbps[0], (room - 1) as nat));
    if rbps.len() > 1 {
        let up = rbps.skip(1);
        let above = rets.skip(1);
        assert(called_from(mem, rbps[0], rbps[1]));
        assert(is_stack(mem, up, above)) by {
            assert forall|i: int| #![trigger up[i]] 0 <= i < up.len() implies has_frame(mem, up[i])
                && mem(up[i].wrapping_add(8)) == Some(above[i]) by {
                assert(up[i] == rbps[i + 1]);
            }
            assert forall|i: int| #![trigger up[i]] 0 <= i < up.len() - 1 implies called_from(
                mem,
                up[i],
                up[i + 1],
            ) by {
                assert(up[i] == rbps[i + 1]);
            }
        }
        law_stacks_are_recorded(mem, up, above, (room - 1) as nat);
        let rest = chain(mem, up[0], (room - 1) as nat);
        assert(found =~= seq![rets[0]] + rest);
        assert forall|i: int| 0 <= i < rets.len() implies found[i] == rets[i] by {
            if i > 0 {
                assert(rest.take(above.len() as int)[i - 1] == above[i - 1]);
            }
        }
    }
    assert(found.take(rets.len() as int) =~= rets);
}

/// Whether a walk that has come to the frame at `rbp` ends there.
pub open spec fn is_outermost(mem: Memory, rbp: usize) -> bool {
    forall|next: usize| #[trigger] called_from(mem, rbp, next) ==> !has_frame(mem, next)
}

/// Nothing else is recorded: what is found from `rbp` on is what a stack that starts there returns
/// to, as far as there is room, up to a frame that was called from nowhere that can be told.
pub proof fn law_only_stacks_are_recorded(mem: Memory, rbp: usize, room: nat)
    ensures
        ({
            let found = chain(mem, rbp, room);
            &&& found.len() <= room
            &&& found.len() == 0 && room > 0 ==> !has_frame(mem, rbp)
            &&& found.len() > 0 ==> exists|rbps: Seq<usize>|
                #[trigger] is_stack(mem, rbps, found) && rbps[0] == rbp && (found.len() < room
                    ==> is_outermost(mem, rbps.last()))
        }),
    decreases room,
{
    let found = chain(mem, rbp, room);
    if room > 0 && has_frame(mem, rbp) {
        let ret = mem(rbp.wrapping_add(8))->0;
        match mem(rbp) {
            Some(next) if called_from(mem, rbp, next) => {
                let rest = chain(mem, next, (room - 1) as nat);
                law_only_stacks_are_recorded(mem, next, (room - 1) as nat);
                assert(found =~= seq![ret] + rest);
                if rest.len() > 0 {
                    let up = choose|up: Seq<usize>|
                        #[trigger] is_stack(mem, up, rest) && up[0] == next && (rest.len() < room
                            - 1 ==> is_outermost(mem, up.last()));
                    let rbps = seq![rbp] + up;
                    assert(is_stack(mem, rbps, found)) by {
                        assert forall|i: int| #![trigger rbps[i]] 0 <= i < rbps.len() implies has_frame(
                            mem,
                            rbps[i],
                        ) && mem(rbps[i].wrapping_add(8)) == Some(found[i]) by {
                            if i > 0 {
                                assert(rbps[i] == up[i - 1]);
                            }
                        }
                        assert forall|i: int| #![trigger rbps[i]]
                            0 <= i < rbps.len() - 1 implies called_from(
                            mem,
                            rbps[i],
                            rbps[i + 1],
                        ) by {
                            if i > 0 {
                                assert(rbps[i] == up[i - 1]);
                            }
                        }
                    }
                    assert(rbps.last() == up.last());
                } else {
                    let rbps = seq![rbp];
                    assert(is_stack(mem, rbps, found));
                    assert(rbps.last() == rbp);
                    if found.len() < room {
                        assert(is_outermost(mem, rbp)) by {
                            assert forall|other: usize| #[trigger]
                                called_from(mem, rbp, other) implies !has_frame(mem, other) by {
                                assert(other == next);
                            }
                        }
                    }
                }
            },
            _ => {
                let rbps = seq![rbp];
                assert(found =~= seq![ret]);
                assert(is_stack(mem, rbps, found));
                assert(rbps.last() == rbp);
                assert(is_outermost(mem, rbp));
            },
        }
    }
}

/// A trace holds the seed, if there is one, and then what is found above the frames that are
/// skipped, 32 frames in all; a frame is skipped by going where it was called from, and where
/// that cannot be told nothing is found.
pub proof fn law_traces_skip_from_caller_to_caller(
    mem: Memory,
    rbp: usize,
    skip: nat,
    pc: usize,
    next: usize,
)
    ensures
        trace(mem, rbp, 0, None) == chain(mem, rbp, 32),
        trace(mem, rbp, skip, Some(pc)) == seq![pc] + chain_above(mem, rbp, skip, 31),
        trace(mem, rbp, skip, None) == chain_above(mem, rbp, skip, 32),
        rbp != 0 && rbp % 8 == 0 && called_from(mem, rbp, next) ==> trace(mem, rbp, skip + 1, None)
            == trace(mem, next, skip, None),
        rbp == 0 || rbp % 8 != 0 || (forall|up: usize| !#[trigger] called_from(mem, rbp, up))
            ==> trace(mem, rbp, skip + 1, None).len() == 0,
{
    assert(trace(mem, rbp, 0, None) =~= chain(mem, rbp, 32));
    assert(trace(mem, rbp, skip, None) =~= chain_above(mem, rbp, skip, 32));
    assert(trace(mem, rbp, skip + 1, None) =~= chain_above(mem, rbp, skip + 1, 32));
    assert(trace(mem, next, skip, None) =~= chain_above(mem, next, skip, 32));
    if rbp != 0 && rbp % 8 == 0 && (forall|up: usize| !#[trigger] called_from(mem, rbp, up)) {
        if let Some(up) = mem(rbp) {
            assert(!called_from(mem, rbp, up));
        }
    }
}

/// What a call into an allocator leaves in the ledger, once it was served, recorded and applied:
/// the block that was handed out, with the size that was asked for and the caller's stack; no
/// block where one was freed. The newest event shows the call by its name.
pub proof fn law_calls_reach_the_ledger(
    l: Ledger,
    known: Names,
    request: Request,
    ptr: usize,
    status: i32,
    frames: [usize; 32],
    frame_count: u8,
)
    requires
        frame_count <= 32,
        ptr != 0,
    ensures
        ({
            let event = event_of(request, ptr, status, frames, frame_count);
            let blocks = applied(l, event->0, known).blocks;
            let newest = applied(l, event->0, known).recent.last();
            let size = match request {
                Request::Malloc { size } => size as int,
                Request::Calloc { nmemb, size } => if nmemb * size <= usize::MAX {
                    nmemb * size
                } else {
                    usize::MAX as int
                },
                Request::Realloc { size, .. } => size as int,
                Request::PosixMemalign { size, .. } => size as int,
                Request::AlignedAlloc { size, .. } => size as int,
                Request::Free { .. } => 0,
            };
            let name = match request {
                Request::Malloc { .. } => "malloc"@,
                Request::Calloc { .. } => "calloc"@,
                Request::Realloc { .. } => "realloc"@,
                Request::PosixMemalign { .. } => "posix_memalign"@,
                Request::AlignedAlloc { .. } => "aligned_alloc"@,
                Request::Free { .. } => "free"@,
            };
            &&& event is None <==> request is PosixMemalign && status != 0
            &&& event is Some ==> {
                &&& newest.size == size
                &&& kind_text(newest.kind) == name
                &&& newest.frames == Seq::new(frame_count as nat, |i: int| frames@[i])
                &&& match request {
                    Request::Free { ptr: freed } => newest.ptr == freed && !blocks.contains_key(
                        freed,
                    ),
                    Request::Realloc { ptr: old, .. } => newest.ptr == ptr && (old != ptr
                        ==> !blocks.contains_key(old)),
                    _ => newest.ptr == ptr,
                }
                &&& !(request is Free) ==> {
                    &&& blocks.contains_key(ptr)
                    &&& blocks[ptr].size == size
                    &&& blocks[ptr].frames == Seq::new(frame_count as nat, |i: int| frames@[i])
                }
            }
        }),
{
    let event = event_of(request, ptr, status, frames, frame_count);
    if event is Some {
        assert(event->0.stack() =~= Seq::new(frame_count as nat, |i: int| frames@[i]));
    }
}

/// The arena serves just what the real allocator cannot serve: calls that come before it was
/// found, and a realloc of the arena's own memory, which the real one must not see. It is asked
/// for what the caller asked for, aligned to 16 bytes unless the caller asks for more, and cleared
/// where the caller may expect that.
pub proof fn law_the_arena_steps_in(
    request: Request,
    real_known: bool,
    base: usize,
)
    ensures
        ({
            let way = route_of(request, real_known, base);
            match request {
                Request::Free { ptr } => if ptr == 0 || base <= ptr < base + 65536 {
                    way == Route::Ignore
                } else if real_known {
                    way == Route::Real
                } else {
                    way == Route::RecordOnly
                },
                Request::Realloc { ptr, size } => if real_known && (ptr == 0 || ptr < base || ptr
                    >= base + 65536) {
                    way == Route::Real
                } else {
                    way == (Route::Arena { size, align: 16, zeroed: true })
                },
                _ => if real_known {
                    way == Route::Real
                } else {
                    match (request, way) {
                        (
                            Request::Malloc { size: asked },
                            Route::Arena { size, align, zeroed },
                        ) => size == asked && align == 16 && !zeroed,
                        (
                            Request::Calloc { nmemb, size: each },
                            Route::Arena { size, align, zeroed },
                        ) => (nmemb * each <= usize::MAX ==> size == nmemb * each) && (nmemb * each
                            > usize::MAX ==> size == usize::MAX) && align == 16 && zeroed,
                        (
                            Request::PosixMemalign { alignment, size: asked },
                            Route::Arena { size, align, zeroed },
                        ) => size == asked && align == alignment && !zeroed,
                        (
                            Request::AlignedAlloc { alignment, size: asked },
                            Route::Arena { size, align, zeroed },
                        ) => size == asked && align == alignment && !zeroed,
                        _ => false,
                    }
                },
            }
        }),
{
}

/// A block in the arena of 65536 bytes starts at the first multiple of its alignment, and of 16,
/// that is free; it is refused just if it would not end within the arena.
pub proof fn law_the_arena_is_filled_up(
    base: usize,
    used: usize,
    size: usize,
    align: usize,
    start: int,
)
    requires
        align == 0 || is_pow2(align as int),
        used <= 65536,
        base + 65536 <= usize::MAX,
        ({
            let unit = if align < 16 {
                16
            } else {
                align as int
            };
            start % unit == 0 && base + used <= start < base + used + unit
        }),
    ensures
        place(base, used, size, align) == if start + size <= base + 65536 {
            Some((start as usize, (start + size - base) as usize))
        } else {
            None
        },
{
    law_blocks_are_aligned(base, used, size, align);
    let unit = if align < 16 {
        16
    } else {
        align as int
    };
    let first = crate::bootstrap::first_aligned(base + used, unit);
    vstd::arithmetic::div_mod::lemma_fundamental_div_mod(start, unit);
    vstd::arithmetic::div_mod::lemma_fundamental_div_mod(first, unit);
    let a = start / unit;
    let b = first / unit;
    assert(a == b) by (nonlinear_arith)
        requires
            start == unit * a,
            first == unit * b,
            -unit < start - first < unit,
            unit > 0,
    ;
}

/// A shared segment is taken just if its size is the right one; otherwise the message tells both.
pub proof fn law_segments_have_the_right_size(name: Seq<char>, actual: nat, expected: nat)
    ensures
        mismatch_text(name, actual, expected) is None <==> actual == expected,
        actual != expected ==> mismatch_text(name, actual, expected) == Some(
            "shared memory segment '"@ + name + "' is "@ + decimal(actual) + " bytes, expected "@
                + decimal(expected)
                + " bytes (RingBuffer<T, N> type/capacity mismatch between processes)"@,
        ),
{
}

/// How many items wait is how far the two counters are apart, also after one of them has wrapped;
/// an item with a number goes to the slot of that number's remainder; and two that wait at the
/// same time go to different slots.
pub proof fn law_waiting_items_have_their_slots(
    head: u64,
    tail: u64,
    capacity: usize,
    one: u64,
    other: u64,
)
    requires
        capacity > 0,
        one < other,
        other - one < capacity,
    ensures
        (tail - pending(head, tail) - head) % 0x1_0000_0000_0000_0000 == 0,
        head <= tail ==> pending(head, tail) == tail - head,
        slot_of(one, capacity) < capacity,
        slot_of(one, capacity) == one as int % capacity as int,
        slot_of(one, capacity) != slot_of(other, capacity),
{
    let c = capacity as int;
    if one as int % c == other as int % c {
        vstd::arithmetic::div_mod::lemma_mod_equivalence(other as int, one as int, c);
        vstd::arithmetic::div_mod::lemma_small_mod((other - one) as nat, c as nat);
    }
}

/// What is recorded of a call besides its block: the alignment that was asked for, and for a
/// realloc the block that it replaces.
pub proof fn law_calls_are_recorded_in_full(
    request: Request,
    ptr: usize,
    frames: [usize; 32],
    frame_count: u8,
)
    ensures
        event_of(request, ptr, 0, frames, frame_count) is Some,
        ({
            let event = event_of(request, ptr, 0, frames, frame_count)->0;
            &&& event.align == match request {
                Request::PosixMemalign { alignment, .. } => alignment,
                Request::AlignedAlloc { alignment, .. } => alignment,
                _ => 0,
            }
            &&& event.old_ptr == match request {
                Request::Realloc { ptr: old, .. } => old,
                _ => 0,
            }
            &&& event.frames == frames && event.frame_count == frame_count
        }),
{
}

/// Different kinds of events have different numbers, by which they are told again.
pub proof fn law_kinds_are_numbered(kind: EventKind)
    ensures
        kind.code() == match kind {
            EventKind::Malloc => 0u8,
            EventKind::Free => 1,
            EventKind::Calloc => 2,
            EventKind::Realloc => 3,
            EventKind::PosixMemalign => 4,
            EventKind::AlignedAlloc => 5,
            EventKind::Crash => 6,
        },
{
}

} // verus!
