//! What the tracker knows, as mathematics: which blocks are live, what has been counted, and how
//! each event changes it.

use crate::injection::AllocEvent;
use crate::injection::MAX_STACK_DEPTH;
use crate::resolver::names_at;
use crate::tally::lemma_tally_insert;
use crate::tally::lemma_tally_le;
use crate::tally::lemma_tally_remove;
use crate::tally::tally;
use crate::text::raw_address;
use vstd::prelude::*;

verus! {

/// How many events the list of recent events holds.
pub const RECENT_CAPACITY: usize = 200;

/// How many ticks the heat of a call site is kept for.
pub const HEAT_BUCKETS: usize = 48;

/// How many ticks the heap's size is kept for.
pub const HEAP_SERIES_CAP: usize = 240;

/// The names of addresses.
pub type Names = Map<usize, Seq<Seq<char>>>;

/// A live block.
pub struct Block {
    pub size: nat,
    /// The call site that is held responsible for it.
    pub site: Seq<char>,
    /// The tick in which it was allocated.
    pub alloc_tick: nat,
    /// The call stack of the allocation, nearest caller first.
    pub frames: Seq<usize>,
}

/// An event in the list of recent events.
pub struct Shown {
    pub seq: nat,
    pub kind: u8,
    pub ptr: usize,
    pub size: usize,
    pub offender: Seq<char>,
    pub frames: Seq<usize>,
}

/// A crash of the target.
pub struct Fault {
    pub signal: i32,
    pub fault_addr: usize,
    pub pc: usize,
    pub frames: Seq<Seq<char>>,
}

#[verifier::ext_equal]
pub struct Ledger {
    /// The live blocks, by address.
    pub blocks: Map<usize, Block>,
    /// The names that have been asked for so far.
    pub names: Names,
    /// Bytes allocated per call site and tick, in a ring of [`HEAT_BUCKETS`] ticks.
    pub heat: Map<Seq<char>, Seq<u64>>,
    /// The place of the current tick in that ring.
    pub cursor: nat,
    pub tick: nat,
    /// The last [`RECENT_CAPACITY`] events, the oldest first.
    pub recent: Seq<Shown>,
    pub total_events: nat,
    pub peak_bytes: nat,
    pub total_allocated: nat,
    pub alloc_count: nat,
    pub free_count: nat,
    pub temporary_count: nat,
    /// The live bytes at the end of each of the last [`HEAP_SERIES_CAP`] ticks.
    pub heap_series: Seq<u64>,
    pub crash: Option<Fault>,
    /// Which frame of a call stack is held responsible, counted from the nearest caller.
    pub offender_depth: nat,
}

pub open spec fn block_size() -> spec_fn(Block) -> nat {
    |b: Block| b.size
}

pub open spec fn size_at_site(site: Seq<char>) -> spec_fn(Block) -> nat {
    |b: Block|
        if b.site == site {
            b.size
        } else {
            0
        }
}

/// The bytes that are live.
pub open spec fn live_bytes(blocks: Map<usize, Block>) -> nat {
    tally(blocks, block_size())
}

/// The live bytes for which a call site is held responsible.
pub open spec fn site_bytes(blocks: Map<usize, Block>, site: Seq<char>) -> nat {
    tally(blocks, size_at_site(site))
}

/// The names for `addr`: those that were found when they were first asked for, or else those
/// that `known` gives now.
pub open spec fn names_for(names: Names, known: Names, addr: usize) -> Seq<Seq<char>> {
    if names.contains_key(addr) {
        names[addr]
    } else {
        names_at(known, addr)
    }
}

/// `names` after those for `addr` have been asked for.
pub open spec fn learned(names: Names, known: Names, addr: usize) -> Names {
    names.insert(addr, names_for(names, known, addr))
}

/// `names` after those for each address in `asked` have been asked for.
pub open spec fn learned_all(names: Names, known: Names, asked: Set<usize>) -> Names {
    Map::new(
        |addr: usize| names.contains_key(addr) || asked.contains(addr),
        |addr: usize| names_for(names, known, addr),
    )
}

/// One label for an address: its first name, or the address itself.
pub open spec fn address_label(names: Names, known: Names, addr: usize) -> Seq<char> {
    let found = names_for(names, known, addr);
    if found.len() > 0 {
        found[0]
    } else {
        raw_address(addr)
    }
}

/// Every label for an address: all its names, or the address itself.
pub open spec fn address_labels(names: Names, known: Names, addr: usize) -> Seq<Seq<char>> {
    let found = names_for(names, known, addr);
    if found.len() > 0 {
        found
    } else {
        seq![raw_address(addr)]
    }
}

/// A call stack as it is shown: the labels of each address in turn.
pub open spec fn stack_labels(names: Names, known: Names, frames: Seq<usize>) -> Seq<Seq<char>>
    decreases frames.len(),
{
    if frames.len() == 0 {
        Seq::empty()
    } else {
        stack_labels(names, known, frames.drop_last()) + address_labels(
            names,
            known,
            frames.last(),
        )
    }
}

/// The addresses in the call stacks of the live blocks.
pub open spec fn live_addresses(blocks: Map<usize, Block>) -> Set<usize> {
    Set::new(
        |addr: usize|
            exists|ptr: usize| #[trigger]
                blocks.contains_key(ptr) && blocks[ptr].frames.contains(addr),
    )
}

/// Call stacks are shown alike by names that agree on every address.
pub proof fn lemma_same_labels(names: Names, others: Names, known: Names, frames: Seq<usize>)
    requires
        forall|addr: usize| #[trigger]
            names_for(names, known, addr) == names_for(others, known, addr),
    ensures
        stack_labels(names, known, frames) == stack_labels(others, known, frames),
    decreases frames.len(),
{
    if frames.len() > 0 {
        lemma_same_labels(names, others, known, frames.drop_last());
        assert(names_for(names, known, frames.last()) == names_for(others, known, frames.last()));
    }
}

/// One label per address, as [`address_label`] gives it.
pub open spec fn labeller(names: Names, known: Names) -> spec_fn(usize) -> Seq<char> {
    |addr: usize| address_label(names, known, addr)
}

/// The place of the frame that is held responsible: at `depth`, or the last if there are fewer.
pub open spec fn site_index(frames: Seq<usize>, depth: nat) -> int {
    if depth < frames.len() {
        depth as int
    } else {
        frames.len() - 1
    }
}

/// The call site that is held responsible for a block allocated by `frames`.
pub open spec fn site_of(names: Names, known: Names, frames: Seq<usize>, depth: nat) -> Seq<char> {
    if frames.len() == 0 {
        "?"@
    } else {
        address_label(names, known, frames[site_index(frames, depth)])
    }
}

/// The names that have been asked for once the call site of `frames` is known.
pub open spec fn learned_site(names: Names, known: Names, frames: Seq<usize>, depth: nat) -> Names {
    if frames.len() == 0 {
        names
    } else {
        learned(names, known, frames[site_index(frames, depth)])
    }
}

/// A list that keeps the last `capacity` items, after `item` came in.
pub open spec fn kept<T>(list: Seq<T>, item: T, capacity: nat) -> Seq<T> {
    if list.len() < capacity {
        list.push(item)
    } else {
        list.push(item).drop_first()
    }
}

/// A row of heat without any.
pub open spec fn cold() -> Seq<u64> {
    Seq::new(HEAT_BUCKETS as nat, |i: int| 0u64)
}

/// The heat of a call site.
pub open spec fn heat_row(heat: Map<Seq<char>, Seq<u64>>, site: Seq<char>) -> Seq<u64> {
    if heat.contains_key(site) {
        heat[site]
    } else {
        cold()
    }
}

/// The heat after `bytes` were allocated by `site`.
pub open spec fn heated(
    heat: Map<Seq<char>, Seq<u64>>,
    cursor: nat,
    site: Seq<char>,
    bytes: nat,
) -> Map<Seq<char>, Seq<u64>> {
    let row = heat_row(heat, site);
    heat.insert(site, row.update(cursor as int, (row[cursor as int] + bytes) as u64))
}

pub open spec fn max(a: nat, b: nat) -> nat {
    if a >= b {
        a
    } else {
        b
    }
}

/// The ledger after a block was allocated. What was live at the same address is gone: its free
/// was missed. A block at address 0 is none.
pub open spec fn allocated(l: Ledger, ptr: usize, block: Block) -> Ledger {
    if ptr == 0 {
        l
    } else {
        Ledger {
            blocks: l.blocks.remove(ptr).insert(ptr, block),
            total_allocated: l.total_allocated + block.size,
            alloc_count: l.alloc_count + 1,
            ..l
        }
    }
}

/// Whether an event of this kind allocates (and does nothing else).
pub open spec fn allocates(kind: u8) -> bool {
    kind != 1 && kind != 3 && kind != 6
}

/// The ledger after `ev`, given the names that are known now.
pub open spec fn applied(l: Ledger, ev: AllocEvent, known: Names) -> Ledger {
    if ev.kind == 6 {
        crashed(l, ev, known)
    } else {
        let frames = ev.stack();
        let site = site_of(l.names, known, frames, l.offender_depth);
        let block = Block { size: ev.size as nat, site, alloc_tick: l.tick, frames };
        let heat = heated(l.heat, l.cursor, site, ev.size as nat);
        let next = if ev.kind == 1 {
            let temporary = l.blocks.contains_key(ev.ptr) && l.blocks[ev.ptr].alloc_tick == l.tick;
            Ledger {
                blocks: l.blocks.remove(ev.ptr),
                free_count: l.free_count + 1,
                temporary_count: if temporary {
                    l.temporary_count + 1
                } else {
                    l.temporary_count
                },
                ..l
            }
        } else if ev.kind == 3 {
            if ev.ptr == 0 {
                l
            } else {
                Ledger {
                    heat,
                    ..allocated(Ledger { blocks: l.blocks.remove(ev.old_ptr), ..l }, ev.ptr, block)
                }
            }
        } else {
            Ledger { heat, ..allocated(l, ev.ptr, block) }
        };
        Ledger {
            names: learned_site(l.names, known, frames, l.offender_depth),
            total_events: l.total_events + 1,
            peak_bytes: max(l.peak_bytes, live_bytes(next.blocks)),
            recent: kept(
                l.recent,
                Shown {
                    seq: l.total_events + 1,
                    kind: ev.kind,
                    ptr: ev.ptr,
                    size: ev.size,
                    offender: site,
                    frames,
                },
                RECENT_CAPACITY as nat,
            ),
            ..next
        }
    }
}

/// The ledger after the crash `ev`: the whole call stack is resolved, and nothing else changes.
pub open spec fn crashed(l: Ledger, ev: AllocEvent, known: Names) -> Ledger {
    let frames = ev.stack();
    let labels = stack_labels(l.names, known, frames);
    Ledger {
        names: learned_all(l.names, known, frames.to_set()),
        total_events: l.total_events + 1,
        crash: Some(
            Fault { signal: ev.size as i32, fault_addr: ev.old_ptr, pc: ev.ptr, frames: labels },
        ),
        recent: kept(
            l.recent,
            Shown {
                seq: l.total_events + 1,
                kind: ev.kind,
                ptr: ev.ptr,
                size: 0,
                offender: if labels.len() > 0 {
                    labels[0]
                } else {
                    "?"@
                },
                frames,
            },
            RECENT_CAPACITY as nat,
        ),
        ..l
    }
}

/// The ledger one tick later: the heap's size is noted, and the oldest heat makes room.
pub open spec fn ticked(l: Ledger) -> Ledger {
    let cursor = (l.cursor + 1) % HEAT_BUCKETS as nat;
    Ledger {
        tick: l.tick + 1,
        heap_series: kept(l.heap_series, live_bytes(l.blocks) as u64, HEAP_SERIES_CAP as nat),
        cursor,
        heat: l.heat.map_values(|row: Seq<u64>| row.update(cursor as int, 0)),
        ..l
    }
}

/// The event can be counted: no counter passes the largest number, and the stack is no longer
/// than an event can carry.
pub open spec fn fits(l: Ledger, ev: AllocEvent, known: Names) -> bool {
    let site = site_of(l.names, known, ev.stack(), l.offender_depth);
    &&& ev.frame_count <= MAX_STACK_DEPTH
    &&& l.total_events < u64::MAX
    &&& (allocates(ev.kind) || ev.kind == 3) && ev.ptr != 0 ==> l.total_allocated + ev.size
        <= u64::MAX
    &&& allocates(ev.kind) || (ev.kind == 3 && ev.ptr != 0) ==> heat_row(l.heat, site)[l.cursor as int]
        + ev.size <= u64::MAX
}

/// What holds of every ledger that was kept from the start.
pub open spec fn sound(l: Ledger) -> bool {
    &&& l.blocks.dom().finite()
    &&& !l.blocks.contains_key(0)
    &&& forall|ptr: usize| #[trigger]
        l.blocks.contains_key(ptr) ==> l.blocks[ptr].alloc_tick <= l.tick
            && l.blocks[ptr].frames.len() <= MAX_STACK_DEPTH
    &&& live_bytes(l.blocks) <= l.peak_bytes
    &&& l.peak_bytes <= l.total_allocated
    &&& l.total_allocated <= u64::MAX
    &&& l.total_events <= u64::MAX
    &&& l.alloc_count + l.free_count <= l.total_events
    &&& l.temporary_count <= l.free_count
    &&& l.recent.len() == if l.total_events < RECENT_CAPACITY {
        l.total_events as int
    } else {
        RECENT_CAPACITY as int
    }
    &&& forall|i: int|
        0 <= i < l.recent.len() ==> #[trigger] l.recent[i].seq == l.total_events - l.recent.len() + i
            + 1
    &&& l.cursor < HEAT_BUCKETS
    &&& l.heat.dom().finite()
    &&& forall|site: Seq<char>| #[trigger] l.heat.contains_key(site) ==> l.heat[site].len() == HEAT_BUCKETS
    &&& l.tick <= u64::MAX
    &&& l.heap_series.len() == if l.tick < HEAP_SERIES_CAP {
        l.tick as int
    } else {
        HEAP_SERIES_CAP as int
    }
}

/// The ledger before the first event.
pub open spec fn blank(offender_depth: nat) -> Ledger {
    Ledger {
        blocks: Map::empty(),
        names: Map::empty(),
        heat: Map::empty(),
        cursor: 0,
        tick: 0,
        recent: Seq::empty(),
        total_events: 0,
        peak_bytes: 0,
        total_allocated: 0,
        alloc_count: 0,
        free_count: 0,
        temporary_count: 0,
        heap_series: Seq::empty(),
        crash: None,
        offender_depth,
    }
}

/// The bytes of one call site are part of the live bytes.
pub proof fn lemma_site_bytes_bounded(blocks: Map<usize, Block>, site: Seq<char>)
    ensures
        site_bytes(blocks, site) <= live_bytes(blocks),
{
    lemma_tally_le(blocks, size_at_site(site), block_size());
}

/// What a block's removal does to the sums.
pub proof fn lemma_removed(blocks: Map<usize, Block>, ptr: usize)
    requires
        blocks.dom().finite(),
    ensures
        !blocks.contains_key(ptr) ==> blocks.remove(ptr) == blocks,
        blocks.contains_key(ptr) ==> live_bytes(blocks) == live_bytes(blocks.remove(ptr))
            + blocks[ptr].size,
        blocks.contains_key(ptr) ==> forall|site: Seq<char>| #[trigger]
            site_bytes(blocks, site) == site_bytes(blocks.remove(ptr), site) + if blocks[ptr].site
                == site {
                blocks[ptr].size
            } else {
                0
            },
{
    if blocks.contains_key(ptr) {
        lemma_tally_remove(blocks, ptr, block_size());
        assert forall|site: Seq<char>| #[trigger]
            site_bytes(blocks, site) == site_bytes(blocks.remove(ptr), site) + if blocks[ptr].site
                == site {
                blocks[ptr].size
            } else {
                0
            } by {
            lemma_tally_remove(blocks, ptr, size_at_site(site));
        }
    } else {
        assert(blocks.remove(ptr) =~= blocks);
    }
}

/// What a new block does to the sums.
pub proof fn lemma_inserted(blocks: Map<usize, Block>, ptr: usize, block: Block)
    requires
        blocks.dom().finite(),
        !blocks.contains_key(ptr),
    ensures
        live_bytes(blocks.insert(ptr, block)) == live_bytes(blocks) + block.size,
        forall|site: Seq<char>| #[trigger]
            site_bytes(blocks.insert(ptr, block), site) == site_bytes(blocks, site) + if block.site
                == site {
                block.size
            } else {
                0
            },
{
    lemma_tally_insert(blocks, ptr, block, block_size());
    assert forall|site: Seq<char>| #[trigger]
        site_bytes(blocks.insert(ptr, block), site) == site_bytes(blocks, site) + if block.site
            == site {
            block.size
        } else {
            0
        } by {
        lemma_tally_insert(blocks, ptr, block, size_at_site(site));
    }
}

/// Taking a block out leaves no more bytes than there were.
proof fn lemma_removal_shrinks(blocks: Map<usize, Block>, ptr: usize)
    requires
        blocks.dom().finite(),
    ensures
        live_bytes(blocks.remove(ptr)) <= live_bytes(blocks),
        blocks.remove(ptr).dom().finite(),
{
    lemma_removed(blocks, ptr);
}

/// The ledger before the first event is sound.
pub proof fn law_blank_is_sound(offender_depth: nat)
    ensures
        sound(blank(offender_depth)),
{
}

/// Every event that can be counted leaves a sound ledger sound: live bytes never pass the peak,
/// nor the peak what was allocated in all; the recent events are the last ones, numbered without
/// a gap.
pub proof fn law_events_keep_the_ledger_sound(l: Ledger, ev: AllocEvent, known: Names)
    requires
        sound(l),
        fits(l, ev, known),
    ensures
        sound(applied(l, ev, known)),
{
    let next = applied(l, ev, known);
    lemma_removal_shrinks(l.blocks, ev.ptr);
    lemma_removal_shrinks(l.blocks, ev.old_ptr);
    lemma_removal_shrinks(l.blocks.remove(ev.old_ptr), ev.ptr);
    assert(ev.stack().len() == ev.frame_count);
    let block = Block {
        size: ev.size as nat,
        site: site_of(l.names, known, ev.stack(), l.offender_depth),
        alloc_tick: l.tick,
        frames: ev.stack(),
    };
    if ev.kind != 6 && ev.kind != 1 {
        lemma_inserted(l.blocks.remove(ev.ptr), ev.ptr, block);
        lemma_inserted(l.blocks.remove(ev.old_ptr).remove(ev.ptr), ev.ptr, block);
    }
    assert forall|i: int| 0 <= i < next.recent.len() implies #[trigger] next.recent[i].seq
        == next.total_events - next.recent.len() + i + 1 by {
        if l.recent.len() < RECENT_CAPACITY {
            if i < l.recent.len() {
                assert(next.recent[i] == l.recent[i]);
            }
        } else if i + 1 < l.recent.len() {
            assert(next.recent[i] == l.recent[i + 1]);
        }
    }
}

/// A tick leaves a sound ledger sound.
pub proof fn law_ticks_keep_the_ledger_sound(l: Ledger)
    requires
        sound(l),
        l.tick < u64::MAX,
    ensures
        sound(ticked(l)),
{
    assert(ticked(l).heat.dom() =~= l.heat.dom());
}

/// A malloc and the free of what it returned leave the same blocks live as before (if the
/// address was not live already).
pub proof fn law_malloc_then_free_balances(
    l: Ledger,
    malloc: AllocEvent,
    free: AllocEvent,
    known: Names,
)
    requires
        sound(l),
        allocates(malloc.kind),
        free.kind == 1,
        free.ptr == malloc.ptr,
        !l.blocks.contains_key(malloc.ptr),
    ensures
        applied(applied(l, malloc, known), free, known).blocks == l.blocks,
        live_bytes(applied(applied(l, malloc, known), free, known).blocks) == live_bytes(l.blocks),
{
    let after = applied(applied(l, malloc, known), free, known);
    assert(after.blocks =~= l.blocks);
}

/// A block that comes in at an address that was live replaces what was there: only the new one
/// is counted as live.
pub proof fn law_reused_address_is_reconciled(l: Ledger, ev: AllocEvent, known: Names)
    requires
        sound(l),
        allocates(ev.kind),
        ev.ptr != 0,
        l.blocks.contains_key(ev.ptr),
    ensures
        applied(l, ev, known).blocks.dom() == l.blocks.dom(),
        live_bytes(applied(l, ev, known).blocks) + l.blocks[ev.ptr].size == live_bytes(l.blocks)
            + ev.size,
{
    let next = applied(l, ev, known);
    lemma_removed(l.blocks, ev.ptr);
    lemma_inserted(l.blocks.remove(ev.ptr), ev.ptr, next.blocks[ev.ptr]);
    assert(next.blocks.dom() =~= l.blocks.dom());
}

/// A realloc that failed leaves the live blocks, the heat and the counts of allocations alone.
pub proof fn law_failed_realloc_changes_no_block(l: Ledger, ev: AllocEvent, known: Names)
    requires
        ev.kind == 3,
        ev.ptr == 0,
    ensures
        applied(l, ev, known).blocks == l.blocks,
        applied(l, ev, known).heat == l.heat,
        applied(l, ev, known).total_allocated == l.total_allocated,
        applied(l, ev, known).alloc_count == l.alloc_count,
        applied(l, ev, known).free_count == l.free_count,
{
}

/// A realloc that worked moves the bookkeeping: the old block is gone, the new one is live under
/// its own size, and everything else is as it was.
pub proof fn law_realloc_moves_the_block(l: Ledger, ev: AllocEvent, known: Names)
    requires
        sound(l),
        ev.kind == 3,
        ev.ptr != 0,
    ensures
        applied(l, ev, known).blocks.contains_key(ev.ptr),
        applied(l, ev, known).blocks[ev.ptr].size == ev.size,
        ev.old_ptr != ev.ptr ==> !applied(l, ev, known).blocks.contains_key(ev.old_ptr),
        forall|ptr: usize|
            ptr != ev.ptr && ptr != ev.old_ptr ==> (#[trigger] applied(
                l,
                ev,
                known,
            ).blocks.contains_key(ptr) <==> l.blocks.contains_key(ptr)) && (l.blocks.contains_key(
                ptr,
            ) ==> applied(l, ev, known).blocks[ptr] == l.blocks[ptr]),
        applied(l, ev, known).free_count == l.free_count,
{
}

/// A crash is recorded and changes no block, no heat and no count but that of events.
pub proof fn law_crash_leaves_the_heap_alone(l: Ledger, ev: AllocEvent, known: Names)
    requires
        ev.kind == 6,
    ensures
        applied(l, ev, known).blocks == l.blocks,
        applied(l, ev, known).heat == l.heat,
        applied(l, ev, known).peak_bytes == l.peak_bytes,
        applied(l, ev, known).total_allocated == l.total_allocated,
        applied(l, ev, known).alloc_count == l.alloc_count,
        applied(l, ev, known).free_count == l.free_count,
        applied(l, ev, known).temporary_count == l.temporary_count,
        applied(l, ev, known).crash is Some,
{
}

/// The counters that only grow do so: no event takes anything back.
pub proof fn law_counters_never_shrink(l: Ledger, ev: AllocEvent, known: Names)
    ensures
        applied(l, ev, known).total_events == l.total_events + 1,
        applied(l, ev, known).peak_bytes >= l.peak_bytes,
        applied(l, ev, known).total_allocated >= l.total_allocated,
        applied(l, ev, known).alloc_count >= l.alloc_count,
        applied(l, ev, known).free_count >= l.free_count,
        applied(l, ev, known).temporary_count >= l.temporary_count,
        applied(l, ev, known).tick == l.tick,
{
}

/// Names are asked for once: what was found first is kept, whatever is known later.
pub proof fn law_names_are_memoized(l: Ledger, ev: AllocEvent, known: Names, addr: usize)
    requires
        l.names.contains_key(addr),
    ensures
        applied(l, ev, known).names.contains_key(addr),
        applied(l, ev, known).names[addr] == l.names[addr],
{
}

/// Asking makes no difference to the names that an address has.
pub proof fn law_asking_changes_no_name(names: Names, known: Names, asked: Set<usize>, addr: usize)
    ensures
        names_for(learned_all(names, known, asked), known, addr) == names_for(names, known, addr),
        address_label(learned_all(names, known, asked), known, addr) == address_label(
            names,
            known,
            addr,
        ),
{
}

/// The addresses whose names `ev` asks for.
pub open spec fn asked_by(l: Ledger, ev: AllocEvent) -> Seq<usize> {
    let frames = ev.stack();
    if ev.kind == 6 || frames.len() == 0 {
        frames
    } else {
        seq![frames[site_index(frames, l.offender_depth)]]
    }
}

/// What an event does depends on no names but those that it asks for.
pub proof fn law_only_asked_names_matter(l: Ledger, ev: AllocEvent, known: Names, other: Names)
    requires
        forall|addr: usize| #[trigger]
            asked_by(l, ev).contains(addr) ==> names_at(known, addr) == names_at(other, addr),
    ensures
        applied(l, ev, known) == applied(l, ev, other),
{
    let frames = ev.stack();
    if ev.kind == 6 {
        assert(asked_by(l, ev) == frames);
        assert forall|addr: usize| #[trigger] frames.contains(addr) implies names_at(known, addr)
            == names_at(other, addr) by {
            assert(asked_by(l, ev).contains(addr));
        }
        lemma_labels_of_asked(l.names, known, other, frames);
        assert forall|addr: usize| frames.to_set().contains(addr) implies names_for(
            l.names,
            known,
            addr,
        ) == #[trigger] names_for(l.names, other, addr) by {
            assert(asked_by(l, ev).contains(addr));
        }
        assert(learned_all(l.names, known, frames.to_set()) =~= learned_all(
            l.names,
            other,
            frames.to_set(),
        ));
    } else if frames.len() > 0 {
        assert(asked_by(l, ev)[0] == frames[site_index(frames, l.offender_depth)]);
        assert(asked_by(l, ev).contains(frames[site_index(frames, l.offender_depth)]));
    }
}

proof fn lemma_labels_of_asked(names: Names, known: Names, other: Names, frames: Seq<usize>)
    requires
        forall|addr: usize| #[trigger]
            frames.contains(addr) ==> names_at(known, addr) == names_at(other, addr),
    ensures
        stack_labels(names, known, frames) == stack_labels(names, other, frames),
    decreases frames.len(),
{
    if frames.len() > 0 {
        let rest = frames.drop_last();
        assert forall|addr: usize| #[trigger] rest.contains(addr) implies names_at(known, addr)
            == names_at(other, addr) by {
            let k = choose|k: int| 0 <= k < rest.len() && rest[k] == addr;
            assert(frames[k] == addr);
            assert(frames.contains(addr));
        }
        lemma_labels_of_asked(names, known, other, rest);
        assert(frames[frames.len() - 1] == frames.last());
        assert(frames.contains(frames.last()));
    }
}

/// The ledger `n` ticks later.
pub open spec fn ticked_times(l: Ledger, n: nat) -> Ledger
    decreases n,
{
    if n == 0 {
        l
    } else {
        ticked(ticked_times(l, (n - 1) as nat))
    }
}

/// Heat is kept for [`HEAT_BUCKETS`] ticks: after that many without an event none is left.
pub proof fn law_heat_fades(l: Ledger, site: Seq<char>)
    requires
        sound(l),
        l.heat.contains_key(site),
    ensures
        ticked_times(l, HEAT_BUCKETS as nat).heat.contains_key(site),
        ticked_times(l, HEAT_BUCKETS as nat).heat[site] == cold(),
{
    lemma_heat_after(l, site, HEAT_BUCKETS as nat);
    let row = ticked_times(l, HEAT_BUCKETS as nat).heat[site];
    assert forall|i: int| 0 <= i < HEAT_BUCKETS implies #[trigger] row[i] == 0 by {
        let back = if i > l.cursor {
            i - l.cursor
        } else {
            i - l.cursor + HEAT_BUCKETS
        };
        assert(cleared_at(l.cursor, back as nat) == i);
    }
    assert(row =~= cold());
}

/// The place in the ring that is cleared by the `n`-th tick from now.
pub open spec fn cleared_at(cursor: nat, n: nat) -> int {
    ((cursor + n) % HEAT_BUCKETS as nat) as int
}

/// After `n` ticks, the places that those ticks passed are clear and the others untouched.
proof fn lemma_heat_after(l: Ledger, site: Seq<char>, n: nat)
    requires
        sound(l),
        l.heat.contains_key(site),
        n <= HEAT_BUCKETS,
    ensures
        ticked_times(l, n).heat.contains_key(site),
        ticked_times(l, n).heat[site].len() == HEAT_BUCKETS,
        ticked_times(l, n).cursor == cleared_at(l.cursor, n),
        forall|k: nat| 1 <= k <= n ==> ticked_times(l, n).heat[site][#[trigger] cleared_at(l.cursor, k)] == 0,
    decreases n,
{
    if n > 0 {
        let m = (n - 1) as nat;
        lemma_heat_after(l, site, m);
        let before = ticked_times(l, m);
        let after = ticked_times(l, n);
        assert(after == ticked(before));
        assert(after.cursor == cleared_at(l.cursor, n));
        assert(after.heat[site] == before.heat[site].update(after.cursor as int, 0));
    }
}

} // verus!
