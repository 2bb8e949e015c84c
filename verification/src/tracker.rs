//! Keeps the ledger of a target's heap from the stream of its events: live blocks, the call
//! sites held responsible for them, heat, leaks, counts and crashes.

use crate::flame::flame_level;
use crate::flame::picked;
use crate::flame::shows;
use crate::flame::under;
use crate::flame::Trace;
use crate::injection::AllocEvent;
use crate::injection::MAX_STACK_DEPTH;
use crate::ledger::blank;
use crate::ledger::lemma_inserted;
use crate::ledger::lemma_removed;
use crate::ledger::lemma_site_bytes_bounded;
use crate::ledger::law_events_keep_the_ledger_sound;
use crate::ledger::law_ticks_keep_the_ledger_sound;
use crate::ledger::block_size;
use crate::ledger::labeller;
use crate::ledger::live_addresses;
use crate::ledger::lemma_same_labels;
use crate::ledger::asked_by;
use crate::ledger::cold;
use crate::ledger::fits;
use crate::ledger::heated;
use crate::ledger::heat_row;
use crate::ledger::learned;
use crate::ledger::learned_all;
use crate::ledger::learned_site;
use crate::ledger::live_bytes;
use crate::ledger::names_for;
use crate::ledger::site_bytes;
use crate::ledger::site_of;
use crate::ledger::sound;
use crate::ledger::stack_labels;
use crate::ledger::address_label;
use crate::ledger::allocated;
use crate::ledger::applied;
use crate::ledger::crashed;
use crate::ledger::ticked;
use crate::ledger::kept;
use crate::ledger::Block;
use crate::ledger::Fault;
use crate::ledger::Ledger;
use crate::ledger::Names;
use crate::ledger::Shown;
use crate::ledger::HEAT_BUCKETS;
use crate::ledger::HEAP_SERIES_CAP;
use crate::ledger::RECENT_CAPACITY;
use crate::order::heaviest;
use crate::resolver::copy_texts;
use crate::resolver::names_at;
use crate::resolver::Resolver;
use crate::sites::SiteTable;
use crate::state::FlameView;
use crate::state::HeatView;
use crate::state::LeakRow;
use crate::state::LeakView;
use crate::symbols::texts;
use crate::tally::lemma_total_le;
use crate::tally::lemma_tally_listing;
use crate::tally::values_at;
use crate::tally::total;
use crate::tally::lists;
use crate::text::push_decimal;
use crate::text::push_replaced;
use crate::text::raw_address;
use crate::text::raw_address_text;
use crate::tally::lemma_total_prefix;
use crate::tally::lemma_total_step;
use crate::views::bytes_held;
use crate::views::cell_value;
use crate::views::heat_countable;
use crate::views::holds_bytes;
use crate::views::is_offender_list;
use crate::views::lemma_ranking;
use crate::views::offender_rows;
use crate::views::is_heat_view;
use crate::views::is_largest_cell;
use crate::views::unrolled;
use crate::views::heat_rows;
use crate::views::is_warm;
use crate::views::warmth;
use crate::views::lemma_unrolled_total;
use crate::views::lemma_cold_total;
use crate::views::is_leak_view;
use crate::views::leaked_size;
use crate::views::leaked_one;
use crate::views::is_leaked;
use crate::views::age;
use crate::views::leak_entry;
use crate::views::lemma_leak_here;
use crate::views::lemma_leak_elsewhere;
use crate::views::lemma_leak_part;
use crate::views::is_leak_list;
use crate::views::is_leak_row;
use crate::views::leak_rows;
use crate::views::lemma_leak_view;
use crate::views::is_flame_view;
use crate::views::path_bytes;
use crate::views::size_under;
use crate::views::is_folded;
use crate::views::folds;
use crate::views::folded_bytes;
use crate::views::folded_lines;
use crate::views::joined_back;
use crate::views::lists_keys;
use crate::views::size_at_key;
use crate::views::row_total;
use std::collections::HashMap;
use std::collections::VecDeque;
use vstd::prelude::*;
use vstd::string::StringExecFns;

verus! {

broadcast use vstd::std_specs::hash::group_hash_axioms;

struct ActiveAlloc {
    size: u64,
    offender: String,
    alloc_tick: u64,
    frames: Vec<usize>,
}

impl View for ActiveAlloc {
    type V = Block;

    closed spec fn view(&self) -> Block {
        Block {
            size: self.size as nat,
            site: self.offender@,
            alloc_tick: self.alloc_tick as nat,
            frames: self.frames@,
        }
    }
}

/// An event in the list of recent events.
pub struct DisplayEvent {
    pub seq: u64,
    pub kind: u8,
    pub ptr: usize,
    pub size: usize,
    pub offender: String,
    pub frames: Vec<usize>,
}

impl View for DisplayEvent {
    type V = Shown;

    open spec fn view(&self) -> Shown {
        Shown {
            seq: self.seq as nat,
            kind: self.kind,
            ptr: self.ptr,
            size: self.size,
            offender: self.offender@,
            frames: self.frames@,
        }
    }
}

/// A copy of a call stack.
fn copy_frames(frames: &Vec<usize>) -> (copy: Vec<usize>)
    ensures
        copy@ == frames@,
{
    let mut copy: Vec<usize> = Vec::new();
    let mut i: usize = 0;
    while i < frames.len()
        invariant
            i <= frames.len(),
            copy@ == frames@.take(i as int),
        decreases frames.len() - i,
    {
        copy.push(frames[i]);
        i += 1;
        assert(copy@ =~= frames@.take(i as int));
    }
    assert(frames@.take(i as int) =~= frames@);
    copy
}

impl Clone for DisplayEvent {
    fn clone(&self) -> (copy: Self)
        ensures
            copy@ == self@,
    {
        DisplayEvent {
            seq: self.seq,
            kind: self.kind,
            ptr: self.ptr,
            size: self.size,
            offender: self.offender.clone(),
            frames: copy_frames(&self.frames),
        }
    }
}

/// A crash of the target: the signal, the address it touched, where it stood, and how it got
/// there.
pub struct CrashInfo {
    pub signal: i32,
    pub fault_addr: usize,
    pub pc: usize,
    pub frames: Vec<String>,
}

impl View for CrashInfo {
    type V = Fault;

    open spec fn view(&self) -> Fault {
        Fault {
            signal: self.signal,
            fault_addr: self.fault_addr,
            pc: self.pc,
            frames: texts(self.frames@),
        }
    }
}

impl Clone for CrashInfo {
    fn clone(&self) -> (copy: Self)
        ensures
            copy@ == self@,
    {
        CrashInfo {
            signal: self.signal,
            fault_addr: self.fault_addr,
            pc: self.pc,
            frames: copy_texts(&self.frames),
        }
    }
}

/// What a crash that may not have happened holds.
pub open spec fn fault_of(crash: Option<CrashInfo>) -> Option<Fault> {
    match crash {
        Some(c) => Some(c@),
        None => None,
    }
}

/// What the events in a list hold.
pub open spec fn shown(list: Seq<DisplayEvent>) -> Seq<Shown> {
    list.map_values(|e: DisplayEvent| e@)
}

/// The names that a resolver gives; none without a resolver.
pub open spec fn known_to(resolver: Option<Resolver>) -> Names {
    match resolver {
        Some(r) => r.known(),
        None => Map::empty(),
    }
}

/// What a tracker has counted.
#[derive(Clone, Copy, Debug, PartialEq, Eq, Structural)]
pub struct Counts {
    pub active_count: usize,
    pub active_bytes: u64,
    pub peak_bytes: u64,
    pub total_allocated: u64,
    pub alloc_count: u64,
    pub free_count: u64,
    pub temporary_count: u64,
    pub total_events: u64,
}

pub struct Tracker {
    active: HashMap<usize, ActiveAlloc>,
    offenders: SiteTable<u64>,
    resolved_cache: HashMap<usize, Vec<String>>,
    heat: SiteTable<Vec<u64>>,
    cursor: usize,
    tick: u64,
    pub recent: VecDeque<DisplayEvent>,
    pub total_events: u64,
    pub active_bytes: u64,
    pub peak_bytes: u64,
    pub total_allocated: u64,
    pub alloc_count: u64,
    pub free_count: u64,
    pub temporary_count: u64,
    heap_series: VecDeque<u64>,
    pub crash: Option<CrashInfo>,
    offender_depth: usize,
}

impl View for Tracker {
    type V = Ledger;

    closed spec fn view(&self) -> Ledger {
        Ledger {
            blocks: self.active@.map_values(|a: ActiveAlloc| a@),
            names: self.resolved_cache@.map_values(|names: Vec<String>| texts(names@)),
            heat: self.heat@.map_values(|row: Vec<u64>| row@),
            cursor: self.cursor as nat,
            tick: self.tick as nat,
            recent: shown(self.recent@),
            total_events: self.total_events as nat,
            peak_bytes: self.peak_bytes as nat,
            total_allocated: self.total_allocated as nat,
            alloc_count: self.alloc_count as nat,
            free_count: self.free_count as nat,
            temporary_count: self.temporary_count as nat,
            heap_series: self.heap_series@,
            crash: fault_of(self.crash),
            offender_depth: self.offender_depth as nat,
        }
    }
}

/// What an offender table says of a call site: nothing is 0.
spec fn noted_bytes(offenders: Map<Seq<char>, u64>, site: Seq<char>) -> nat {
    if offenders.contains_key(site) {
        offenders[site] as nat
    } else {
        0
    }
}

impl Default for Tracker {
    fn default() -> (tracker: Self)
        ensures
            tracker.wf(),
            tracker@ == blank(0),
    {
        Self::new(0)
    }
}

impl Tracker {
    /// The sums that are kept agree with the live blocks.
    closed spec fn sums_agree(&self) -> bool {
        &&& self.active_bytes == live_bytes(self@.blocks)
        &&& forall|site: Seq<char>|
            #![trigger site_bytes(self@.blocks, site)]
            noted_bytes(self.offenders@, site) == site_bytes(self@.blocks, site)
    }

    /// The parts of the tracker are in order.
    closed spec fn parts_wf(&self) -> bool {
        &&& self.offenders.wf()
        &&& self.heat.wf()
        &&& self.active@.dom().finite()
    }

    pub closed spec fn wf(&self) -> bool {
        &&& self.parts_wf()
        &&& self.sums_agree()
        &&& sound(self@)
    }

    /// What a tracker knows is a sound ledger.
    pub proof fn lemma_wf_is_sound(&self)
        requires
            self.wf(),
        ensures
            sound(self@),
    {
    }

    /// A tracker that holds the frame at `offender_depth` responsible for an allocation.
    pub fn new(offender_depth: usize) -> (tracker: Self)
        ensures
            tracker.wf(),
            tracker@ == blank(offender_depth as nat),
    {
        let tracker = Self {
            active: HashMap::new(),
            offenders: SiteTable::new(),
            resolved_cache: HashMap::new(),
            heat: SiteTable::new(),
            cursor: 0,
            tick: 0,
            recent: VecDeque::new(),
            total_events: 0,
            active_bytes: 0,
            peak_bytes: 0,
            total_allocated: 0,
            alloc_count: 0,
            free_count: 0,
            temporary_count: 0,
            heap_series: VecDeque::new(),
            crash: None,
            offender_depth,
        };
        assert(tracker@ =~= blank(offender_depth as nat));
        tracker
    }

    /// The counts, all at once.
    pub fn counts(&self) -> (counts: Counts)
        requires
            self.wf(),
        ensures
            counts.active_count == self@.blocks.len(),
            counts.active_bytes == live_bytes(self@.blocks),
            counts.peak_bytes == self@.peak_bytes,
            counts.total_allocated == self@.total_allocated,
            counts.alloc_count == self@.alloc_count,
            counts.free_count == self@.free_count,
            counts.temporary_count == self@.temporary_count,
            counts.total_events == self@.total_events,
    {
        Counts {
            active_count: self.active_count(),
            active_bytes: self.active_bytes,
            peak_bytes: self.peak_bytes,
            total_allocated: self.total_allocated,
            alloc_count: self.alloc_count,
            free_count: self.free_count,
            temporary_count: self.temporary_count,
            total_events: self.total_events,
        }
    }

    /// A copy of the list of recent events, the oldest first.
    pub fn recent_events(&self) -> (list: Vec<DisplayEvent>)
        ensures
            shown(list@) == self@.recent,
    {
        let mut list: Vec<DisplayEvent> = Vec::new();
        let mut i: usize = 0;
        while i < self.recent.len()
            invariant
                i <= self.recent@.len(),
                shown(list@) == self@.recent.take(i as int),
            decreases self.recent@.len() - i,
        {
            let ghost before = shown(list@);
            let copy = self.recent[i].clone();
            list.push(copy);
            assert(shown(list@) =~= before.push(copy@));
            i += 1;
            assert(shown(list@) =~= self@.recent.take(i as int));
        }
        assert(self@.recent.take(i as int) =~= self@.recent);
        list
    }

    /// A copy of what is known of a crash.
    pub fn crash_info(&self) -> (crash: Option<CrashInfo>)
        ensures
            fault_of(crash) == self@.crash,
    {
        match &self.crash {
            Some(c) => Some(c.clone()),
            None => None,
        }
    }

    /// The live bytes at the end of each of the last ticks, the oldest first.
    pub fn heap_series(&self) -> (series: Vec<u64>)
        ensures
            series@ == self@.heap_series,
    {
        let mut series: Vec<u64> = Vec::new();
        let mut i: usize = 0;
        while i < self.heap_series.len()
            invariant
                i <= self.heap_series@.len(),
                series@ == self.heap_series@.take(i as int),
            decreases self.heap_series@.len() - i,
        {
            series.push(self.heap_series[i]);
            i += 1;
            assert(series@ =~= self.heap_series@.take(i as int));
        }
        assert(self.heap_series@.take(i as int) =~= self.heap_series@);
        series
    }

    /// How many blocks are live.
    pub fn active_count(&self) -> (n: usize)
        requires
            self.wf(),
        ensures
            n == self@.blocks.len(),
    {
        assert(self@.blocks.dom() =~= self.active@.dom());
        self.active.len()
    }

    pub fn offender_depth(&self) -> (depth: usize)
        ensures
            depth == self@.offender_depth,
    {
        self.offender_depth
    }

    /// Asks for the names of `addr`, unless that was done before.
    fn resolve_cached(&mut self, addr: usize, resolver: &Option<Resolver>)
        requires
            old(self).wf(),
        ensures
            final(self).wf(),
            final(self)@ == (Ledger {
                names: learned(old(self)@.names, known_to(*resolver), addr),
                ..old(self)@
            }),
            final(self).same_but_names(*old(self)),
            final(self).resolved_cache@.contains_key(addr),
    {
        if !self.resolved_cache.contains_key(&addr) {
            let names: Vec<String> = match resolver {
                Some(r) => r.resolve(addr),
                None => Vec::new(),
            };
            assert(texts(names@) =~= names_at(known_to(*resolver), addr));
            self.resolved_cache.insert(addr, names);
        }
        assert(self@.names =~= learned(old(self)@.names, known_to(*resolver), addr));
    }

    /// Nothing but the names that have been asked for differs.
    closed spec fn same_but_names(&self, other: Tracker) -> bool {
        &&& self.active == other.active
        &&& self.offenders == other.offenders
        &&& self.heat == other.heat
        &&& self.cursor == other.cursor
        &&& self.tick == other.tick
        &&& self.recent == other.recent
        &&& self.total_events == other.total_events
        &&& self.active_bytes == other.active_bytes
        &&& self.peak_bytes == other.peak_bytes
        &&& self.total_allocated == other.total_allocated
        &&& self.alloc_count == other.alloc_count
        &&& self.free_count == other.free_count
        &&& self.temporary_count == other.temporary_count
        &&& self.heap_series == other.heap_series
        &&& self.crash == other.crash
        &&& self.offender_depth == other.offender_depth
    }

    /// The names of `addr`, if they were asked for before, or else those that the resolver has.
    fn peek(&self, addr: usize, resolver: &Option<Resolver>) -> (names: Vec<String>)
        ensures
            texts(names@) == names_for(self@.names, known_to(*resolver), addr),
    {
        match self.resolved_cache.get(&addr) {
            Some(names) => copy_texts(names),
            None => match resolver {
                Some(r) => r.resolve(addr),
                None => {
                    let names: Vec<String> = Vec::new();
                    assert(texts(names@) =~= Seq::<Seq<char>>::empty());
                    names
                },
            },
        }
    }

    /// The call site that is held responsible for an allocation by `frames`.
    fn site_label(&self, frames: &Vec<usize>, resolver: &Option<Resolver>) -> (label: String)
        ensures
            label@ == site_of(
                self@.names,
                known_to(*resolver),
                frames@,
                self@.offender_depth,
            ),
    {
        if frames.len() == 0 {
            return "?".to_owned();
        }
        let at: usize = if self.offender_depth < frames.len() {
            self.offender_depth
        } else {
            frames.len() - 1
        };
        let names = self.peek(frames[at], resolver);
        if names.len() > 0 {
            assert(texts(names@)[0] == names@[0]@);
            names[0].clone()
        } else {
            raw_address_text(frames[at])
        }
    }

    /// The call site that is held responsible for an allocation by `frames`; its names count as
    /// asked for.
    fn label_for(&mut self, frames: &Vec<usize>, resolver: &Option<Resolver>) -> (label: String)
        requires
            old(self).wf(),
        ensures
            final(self).wf(),
            label@ == site_of(
                old(self)@.names,
                known_to(*resolver),
                frames@,
                old(self)@.offender_depth,
            ),
            final(self)@ == (Ledger {
                names: learned_site(
                    old(self)@.names,
                    known_to(*resolver),
                    frames@,
                    old(self)@.offender_depth,
                ),
                ..old(self)@
            }),
    {
        let label = self.site_label(frames, resolver);
        if frames.len() > 0 {
            let at: usize = if self.offender_depth < frames.len() {
                self.offender_depth
            } else {
                frames.len() - 1
            };
            self.resolve_cached(frames[at], resolver);
        }
        label
    }

    /// A call stack as it is shown: all names of each address, or the address itself.
    pub fn resolve_stack(&mut self, frames: &[usize], resolver: &Option<Resolver>) -> (labels: Vec<
        String,
    >)
        requires
            old(self).wf(),
        ensures
            final(self).wf(),
            texts(labels@) == stack_labels(old(self)@.names, known_to(*resolver), frames@),
            final(self)@ == (Ledger {
                names: learned_all(old(self)@.names, known_to(*resolver), frames@.to_set()),
                ..old(self)@
            }),
    {
        let ghost names = self@.names;
        let ghost known = known_to(*resolver);
        self.ask_all(frames, resolver);
        let mut out: Vec<String> = Vec::new();
        let mut i: usize = 0;
        assert(texts(out@) =~= stack_labels(names, known, frames@.take(0)));
        while i < frames.len()
            invariant
                i <= frames@.len(),
                known == known_to(*resolver),
                self@.names == learned_all(names, known, frames@.to_set()),
                texts(out@) == stack_labels(names, known, frames@.take(i as int)),
            decreases frames@.len() - i,
        {
            let addr: usize = frames[i];
            assert(frames@.take(i + 1).drop_last() =~= frames@.take(i as int));
            assert(frames@.take(i + 1).last() == addr);
            let mut found = self.peek(addr, resolver);
            let ghost listed = texts(out@);
            let ghost named = texts(found@);
            assert(named == names_for(names, known, addr));
            if found.len() == 0 {
                let raw = raw_address_text(addr);
                out.push(raw);
                assert(texts(out@) =~= listed + seq![raw@]);
            } else {
                out.append(&mut found);
                assert(texts(out@) =~= listed + named);
            }
            i += 1;
        }
        assert(frames@.take(i as int) =~= frames@);
        out
    }

    /// Asks for the names of each address in `frames`.
    fn ask_all(&mut self, frames: &[usize], resolver: &Option<Resolver>)
        requires
            old(self).wf(),
        ensures
            final(self).wf(),
            final(self)@ == (Ledger {
                names: learned_all(old(self)@.names, known_to(*resolver), frames@.to_set()),
                ..old(self)@
            }),
            final(self).same_but_names(*old(self)),
    {
        let ghost names = self@.names;
        let ghost known = known_to(*resolver);
        let mut i: usize = 0;
        assert(self@.names =~= learned_all(names, known, frames@.take(0).to_set()));
        while i < frames.len()
            invariant
                i <= frames@.len(),
                self.wf(),
                known == known_to(*resolver),
                self@ == (Ledger {
                    names: learned_all(names, known, frames@.take(i as int).to_set()),
                    ..old(self)@
                }),
                self.same_but_names(*old(self)),
            decreases frames@.len() - i,
        {
            let addr: usize = frames[i];
            let ghost so_far = frames@.take(i as int);
            assert(frames@.take(i + 1) =~= so_far.push(addr));
            self.resolve_cached(addr, resolver);
            proof {
                assert forall|a: usize| so_far.push(addr).to_set().contains(a) <==> (
                so_far.to_set().contains(a) || a == addr) by {
                    if so_far.to_set().contains(a) {
                        let k = choose|k: int| 0 <= k < so_far.len() && so_far[k] == a;
                        assert(so_far.push(addr)[k] == a);
                    }
                    if a == addr {
                        assert(so_far.push(addr)[so_far.len() as int] == a);
                    }
                }
                assert(self@.names =~= learned_all(names, known, frames@.take(i + 1).to_set()));
            }
            i += 1;
        }
        assert(frames@.take(i as int) =~= frames@);
    }

    /// Asks for the names of every address in the call stacks of the live blocks, which `keys`
    /// lists.
    fn ask_for_live(&mut self, keys: &Vec<usize>, resolver: &Option<Resolver>)
        requires
            old(self).wf(),
            lists(keys@, old(self)@.blocks),
        ensures
            final(self).wf(),
            final(self)@ == (Ledger {
                names: learned_all(
                    old(self)@.names,
                    known_to(*resolver),
                    live_addresses(old(self)@.blocks),
                ),
                ..old(self)@
            }),
            final(self).same_but_names(*old(self)),
    {
        let ghost names = self@.names;
        let ghost known = known_to(*resolver);
        let ghost blocks = self@.blocks;
        let mut i: usize = 0;
        assert(self@.names =~= learned_all(names, known, addresses_at(blocks, keys@.take(0))));
        while i < keys.len()
            invariant
                i <= keys.len(),
                self.wf(),
                lists(keys@, blocks),
                known == known_to(*resolver),
                blocks == old(self)@.blocks,
                self@ == (Ledger {
                    names: learned_all(names, known, addresses_at(blocks, keys@.take(i as int))),
                    ..old(self)@
                }),
                self.same_but_names(*old(self)),
            decreases keys.len() - i,
        {
            let key: usize = keys[i];
            let ghost so_far = keys@.take(i as int);
            let ghost next = keys@.take(i + 1);
            proof {
                assert(keys@.to_set().contains(key));
                assert(blocks.contains_key(key));
            }
            let frames: Vec<usize> = match self.active.get(&key) {
                Some(a) => copy_frames(&a.frames),
                None => Vec::new(),
            };
            assert(frames@ == blocks[key].frames);
            self.ask_all(frames.as_slice(), resolver);
            proof {
                let before = learned_all(names, known, addresses_at(blocks, so_far));
                assert forall|addr: usize| addresses_at(blocks, next).contains(addr) <==> (
                addresses_at(blocks, so_far).contains(addr) || frames@.to_set().contains(addr)) by {
                    if addresses_at(blocks, so_far).contains(addr) {
                        let k = choose|k: int|
                            0 <= k < so_far.len() && blocks[#[trigger] so_far[k]].frames.contains(
                                addr,
                            );
                        assert(next[k] == so_far[k]);
                    }
                    if frames@.to_set().contains(addr) {
                        assert(blocks[next[i as int]].frames.contains(addr));
                    }
                    if addresses_at(blocks, next).contains(addr) {
                        let k = choose|k: int|
                            0 <= k < next.len() && blocks[#[trigger] next[k]].frames.contains(addr);
                        if k < i {
                            assert(so_far[k] == next[k]);
                        }
                    }
                }
                assert(self@.names =~= learned_all(names, known, addresses_at(blocks, next)));
            }
            i += 1;
        }
        assert(keys@.take(i as int) =~= keys@);
        assert forall|addr: usize| addresses_at(blocks, keys@).contains(addr) <==> live_addresses(
            blocks,
        ).contains(addr) by {
            if addresses_at(blocks, keys@).contains(addr) {
                let k = choose|k: int|
                    0 <= k < keys@.len() && blocks[#[trigger] keys@[k]].frames.contains(addr);
                assert(keys@.to_set().contains(keys@[k]));
                assert(blocks.contains_key(keys@[k]));
            }
            if live_addresses(blocks).contains(addr) {
                let ptr = choose|ptr: usize| #[trigger]
                    blocks.contains_key(ptr) && blocks[ptr].frames.contains(addr);
                assert(keys@.to_set().contains(ptr));
                let k = choose|k: int| 0 <= k < keys@.len() && keys@[k] == ptr;
                assert(blocks[keys@[k]].frames.contains(addr));
            }
        }
        assert(addresses_at(blocks, keys@) =~= live_addresses(blocks));
    }

    /// Takes the block at `ptr` out, if there is one.
    fn remove_active(&mut self, ptr: usize)
        requires
            old(self).parts_wf(),
            old(self).sums_agree(),
        ensures
            final(self).parts_wf(),
            final(self).sums_agree(),
            final(self)@ == (Ledger { blocks: old(self)@.blocks.remove(ptr), ..old(self)@ }),
    {
        let ghost blocks = self@.blocks;
        proof {
            assert(blocks.dom() =~= self.active@.dom());
            lemma_removed(blocks, ptr);
        }
        let gone = self.active.remove(&ptr);
        assert(self@.blocks =~= blocks.remove(ptr));
        match gone {
            Some(alloc) => {
                assert(alloc@ == blocks[ptr]);
                self.active_bytes = self.active_bytes.saturating_sub(alloc.size);
                proof {
                    assert(noted_bytes(self.offenders@, alloc.offender@) == site_bytes(
                        blocks,
                        alloc.offender@,
                    ));
                }
                match self.offenders.position(alloc.offender.as_str()) {
                    Some(i) => {
                        let bytes: u64 = *self.offenders.value(i);
                        self.offenders.set(i, bytes.saturating_sub(alloc.size));
                    },
                    None => {},
                }
                assert forall|site: Seq<char>|
                    #![trigger site_bytes(self@.blocks, site)]
                    noted_bytes(self.offenders@, site) == site_bytes(self@.blocks, site) by {
                    assert(noted_bytes(old(self).offenders@, site) == site_bytes(blocks, site));
                }
            },
            None => {},
        }
    }

    /// Puts a new block at `ptr`, in place of any that was there.
    fn insert_active(
        &mut self,
        ptr: usize,
        size: usize,
        offender: String,
        alloc_tick: u64,
        frames: Vec<usize>,
    )
        requires
            old(self).parts_wf(),
            old(self).sums_agree(),
            live_bytes(old(self)@.blocks) <= old(self)@.total_allocated,
            ptr != 0 ==> old(self)@.total_allocated + size <= u64::MAX,
            old(self)@.alloc_count < u64::MAX,
        ensures
            final(self).parts_wf(),
            final(self).sums_agree(),
            final(self)@ == allocated(
                old(self)@,
                ptr,
                Block {
                    size: size as nat,
                    site: offender@,
                    alloc_tick: alloc_tick as nat,
                    frames: frames@,
                },
            ),
    {
        if ptr == 0 {
            return;
        }
        proof {
            assert(self@.blocks.dom() =~= self.active@.dom());
            lemma_removed(self@.blocks, ptr);
        }
        self.remove_active(ptr);
        let ghost blocks = self@.blocks;
        let alloc = ActiveAlloc { size: size as u64, offender, alloc_tick, frames };
        proof {
            assert(blocks.dom() =~= self.active@.dom());
            lemma_inserted(blocks, ptr, alloc@);
            lemma_site_bytes_bounded(blocks, alloc@.site);
            assert(noted_bytes(self.offenders@, alloc@.site) == site_bytes(blocks, alloc@.site));
        }
        self.total_allocated = self.total_allocated + size as u64;
        self.alloc_count = self.alloc_count + 1;
        let ghost noted = self.offenders@;
        match self.offenders.position(alloc.offender.as_str()) {
            Some(i) => {
                let bytes: u64 = *self.offenders.value(i);
                self.offenders.set(i, bytes + size as u64);
            },
            None => {
                self.offenders.put(alloc.offender.as_str(), size as u64);
            },
        }
        self.active_bytes = self.active_bytes + size as u64;
        let ghost block = alloc@;
        self.active.insert(ptr, alloc);
        proof {
            assert(self@.blocks =~= blocks.insert(ptr, block));
            assert forall|site: Seq<char>|
                #![trigger site_bytes(self@.blocks, site)]
                noted_bytes(self.offenders@, site) == site_bytes(self@.blocks, site) by {
                assert(noted_bytes(noted, site) == site_bytes(blocks, site));
            }
        }
    }

    /// Notes that `site` allocated `bytes` in the current tick.
    fn record_heat(&mut self, site: &str, bytes: u64)
        requires
            old(self).parts_wf(),
            old(self).sums_agree(),
            old(self)@.cursor < HEAT_BUCKETS,
            heat_row(old(self)@.heat, site@).len() == HEAT_BUCKETS,
            heat_row(old(self)@.heat, site@)[old(self)@.cursor as int] + bytes <= u64::MAX,
        ensures
            final(self).parts_wf(),
            final(self).sums_agree(),
            final(self)@ == (Ledger {
                heat: heated(old(self)@.heat, old(self)@.cursor, site@, bytes as nat),
                ..old(self)@
            }),
    {
        let cur: usize = self.cursor;
        let ghost heat = self@.heat;
        match self.heat.position(site) {
            Some(i) => {
                let row = self.heat.value_mut(i);
                let sum: u64 = row[cur] + bytes;
                row.set(cur, sum);
            },
            None => {
                let mut row: Vec<u64> = Vec::new();
                let mut i: usize = 0;
                while i < HEAT_BUCKETS
                    invariant
                        i <= HEAT_BUCKETS,
                        row@ == Seq::new(i as nat, |j: int| 0u64),
                    decreases HEAT_BUCKETS - i,
                {
                    row.push(0);
                    i += 1;
                    assert(row@ =~= Seq::new(i as nat, |j: int| 0u64));
                }
                row.set(cur, bytes);
                self.heat.put(site, row);
            },
        }
        assert(self@.heat =~= heated(heat, cur as nat, site@, bytes as nat));
        assert(self@.blocks == old(self)@.blocks);
    }

    /// Puts `event` at the end of the list of recent events.
    fn push_recent(&mut self, event: DisplayEvent)
        requires
            old(self).parts_wf(),
            old(self).sums_agree(),
            old(self)@.recent.len() <= RECENT_CAPACITY,
        ensures
            final(self).parts_wf(),
            final(self).sums_agree(),
            final(self)@ == (Ledger {
                recent: kept(old(self)@.recent, event@, RECENT_CAPACITY as nat),
                ..old(self)@
            }),
    {
        self.recent.push_back(event);
        assert(shown(self.recent@) =~= old(self)@.recent.push(event@));
        if self.recent.len() > RECENT_CAPACITY {
            self.recent.pop_front();
            assert(shown(self.recent@) =~= old(self)@.recent.push(event@).drop_first());
        }
        assert(self@.blocks == old(self)@.blocks);
    }

    /// The addresses whose names `ev` asks for.
    pub fn addresses_asked(&self, ev: &AllocEvent) -> (addrs: Vec<usize>)
        requires
            ev.frame_count <= MAX_STACK_DEPTH,
        ensures
            addrs@ == asked_by(self@, *ev),
    {
        let frames = stack_of(ev);
        if ev.kind == 6 || frames.len() == 0 {
            return frames;
        }
        let at: usize = if self.offender_depth < frames.len() {
            self.offender_depth
        } else {
            frames.len() - 1
        };
        let mut addrs: Vec<usize> = Vec::new();
        addrs.push(frames[at]);
        assert(addrs@ =~= asked_by(self@, *ev));
        addrs
    }

    /// The addresses in the call stacks of the live blocks whose names have not been asked for.
    pub fn live_unnamed(&self) -> (addrs: Vec<usize>)
        requires
            self.wf(),
        ensures
            forall|addr: usize| #[trigger]
                addrs@.contains(addr) <==> live_addresses(self@.blocks).contains(addr)
                    && !self@.names.contains_key(addr),
    {
        let keys = self.live_ptrs();
        let ghost blocks = self@.blocks;
        let mut addrs: Vec<usize> = Vec::new();
        let mut i: usize = 0;
        while i < keys.len()
            invariant
                i <= keys.len(),
                lists(keys@, blocks),
                blocks == self@.blocks,
                forall|addr: usize| #[trigger]
                    addrs@.contains(addr) ==> live_addresses(blocks).contains(addr)
                        && !self@.names.contains_key(addr),
                forall|k: int, m: int|
                    0 <= k < i && 0 <= m < blocks[keys@[k]].frames.len()
                        && !self@.names.contains_key(#[trigger] blocks[keys@[k]].frames[m])
                        ==> addrs@.contains(blocks[keys@[k]].frames[m]),
            decreases keys.len() - i,
        {
            let key: usize = keys[i];
            proof {
                assert(keys@.to_set().contains(key));
                assert(blocks.contains_key(key));
            }
            match self.active.get(&key) {
                Some(a) => {
                    assert(a@ == blocks[key]);
                    let mut j: usize = 0;
                    while j < a.frames.len()
                        invariant
                            i < keys.len(),
                            key == keys@[i as int],
                            blocks == self@.blocks,
                            blocks.contains_key(key),
                            a@ == blocks[key],
                            j <= a.frames.len(),
                            forall|addr: usize| #[trigger]
                                addrs@.contains(addr) ==> live_addresses(blocks).contains(addr)
                                    && !self@.names.contains_key(addr),
                            forall|k: int, m: int|
                                0 <= k < i && 0 <= m < blocks[keys@[k]].frames.len()
                                    && !self@.names.contains_key(
                                    #[trigger] blocks[keys@[k]].frames[m],
                                ) ==> addrs@.contains(blocks[keys@[k]].frames[m]),
                            forall|m: int|
                                0 <= m < j && !self@.names.contains_key(
                                    #[trigger] blocks[key].frames[m],
                                ) ==> addrs@.contains(blocks[key].frames[m]),
                        decreases a.frames.len() - j,
                    {
                        let addr: usize = a.frames[j];
                        let ghost before = addrs@;
                        if !self.resolved_cache.contains_key(&addr) {
                            addrs.push(addr);
                            proof {
                                assert(addrs@[before.len() as int] == addr);
                                assert(blocks[key].frames.contains(addr));
                                assert forall|x: usize| #[trigger] before.contains(x) implies addrs@.contains(x) by {
                                    let k = choose|k: int| 0 <= k < before.len() && before[k] == x;
                                    assert(addrs@[k] == x);
                                }
                                assert forall|x: usize| #[trigger] addrs@.contains(x) implies before.contains(x) || x == addr by {
                                    let k = choose|k: int| 0 <= k < addrs@.len() && addrs@[k] == x;
                                    if k < before.len() {
                                        assert(before[k] == x);
                                    }
                                }
                            }
                        }
                        j += 1;
                    }
                },
                None => {},
            }
            i += 1;
        }
        assert forall|addr: usize| live_addresses(blocks).contains(addr)
            && !self@.names.contains_key(addr) implies #[trigger] addrs@.contains(addr) by {
            let ptr = choose|ptr: usize| #[trigger]
                blocks.contains_key(ptr) && blocks[ptr].frames.contains(addr);
            assert(keys@.to_set().contains(ptr));
            let k = choose|k: int| 0 <= k < keys@.len() && keys@[k] == ptr;
            let m = choose|m: int|
                0 <= m < blocks[ptr].frames.len() && blocks[ptr].frames[m] == addr;
            assert(blocks[keys@[k]].frames[m] == addr);
        }
        addrs
    }

    /// Whether `ev` can be counted.
    pub fn accepts(&self, ev: &AllocEvent, resolver: &Option<Resolver>) -> (yes: bool)
        requires
            self.wf(),
        ensures
            yes == fits(self@, *ev, known_to(*resolver)),
    {
        if ev.frame_count as usize > MAX_STACK_DEPTH || self.total_events == u64::MAX {
            return false;
        }
        if ev.kind == 1 || ev.kind == 6 || (ev.kind == 3 && ev.ptr == 0) {
            return true;
        }
        let size: u64 = ev.size as u64;
        if ev.ptr != 0 && self.total_allocated.checked_add(size).is_none() {
            return false;
        }
        let frames = stack_of(ev);
        let site = self.site_label(&frames, resolver);
        match self.heat.position(site.as_str()) {
            Some(i) => {
                assert(self@.heat.contains_key(site@));
                let row = self.heat.value(i);
                row[self.cursor].checked_add(size).is_some()
            },
            None => true,
        }
    }

    /// Takes in one event.
    pub fn apply(&mut self, ev: AllocEvent, resolver: &Option<Resolver>)
        requires
            old(self).wf(),
            fits(old(self)@, ev, known_to(*resolver)),
        ensures
            final(self).wf(),
            final(self)@ == applied(old(self)@, ev, known_to(*resolver)),
    {
        proof {
            law_events_keep_the_ledger_sound(self@, ev, known_to(*resolver));
        }
        if ev.kind == 6 {
            self.record_crash(ev, resolver);
            return;
        }
        let frames = stack_of(&ev);
        let offender = self.label_for(&frames, resolver);
        let now: u64 = self.tick;
        let ghost before = self@;
        self.total_events = self.total_events + 1;
        assert(self@.blocks == before.blocks);
        if ev.kind == 1 {
            self.free_count = self.free_count + 1;
            let temporary = match self.active.get(&ev.ptr) {
                Some(a) => a.alloc_tick == now,
                None => false,
            };
            if temporary {
                self.temporary_count = self.temporary_count + 1;
            }
            assert(self@.blocks == before.blocks);
            self.remove_active(ev.ptr);
        } else if ev.kind == 3 {
            if ev.ptr != 0 {
                proof {
                    assert(self@.blocks.dom() =~= self.active@.dom());
                    lemma_removed(self@.blocks, ev.old_ptr);
                }
                self.remove_active(ev.old_ptr);
                self.insert_active(ev.ptr, ev.size, offender.clone(), now, copy_frames(&frames));
                self.record_heat(offender.as_str(), ev.size as u64);
            }
        } else {
            self.insert_active(ev.ptr, ev.size, offender.clone(), now, copy_frames(&frames));
            self.record_heat(offender.as_str(), ev.size as u64);
        }
        let ghost blocks = self@.blocks;
        if self.active_bytes > self.peak_bytes {
            self.peak_bytes = self.active_bytes;
        }
        assert(self@.blocks == blocks);
        let seq: u64 = self.total_events;
        self.push_recent(
            DisplayEvent { seq, kind: ev.kind, ptr: ev.ptr, size: ev.size, offender, frames },
        );
        assert(self@ =~= applied(old(self)@, ev, known_to(*resolver)));
    }

    fn record_crash(&mut self, ev: AllocEvent, resolver: &Option<Resolver>)
        requires
            old(self).wf(),
            ev.kind == 6,
            fits(old(self)@, ev, known_to(*resolver)),
        ensures
            final(self).wf(),
            final(self)@ == crashed(old(self)@, ev, known_to(*resolver)),
    {
        proof {
            law_events_keep_the_ledger_sound(self@, ev, known_to(*resolver));
        }
        let raw = stack_of(&ev);
        let frames = self.resolve_stack(raw.as_slice(), resolver);
        let ghost before = self@;
        let top = if frames.len() > 0 {
            assert(texts(frames@)[0] == frames@[0]@);
            frames[0].clone()
        } else {
            "?".to_owned()
        };
        self.total_events = self.total_events + 1;
        self.crash = Some(
            CrashInfo { signal: ev.size as i32, fault_addr: ev.old_ptr, pc: ev.ptr, frames },
        );
        assert(self@.blocks == before.blocks);
        let seq: u64 = self.total_events;
        self.push_recent(
            DisplayEvent { seq, kind: ev.kind, ptr: ev.ptr, size: 0, offender: top, frames: raw },
        );
        assert(self@ =~= crashed(old(self)@, ev, known_to(*resolver)));
    }

    /// Whether another tick can be counted.
    pub fn can_tick(&self) -> (yes: bool)
        ensures
            yes == (self@.tick < u64::MAX),
    {
        self.tick < u64::MAX
    }

    /// Ends a tick.
    pub fn heat_tick(&mut self)
        requires
            old(self).wf(),
            old(self)@.tick < u64::MAX,
        ensures
            final(self).wf(),
            final(self)@ == ticked(old(self)@),
    {
        proof {
            law_ticks_keep_the_ledger_sound(self@);
        }
        self.tick = self.tick + 1;
        self.heap_series.push_back(self.active_bytes);
        if self.heap_series.len() > HEAP_SERIES_CAP {
            self.heap_series.pop_front();
        }
        assert(self.heap_series@ =~= ticked(old(self)@).heap_series);
        self.cursor = (self.cursor + 1) % HEAT_BUCKETS;
        let cur: usize = self.cursor;
        let n: usize = self.heat.len();
        let ghost rows = self.heat.entries();
        proof {
            self.heat.lemma_listing();
            assert forall|k: int| 0 <= k < rows.len() implies (#[trigger] rows[k])@.len() == HEAT_BUCKETS by {
                assert(old(self)@.heat.contains_key(self.heat.labels()[k]));
            }
        }
        let ghost moved = *self;
        let mut i: usize = 0;
        while i < n
            invariant
                i <= n,
                n == rows.len(),
                cur < HEAT_BUCKETS,
                self.heat.wf(),
                self.heat.labels() == old(self).heat.labels(),
                self.heat.labels().len() == n,
                self.heat.entries().len() == n,
                forall|k: int| 0 <= k < n ==> (#[trigger] rows[k])@.len() == HEAT_BUCKETS,
                forall|k: int|
                    0 <= k < i ==> (#[trigger] self.heat.entries()[k])@ == rows[k]@.update(
                        cur as int,
                        0,
                    ),
                forall|k: int| i <= k < n ==> #[trigger] self.heat.entries()[k] == rows[k],
                *self == (Tracker { heat: self.heat, ..moved }),
            decreases n - i,
        {
            let row = self.heat.value_mut(i);
            row.set(cur, 0);
            i += 1;
        }
        proof {
            self.heat.lemma_listing();
            old(self).heat.lemma_listing();
            let next = ticked(old(self)@);
            assert forall|site: Seq<char>| #[trigger] self@.heat.contains_key(site) implies self@.heat[site]
                == next.heat[site] by {
                let k = choose|k: int|
                    0 <= k < self.heat.labels().len() && self.heat.labels()[k] == site;
                assert(self.heat.entries()[k]@ == rows[k]@.update(cur as int, 0));
            }
            assert(self@.heat =~= next.heat);
            assert(self@.blocks == old(self)@.blocks);
        }
        assert(self@ =~= ticked(old(self)@));
    }

    /// The addresses of the live blocks, in some order.
    fn live_ptrs(&self) -> (keys: Vec<usize>)
        ensures
            lists(keys@, self@.blocks),
    {
        let mut keys: Vec<usize> = Vec::new();
        for key in it: self.active.keys()
            invariant
                keys@ == it.seq().unref().take(it.index()),
                it.seq().unref().take(it.seq().len() as int) == it.seq().unref(),
                it.seq().unref().to_set() == self.active@.dom(),
                it.seq().no_duplicates(),
        {
            keys.push(*key);
            assert(keys@ =~= it.seq().unref().take(it.index() + 1));
        }
        assert(keys@.to_set() =~= self@.blocks.dom());
        keys
    }

    /// The `n` call sites that hold most live bytes, the largest first.
    pub fn top_offenders(&self, n: usize) -> (rows: Vec<(String, u64)>)
        requires
            self.wf(),
        ensures
            is_offender_list(rows@, self@.blocks, n as nat),
    {
        let mut weights: Vec<u64> = Vec::new();
        let ghost labels = self.offenders.labels();
        proof {
            self.offenders.lemma_listing();
        }
        let mut i: usize = 0;
        while i < self.offenders.len()
            invariant
                i <= labels.len(),
                self.wf(),
                labels == self.offenders.labels(),
                labels.len() == self.offenders.entries().len(),
                weights@ == self.offenders.entries().take(i as int),
            decreases labels.len() - i,
        {
            weights.push(*self.offenders.value(i));
            i += 1;
            assert(weights@ =~= self.offenders.entries().take(i as int));
        }
        let order = heaviest(&weights, 1, n);
        let mut rows: Vec<(String, u64)> = Vec::new();
        let mut k: usize = 0;
        while k < order.len()
            invariant
                k <= order.len(),
                self.offenders.wf(),
                labels == self.offenders.labels(),
                labels.len() == weights.len(),
                forall|m: int| 0 <= m < order.len() ==> (#[trigger] order@[m]) < labels.len(),
                rows.len() == k,
                forall|m: int|
                    0 <= m < k ==> (#[trigger] rows@[m]).0@ == labels[order@[m] as int] && rows@[m].1
                        == weights@[order@[m] as int],
            decreases order.len() - k,
        {
            let at: usize = order[k];
            rows.push((self.offenders.label(at).clone(), weights[at]));
            k += 1;
        }
        proof {
            let pool = holds_bytes(self@.blocks);
            let weight = bytes_held(self@.blocks);
            assert forall|i: int| 0 <= i < labels.len() implies weights@[i] == weight(
                #[trigger] labels[i],
            ) && (pool(labels[i]) <==> weights@[i] >= 1) by {
                assert(noted_bytes(self.offenders@, labels[i]) == site_bytes(
                    self@.blocks,
                    labels[i],
                ));
            }
            assert forall|site: Seq<char>| #[trigger] pool(site) implies labels.contains(site) by {
                assert(noted_bytes(self.offenders@, site) == site_bytes(self@.blocks, site));
            }
            lemma_ranking(
                offender_rows(rows@),
                labels,
                weights@,
                order@,
                1,
                pool,
                weight,
                n as nat,
            );
        }
        rows
    }

    /// Whether the heat of every call site can be summed up.
    pub fn heat_sums_fit(&self) -> (yes: bool)
        requires
            self.wf(),
        ensures
            yes == heat_countable(self@.heat),
    {
        proof {
            self.heat.lemma_listing();
        }
        let mut i: usize = 0;
        while i < self.heat.len()
            invariant
                i <= self.heat.labels().len(),
                self.wf(),
                forall|k: int|
                    0 <= k < i ==> row_total((#[trigger] self.heat.entries()[k])@) <= u64::MAX,
            decreases self.heat.labels().len() - i,
        {
            proof {
                self.heat.lemma_listing();
            }
            if row_sum(self.heat.value(i)).is_none() {
                assert(self@.heat.contains_key(self.heat.labels()[i as int]));
                return false;
            }
            i += 1;
        }
        assert forall|site: Seq<char>| #[trigger] self@.heat.contains_key(site) implies row_total(
            self@.heat[site],
        ) <= u64::MAX by {
            let k = choose|k: int|
                0 <= k < self.heat.labels().len() && self.heat.labels()[k] == site;
            assert(row_total(self.heat.entries()[k]@) <= u64::MAX);
        }
        true
    }

    /// The `max_sites` warmest call sites, tick by tick.
    pub fn build_heat(&self, max_sites: usize) -> (view: HeatView)
        requires
            self.wf(),
            heat_countable(self@.heat),
        ensures
            is_heat_view(view, self@, max_sites as nat),
    {
        let ghost labels = self.heat.labels();
        let ghost rows = self.heat.entries();
        proof {
            self.heat.lemma_listing();
            assert forall|k: int| 0 <= k < labels.len() implies heat_row(
                self@.heat,
                #[trigger] labels[k],
            ) == rows[k]@ && rows[k]@.len() == HEAT_BUCKETS && row_total(rows[k]@) <= u64::MAX by {
                assert(self@.heat.contains_key(labels[k]));
            }
        }
        let mut weights: Vec<u64> = Vec::new();
        let mut i: usize = 0;
        while i < self.heat.len()
            invariant
                i <= labels.len(),
                self.heat.wf(),
                labels == self.heat.labels(),
                rows == self.heat.entries(),
                labels.len() == rows.len(),
                forall|k: int|
                    0 <= k < labels.len() ==> heat_row(self@.heat, #[trigger] labels[k]) == rows[k]@
                        && row_total(rows[k]@) <= u64::MAX,
                weights.len() == i,
                forall|k: int| 0 <= k < i ==> #[trigger] weights@[k] == row_total(rows[k]@),
            decreases labels.len() - i,
        {
            assert(heat_row(self@.heat, labels[i as int]) == rows[i as int]@);
            let sum: u64 = match row_sum(self.heat.value(i)) {
                Some(v) => v,
                None => 0,
            };
            weights.push(sum);
            i += 1;
        }
        let order = heaviest(&weights, 1, max_sites);
        let cursor: usize = self.cursor;
        let mut sites: Vec<String> = Vec::new();
        let mut cells: Vec<Vec<u64>> = Vec::new();
        let mut max: u64 = 1;
        let mut k: usize = 0;
        while k < order.len()
            invariant
                k <= order.len(),
                cursor == self.cursor,
                cursor < HEAT_BUCKETS,
                self.heat.wf(),
                labels == self.heat.labels(),
                rows == self.heat.entries(),
                labels.len() == rows.len(),
                forall|k: int|
                    0 <= k < labels.len() ==> heat_row(self@.heat, #[trigger] labels[k]) == rows[k]@
                        && rows[k]@.len() == HEAT_BUCKETS,
                forall|m: int| 0 <= m < order.len() ==> (#[trigger] order@[m]) < labels.len(),
                sites.len() == k,
                cells.len() == k,
                forall|m: int|
                    0 <= m < k ==> (#[trigger] sites@[m])@ == labels[order@[m] as int],
                forall|m: int|
                    0 <= m < k ==> (#[trigger] cells@[m])@ == unrolled(
                        rows[order@[m] as int]@,
                        cursor as nat,
                    ),
                is_largest_cell(max, cells@),
            decreases order.len() - k,
        {
            let at: usize = order[k];
            assert(heat_row(self@.heat, labels[at as int]) == rows[at as int]@);
            let buckets = self.heat.value(at);
            let mut row: Vec<u64> = Vec::new();
            let ghost max_before = max;
            let mut i: usize = 0;
            while i < HEAT_BUCKETS
                invariant
                    i <= HEAT_BUCKETS,
                    cursor < HEAT_BUCKETS,
                    buckets@.len() == HEAT_BUCKETS,
                    row@ == unrolled(buckets@, cursor as nat).take(i as int),
                    max >= max_before,
                    forall|j: int| 0 <= j < i ==> #[trigger] row@[j] <= max,
                    max > max_before ==> exists|j: int| 0 <= j < i && #[trigger] row@[j] == max,
                decreases HEAT_BUCKETS - i,
            {
                let v: u64 = buckets[(cursor + 1 + i) % HEAT_BUCKETS];
                let ghost row_before = row@;
                let ghost was = max;
                if v > max {
                    max = v;
                }
                row.push(v);
                assert(row@ =~= unrolled(buckets@, cursor as nat).take(i + 1));
                assert(row@[i as int] == v);
                proof {
                    if max > max_before {
                        if v > was {
                            assert(row@[i as int] == max);
                        } else {
                            let j = choose|j: int| 0 <= j < i && #[trigger] row_before[j] == was;
                            assert(row@[j] == max);
                        }
                    }
                }
                i += 1;
            }
            assert(row@ =~= unrolled(buckets@, cursor as nat));
            sites.push(self.heat.label(at).clone());
            let ghost cells_before = cells@;
            cells.push(row);
            proof {
                if max > 1 {
                    if max > max_before {
                        let j = choose|j: int| 0 <= j < HEAT_BUCKETS && #[trigger] row@[j] == max;
                        assert(cells@[k as int]@[j] == max);
                    } else {
                        let (a, b) = choose|a: int, b: int|
                            0 <= a < cells_before.len() && 0 <= b < cells_before[a]@.len()
                                && #[trigger] cells_before[a]@[b] == max;
                        assert(cells@[a]@[b] == max);
                    }
                }
                assert forall|a: int, b: int|
                    0 <= a < cells@.len() && 0 <= b < cells@[a]@.len() implies #[trigger] cells@[a]@[b]
                    <= max by {
                    if a < k {
                        assert(cells_before[a]@[b] <= max_before);
                    }
                }
            }
            k += 1;
        }
        let view = HeatView { sites, cells, max, buckets: HEAT_BUCKETS };
        proof {
            let pool = is_warm(self@.heat);
            let weight = warmth(self@.heat);
            assert forall|site: Seq<char>| #[trigger] pool(site) implies labels.contains(site) by {
                if !self@.heat.contains_key(site) {
                    lemma_cold_total(cold());
                }
            }
            assert forall|m: int| 0 <= m < heat_rows(view).len() implies (#[trigger] heat_rows(
                view,
            )[m]).0 == labels[order@[m] as int] && heat_rows(view)[m].1 == weights@[order@[m] as int] by {
                assert(labels[order@[m] as int] == view.sites@[m]@);
                lemma_unrolled_total(rows[order@[m] as int]@, cursor as nat);
                assert(view.cells@[m]@ == unrolled(rows[order@[m] as int]@, cursor as nat));
            }
            lemma_ranking(
                heat_rows(view),
                labels,
                weights@,
                order@,
                1,
                pool,
                weight,
                max_sites as nat,
            );
            assert forall|i: int| 0 <= i < view.sites@.len() implies (#[trigger] view.cells@[i])@
                == unrolled(heat_row(self@.heat, view.sites@[i]@), self@.cursor) by {
                assert(view.sites@[i]@ == labels[order@[i] as int]);
            }
        }
        view
    }

    /// The `n` call sites with most leaked bytes, and what is leaked in all. A block counts as
    /// leaked once it is `age_threshold` ticks old, or at once if `definite`.
    pub fn build_leaks(&self, age_threshold: u64, definite: bool, n: usize) -> (view: LeakView)
        requires
            self.wf(),
        ensures
            is_leak_view(view, self@, age_threshold, definite, n as nat),
    {
        let keys = self.live_ptrs();
        let ghost l = self@;
        let ghost threshold = age_threshold as nat;
        let ghost all = values_at(l.blocks, keys@);
        let ghost size = leaked_size(l.tick, threshold, definite);
        let ghost one = leaked_one(l.tick, threshold, definite);
        let mut agg: SiteTable<(u64, u64, u64)> = SiteTable::new();
        let mut total_bytes: u64 = 0;
        let mut total_count: u64 = 0;
        proof {
            lemma_tally_listing(l.blocks, keys@, block_size());
            lemma_total_le(all, size, block_size());
        }
        let mut i: usize = 0;
        while i < keys.len()
            invariant
                i <= keys.len(),
                self.wf(),
                l == self@,
                threshold == age_threshold,
                lists(keys@, l.blocks),
                all == values_at(l.blocks, keys@),
                size == leaked_size(l.tick, threshold, definite),
                one == leaked_one(l.tick, threshold, definite),
                total(all, size) <= u64::MAX,
                total_bytes == total(all.take(i as int), size),
                total_count == total(all.take(i as int), one),
                total_count <= i,
                agg.wf(),
                forall|site: Seq<char>| #[trigger]
                    agg@.contains_key(site) ==> leak_entry(
                        agg@[site],
                        all.take(i as int),
                        l.tick,
                        threshold,
                        definite,
                        site,
                    ),
                forall|k: int|
                    0 <= k < i && is_leaked(l.tick, threshold, definite, #[trigger] all[k])
                        ==> agg@.contains_key(all[k].site),
            decreases keys.len() - i,
        {
            let key: usize = keys[i];
            proof {
                assert(keys@.to_set().contains(key));
                assert(l.blocks.contains_key(key));
                lemma_total_step(all, i as int, size);
                lemma_total_step(all, i as int, one);
                lemma_total_prefix(all, i + 1, size);
            }
            let ghost part = all.take(i as int);
            let ghost next = all.take(i + 1);
            let ghost block = all[i as int];
            assert(next =~= part.push(block));
            let ghost before = agg@;
            match self.active.get(&key) {
                Some(a) => {
                    assert(a@ == block);
                    let age_now: u64 = self.tick.saturating_sub(a.alloc_tick);
                    assert(age_now == age(l.tick, block));
                    if definite || age_now >= age_threshold {
                        let entry: (u64, u64, u64) = match agg.position(a.offender.as_str()) {
                            Some(at) => *agg.value(at),
                            None => (0, 0, 0),
                        };
                        let ghost site = block.site;
                        proof {
                            lemma_leak_part(part, l.tick, threshold, definite, site);
                            if !before.contains_key(site) {
                                assert forall|k: int| 0 <= k < part.len() implies !((
                                #[trigger] part[k]).site == site && is_leaked(
                                    l.tick,
                                    threshold,
                                    definite,
                                    part[k],
                                )) by {
                                    assert(part[k] == all[k]);
                                }
                            }
                        }
                        let oldest: u64 = if entry.2 >= age_now {
                            entry.2
                        } else {
                            age_now
                        };
                        let added: (u64, u64, u64) = (entry.0 + a.size, entry.1 + 1, oldest);
                        agg.put(a.offender.as_str(), added);
                        total_bytes = total_bytes + a.size;
                        total_count = total_count + 1;
                        assert forall|s: Seq<char>| #[trigger] agg@.contains_key(s) implies leak_entry(
                            agg@[s],
                            next,
                            l.tick,
                            threshold,
                            definite,
                            s,
                        ) by {
                            if s == site {
                                lemma_leak_here(
                                    entry,
                                    part,
                                    block,
                                    l.tick,
                                    threshold,
                                    definite,
                                    site,
                                    added,
                                );
                            } else {
                                assert(before.contains_key(s));
                                lemma_leak_elsewhere(
                                    before[s],
                                    part,
                                    block,
                                    l.tick,
                                    threshold,
                                    definite,
                                    s,
                                );
                            }
                        }
                    } else {
                        assert forall|s: Seq<char>| #[trigger] agg@.contains_key(s) implies leak_entry(
                            agg@[s],
                            next,
                            l.tick,
                            threshold,
                            definite,
                            s,
                        ) by {
                            lemma_leak_elsewhere(
                                before[s],
                                part,
                                block,
                                l.tick,
                                threshold,
                                definite,
                                s,
                            );
                        }
                    }
                },
                None => {},
            }
            assert forall|k: int|
                0 <= k < i + 1 && is_leaked(
                    l.tick,
                    threshold,
                    definite,
                    #[trigger] all[k],
                ) implies agg@.contains_key(all[k].site) by {
                if k < i {
                    assert(before.contains_key(all[k].site));
                }
            }
            i += 1;
        }
        assert(all.take(i as int) =~= all);
        let rows = leak_list(&agg, n);
        let view = LeakView { rows, total_bytes, total_count, definite, age_threshold };
        proof {
            lemma_leak_view(view, agg@, l, keys@, age_threshold, definite, n as nat);
        }
        view
    }

    /// The live bytes by call path, as boxes upon boxes.
    pub fn build_flame(&mut self, resolver: &Option<Resolver>) -> (view: FlameView)
        requires
            old(self).wf(),
        ensures
            final(self).wf(),
            is_flame_view(
                view,
                old(self)@.blocks,
                labeller(old(self)@.names, known_to(*resolver)),
            ),
            final(self)@ == (Ledger {
                names: learned_all(
                    old(self)@.names,
                    known_to(*resolver),
                    live_addresses(old(self)@.blocks),
                ),
                ..old(self)@
            }),
    {
        let ghost map = self@.blocks;
        let ghost label = labeller(self@.names, known_to(*resolver));
        let keys = self.live_ptrs();
        let ghost blocks = values_at(map, keys@);
        self.ask_for_live(&keys, resolver);
        let mut traces: Vec<Trace> = Vec::new();
        let mut members: Vec<usize> = Vec::new();
        let mut i: usize = 0;
        while i < keys.len()
            invariant
                i <= keys.len(),
                self.wf(),
                map == self@.blocks,
                lists(keys@, map),
                blocks == values_at(map, keys@),
                traces.len() == i,
                shows(traces@, blocks.take(i as int)),
                members@ == Seq::new(i as nat, |k: int| k as usize),
            decreases keys.len() - i,
        {
            let key: usize = keys[i];
            proof {
                assert(keys@.to_set().contains(key));
                assert(map.contains_key(key));
            }
            match self.active.get(&key) {
                Some(a) => {
                    assert(a@ == blocks[i as int]);
                    let ghost before = traces@;
                    traces.push(Trace { frames: &a.frames, size: a.size });
                    assert forall|k: int| 0 <= k < i + 1 implies (#[trigger] traces@[k]).frames@
                        == blocks.take(i + 1)[k].frames && traces@[k].size == blocks.take(i + 1)[k].size
                        && blocks.take(i + 1)[k].frames.len() <= MAX_STACK_DEPTH by {
                        if k < i {
                            assert(traces@[k] == before[k]);
                            assert(blocks.take(i as int)[k] == blocks.take(i + 1)[k]);
                        }
                    }
                },
                None => {},
            }
            members.push(i);
            i += 1;
            assert(members@ =~= Seq::new(i as nat, |k: int| k as usize));
        }
        let whole: u64 = self.active_bytes;
        let min_bytes: u64 = if whole / 200 >= 1 {
            whole / 200
        } else {
            1
        };
        let ghost path = Seq::<usize>::empty();
        let ghost bytes = path_bytes(map);
        proof {
            assert(blocks.take(i as int) =~= blocks);
            lemma_tally_listing(map, keys@, block_size());
            assert forall|p: Seq<usize>| #[trigger] bytes(p) == total(blocks, size_under(p)) by {
                lemma_tally_listing(map, keys@, size_under(p));
            }
            assert(picked(blocks, members@) =~= blocks);
            assert forall|k: int| 0 <= k < blocks.len() implies under(path)(#[trigger] blocks[k]) by {
                assert(path =~= blocks[k].frames.reverse().subrange(0, 0));
            }
            lemma_filter_all(blocks, under(path));
            assert forall|i: int, k: int| 0 <= i < blocks.len() && 0 <= k < blocks[i].frames.len() implies {
                let addr = #[trigger] blocks[i].frames[k];
                &&& self.resolved_cache@.contains_key(addr)
                &&& label(addr) == if texts(self.resolved_cache@[addr]@).len() > 0 {
                    texts(self.resolved_cache@[addr]@)[0]
                } else {
                    raw_address(addr)
                }
            } by {
                let addr = blocks[i].frames[k];
                assert(keys@.to_set().contains(keys@[i]));
                assert(map.contains_key(keys@[i]));
                assert(map[keys@[i]].frames.contains(addr));
                assert(live_addresses(map).contains(addr));
                assert(self@.names.contains_key(addr));
                assert(self@.names[addr] == texts(self.resolved_cache@[addr]@));
                assert(self@.names[addr] == names_for(old(self)@.names, known_to(*resolver), addr));
                assert(label(addr) == address_label(old(self)@.names, known_to(*resolver), addr));
            }
        }
        let roots = flame_level(
            &self.resolved_cache,
            &traces,
            &members,
            0,
            min_bytes,
            Ghost(blocks),
            Ghost(path),
            Ghost(bytes),
            Ghost(label),
        );
        FlameView { total: whole, roots }
    }

    /// One line per distinct call stack of a live block: the stack, outermost function first,
    /// and its live bytes.
    pub fn folded_stacks(&mut self, resolver: &Option<Resolver>) -> (text: String)
        requires
            old(self).wf(),
        ensures
            final(self).wf(),
            is_folded(
                text@,
                old(self)@.blocks,
                folds(old(self)@.names, known_to(*resolver)),
            ),
            final(self)@ == (Ledger {
                names: learned_all(
                    old(self)@.names,
                    known_to(*resolver),
                    live_addresses(old(self)@.blocks),
                ),
                ..old(self)@
            }),
    {
        let ghost map = self@.blocks;
        let ghost names = self@.names;
        let ghost known = known_to(*resolver);
        let ghost class = folds(names, known);
        let keys = self.live_ptrs();
        let ghost all = values_at(map, keys@);
        self.ask_for_live(&keys, resolver);
        let mut agg: SiteTable<u64> = SiteTable::new();
        proof {
            lemma_tally_listing(map, keys@, block_size());
        }
        let mut i: usize = 0;
        while i < keys.len()
            invariant
                i <= keys.len(),
                self.wf(),
                map == old(self)@.blocks,
                names == old(self)@.names,
                known == known_to(*resolver),
                class == folds(names, known),
                self@ == (Ledger {
                    names: learned_all(names, known, live_addresses(map)),
                    ..old(self)@
                }),
                lists(keys@, map),
                all == values_at(map, keys@),
                total(all, block_size()) <= u64::MAX,
                agg.wf(),
                forall|key: Seq<char>| #[trigger]
                    agg@.contains_key(key) ==> agg@[key] == total(
                        all.take(i as int),
                        size_at_key(class, key),
                    ),
                forall|key: Seq<char>| #[trigger]
                    agg@.contains_key(key) <==> exists|k: int|
                        0 <= k < i && class(#[trigger] all[k]) == key,
            decreases keys.len() - i,
        {
            let ptr: usize = keys[i];
            let ghost block = all[i as int];
            proof {
                assert(keys@.to_set().contains(ptr));
                assert(map.contains_key(ptr));
                assert(self@.blocks == map);
            }
            let (frames, size): (Vec<usize>, u64) = match self.active.get(&ptr) {
                Some(a) => {
                    assert(a@ == block);
                    (copy_frames(&a.frames), a.size)
                },
                None => (Vec::new(), 0),
            };
            assert(frames@ == block.frames && size == block.size);
            let labels = self.resolve_stack(frames.as_slice(), resolver);
            proof {
                let seen = learned_all(names, known, live_addresses(map));
                assert forall|a: usize| #[trigger] names_for(seen, known, a) == names_for(
                    names,
                    known,
                    a,
                ) by {}
                lemma_same_labels(seen, names, known, frames@);
                assert forall|a: usize| frames@.to_set().contains(a) implies live_addresses(
                    map,
                ).contains(a) by {
                    assert(map[ptr].frames.contains(a));
                }
                assert(learned_all(seen, known, frames@.to_set()) =~= seen);
            }
            let key = folded_line(&labels);
            assert(key@ == class(block));
            proof {
                lemma_total_prefix(all, i + 1, block_size());
                lemma_total_le(all.take(i + 1), size_at_key(class, key@), block_size());
                lemma_total_step(all, i as int, size_at_key(class, key@));
                if !agg@.contains_key(key@) {
                    lemma_class_is_empty(all.take(i as int), class, key@);
                }
            }
            let ghost before = agg@;
            match agg.position(key.as_str()) {
                Some(at) => {
                    let sum: u64 = *agg.value(at) + size;
                    agg.set(at, sum);
                },
                None => {
                    agg.put(key.as_str(), size);
                },
            }
            assert forall|k: Seq<char>| #[trigger] agg@.contains_key(k) implies agg@[k] == total(
                all.take(i + 1),
                size_at_key(class, k),
            ) by {
                lemma_total_step(all, i as int, size_at_key(class, k));
                if k != key@ {
                    assert(before.contains_key(k));
                }
            }
            assert forall|k: Seq<char>| #[trigger] agg@.contains_key(k) <==> exists|j: int|
                0 <= j < i + 1 && class(#[trigger] all[j]) == k by {
                if agg@.contains_key(k) {
                    if k == key@ {
                        assert(class(all[i as int]) == k);
                    } else {
                        assert(before.contains_key(k));
                    }
                }
                if exists|j: int| 0 <= j < i + 1 && class(#[trigger] all[j]) == k {
                    let j = choose|j: int| 0 <= j < i + 1 && class(#[trigger] all[j]) == k;
                    if j < i {
                        assert(before.contains_key(k));
                    }
                }
            }
            i += 1;
        }
        assert(all.take(i as int) =~= all);
        let ghost listed = agg.labels();
        proof {
            agg.lemma_listing();
            assert forall|key: Seq<char>| #[trigger] agg@.contains_key(key) implies agg@[key]
                == folded_bytes(map, class, key) by {
                lemma_tally_listing(map, keys@, size_at_key(class, key));
            }
            assert forall|ptr: usize| #[trigger] map.contains_key(ptr) implies listed.contains(
                class(map[ptr]),
            ) by {
                assert(keys@.to_set().contains(ptr));
                let k = choose|k: int| 0 <= k < keys@.len() && keys@[k] == ptr;
                assert(class(all[k]) == class(map[ptr]));
                assert(agg@.contains_key(class(map[ptr])));
            }
            assert forall|m: int| 0 <= m < listed.len() implies exists|ptr: usize| #[trigger]
                map.contains_key(ptr) && class(map[ptr]) == #[trigger] listed[m] by {
                assert(agg@.contains_key(listed[m]));
                let k = choose|k: int| 0 <= k < all.len() && class(#[trigger] all[k]) == listed[m];
                assert(keys@.to_set().contains(keys@[k]));
                assert(map.contains_key(keys@[k]));
            }
            assert(lists_keys(listed, map, class));
        }
        let mut out = String::new();
        let mut k: usize = 0;
        assert(out@ =~= folded_lines(listed.take(0), map, class));
        while k < agg.len()
            invariant
                k <= listed.len(),
                agg.wf(),
                listed == agg.labels(),
                listed.len() == agg.entries().len(),
                forall|m: int|
                    0 <= m < listed.len() ==> agg.entries()[m] == folded_bytes(
                        map,
                        class,
                        #[trigger] listed[m],
                    ),
                out@ == folded_lines(listed.take(k as int), map, class),
            decreases listed.len() - k,
        {
            assert(listed.take(k + 1).drop_last() =~= listed.take(k as int));
            assert(listed.take(k + 1).last() == listed[k as int]);
            out.append(agg.label(k).as_str());
            out.append(" ");
            push_decimal(&mut out, *agg.value(k));
            out.append("\n");
            k += 1;
        }
        assert(listed.take(k as int) =~= listed);
        out
    }
}

/// The addresses in the call stacks of the blocks at `keys`.
spec fn addresses_at(blocks: Map<usize, Block>, keys: Seq<usize>) -> Set<usize> {
    Set::new(
        |addr: usize|
            exists|k: int| 0 <= k < keys.len() && blocks[#[trigger] keys[k]].frames.contains(addr),
    )
}

/// A condition that all meet filters nothing out.
proof fn lemma_filter_all(blocks: Seq<Block>, pred: spec_fn(Block) -> bool)
    requires
        forall|k: int| 0 <= k < blocks.len() ==> pred(#[trigger] blocks[k]),
    ensures
        blocks.filter(pred) == blocks,
    decreases blocks.len(),
{
    reveal(Seq::filter);
    if blocks.len() > 0 {
        let rest = blocks.drop_last();
        assert forall|k: int| 0 <= k < rest.len() implies pred(#[trigger] rest[k]) by {
            assert(rest[k] == blocks[k]);
        }
        lemma_filter_all(rest, pred);
        assert(pred(blocks[blocks.len() - 1]));
        assert(rest.push(blocks.last()) =~= blocks);
    } else {
        assert(blocks.filter(pred) =~= blocks);
    }
}

/// A class without items weighs nothing.
proof fn lemma_class_is_empty(
    items: Seq<Block>,
    class: spec_fn(Block) -> Seq<char>,
    key: Seq<char>,
)
    requires
        forall|k: int| 0 <= k < items.len() ==> class(#[trigger] items[k]) != key,
    ensures
        total(items, size_at_key(class, key)) == 0,
    decreases items.len(),
{
    if items.len() > 0 {
        let rest = items.drop_last();
        assert forall|k: int| 0 <= k < rest.len() implies class(#[trigger] rest[k]) != key by {
            assert(rest[k] == items[k]);
        }
        lemma_class_is_empty(rest, class, key);
        assert(class(items[items.len() - 1]) != key);
    }
}

/// The line of the folded stacks for a call stack with these labels, without its bytes.
fn folded_line(labels: &Vec<String>) -> (line: String)
    ensures
        line@ == if labels.len() == 0 {
            "[unknown]"@
        } else {
            joined_back(texts(labels@))
        },
{
    if labels.len() == 0 {
        return "[unknown]".to_owned();
    }
    let ghost list = texts(labels@);
    let mut line = String::new();
    let mut i: usize = labels.len();
    assert(list.skip(i as int) =~= Seq::<Seq<char>>::empty());
    assert(line@ =~= joined_back(list.skip(i as int)));
    while i > 0
        invariant
            i <= labels.len(),
            list == texts(labels@),
            line@ == joined_back(list.skip(i as int)),
        decreases i,
    {
        let ghost before = line@;
        let ghost tail = list.skip(i - 1);
        assert(tail.drop_first() =~= list.skip(i as int));
        if i < labels.len() {
            line.append(";");
        }
        i -= 1;
        push_replaced(&mut line, labels[i].as_str(), ';', ':');
        assert(tail[0] == labels@[i as int]@);
        assert(line@ =~= joined_back(tail));
    }
    assert(list.skip(0) =~= list);
    line
}

/// The `n` entries with most bytes, the largest first.
fn leak_list(agg: &SiteTable<(u64, u64, u64)>, n: usize) -> (rows: Vec<LeakRow>)
    requires
        agg.wf(),
    ensures
        is_leak_list(rows@, agg@, n as nat),
{
    let ghost labels = agg.labels();
    proof {
        agg.lemma_listing();
    }
    let mut weights: Vec<u64> = Vec::new();
    let mut i: usize = 0;
    while i < agg.len()
        invariant
            i <= labels.len(),
            agg.wf(),
            labels == agg.labels(),
            labels.len() == agg.entries().len(),
            weights.len() == i,
            forall|k: int| 0 <= k < i ==> #[trigger] weights@[k] == agg.entries()[k].0,
        decreases labels.len() - i,
    {
        weights.push(agg.value(i).0);
        i += 1;
    }
    let order = heaviest(&weights, 0, n);
    let mut rows: Vec<LeakRow> = Vec::new();
    let mut k: usize = 0;
    while k < order.len()
        invariant
            k <= order.len(),
            agg.wf(),
            labels == agg.labels(),
            labels.len() == agg.entries().len(),
            forall|m: int| 0 <= m < order.len() ==> (#[trigger] order@[m]) < labels.len(),
            rows.len() == k,
            forall|m: int|
                0 <= m < k ==> is_leak_row(
                    #[trigger] rows@[m],
                    labels[order@[m] as int],
                    agg.entries()[order@[m] as int],
                ),
        decreases order.len() - k,
    {
        let at: usize = order[k];
        let entry: (u64, u64, u64) = *agg.value(at);
        rows.push(
            LeakRow {
                site: agg.label(at).clone(),
                bytes: entry.0,
                count: entry.1,
                oldest_age: entry.2,
            },
        );
        k += 1;
    }
    proof {
        let pool = |site: Seq<char>| agg@.contains_key(site);
        let weight = |site: Seq<char>| agg@[site].0 as nat;
        assert forall|m: int| 0 <= m < rows@.len() implies (#[trigger] leak_rows(rows@)[m]).0
            == labels[order@[m] as int] && leak_rows(rows@)[m].1 == weights@[order@[m] as int] by {
            assert(is_leak_row(
                rows@[m],
                labels[order@[m] as int],
                agg.entries()[order@[m] as int],
            ));
        }
        lemma_ranking(leak_rows(rows@), labels, weights@, order@, 0, pool, weight, n as nat);
        assert forall|m: int| 0 <= m < rows@.len() implies is_leak_row(
            #[trigger] rows@[m],
            rows@[m].site@,
            agg@[rows@[m].site@],
        ) by {
            assert(agg@.contains_key(labels[order@[m] as int]));
        }
    }
    rows
}

/// The heat of a row in all; `None` if it is too large a number.
fn row_sum(row: &Vec<u64>) -> (sum: Option<u64>)
    ensures
        match sum {
            Some(v) => v == row_total(row@),
            None => row_total(row@) > u64::MAX,
        },
{
    let mut sum: u64 = 0;
    let mut i: usize = 0;
    while i < row.len()
        invariant
            i <= row.len(),
            sum == row_total(row@.take(i as int)),
        decreases row.len() - i,
    {
        proof {
            lemma_total_step(row@, i as int, cell_value());
            lemma_total_prefix(row@, i + 1, cell_value());
        }
        match sum.checked_add(row[i]) {
            Some(v) => {
                sum = v;
            },
            None => {
                return None;
            },
        }
        i += 1;
    }
    assert(row@.take(i as int) =~= row@);
    Some(sum)
}

/// The call stack of an event.
fn stack_of(ev: &AllocEvent) -> (frames: Vec<usize>)
    requires
        ev.frame_count <= MAX_STACK_DEPTH,
    ensures
        frames@ == ev.stack(),
{
    let count: usize = ev.frame_count as usize;
    let mut frames: Vec<usize> = Vec::new();
    let mut i: usize = 0;
    while i < count
        invariant
            i <= count <= MAX_STACK_DEPTH,
            frames@ == ev.frames@.take(i as int),
        decreases count - i,
    {
        frames.push(ev.frames[i]);
        i += 1;
        assert(frames@ =~= ev.frames@.take(i as int));
    }
    frames
}

} // verus!
