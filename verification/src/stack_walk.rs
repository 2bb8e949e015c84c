//! Walking a chain of saved frame pointers.
//!
//! A frame holds the caller's frame pointer at its own address and the return address one word
//! above. The walk itself only decides: it names the next word of memory it needs, and takes what
//! was read there. A word that cannot be read ends it, with the frames found so far.

use crate::injection::MAX_STACK_DEPTH;
use vstd::prelude::*;

verus! {

/// A step up the stack must stay below this many bytes.
pub const MAX_STEP: usize = 0x100_000;

/// The size of a word of memory.
pub const WORD: usize = 8;

/// Memory as the walk sees it: the word at an address, if it can be read.
pub type Memory = spec_fn(usize) -> Option<usize>;

/// A frame pointer that may be followed at all.
pub open spec fn plausible(rbp: usize) -> bool {
    rbp != 0 && rbp % WORD == 0
}

/// The saved frame pointer `next`, found at `rbp`, leads strictly upward and not too far.
pub open spec fn linked(rbp: usize, next: usize) -> bool {
    next > rbp && next - rbp < MAX_STEP
}

/// The return addresses found from `rbp` on, at most `room` of them.
pub open spec fn chain(mem: Memory, rbp: usize, room: nat) -> Seq<usize>
    decreases room, 1nat,
{
    if room == 0 || !plausible(rbp) {
        seq![]
    } else {
        match mem(rbp.wrapping_add(WORD)) {
            Some(ret) if ret != 0 => seq![ret] + callers(mem, rbp, (room - 1) as nat),
            _ => seq![],
        }
    }
}

/// The return addresses found from the caller of the frame at `rbp` on.
pub open spec fn callers(mem: Memory, rbp: usize, room: nat) -> Seq<usize>
    decreases room, 2nat,
{
    match mem(rbp) {
        Some(next) if linked(rbp, next) => chain(mem, next, room),
        _ => seq![],
    }
}

/// The frame pointer `skip` frames above `rbp`, if the chain reaches that far.
pub open spec fn skipped(mem: Memory, rbp: usize, skip: nat) -> Option<usize>
    decreases skip,
{
    if skip == 0 {
        Some(rbp)
    } else if !plausible(rbp) {
        None
    } else {
        match mem(rbp) {
            Some(next) if linked(rbp, next) => skipped(mem, next, (skip - 1) as nat),
            _ => None,
        }
    }
}

/// The frames above the skipped ones.
pub open spec fn chain_above(mem: Memory, rbp: usize, skip: nat, room: nat) -> Seq<usize> {
    match skipped(mem, rbp, skip) {
        Some(first) => chain(mem, first, room),
        None => seq![],
    }
}

/// The frame that a walk is seeded with, if any.
pub open spec fn seed(seed_pc: Option<usize>) -> Seq<usize> {
    match seed_pc {
        Some(pc) => seq![pc],
        None => seq![],
    }
}

/// The trace of a walk from `rbp`: the seed, then the callers found above the skipped frames,
/// nearest first, [`MAX_STACK_DEPTH`] frames at most.
pub open spec fn trace(mem: Memory, rbp: usize, skip: nat, seed_pc: Option<usize>) -> Seq<usize> {
    let top = seed(seed_pc);
    top + chain_above(mem, rbp, skip, (MAX_STACK_DEPTH - top.len()) as nat)
}

/// What the walk needs next.
enum Wanted {
    /// The saved frame pointer of a frame that is skipped.
    Skip,
    /// The return address.
    Return,
    /// The saved frame pointer.
    Link,
    /// Nothing: the walk is over.
    Nothing,
}

/// A walk in progress.
pub struct Walk {
    wanted: Wanted,
    rbp: usize,
    skip: usize,
    frames: [usize; MAX_STACK_DEPTH],
    depth: usize,
}

impl Walk {
    pub closed spec fn wf(self) -> bool {
        &&& self.depth <= MAX_STACK_DEPTH
        &&& self.wanted is Return ==> self.depth < MAX_STACK_DEPTH
        &&& self.wanted is Skip ==> self.skip > 0 && self.depth < MAX_STACK_DEPTH
        &&& !(self.wanted is Nothing) ==> plausible(self.rbp)
    }

    /// The frames found so far.
    pub closed spec fn found(self) -> Seq<usize> {
        self.frames@.take(self.depth as int)
    }

    /// The address of the word that the walk needs next; `None` once it is over.
    pub closed spec fn wants(self) -> Option<usize> {
        match self.wanted {
            Wanted::Skip => Some(self.rbp),
            Wanted::Return => Some(self.rbp.wrapping_add(WORD)),
            Wanted::Link => Some(self.rbp),
            Wanted::Nothing => None,
        }
    }

    /// The trace that this walk comes to over `mem`.
    pub closed spec fn outcome(self, mem: Memory) -> Seq<usize> {
        let room = (MAX_STACK_DEPTH - self.depth) as nat;
        self.found() + match self.wanted {
            Wanted::Skip => chain_above(mem, self.rbp, self.skip as nat, room),
            Wanted::Return => chain(mem, self.rbp, room),
            Wanted::Link => callers(mem, self.rbp, room),
            Wanted::Nothing => seq![],
        }
    }

    /// An upper bound on the words that are still read.
    pub closed spec fn fuel(self) -> nat {
        match self.wanted {
            Wanted::Skip => (self.skip + 2 * (MAX_STACK_DEPTH - self.depth) + 1) as nat,
            Wanted::Return => (2 * (MAX_STACK_DEPTH - self.depth)) as nat,
            Wanted::Link => (2 * (MAX_STACK_DEPTH - self.depth) + 1) as nat,
            Wanted::Nothing => 0,
        }
    }

    /// Where to go on from the frame pointer `rbp`.
    fn turn_to(&mut self, rbp: usize)
        requires
            old(self).depth <= MAX_STACK_DEPTH,
            old(self).depth == MAX_STACK_DEPTH ==> old(self).skip == 0,
        ensures
            final(self).wf(),
            final(self).depth == old(self).depth,
            final(self).frames == old(self).frames,
            forall|mem: Memory| #[trigger]
                final(self).outcome(mem) == final(self).found() + chain_above(
                    mem,
                    rbp,
                    old(self).skip as nat,
                    (MAX_STACK_DEPTH - old(self).depth) as nat,
                ),
            final(self).fuel() <= old(self).skip + 2 * (MAX_STACK_DEPTH - old(self).depth) + 1,
            old(self).skip == 0 ==> final(self).fuel() <= 2 * (MAX_STACK_DEPTH - old(self).depth),
    {
        self.rbp = rbp;
        if rbp == 0 || rbp % WORD != 0 || self.depth == MAX_STACK_DEPTH {
            self.wanted = Wanted::Nothing;
        } else if self.skip > 0 {
            self.wanted = Wanted::Skip;
        } else {
            self.wanted = Wanted::Return;
        }
        assert forall|mem: Memory| #[trigger] self.outcome(mem) == self.found() + chain_above(
            mem,
            rbp,
            old(self).skip as nat,
            (MAX_STACK_DEPTH - old(self).depth) as nat,
        ) by {
            assert(self.outcome(mem) =~= self.found() + chain_above(
                mem,
                rbp,
                old(self).skip as nat,
                (MAX_STACK_DEPTH - old(self).depth) as nat,
            ));
        }
    }

    /// Begins a walk at the frame pointer `rbp`, over the first `skip` frames, with `seed_pc` as
    /// the innermost frame if it is given.
    pub fn start(rbp: usize, skip: usize, seed_pc: Option<usize>) -> (walk: Walk)
        ensures
            walk.wf(),
            forall|mem: Memory| #[trigger] walk.outcome(mem) == trace(mem, rbp, skip as nat, seed_pc),
    {
        let mut walk = Walk {
            wanted: Wanted::Nothing,
            rbp,
            skip,
            frames: [0usize;32],
            depth: 0,
        };
        if let Some(pc) = seed_pc {
            walk.frames[0] = pc;
            walk.depth = 1;
        }
        walk.turn_to(rbp);
        assert(walk.found() =~= seed(seed_pc));
        walk
    }

    /// The address of the word to read next; `None` once the walk is over.
    pub fn next(&self) -> (address: Option<usize>)
        requires
            self.wf(),
        ensures
            address == self.wants(),
            address is None ==> forall|mem: Memory| #[trigger] self.outcome(mem) == self.found(),
    {
        assert forall|mem: Memory| self.wanted is Nothing implies #[trigger] self.outcome(mem)
            == self.found() by {
            assert(self.outcome(mem) =~= self.found() + seq![]);
            assert(self.found() + Seq::<usize>::empty() =~= self.found());
        }
        match self.wanted {
            Wanted::Skip => Some(self.rbp),
            Wanted::Return => Some(self.rbp.wrapping_add(WORD)),
            Wanted::Link => Some(self.rbp),
            Wanted::Nothing => None,
        }
    }

    /// Takes the word at the wanted address, `None` if it could not be read. Over any memory that
    /// holds that word there, the outcome of the walk stays what it was.
    pub fn feed(&mut self, word: Option<usize>)
        requires
            old(self).wf(),
            old(self).wants() is Some,
        ensures
            final(self).wf(),
            final(self).fuel() < old(self).fuel(),
            forall|mem: Memory| mem(old(self).wants()->0) == word ==> #[trigger] final(self).outcome(mem)
                == old(self).outcome(mem),
    {
        let ghost before = *self;
        match word {
            None => {
                self.wanted = Wanted::Nothing;
            },
            Some(word) => {
                match self.wanted {
                    Wanted::Skip => {
                        if word > self.rbp && word - self.rbp < MAX_STEP {
                            self.skip = self.skip - 1;
                            self.turn_to(word);
                        } else {
                            self.wanted = Wanted::Nothing;
                        }
                    },
                    Wanted::Return => {
                        if word == 0 {
                            self.wanted = Wanted::Nothing;
                        } else {
                            self.frames[self.depth] = word;
                            self.depth = self.depth + 1;
                            self.wanted = Wanted::Link;
                            assert(self.found() =~= before.found().push(word));
                        }
                    },
                    Wanted::Link => {
                        if word > self.rbp && word - self.rbp < MAX_STEP {
                            self.skip = 0;
                            self.turn_to(word);
                        } else {
                            self.wanted = Wanted::Nothing;
                        }
                    },
                    Wanted::Nothing => {},
                }
            },
        }
        assert forall|mem: Memory| mem(before.wants()->0) == word implies #[trigger] self.outcome(mem)
            == before.outcome(mem) by {
            let room = (MAX_STACK_DEPTH - before.depth) as nat;
            match before.wanted {
                Wanted::Skip => {
                    assert(before.outcome(mem) =~= before.found() + chain_above(
                        mem,
                        before.rbp,
                        before.skip as nat,
                        room,
                    ));
                    assert(self.outcome(mem) =~= before.outcome(mem));
                },
                Wanted::Return => {
                    assert(self.outcome(mem) =~= before.outcome(mem));
                },
                Wanted::Link => {
                    assert(self.outcome(mem) =~= before.outcome(mem));
                },
                Wanted::Nothing => {},
            }
        }
    }

    /// Writes the frames found into `out` and gives their number; the rest of `out` stays.
    pub fn write_to(&self, out: &mut [usize; MAX_STACK_DEPTH]) -> (count: u8)
        requires
            self.wf(),
        ensures
            count == self.found().len(),
            count <= MAX_STACK_DEPTH,
            final(out)@.take(count as int) == self.found(),
            final(out)@.skip(count as int) == old(out)@.skip(count as int),
    {
        let mut i: usize = 0;
        while i < self.depth
            invariant
                self.wf(),
                i <= self.depth <= MAX_STACK_DEPTH,
                forall|j: int| 0 <= j < i ==> out@[j] == self.frames@[j],
                forall|j: int| i <= j < MAX_STACK_DEPTH ==> out@[j] == old(out)@[j],
            decreases self.depth - i,
        {
            out[i] = self.frames[i];
            i += 1;
        }
        assert(out@.take(self.depth as int) =~= self.found());
        assert(out@.skip(self.depth as int) =~= old(out)@.skip(self.depth as int));
        self.depth as u8
    }
}

/// A piece of stack memory: the words from address `base` on.
pub struct StackImage {
    pub base: usize,
    pub words: Vec<usize>,
}

impl StackImage {
    /// The word at `address`, if the image holds one there.
    pub open spec fn word(self, address: usize) -> Option<usize> {
        let offset = address - self.base;
        if offset >= 0 && offset % (WORD as int) == 0 && offset / (WORD as int) < self.words.len() {
            Some(self.words@[offset / (WORD as int)])
        } else {
            None
        }
    }

    /// The image as memory for a walk.
    pub open spec fn memory(self) -> Memory {
        |address: usize| self.word(address)
    }

    pub fn read(&self, address: usize) -> (word: Option<usize>)
        ensures
            word == self.word(address),
    {
        if address >= self.base && (address - self.base) % WORD == 0 {
            let i = (address - self.base) / WORD;
            if i < self.words.len() {
                return Some(self.words[i]);
            }
        }
        None
    }
}

/// Walks the chain of frame pointers that starts at `rbp` in `stack` and writes the trace into
/// `out`, nearest caller first; gives the number of frames.
pub fn walk_from_rbp(
    stack: &StackImage,
    rbp: usize,
    skip: usize,
    seed_pc: Option<usize>,
    out: &mut [usize; MAX_STACK_DEPTH],
) -> (count: u8)
    ensures
        count <= MAX_STACK_DEPTH,
        final(out)@.take(count as int) == trace(stack.memory(), rbp, skip as nat, seed_pc),
        final(out)@.skip(count as int) == old(out)@.skip(count as int),
{
    let mut walk = Walk::start(rbp, skip, seed_pc);
    let ghost mem = stack.memory();
    assert(walk.outcome(mem) == trace(mem, rbp, skip as nat, seed_pc));
    loop
        invariant
            walk.wf(),
            mem == stack.memory(),
            walk.outcome(mem) == trace(mem, rbp, skip as nat, seed_pc),
        ensures
            walk.wf(),
            walk.found() == trace(mem, rbp, skip as nat, seed_pc),
        decreases walk.fuel(),
    {
        match walk.next() {
            None => {
                assert(walk.outcome(mem) == walk.found());
                break;
            },
            Some(address) => {
                let ghost before = walk;
                let word = stack.read(address);
                assert(mem(address) == word);
                walk.feed(word);
                assert(walk.outcome(mem) == before.outcome(mem));
            },
        }
    }
    walk.write_to(out)
}

/// Every frame that a chain yields is a return address, never zero, and there is room for it.
pub proof fn law_chain_is_bounded(mem: Memory, rbp: usize, room: nat)
    ensures
        chain(mem, rbp, room).len() <= room,
        forall|i: int| 0 <= i < chain(mem, rbp, room).len() ==> chain(mem, rbp, room)[i] != 0,
    decreases room,
{
    if room > 0 && plausible(rbp) {
        if let Some(next) = mem(rbp) {
            law_chain_is_bounded(mem, next, (room - 1) as nat);
        }
    }
}

/// A trace never holds more than [`MAX_STACK_DEPTH`] frames, and starts with the seed.
pub proof fn law_trace_is_bounded(mem: Memory, rbp: usize, skip: nat, seed_pc: Option<usize>)
    ensures
        trace(mem, rbp, skip, seed_pc).len() <= MAX_STACK_DEPTH,
        seed_pc is Some ==> trace(mem, rbp, skip, seed_pc).len() > 0 && trace(
            mem,
            rbp,
            skip,
            seed_pc,
        )[0] == seed_pc->0,
{
    if let Some(first) = skipped(mem, rbp, skip) {
        law_chain_is_bounded(mem, first, (MAX_STACK_DEPTH - seed(seed_pc).len()) as nat);
    }
}

/// Skipping frames drops as many from the start of the trace and changes nothing else, as long
/// as the frames that are skipped would have been recorded.
pub proof fn law_skip_drops_leading_frames(mem: Memory, rbp: usize, skip: nat, room: nat)
    requires
        skip <= chain(mem, rbp, room).len(),
    ensures
        chain_above(mem, rbp, skip, (room - skip) as nat) == chain(mem, rbp, room).skip(
            skip as int,
        ),
    decreases skip,
{
    law_chain_is_bounded(mem, rbp, room);
    let whole = chain(mem, rbp, room);
    if skip == 0 {
        assert(whole.skip(0) =~= whole);
    } else {
        let above = callers(mem, rbp, (room - 1) as nat);
        assert(whole =~= seq![whole[0]] + above);
        assert(whole.skip(skip as int) =~= above.skip(skip - 1));
        match mem(rbp) {
            Some(next) if linked(rbp, next) => {
                law_skip_drops_leading_frames(mem, next, (skip - 1) as nat, (room - 1) as nat);
            },
            _ => {
                assert(above.len() == 0);
                assert(chain_above(mem, rbp, skip, (room - skip) as nat) =~= whole.skip(skip as int));
            },
        }
    }
}

} // verus!
