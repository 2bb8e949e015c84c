//! A bounded queue of events between one producer and one consumer. A full queue drops what is
//! offered and counts it: the producer never waits, and nothing is lost in silence.
//!
//! The two counters only grow (and wrap), so each side can decide from a copy of both of them
//! what to do next: [`push_slot`] for the producer, [`pop_slot`] for the consumer.

use crate::symbols::text_of;
use crate::text::decimal;
use crate::text::push_decimal;
use vstd::prelude::*;
use vstd::arithmetic::div_mod::lemma_mod_equivalence;
use vstd::arithmetic::div_mod::lemma_small_mod;
use vstd::string::StringExecFns;

verus! {

/// How many items wait between the counters.
pub open spec fn pending(head: u64, tail: u64) -> u64 {
    tail.wrapping_sub(head)
}

/// The slot that the item with number `position` uses.
pub open spec fn slot_of(position: u64, capacity: usize) -> usize {
    (position % capacity as u64) as usize
}

/// Neighbouring numbers up to `tail` use neighbouring slots: either the capacity divides the
/// range of the counters, or they have not wrapped on the way from `head` to `tail`.
pub open spec fn in_step(head: u64, tail: u64, capacity: usize) -> bool {
    0x1_0000_0000_0000_0000int % capacity as int == 0 || (head <= tail && tail < u64::MAX)
}

/// The slot that the producer may fill next; `None` if the queue is full.
pub fn push_slot(head: u64, tail: u64, capacity: usize) -> (slot: Option<usize>)
    requires
        capacity > 0,
    ensures
        match slot {
            Some(s) => pending(head, tail) < capacity && s == slot_of(tail, capacity) && s < capacity,
            None => pending(head, tail) >= capacity,
        },
{
    if tail.wrapping_sub(head) >= capacity as u64 {
        None
    } else {
        Some((tail % capacity as u64) as usize)
    }
}

/// The slot that the consumer may empty next; `None` if the queue is empty.
pub fn pop_slot(head: u64, tail: u64, capacity: usize) -> (slot: Option<usize>)
    requires
        capacity > 0,
    ensures
        match slot {
            Some(s) => head != tail && s == slot_of(head, capacity) && s < capacity,
            None => head == tail,
        },
{
    if head == tail {
        None
    } else {
        Some((head % capacity as u64) as usize)
    }
}

/// What is wrong with a shared segment of `actual` bytes where a ring takes `expected` bytes:
/// nothing, if the two agree.
pub open spec fn mismatch_text(name: Seq<char>, actual: nat, expected: nat) -> Option<Seq<char>> {
    if actual == expected {
        None
    } else {
        Some(
            "shared memory segment '"@ + name + "' is "@ + decimal(actual) + " bytes, expected "@
                + decimal(expected)
                + " bytes (RingBuffer<T, N> type/capacity mismatch between processes)"@,
        )
    }
}

/// Checks the size of a shared segment before it is used as a ring.
pub fn size_mismatch(name: &str, actual: usize, expected: usize) -> (message: Option<String>)
    ensures
        text_of(message) == mismatch_text(name@, actual as nat, expected as nat),
{
    if actual == expected {
        return None;
    }
    let mut message = "shared memory segment '".to_owned();
    message.append(name);
    message.append("' is ");
    push_decimal(&mut message, actual as u64);
    message.append(" bytes, expected ");
    push_decimal(&mut message, expected as u64);
    message.append(" bytes (RingBuffer<T, N> type/capacity mismatch between processes)");
    Some(message)
}

pub struct RingBuffer<T, const N: usize> {
    slots: Vec<T>,
    head: u64,
    tail: u64,
    dropped: u64,
}

impl<T, const N: usize> View for RingBuffer<T, N> {
    type V = Seq<T>;

    /// The waiting items, the oldest first.
    closed spec fn view(&self) -> Seq<T> {
        Seq::new(
            pending(self.head, self.tail) as nat,
            |i: int| self.slots@[slot_of(self.head.wrapping_add(i as u64), N) as int],
        )
    }
}

impl<T, const N: usize> RingBuffer<T, N> {
    pub closed spec fn wf(&self) -> bool {
        &&& N > 0
        &&& self.slots.len() == N
        &&& pending(self.head, self.tail) <= N
    }

    /// How many items have been dropped so far (modulo the counter's range).
    pub closed spec fn drops(&self) -> u64 {
        self.dropped
    }

    /// How many items have been taken so far (modulo the counter's range).
    pub closed spec fn taken(&self) -> u64 {
        self.head
    }

    /// How many items have been accepted so far (modulo the counter's range).
    pub closed spec fn accepted(&self) -> u64 {
        self.tail
    }

    /// See [`in_step`].
    pub open spec fn steady(&self) -> bool {
        in_step(self.taken(), self.accepted(), N)
    }
}

/// A queue of `capacity` and its count of dropped items, after `item` was offered.
pub open spec fn offer<T>(queue: Seq<T>, dropped: u64, item: T, capacity: nat) -> (Seq<T>, u64) {
    if queue.len() < capacity {
        (queue.push(item), dropped)
    } else {
        (queue, dropped.wrapping_add(1))
    }
}

/// What is taken from a queue, and what stays in it.
pub open spec fn serve<T>(queue: Seq<T>) -> (Option<T>, Seq<T>) {
    if queue.len() > 0 {
        (Some(queue[0]), queue.drop_first())
    } else {
        (None, queue)
    }
}

impl<T: Copy + Default, const N: usize> RingBuffer<T, N> {
    pub fn new() -> (ring: Box<Self>)
        requires
            N > 0,
        ensures
            ring.wf(),
            ring@ == Seq::<T>::empty(),
            ring.drops() == 0,
            ring.taken() == 0,
            ring.accepted() == 0,
    {
        let mut slots: Vec<T> = Vec::new();
        let mut i: usize = 0;
        while i < N
            invariant
                i <= N,
                slots.len() == i,
            decreases N - i,
        {
            slots.push(T::default());
            i += 1;
        }
        let ring = RingBuffer { slots, head: 0, tail: 0, dropped: 0 };
        assert(ring@ =~= Seq::<T>::empty());
        Box::new(ring)
    }

    /// Offers `item`. A full ring hands it back and counts it as dropped.
    pub fn push(&mut self, item: T) -> (result: Result<(), T>)
        requires
            old(self).wf(),
        ensures
            final(self).wf(),
            final(self).taken() == old(self).taken(),
            match result {
                Ok(()) => {
                    &&& old(self)@.len() < N
                    &&& final(self)@.len() == old(self)@.len() + 1
                    &&& final(self).drops() == old(self).drops()
                    &&& final(self).accepted() == old(self).accepted().wrapping_add(1)
                },
                Err(back) => {
                    &&& old(self)@.len() == N
                    &&& back == item
                    &&& final(self)@ == old(self)@
                    &&& final(self).drops() == old(self).drops().wrapping_add(1)
                    &&& final(self).accepted() == old(self).accepted()
                },
            },
            old(self).steady() ==> (final(self)@, final(self).drops()) == offer(
                old(self)@,
                old(self).drops(),
                item,
                N as nat,
            ),
    {
        match push_slot(self.head, self.tail, N) {
            None => {
                self.dropped = self.dropped.wrapping_add(1);
                assert(self@ =~= old(self)@);
                Err(item)
            },
            Some(slot) => {
                self.slots.set(slot, item);
                self.tail = self.tail.wrapping_add(1);
                proof {
                    let head = self.head;
                    let len = pending(head, old(self).tail);
                    assert(head.wrapping_add(len) == old(self).tail);
                    if in_step(head, old(self).tail, N) {
                        assert forall|i: int| 0 <= i < len implies #[trigger] slot_of(
                            head.wrapping_add(i as u64),
                            N,
                        ) != slot by {
                            lemma_slots_differ(head, i as u64, len, N);
                        }
                        assert(self@ =~= old(self)@.push(item));
                    }
                }
                Ok(())
            },
        }
    }

    /// Takes the oldest item.
    pub fn pop(&mut self) -> (item: Option<T>)
        requires
            old(self).wf(),
        ensures
            final(self).wf(),
            final(self).drops() == old(self).drops(),
            final(self).accepted() == old(self).accepted(),
            (item, final(self)@) == serve(old(self)@),
            match item {
                Some(_) => final(self).taken() == old(self).taken().wrapping_add(1),
                None => *final(self) == *old(self),
            },
    {
        match pop_slot(self.head, self.tail, N) {
            None => None,
            Some(slot) => {
                let item = self.slots[slot];
                self.head = self.head.wrapping_add(1);
                assert(old(self)@[0] == item);
                assert forall|i: int| 0 <= i < self@.len() implies self@[i] == #[trigger] old(self)@[i
                    + 1] by {
                    assert(self.head.wrapping_add(i as u64) == old(self).head.wrapping_add(
                        (i + 1) as u64,
                    ));
                }
                assert(self@ =~= old(self)@.drop_first());
                Some(item)
            },
        }
    }

    pub fn dropped_count(&self) -> (n: u64)
        ensures
            n == self.drops(),
    {
        self.dropped
    }
}

/// Two waiting items never use the same slot, nor does a waiting one and the next to come.
proof fn lemma_slots_differ(head: u64, i: u64, len: u64, capacity: usize)
    requires
        capacity > 0,
        i < len < capacity,
        in_step(head, head.wrapping_add(len), capacity),
    ensures
        slot_of(head.wrapping_add(i), capacity) != slot_of(head.wrapping_add(len), capacity),
{
    let c = capacity as int;
    let range = 0x1_0000_0000_0000_0000int;
    let a = head.wrapping_add(i);
    let b = head.wrapping_add(len);
    assert((head + i) % c == a as int % c) by {
        if head + i >= range {
            assert(range % c == 0);
            lemma_drop_multiple(head + i, range, c);
        }
    }
    assert((head + len) % c == b as int % c) by {
        if head + len >= range {
            assert(range % c == 0);
            lemma_drop_multiple(head + len, range, c);
        }
    }
    if (head + i) % c == (head + len) % c {
        lemma_mod_equivalence(head + len, head + i, c);
        lemma_small_mod((len - i) as nat, c as nat);
        assert(false);
    }
}

/// Taking away a multiple of `m` leaves the remainder.
proof fn lemma_drop_multiple(x: int, whole: int, m: int)
    requires
        m > 0,
        whole % m == 0,
    ensures
        (x - whole) % m == x % m,
{
    lemma_mod_equivalence(x, x - whole, m);
}

/// What a queue of `capacity` holds, and how many items it has dropped, after `offered` came in
/// one by one and nothing was taken.
pub open spec fn after_offering<T>(
    queue: Seq<T>,
    dropped: u64,
    offered: Seq<T>,
    capacity: nat,
) -> (Seq<T>, u64)
    decreases offered.len(),
{
    if offered.len() == 0 {
        (queue, dropped)
    } else {
        let (q, d) = after_offering(queue, dropped, offered.drop_last(), capacity);
        offer(q, d, offered.last(), capacity)
    }
}

/// Every item that is offered is either kept, in order behind what was there, or counted as
/// dropped; the first to come are the ones that are kept.
pub proof fn law_kept_or_counted<T>(queue: Seq<T>, dropped: u64, offered: Seq<T>, capacity: nat)
    requires
        dropped + offered.len() <= u64::MAX,
        queue.len() <= capacity,
    ensures
        ({
            let kept = if offered.len() <= capacity - queue.len() {
                offered.len() as int
            } else {
                capacity - queue.len()
            };
            after_offering(queue, dropped, offered, capacity) == (
                queue + offered.take(kept),
                (dropped + offered.len() - kept) as u64,
            )
        }),
    decreases offered.len(),
{
    if offered.len() == 0 {
        assert(queue + offered.take(0) =~= queue);
    } else {
        law_kept_or_counted(queue, dropped, offered.drop_last(), capacity);
        let (q, d) = after_offering(queue, dropped, offered.drop_last(), capacity);
        if q.len() < capacity {
            assert(offered.drop_last().take(offered.len() - 1) =~= offered.drop_last());
            assert(q.push(offered.last()) =~= queue + offered.take(offered.len() as int));
        } else {
            assert(offered.drop_last().take(capacity - queue.len()) =~= offered.take(
                capacity - queue.len(),
            ));
        }
    }
}

/// One use of a queue.
pub enum Use<T> {
    Push(T),
    Pop,
}

/// What has come of a queue: what waits in it and how many items were dropped, which items were
/// accepted and which were taken, in order.
pub struct Run<T> {
    pub waiting: Seq<T>,
    pub dropped: u64,
    pub accepted: Seq<T>,
    pub taken: Seq<T>,
}

/// How many of some uses are pushes.
pub open spec fn pushes<T>(uses: Seq<Use<T>>) -> nat
    decreases uses.len(),
{
    if uses.len() == 0 {
        0
    } else {
        pushes(uses.drop_last()) + match uses.last() {
            Use::Push(_) => 1nat,
            Use::Pop => 0nat,
        }
    }
}

/// What has come of a new queue of `capacity` after some uses, each of which does to it what
/// [`offer`] or [`serve`] says.
pub open spec fn run<T>(uses: Seq<Use<T>>, capacity: nat) -> Run<T>
    decreases uses.len(),
{
    if uses.len() == 0 {
        Run { waiting: Seq::empty(), dropped: 0, accepted: Seq::empty(), taken: Seq::empty() }
    } else {
        let before = run(uses.drop_last(), capacity);
        match uses.last() {
            Use::Push(item) => {
                let (waiting, dropped) = offer(before.waiting, before.dropped, item, capacity);
                let accepted = if before.waiting.len() < capacity {
                    before.accepted.push(item)
                } else {
                    before.accepted
                };
                Run { waiting, dropped, accepted, ..before }
            },
            Use::Pop => {
                let (item, waiting) = serve(before.waiting);
                let taken = match item {
                    Some(first) => before.taken.push(first),
                    None => before.taken,
                };
                Run { waiting, taken, ..before }
            },
        }
    }
}

/// However pushes and pops follow each other, nothing is lost in silence and nothing overtakes:
/// every item that was pushed was taken, still waits, or was counted as dropped; what was taken
/// and then what waits are the accepted items in their order; and the queue never holds more than
/// its capacity. (The counters of both sides stay in step all the while, see [`in_step`].)
pub proof fn law_every_item_is_accounted_for<T>(uses: Seq<Use<T>>, capacity: usize)
    requires
        capacity > 0,
        pushes(uses) <= u64::MAX,
    ensures
        ({
            let now = run(uses, capacity as nat);
            &&& pushes(uses) == now.taken.len() + now.waiting.len() + now.dropped
            &&& pushes(uses) == now.accepted.len() + now.dropped
            &&& now.accepted == now.taken + now.waiting
            &&& forall|k: int| 0 <= k < now.taken.len() ==> now.taken[k] == now.accepted[k]
            &&& now.waiting.len() <= capacity
            &&& now.accepted.len() < u64::MAX ==> in_step(
                now.taken.len() as u64,
                now.accepted.len() as u64,
                capacity,
            )
        }),
    decreases uses.len(),
{
    if uses.len() > 0 {
        law_every_item_is_accounted_for(uses.drop_last(), capacity);
        let before = run(uses.drop_last(), capacity as nat);
        let now = run(uses, capacity as nat);
        assert(now.accepted =~= now.taken + now.waiting);
    }
}

} // verus!
