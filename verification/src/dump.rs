//! Counts a stream of events without keeping a ledger: enough to tell whether events arrive and
//! whether the target crashed.

use crate::injection::AllocEvent;
use crate::text::decimal;
use crate::text::hex;
use crate::text::parse_decimal;
use crate::text::number;
use crate::text::push_decimal;
use crate::text::push_hex;
use std::collections::HashSet;
use vstd::prelude::*;
use vstd::string::StringExecFns;

verus! {

broadcast use vstd::std_specs::hash::group_hash_axioms;

/// How long events are counted, unless another time is asked for.
pub const DEFAULT_SECS: u64 = 5;

/// How many seconds to count for, given what was asked for.
pub fn dump_secs(asked: Option<String>) -> (secs: u64)
    ensures
        secs == match asked {
            Some(text) => match number(text@, 10, u64::MAX as nat) {
                Some(n) => n,
                None => DEFAULT_SECS as nat,
            },
            None => DEFAULT_SECS as nat,
        },
{
    match asked {
        Some(text) => match parse_decimal(text.as_str(), u64::MAX) {
            Some(n) => n,
            None => DEFAULT_SECS,
        },
        None => DEFAULT_SECS,
    }
}

/// What has been counted.
pub struct Dump {
    total: u64,
    crashes: u64,
    live: HashSet<usize>,
}

/// What a [`Dump`] holds.
#[verifier::ext_equal]
pub struct Tallied {
    pub total: nat,
    pub crashes: nat,
    pub live: Set<usize>,
}

impl View for Dump {
    type V = Tallied;

    closed spec fn view(&self) -> Tallied {
        Tallied { total: self.total as nat, crashes: self.crashes as nat, live: self.live@ }
    }
}

/// The addresses that are live after `ev`.
pub open spec fn live_after(live: Set<usize>, ev: AllocEvent) -> Set<usize> {
    if ev.kind == 0 || ev.kind == 2 || ev.kind == 4 || ev.kind == 5 {
        live.insert(ev.ptr)
    } else if ev.kind == 1 {
        live.remove(ev.ptr)
    } else if ev.kind == 3 {
        let rest = if ev.old_ptr != 0 {
            live.remove(ev.old_ptr)
        } else {
            live
        };
        if ev.ptr != 0 {
            rest.insert(ev.ptr)
        } else {
            rest
        }
    } else {
        live
    }
}

/// The line for a crash.
pub open spec fn crash_line(ev: AllocEvent) -> Seq<char> {
    "CRASH  signal="@ + decimal(ev.size as nat) + " fault_addr=0x"@ + hex(ev.old_ptr as nat)
        + " pc=0x"@ + hex(ev.ptr as nat) + " frames="@ + decimal(ev.frame_count as nat)
}

impl Dump {
    /// No more crashes were counted than events.
    pub closed spec fn wf(&self) -> bool {
        &&& self.crashes <= self.total
        &&& self.live@.finite()
    }

    pub fn new() -> (dump: Self)
        ensures
            dump.wf(),
            dump@ == (Tallied { total: 0, crashes: 0, live: Set::empty() }),
    {
        Dump { total: 0, crashes: 0, live: HashSet::new() }
    }

    /// Whether another event can be counted.
    pub fn can_count(&self) -> (yes: bool)
        ensures
            yes == (self@.total < u64::MAX),
    {
        self.total < u64::MAX
    }

    /// Counts `ev`. For a crash, gives the line to print.
    pub fn count(&mut self, ev: &AllocEvent) -> (line: Option<String>)
        requires
            old(self).wf(),
            old(self)@.total < u64::MAX,
        ensures
            final(self).wf(),
            final(self)@ == (Tallied {
                total: old(self)@.total + 1,
                crashes: if ev.kind == 6 {
                    old(self)@.crashes + 1
                } else {
                    old(self)@.crashes
                },
                live: live_after(old(self)@.live, *ev),
            }),
            match line {
                Some(text) => ev.kind == 6 && text@ == crash_line(*ev),
                None => ev.kind != 6,
            },
    {
        self.total = self.total + 1;
        if ev.kind == 6 {
            self.crashes = self.crashes + 1;
            let mut line = "CRASH  signal=".to_owned();
            push_decimal(&mut line, ev.size as u64);
            line.append(" fault_addr=0x");
            push_hex(&mut line, ev.old_ptr as u64);
            line.append(" pc=0x");
            push_hex(&mut line, ev.ptr as u64);
            line.append(" frames=");
            push_decimal(&mut line, ev.frame_count as u64);
            return Some(line);
        }
        if ev.kind == 0 || ev.kind == 2 || ev.kind == 4 || ev.kind == 5 {
            self.live.insert(ev.ptr);
        } else if ev.kind == 1 {
            self.live.remove(&ev.ptr);
        } else if ev.kind == 3 {
            if ev.old_ptr != 0 {
                self.live.remove(&ev.old_ptr);
            }
            if ev.ptr != 0 {
                self.live.insert(ev.ptr);
            }
        }
        assert(self@.live =~= live_after(old(self)@.live, *ev));
        None
    }

    /// The last line, once counting is over: address 0 does not count as live.
    pub fn summary(&mut self, dropped: u64) -> (line: String)
        requires
            old(self).wf(),
        ensures
            final(self).wf(),
            final(self)@ == (Tallied { live: old(self)@.live.remove(0), ..old(self)@ }),
            line@ == "total events: "@ + decimal(old(self)@.total) + ", crashes: "@ + decimal(
                old(self)@.crashes,
            ) + ", live pointers: "@ + decimal(old(self)@.live.remove(0).len()) + ", dropped: "@
                + decimal(dropped as nat),
    {
        self.live.remove(&0usize);
        let mut line = "total events: ".to_owned();
        push_decimal(&mut line, self.total);
        line.append(", crashes: ");
        push_decimal(&mut line, self.crashes);
        line.append(", live pointers: ");
        push_decimal(&mut line, self.live.len() as u64);
        line.append(", dropped: ");
        push_decimal(&mut line, dropped);
        line
    }

    /// The exit status: success means that a crash was seen.
    pub fn exit_code(&self) -> (code: i32)
        ensures
            code == if self@.crashes > 0 {
                0int
            } else {
                1
            },
    {
        if self.crashes > 0 {
            0
        } else {
            1
        }
    }
}

} // verus!
