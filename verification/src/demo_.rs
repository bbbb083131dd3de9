//! How leaks are judged: from what was taken from the heap and given back while some code ran.

use vstd::prelude::*;

verus! {

/// How many bytes each object keeps on the heap.
pub const PAYLOAD: usize = 65536;

/// What was taken from the heap and given back since the process began, in bytes.
#[derive(Clone, Copy, Debug, PartialEq, Eq)]
pub struct Counters {
    pub alloc_bytes: usize,
    pub dealloc_bytes: usize,
}

/// What some code took from the heap and gave back, in bytes.
#[derive(Clone, Copy, Debug, PartialEq, Eq)]
pub struct NetHeap {
    pub alloc_bytes: usize,
    pub dealloc_bytes: usize,
}

impl NetHeap {
    /// What the code did that ran between two readings of the counters.
    pub fn measure(before: Counters, after: Counters) -> (r: NetHeap)
        requires
            before.alloc_bytes <= after.alloc_bytes,
            before.dealloc_bytes <= after.dealloc_bytes,
        ensures
            r.alloc_bytes == after.alloc_bytes - before.alloc_bytes,
            r.dealloc_bytes == after.dealloc_bytes - before.dealloc_bytes,
    {
        NetHeap {
            alloc_bytes: after.alloc_bytes - before.alloc_bytes,
            dealloc_bytes: after.dealloc_bytes - before.dealloc_bytes,
        }
    }

    /// How many bytes leaked.
    pub open spec fn net(&self) -> int {
        if self.alloc_bytes > self.dealloc_bytes {
            self.alloc_bytes - self.dealloc_bytes
        } else {
            0
        }
    }

    /// How many bytes leaked.
    pub fn net_bytes(&self) -> (r: usize)
        ensures
            r == self.net(),
    {
        self.alloc_bytes.saturating_sub(self.dealloc_bytes)
    }
}

/// What one experiment showed.
#[derive(Clone, Copy, Debug, PartialEq, Eq)]
pub struct Outcome {
    pub net: NetHeap,
    /// How many objects were dropped.
    pub drops: usize,
}

impl Outcome {
    /// Whether the heap memory of an object came back. An arena has some of its own, so that
    /// not everything comes back says nothing.
    pub fn payload_released(&self) -> (r: bool)
        ensures
            r == (self.net.dealloc_bytes >= PAYLOAD),
    {
        self.net.dealloc_bytes >= PAYLOAD
    }

    /// The heap memory of how many objects leaked.
    pub fn leaked_payloads(&self) -> (r: usize)
        ensures
            r == self.net.net() / PAYLOAD as int,
    {
        self.net.net_bytes() / PAYLOAD
    }

    /// Whether every object was dropped, and nothing leaked.
    pub fn is_clean(&self, objects: usize) -> (r: bool)
        ensures
            r == (self.drops == objects && self.net.net() == 0),
    {
        self.drops == objects && self.net.net_bytes() == 0
    }

    /// Whether no object was dropped, and at least the heap memory of that many leaked.
    pub fn is_leak_of(&self, objects: usize) -> (r: bool)
        requires
            objects * PAYLOAD <= usize::MAX,
        ensures
            r == (self.drops == 0 && self.net.net() >= objects * PAYLOAD),
    {
        self.drops == 0 && self.net.net_bytes() >= objects * PAYLOAD
    }
}

/// Whether the experiments show that objects leak from an arena in which nobody answers for
/// them, and only there: a value in a plain scope leaves nothing; one that was put into the
/// arena and forgotten, one whose reference was lost, and two that hold each other leak; one
/// with a handle that drops it does not.
pub fn shows_who_answers(
    baseline: &Outcome,
    anonymous: &Outcome,
    lost: &Outcome,
    cycle: &Outcome,
    boxed: &Outcome,
) -> (r: bool)
    ensures
        r == {
            &&& baseline.drops == 1 && baseline.net.net() == 0
            &&& anonymous.drops == 0 && anonymous.net.dealloc_bytes < PAYLOAD
                && anonymous.net.net() >= PAYLOAD
            &&& lost.drops == 0 && lost.net.net() >= PAYLOAD
            &&& cycle.drops == 0 && cycle.net.net() >= 2 * PAYLOAD
            &&& boxed.drops == 1 && boxed.net.dealloc_bytes >= PAYLOAD
        },
{
    baseline.is_clean(1) && anonymous.is_leak_of(1) && !anonymous.payload_released()
        && lost.is_leak_of(1) && cycle.is_leak_of(2) && boxed.drops == 1
        && boxed.payload_released()
}

/// What leaked is what was taken and not given back; it is counted in whole payloads, rounded
/// down.
pub proof fn law_leaks_are_counted_in_payloads(net: NetHeap)
    ensures
        net.alloc_bytes >= net.dealloc_bytes ==> net.alloc_bytes == net.dealloc_bytes + net.net(),
        (net.net() / PAYLOAD as int) * PAYLOAD <= net.net() < (net.net() / PAYLOAD as int + 1)
            * PAYLOAD,
{
    vstd::arithmetic::div_mod::lemma_fundamental_div_mod(net.net(), PAYLOAD as int);
}

} // verus!
