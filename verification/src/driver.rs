//! The write driver's decisions: admission, batching, reporting.
//!
//! The driver that issues concurrent writes caps how many are in flight
//! at once and drains its task handles in fixed-size batches. The
//! decisions — may one more task start, is the batch full, what mean
//! latency to report — live here and are verified; the loop that spawns
//! tasks and awaits them runs outside the library and consults these
//! functions.

use vstd::prelude::*;

verus! {

/// A counting admission gate: at most `capacity` tasks hold a slot at
/// any instant.
pub struct AdmissionGate {
    capacity: usize,
    in_flight: usize,
}

impl AdmissionGate {
    /// The number of slots on offer.
    pub closed spec fn capacity_spec(&self) -> nat {
        self.capacity as nat
    }

    /// How many admitted tasks have not yet released their slot.
    pub closed spec fn in_flight_spec(&self) -> nat {
        self.in_flight as nat
    }

    /// Invariant: slots in use never outnumber slots on offer.
    pub closed spec fn wf(&self) -> bool {
        self.in_flight <= self.capacity
    }

    /// Opens a gate that admits at most `capacity` tasks at once.
    pub fn new(capacity: usize) -> (g: AdmissionGate)
        ensures
            g.wf(),
            g.capacity_spec() == capacity,
            g.in_flight_spec() == 0,
    {
        AdmissionGate { capacity, in_flight: 0 }
    }

    /// Admits one task exactly when a slot is free.
    pub fn try_admit(&mut self) -> (admitted: bool)
        requires
            old(self).wf(),
        ensures
            final(self).wf(),
            final(self).capacity_spec() == old(self).capacity_spec(),
            admitted == (old(self).in_flight_spec() < old(self).capacity_spec()),
            admitted ==> final(self).in_flight_spec() == old(self).in_flight_spec() + 1,
            !admitted ==> final(self).in_flight_spec() == old(self).in_flight_spec(),
            final(self).in_flight_spec() == gate_step(
                old(self).in_flight_spec(),
                old(self).capacity_spec(),
                GateEvent::Admit,
            ),
    {
        if self.in_flight < self.capacity {
            self.in_flight = self.in_flight + 1;
            true
        } else {
            false
        }
    }

    /// Releases the slot of one admitted task.
    pub fn release(&mut self)
        requires
            old(self).wf(),
            old(self).in_flight_spec() > 0,
        ensures
            final(self).wf(),
            final(self).capacity_spec() == old(self).capacity_spec(),
            final(self).in_flight_spec() == old(self).in_flight_spec() - 1,
            final(self).in_flight_spec() == gate_step(
                old(self).in_flight_spec(),
                old(self).capacity_spec(),
                GateEvent::Release,
            ),
    {
        self.in_flight = self.in_flight - 1;
    }
}

/// One driver step as the admission gate sees it.
pub enum GateEvent {
    /// A task asks to start.
    Admit,
    /// An admitted task finishes and frees its slot.
    Release,
}

/// The count of tasks past the admission point after one event: an
/// admission is granted only while a slot is free, and a release frees
/// one occupied slot.
pub open spec fn gate_step(in_flight: nat, capacity: nat, e: GateEvent) -> nat {
    match e {
        GateEvent::Admit => if in_flight < capacity {
            in_flight + 1
        } else {
            in_flight
        },
        GateEvent::Release => if in_flight > 0 {
            (in_flight - 1) as nat
        } else {
            in_flight
        },
    }
}

/// The count of tasks past the admission point after a whole run of
/// events, starting from an idle gate.
pub open spec fn gate_run(capacity: nat, events: Seq<GateEvent>) -> nat
    decreases events.len(),
{
    if events.len() == 0 {
        0
    } else {
        gate_step(gate_run(capacity, events.drop_last()), capacity, events.last())
    }
}

/// Bounded concurrency over any run: in whatever order tasks ask to
/// start and finish, the count past the admission point never exceeds
/// the capacity. The bound holds after every event of the run, since
/// every prefix of a run is itself a run.
pub proof fn lemma_gate_run_bounded(capacity: nat, events: Seq<GateEvent>)
    ensures
        gate_run(capacity, events) <= capacity,
    decreases events.len(),
{
    if events.len() > 0 {
        lemma_gate_run_bounded(capacity, events.drop_last());
    }
}

/// Bounded concurrency: however tasks are admitted and released, a
/// well-formed gate never has more than its capacity in flight — and
/// every gate operation preserves well-formedness.
pub proof fn lemma_gate_bounded(g: AdmissionGate)
    requires
        g.wf(),
    ensures
        g.in_flight_spec() <= g.capacity_spec(),
{
}

/// Whether a batch of pending task handles is full and must be drained
/// before more tasks are spawned.
pub fn batch_is_full(pending: usize, batch_size: usize) -> (r: bool)
    ensures
        r == (pending >= batch_size),
{
    pending >= batch_size
}

/// The mean of `total` microseconds over `count` operations, or nothing
/// when no operation was performed.
pub fn average_micros(total: u128, count: u128) -> (r: Option<u128>)
    ensures
        count > 0 ==> r == Some(total / count),
        count == 0 ==> r is None,
{
    if count > 0 {
        Some(total / count)
    } else {
        None
    }
}

} // verus!
