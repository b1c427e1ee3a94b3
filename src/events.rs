use vstd::prelude::*;

use concurrent_queue::ConcurrentQueue;

use crate::links::{touched, AliasMap, Links};
use crate::time::Timestamp;

verus! {

/// A notice that `key` was followed at `timestamp`, queued for the merger.
#[derive(Clone, Debug, PartialEq)]
pub struct LinkAccessEvent {
    pub key: String,
    pub timestamp: Timestamp,
}

impl View for LinkAccessEvent {
    type V = (Seq<char>, Timestamp);

    open spec fn view(&self) -> (Seq<char>, Timestamp) {
        (self.key@, self.timestamp)
    }
}

impl LinkAccessEvent {
    /// The notice that `key` was followed at `at`.
    pub fn new(key: String, at: Timestamp) -> (r: LinkAccessEvent)
        ensures
            r@ == (key@, at),
    {
        LinkAccessEvent { key, timestamp: at }
    }
}

#[verifier::external_type_specification]
#[verifier::external_body]
#[verifier::reject_recursive_types(T)]
pub struct ExConcurrentQueue<T>(ConcurrentQueue<T>);

/// Relies on `ConcurrentQueue::len`: the number of items in the queue at the
/// moment of the call.
#[verifier::external_body]
fn queue_len(queue: &ConcurrentQueue<LinkAccessEvent>) -> (r: usize) {
    queue.len()
}

/// Relies on `ConcurrentQueue::pop`: the item at the front, taken out, or
/// `PopError` where the queue is empty or closed.
#[verifier::external_body]
fn pop_event(queue: &ConcurrentQueue<LinkAccessEvent>) -> (r: Option<LinkAccessEvent>) {
    queue.pop().ok()
}

/// Relies on `ConcurrentQueue::push`: the event goes in at the back, or comes
/// back inside `PushError` where the queue is full or closed.
#[verifier::external_body]
fn push_event(queue: &ConcurrentQueue<LinkAccessEvent>, event: LinkAccessEvent) -> (r: bool) {
    queue.push(event).is_ok()
}

/// The index after one access of `key` at `at`: an alias that is gone is
/// passed over.
pub open spec fn apply_access(m: AliasMap, key: Seq<char>, at: Timestamp) -> AliasMap {
    if m.contains_key(key) {
        m.insert(key, touched(m[key], at))
    } else {
        m
    }
}

/// The index after the accesses `evs`, in order.
pub open spec fn apply_accesses(m: AliasMap, evs: Seq<(Seq<char>, Timestamp)>) -> AliasMap
    decreases evs.len(),
{
    if evs.len() == 0 {
        m
    } else {
        apply_access(apply_accesses(m, evs.drop_last()), evs.last().0, evs.last().1)
    }
}

pub open spec fn events_view(v: Seq<LinkAccessEvent>) -> Seq<(Seq<char>, Timestamp)> {
    v.map_values(|e: LinkAccessEvent| e@)
}

/// Queues one access of `key` at `at`, the event built by
/// `LinkAccessEvent::new(key, at)`; says whether the queue took it. A queue
/// that refuses it (full or closed) leaves the caller's request unharmed.
pub fn enqueue_access(queue: &ConcurrentQueue<LinkAccessEvent>, key: String, at: Timestamp) -> (r: bool) {
    let event = LinkAccessEvent::new(key, at);
    push_event(queue, event)
}

/// Takes out of `queue` at most as many events as it held on entry, in
/// the order in which they come out. The bound keeps the loop finite while
/// producers go on pushing: what arrives during the drain waits for the
/// next merge.
pub fn drain_events(queue: &ConcurrentQueue<LinkAccessEvent>) -> (r: Vec<LinkAccessEvent>) {
    let n = queue_len(queue);
    let mut out: Vec<LinkAccessEvent> = Vec::new();
    let mut i: usize = 0;
    while i < n
        invariant
            i <= n,
        decreases n - i,
    {
        match pop_event(queue) {
            Some(ev) => out.push(ev),
            None => {
                return out;
            },
        }
        i = i + 1;
    }
    out
}

impl Links {
    /// Applies the accesses `events` in order; returns how many found their
    /// alias.
    pub fn apply_events(&mut self, events: &Vec<LinkAccessEvent>) -> (applied: usize)
        requires
            old(self).wf(),
        ensures
            final(self).wf(),
            final(self)@ == apply_accesses(old(self)@, events_view(events@)),
            applied <= events@.len(),
    {
        let mut applied: usize = 0;
        let mut i: usize = 0;
        while i < events.len()
            invariant
                self.wf(),
                i <= events@.len(),
                applied <= i,
                self@ == apply_accesses(old(self)@, events_view(events@).subrange(0, i as int)),
            decreases events@.len() - i,
        {
            let ghost before = self@;
            let ev = &events[i];
            if self.record_access(ev.key.as_str(), ev.timestamp) {
                applied = applied + 1;
            }
            proof {
                let s = events_view(events@).subrange(0, i + 1);
                assert(s.drop_last() =~= events_view(events@).subrange(0, i as int));
                assert(s.last() == ev@);
            }
            i = i + 1;
        }
        proof {
            assert(events_view(events@).subrange(0, i as int) =~= events_view(events@));
        }
        applied
    }

    /// One merge cycle: drains the events queued so far and applies them in
    /// the order in which they came out; returns them.
    pub fn merge_pending(&mut self, queue: &ConcurrentQueue<LinkAccessEvent>) -> (r: Vec<LinkAccessEvent>)
        requires
            old(self).wf(),
        ensures
            final(self).wf(),
            final(self)@ == apply_accesses(old(self)@, events_view(r@)),
    {
        let events = drain_events(queue);
        self.apply_events(&events);
        events
    }
}

} // verus!
