//! Game events exchanged between client and server: the outgoing queue with
//! its per-receiver selection, and the events received last.
use vstd::prelude::*;
use crate::snapshot::append_bytes;

verus! {

/// A game event type. Its encoding is the game's: the library only queues
/// events and selects which ones go to which receiver.
pub trait Event: Sized {}

/// Whether an event for `target` (everyone when `None`) goes out in a batch
/// for `receiver` (a batch for everyone when `None`).
pub open spec fn delivered_to(target: Option<u32>, receiver: Option<u32>) -> bool {
    match receiver {
        None => true,
        Some(r) => match target {
            Some(t) => t == r,
            None => true,
        },
    }
}

/// The encodings of the first `n` outgoing events `out` that go to
/// `receiver`, one after the other; `encoded[i]` is the encoding of event
/// `i`.
pub open spec fn batch_bytes<T>(
    out: Seq<(Option<u32>, T)>,
    encoded: Seq<Vec<u8>>,
    receiver: Option<u32>,
    n: int,
) -> Seq<u8>
    decreases n,
{
    if n <= 0 {
        Seq::empty()
    } else {
        batch_bytes(out, encoded, receiver, n - 1) + if delivered_to(out[n - 1].0, receiver) {
            encoded[n - 1]@
        } else {
            Seq::empty()
        }
    }
}

/// The abstract state of an event handler.
pub struct EventHandlerView<T> {
    /// Events received last, with the connection they came from.
    pub incoming: Option<Seq<(u32, T)>>,
    /// Events waiting to be sent, with their receiver.
    pub outgoing: Seq<(Option<u32>, T)>,
}

/// Queues outgoing events and keeps the events received last.
pub struct EventHandler<T> {
    incoming: Option<Vec<(u32, T)>>,
    outgoing: Vec<(Option<u32>, T)>,
}

impl<T> View for EventHandler<T> {
    type V = EventHandlerView<T>;

    closed spec fn view(&self) -> EventHandlerView<T> {
        EventHandlerView {
            incoming: match self.incoming {
                Some(v) => Some(v@),
                None => None,
            },
            outgoing: self.outgoing@,
        }
    }
}

impl<T: Event> EventHandler<T> {
    pub fn new() -> (h: Self)
        ensures
            h@.incoming is None,
            h@.outgoing == Seq::<(Option<u32>, T)>::empty(),
    {
        EventHandler { incoming: None, outgoing: Vec::new() }
    }

    /// Queues `event` for `receiver`, or for everyone when `None`.
    pub fn send(&mut self, receiver: Option<u32>, event: T)
        ensures
            final(self)@ == (EventHandlerView {
                outgoing: old(self)@.outgoing.push((receiver, event)),
                ..old(self)@
            }),
    {
        self.outgoing.push((receiver, event));
    }

    /// Hands out the events received last, once.
    pub fn received(&mut self) -> (r: Option<Vec<(u32, T)>>)
        ensures
            final(self)@ == (EventHandlerView { incoming: None, ..old(self)@ }),
            match r {
                Some(v) => old(self)@.incoming == Some(v@),
                None => old(self)@.incoming is None,
            },
    {
        self.incoming.take()
    }

    /// Keeps the events decoded from one message of connection `owner_id`
    /// as the events received last, replacing earlier ones.
    pub fn receive_events(&mut self, owner_id: u32, events: Vec<T>)
        ensures
            final(self)@.outgoing == old(self)@.outgoing,
            final(self)@.incoming matches Some(inc) && inc.len() == events@.len() && forall|k: int|
                0 <= k < inc.len() ==> #[trigger] inc[k] == (owner_id, events@[k]),
    {
        let mut incoming: Vec<(u32, T)> = Vec::new();
        let mut events = events;
        let ghost all = events@;
        let ghost n = all.len();
        let mut rest: Vec<T> = Vec::new();
        // Take the events from the back, then put them in order.
        while events.len() > 0
            invariant
                all.len() == n,
                events@ == all.subrange(0, events@.len() as int),
                rest@.len() + events@.len() == n,
                forall|k: int| 0 <= k < rest@.len() ==> #[trigger] rest@[k] == all[n - 1 - k],
            decreases events@.len(),
        {
            let e = events.pop().unwrap();
            rest.push(e);
        }
        while rest.len() > 0
            invariant
                all.len() == n,
                rest@.len() + incoming@.len() == n,
                forall|k: int| 0 <= k < rest@.len() ==> #[trigger] rest@[k] == all[n - 1 - k],
                forall|k: int| 0 <= k < incoming@.len() ==> #[trigger] incoming@[k] == (owner_id, all[k]),
            decreases rest@.len(),
        {
            let e = rest.pop().unwrap();
            incoming.push((owner_id, e));
        }
        self.incoming = Some(incoming);
    }

    /// The events waiting to be sent.
    pub fn outgoing(&self) -> (r: &Vec<(Option<u32>, T)>)
        ensures
            r@ == self@.outgoing,
    {
        &self.outgoing
    }

    /// The batch of outgoing events for `receiver` (every event when `None`):
    /// the encodings `encoded[i]` of the outgoing events that go to it, one
    /// after the other in queue order, or `None` when that is empty.
    pub fn serialize_events(&self, receiver: Option<u32>, encoded: &Vec<Vec<u8>>) -> (r: Option<Vec<u8>>)
        requires
            encoded@.len() == self@.outgoing.len(),
        ensures
            ({
                let bytes = batch_bytes(self@.outgoing, encoded@, receiver, self@.outgoing.len() as int);
                match r {
                    Some(data) => bytes.len() > 0 && data@ == bytes,
                    None => bytes.len() == 0,
                }
            }),
    {
        let mut data: Vec<u8> = Vec::new();
        let n = self.outgoing.len();
        let mut i: usize = 0;
        while i < n
            invariant
                n == self@.outgoing.len(),
                encoded@.len() == n,
                i <= n,
                data@ == batch_bytes(self@.outgoing, encoded@, receiver, i as int),
            decreases n - i,
        {
            let target = self.outgoing[i].0;
            let take = match receiver {
                None => true,
                Some(rcv) => match target {
                    Some(t) => t == rcv,
                    None => true,
                },
            };
            if take {
                append_bytes(&mut data, encoded[i].as_slice());
            } else {
                assert(data@ + Seq::<u8>::empty() =~= data@);
            }
            i = i + 1;
        }
        if data.len() > 0 {
            Some(data)
        } else {
            None
        }
    }

    /// Drops all outgoing events.
    pub fn flush(&mut self)
        ensures
            final(self)@ == (EventHandlerView { outgoing: Seq::empty(), ..old(self)@ }),
    {
        self.outgoing.clear();
    }
}

/// An event for everyone goes out in every batch; an event for one
/// connection never goes out in a batch for another one.
pub proof fn lemma_delivery(target: Option<u32>, a: u32, b: u32)
    ensures
        delivered_to(None, Some(a)),
        delivered_to(target, None),
        target == Some(a) && a != b ==> !delivered_to(target, Some(b)),
        delivered_to(Some(a), Some(a)),
{
}

} // verus!
