use vstd::prelude::*;

use crate::error::Error;
use crate::event::{parse_events, parse_spec, views, Event, EventView};

verus! {

/// The events of one channel that were read and parsed but not yet handed out.
#[derive(Debug)]
pub struct EventQueue {
    /// Kept back to front, so that the front leaves by `pop`.
    rev: Vec<Event>,
}

impl View for EventQueue {
    type V = Seq<EventView>;

    closed spec fn view(&self) -> Seq<EventView> {
        views(self.rev@).reverse()
    }
}

impl EventQueue {
    pub fn new() -> (r: EventQueue)
        ensures
            r@.len() == 0,
    {
        EventQueue { rev: Vec::new() }
    }

    pub fn is_empty(&self) -> (r: bool)
        ensures
            r == (self@.len() == 0),
    {
        self.rev.len() == 0
    }

    /// Takes the oldest queued event.
    pub fn pop(&mut self) -> (r: Option<Event>)
        ensures
            match r {
                Some(e) => old(self)@.len() > 0 && e.view() == old(self)@[0] && final(self)@
                    == old(self)@.drop_first(),
                None => old(self)@.len() == 0 && final(self)@.len() == 0,
            },
    {
        let ghost before = views(self.rev@);
        let r = self.rev.pop();
        proof {
            if r is Some {
                    assert(views(self.rev@) =~= before.drop_last());
                    assert(self@ =~= before.reverse().drop_first());
            } else {
                    assert(self@ =~= Seq::<EventView>::empty());
            }
        }
        r
    }

    /// Queues the events of a buffer filled by one read of the channel's descriptor. A
    /// malformed buffer queues nothing.
    pub fn refill(&mut self, b: &[u8]) -> (r: Result<(), Error>)
        requires
            old(self)@.len() == 0,
        ensures
            match (r, parse_spec(b@)) {
                (Ok(()), Ok(s)) => final(self)@ == s,
                (Err(e), Err(k)) => e.kind == k && final(self)@.len() == 0,
                _ => false,
            },
    {
        let mut parsed = match parse_events(b) {
            Ok(v) => v,
            Err(e) => {
                return Err(e);
            },
        };
        let ghost all = views(parsed@);
        let mut rev: Vec<Event> = Vec::new();
        while parsed.len() > 0
            invariant
                views(parsed@) + views(rev@).reverse() == all,
            decreases parsed@.len(),
        {
            let ghost p0 = views(parsed@);
            let ghost r0 = views(rev@);
            let e = parsed.pop().unwrap();
            rev.push(e);
            assert(views(parsed@) =~= p0.drop_last());
            assert(views(rev@) =~= r0.push(e.view()));
            assert(views(rev@).reverse() =~= seq![e.view()] + r0.reverse());
            assert(views(parsed@) + views(rev@).reverse() =~= p0 + r0.reverse());
        }
        assert(views(parsed@) =~= Seq::<EventView>::empty());
        assert(views(rev@).reverse() =~= all);
        self.rev = rev;
        Ok(())
    }
}

} // verus!
