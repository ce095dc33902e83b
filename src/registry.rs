use vstd::prelude::*;

use crate::error::{Error, ErrorKind};
use crate::event::Event;
use crate::mask::{is_final_mask, os_watch_mask, IN_IGNORED, IN_MASK_ADD};

verus! {

/// Where a subscription lives: one subscriber's path and mask, installed on one channel
/// under one slot.
#[derive(Debug)]
pub struct Subscription {
    pub id: u64,
    pub channel: usize,
    pub wd: i32,
    pub path: Vec<u8>,
    pub mask: u32,
}

/// What a subscriber learns once a registration has run its course.
#[derive(Debug, Clone, Copy, PartialEq, Eq, Structural)]
pub enum Placement {
    /// Installed on the primary channel.
    Started,
    /// Displaced by a newer subscription and installed again on a later channel.
    Restarted,
    /// The kernel refused the subscription; it is dropped.
    Failed(ErrorKind),
}

/// A placement addressed to one subscriber.
#[derive(Debug, Clone, Copy, PartialEq, Eq, Structural)]
pub struct Notice {
    pub id: u64,
    pub placement: Placement,
}

/// Bookkeeping of a multiplexer: which subscription occupies which slot of which channel,
/// and the registrations in flight.
#[derive(Debug)]
pub struct Registry {
    subs: Vec<Subscription>,
    pending: Vec<Subscription>,
    placed: Vec<Notice>,
    open: Vec<bool>,
    released: Vec<(usize, i32)>,
}

pub struct RegistryView {
    /// The live subscriptions.
    pub subs: Seq<Subscription>,
    /// Registrations in flight, the next one last; its `channel` is where it goes next.
    pub pending: Seq<Subscription>,
    /// Placements decided during the current cascade, in the order they were decided.
    pub placed: Seq<Notice>,
    /// Which channel indices hold an open descriptor; a closed index stays vacant until a
    /// cascade needs a channel there again.
    pub open: Seq<bool>,
    /// Slots released by their subscriber whose final notification has not been read yet.
    pub released: Seq<(usize, i32)>,
}

impl View for Registry {
    type V = RegistryView;

    closed spec fn view(&self) -> RegistryView {
        RegistryView {
            subs: self.subs@,
            pending: self.pending@,
            placed: self.placed@,
            open: self.open@,
            released: self.released@,
        }
    }
}

/// No two live subscriptions share a subscriber identity or a (channel, slot) pair.
pub open spec fn slots_unique(subs: Seq<Subscription>) -> bool {
    forall|i: int, j: int|
        #![trigger subs[i], subs[j]]
        0 <= i < subs.len() && 0 <= j < subs.len() && i != j ==> subs[i].id != subs[j].id && (
        subs[i].channel != subs[j].channel || subs[i].wd != subs[j].wd)
}

pub open spec fn has_id(subs: Seq<Subscription>, id: u64) -> bool {
    exists|i: int| 0 <= i < subs.len() && #[trigger] subs[i].id == id
}

pub open spec fn occupies(s: Subscription, channel: int, wd: i32) -> bool {
    s.channel == channel && s.wd == wd
}

pub open spec fn has_slot(subs: Seq<Subscription>, channel: int, wd: i32) -> bool {
    exists|i: int| 0 <= i < subs.len() && occupies(#[trigger] subs[i], channel, wd)
}

/// `s` installed under slot `wd`.
pub open spec fn with_wd(s: Subscription, wd: i32) -> Subscription {
    Subscription { id: s.id, channel: s.channel, wd, path: s.path, mask: s.mask }
}

/// `s` aimed at the channel after its own.
pub open spec fn moved_on(s: Subscription) -> Subscription {
    Subscription { id: s.id, channel: (s.channel + 1) as usize, wd: s.wd, path: s.path, mask: s.mask }
}

pub open spec fn placement_for(channel: usize) -> Placement {
    if channel == 0 {
        Placement::Started
    } else {
        Placement::Restarted
    }
}

/// The released slots of `f` are those of `o` but slot `wd` of channel `c`.
pub open spec fn forgets(o: RegistryView, f: RegistryView, c: usize, wd: i32) -> bool {
    forall|c2: usize, wd2: i32|
        #![trigger f.is_released(c2, wd2)]
        f.is_released(c2, wd2) <==> (o.is_released(c2, wd2) && (c2, wd2) != (c, wd))
}

/// A kernel answer never lengthens the work in flight. When it displaces a subscription,
/// the registration that goes next aims one channel further than the one just answered,
/// and at most one past the last channel index. A registration therefore opens at most
/// one new channel, and asks the kernel at most once per channel from its start to that
/// new one.
pub proof fn lemma_cascade_step(
    v: RegistryView,
    result: Result<i32, ErrorKind>,
    subs2: Seq<Subscription>,
    pending2: Seq<Subscription>,
)
    requires
        v.well_placed(),
        v.pending.len() > 0,
        v.next().channel < v.open.len(),
        v.open.len() <= usize::MAX,
        add_step(v, result, subs2, pending2),
    ensures
        pending2.len() <= v.pending.len(),
        pending2.len() == v.pending.len() ==> pending2.last().channel == v.next().channel + 1
            && pending2.last().channel <= v.open.len(),
{
    if let Ok(wd) = result {
        if has_slot(v.subs, v.next().channel as int, wd) {
            let k = choose|k: int|
                0 <= k < v.subs.len() && occupies(#[trigger] v.subs[k], v.next().channel as int, wd)
                    && subs2 == v.subs.remove(k).push(with_wd(v.next(), wd)) && pending2
                    == v.pending.drop_last().push(moved_on(v.subs[k]));
            assert(v.subs[k].channel < v.open.len());
        }
    }
}

impl RegistryView {
    pub open spec fn idle(self) -> bool {
        self.pending.len() == 0 && self.placed.len() == 0
    }

    pub open spec fn on_channel(self, c: int) -> bool {
        exists|i: int| 0 <= i < self.subs.len() && #[trigger] self.subs[i].channel == c
    }

    /// The registration that runs next.
    pub open spec fn next(self) -> Subscription {
        self.pending.last()
    }

    pub open spec fn is_released(self, c: usize, wd: i32) -> bool {
        exists|i: int| 0 <= i < self.released.len() && #[trigger] self.released[i] == (c, wd)
    }

    /// What holds between any two commands: slots and identities are unique, every live
    /// subscription sits on an open channel, and a registration in flight aims at an
    /// existing channel index or at the one just past the last.
    pub open spec fn well_placed(self) -> bool {
        let subs = self.subs;
        let pending = self.pending;
        &&& slots_unique(subs)
        &&& forall|i: int|
            0 <= i < subs.len() ==> #[trigger] subs[i].channel < self.open.len() && self.open[subs[
                i].channel as int]
        &&& forall|i: int| 0 <= i < pending.len() ==> #[trigger] pending[i].channel <= self.open.len()
        &&& forall|i: int|
            0 <= i < self.released.len() ==> (#[trigger] self.released[i]).0 < self.open.len()
                && self.open[self.released[i].0 as int]
        &&& forall|i: int, j: int|
            #![trigger pending[i], subs[j]]
            0 <= i < pending.len() && 0 <= j < subs.len() ==> pending[i].id != subs[j].id
        &&& forall|i: int, j: int|
            #![trigger pending[i], pending[j]]
            0 <= i < pending.len() && 0 <= j < pending.len() && i != j ==> pending[i].id
                != pending[j].id
    }
}

/// What the subscriber of `p` learns of the kernel's answer `result`.
pub open spec fn notice_of(p: Subscription, result: Result<i32, ErrorKind>) -> Notice {
    match result {
        Err(k) => Notice { id: p.id, placement: Placement::Failed(k) },
        Ok(_) => Notice { id: p.id, placement: placement_for(p.channel) },
    }
}

/// The live subscriptions `subs2` and the registrations in flight `pending2` after the
/// kernel answered `result` to the next registration of `v`: a refused one is dropped; an
/// accepted one takes its slot, and an older subscription that held the same slot on that
/// channel is displaced and goes next, aimed at the following channel.
pub open spec fn add_step(
    v: RegistryView,
    result: Result<i32, ErrorKind>,
    subs2: Seq<Subscription>,
    pending2: Seq<Subscription>,
) -> bool {
    let p = v.next();
    let rest = v.pending.drop_last();
    match result {
        Err(_) => subs2 == v.subs && pending2 == rest,
        Ok(wd) => if has_slot(v.subs, p.channel as int, wd) {
            exists|k: int|
                0 <= k < v.subs.len() && occupies(#[trigger] v.subs[k], p.channel as int, wd)
                    && subs2 == v.subs.remove(k).push(with_wd(p, wd)) && pending2 == rest.push(
                    moved_on(v.subs[k]),
                )
        } else {
            subs2 == v.subs.push(with_wd(p, wd)) && pending2 == rest
        },
    }
}

impl Registry {
    pub closed spec fn wf(&self) -> bool {
        self@.well_placed()
    }

    /// A well-formed registry is well placed: whatever commands brought it there, no two
    /// live subscriptions share a slot of a channel or a subscriber, and each sits on an
    /// open channel.
    pub proof fn lemma_well_placed(&self)
        requires
            self.wf(),
        ensures
            self@.well_placed(),
            slots_unique(self@.subs),
    {
    }

    pub fn new() -> (r: Registry)
        ensures
            r.wf(),
            r@.subs.len() == 0,
            r@.idle(),
            r@.open.len() == 0,
            r@.released.len() == 0,
    {
        Registry {
            subs: Vec::new(),
            pending: Vec::new(),
            placed: Vec::new(),
            open: Vec::new(),
            released: Vec::new(),
        }
    }

    /// Number of channel indices in use, open or vacant.
    pub fn channel_count(&self) -> (r: usize)
        ensures
            r == self@.open.len(),
    {
        self.open.len()
    }

    /// Whether channel `c` holds an open descriptor.
    pub fn is_open(&self, c: usize) -> (r: bool)
        ensures
            r == (c < self@.open.len() && self@.open[c as int]),
    {
        c < self.open.len() && self.open[c]
    }

    fn find_id(&self, id: u64) -> (r: Option<usize>)
        ensures
            match r {
                Some(k) => k < self.subs@.len() && self.subs@[k as int].id == id,
                None => !has_id(self.subs@, id),
            },
    {
        let mut k: usize = 0;
        while k < self.subs.len()
            invariant
                k <= self.subs@.len(),
                forall|i: int| 0 <= i < k ==> #[trigger] self.subs@[i].id != id,
            decreases self.subs@.len() - k,
        {
            if self.subs[k].id == id {
                return Some(k);
            }
            k = k + 1;
        }
        None
    }

    fn find_slot(&self, channel: usize, wd: i32) -> (r: Option<usize>)
        ensures
            match r {
                Some(k) => k < self.subs@.len() && occupies(self.subs@[k as int], channel as int, wd),
                None => !has_slot(self.subs@, channel as int, wd),
            },
    {
        let mut k: usize = 0;
        while k < self.subs.len()
            invariant
                k <= self.subs@.len(),
                forall|i: int| 0 <= i < k ==> !occupies(#[trigger] self.subs@[i], channel as int, wd),
            decreases self.subs@.len() - k,
        {
            if self.subs[k].channel == channel && self.subs[k].wd == wd {
                return Some(k);
            }
            k = k + 1;
        }
        None
    }

    /// Whether `id` has a live subscription.
    pub fn contains(&self, id: u64) -> (r: bool)
        ensures
            r == has_id(self@.subs, id),
    {
        self.find_id(id).is_some()
    }

    /// The subscriber whose subscription occupies slot `wd` of `channel`.
    pub fn route(&self, channel: usize, wd: i32) -> (r: Option<u64>)
        requires
            self.wf(),
        ensures
            match r {
                Some(id) => exists|i: int|
                    0 <= i < self@.subs.len() && occupies(#[trigger] self@.subs[i], channel as int, wd)
                        && self@.subs[i].id == id,
                None => !has_slot(self@.subs, channel as int, wd),
            },
    {
        match self.find_slot(channel, wd) {
            Some(k) => {
                assert(self@.subs[k as int] == self.subs@[k as int]);
                Some(self.subs[k].id)
            },
            None => None,
        }
    }

    proof fn lemma_released_kept(&self, before: RegistryView)
        requires
            before.well_placed(),
            self@.released == before.released,
            self@.open == before.open,
        ensures
            forall|i: int|
                0 <= i < self@.released.len() ==> (#[trigger] self@.released[i]).0
                    < self@.open.len() && self@.open[self@.released[i].0 as int],
    {
        assert forall|i: int| 0 <= i < self@.released.len() implies (
        #[trigger] self@.released[i]).0 < self@.open.len() && self@.open[self@.released[i].0 as int] by {
            assert(before.released[i] == self@.released[i]);
        }
    }

    /// Starts the registration of subscriber `id`; it fails if `id` already has a live
    /// subscription.
    pub fn register(&mut self, id: u64, path: Vec<u8>, mask: u32) -> (r: Result<(), Error>)
        requires
            old(self).wf(),
            old(self)@.idle(),
        ensures
            final(self).wf(),
            final(self)@.subs == old(self)@.subs,
            final(self)@.open == old(self)@.open,
            final(self)@.released == old(self)@.released,
            final(self)@.placed.len() == 0,
            match r {
                Ok(()) => !has_id(old(self)@.subs, id) && final(self)@.pending == seq![
                    Subscription { id, channel: 0usize, wd: -1i32, path, mask },
                ],
                Err(e) => has_id(old(self)@.subs, id) && e.kind == ErrorKind::Other
                    && final(self)@.pending.len() == 0,
            },
    {
        if self.find_id(id).is_some() {
            return Err(Error::new(ErrorKind::Other));
        }
        let sub = Subscription { id, channel: 0, wd: -1, path, mask };
        let ghost g = sub;
        self.pending.push(sub);
        assert(self.pending@ =~= seq![g]);
        proof {
            assert forall|j: int| 0 <= j < self.subs@.len() implies #[trigger] self.subs@[j].id
                != id by {
                if self.subs@[j].id == id {
                    assert(has_id(self.subs@, id));
                }
            }
            self.lemma_released_kept(old(self)@);
        }
        Ok(())
    }

    /// The channel the next registration goes to, if one is in flight.
    pub fn pending_target(&self) -> (r: Option<usize>)
        ensures
            match r {
                Some(c) => self@.pending.len() > 0 && c == self@.next().channel,
                None => self@.pending.len() == 0,
            },
    {
        if self.pending.len() == 0 {
            None
        } else {
            Some(self.pending[self.pending.len() - 1].channel)
        }
    }

    /// The path of the next registration.
    pub fn pending_path(&self) -> (r: &Vec<u8>)
        requires
            self@.pending.len() > 0,
        ensures
            *r == self@.next().path,
    {
        &self.pending[self.pending.len() - 1].path
    }

    /// The mask handed to the kernel for the next registration.
    pub fn pending_mask(&self) -> (r: u32)
        requires
            self@.pending.len() > 0,
        ensures
            r == self@.next().mask & !IN_MASK_ADD,
    {
        os_watch_mask(self.pending[self.pending.len() - 1].mask)
    }

    /// Records that a descriptor was opened at the index the next registration goes to,
    /// past the last index or at a vacant one.
    pub fn channel_opened(&mut self)
        requires
            old(self).wf(),
            old(self)@.pending.len() > 0,
            old(self)@.next().channel == old(self)@.open.len() || !old(self)@.open[old(
                self,
            )@.next().channel as int],
        ensures
            final(self).wf(),
            final(self)@.open == if old(self)@.next().channel == old(self)@.open.len() {
                old(self)@.open.push(true)
            } else {
                old(self)@.open.update(old(self)@.next().channel as int, true)
            },
            final(self)@.subs == old(self)@.subs,
            final(self)@.pending == old(self)@.pending,
            final(self)@.placed == old(self)@.placed,
            final(self)@.released == old(self)@.released,
    {
        let c = self.pending[self.pending.len() - 1].channel;
        if c == self.open.len() {
            self.open.push(true);
        } else {
            self.open.set(c, true);
        }
        proof {
            let v = self@;
            assert forall|i: int| 0 <= i < v.subs.len() implies #[trigger] v.subs[i].channel
                < v.open.len() && v.open[v.subs[i].channel as int] by {
                assert(old(self)@.subs[i] == v.subs[i]);
            }
            assert forall|i: int| 0 <= i < v.pending.len() implies #[trigger] v.pending[i].channel
                <= v.open.len() by {
                assert(old(self)@.pending[i] == v.pending[i]);
            }
            assert forall|i: int| 0 <= i < v.released.len() implies (#[trigger] v.released[i]).0
                < v.open.len() && v.open[v.released[i].0 as int] by {
                assert(old(self)@.released[i] == v.released[i]);
            }
        }
    }

    fn take_placed(&mut self) -> (r: Vec<Notice>)
        ensures
            final(self).subs@ == old(self).subs@,
            final(self).pending@ == old(self).pending@,
            final(self).open@ == old(self).open@,
            final(self).released@ == old(self).released@,
            final(self).placed@.len() == 0,
            r@ == old(self).placed@.reverse(),
    {
        let ghost orig = self.placed@;
        let mut out: Vec<Notice> = Vec::new();
        while self.placed.len() > 0
            invariant
                self.subs@ == old(self).subs@,
                self.pending@ == old(self).pending@,
                self.open@ == old(self).open@,
                self.released@ == old(self).released@,
                orig == old(self).placed@,
                self.placed@.len() + out@.len() == orig.len(),
                self.placed@ == orig.subrange(0, self.placed@.len() as int),
                forall|i: int| 0 <= i < out@.len() ==> out@[i] == orig[orig.len() - 1 - i],
            decreases self.placed@.len(),
        {
            let n = self.placed.pop().unwrap();
            out.push(n);
            assert(self.placed@ =~= orig.subrange(0, self.placed@.len() as int));
        }
        assert(out@ =~= orig.reverse());
        out
    }

    /// Takes the kernel's answer to the next registration. Once no registration is left
    /// in flight, returns what each subscriber involved learns, the last one displaced
    /// first; until then, returns nothing.
    pub fn add_done(&mut self, result: Result<i32, ErrorKind>) -> (r: Vec<Notice>)
        requires
            old(self).wf(),
            old(self)@.pending.len() > 0,
            old(self)@.next().channel < old(self)@.open.len(),
            old(self)@.open[old(self)@.next().channel as int],
        ensures
            final(self).wf(),
            final(self)@.open == old(self)@.open,
            final(self)@.released == old(self)@.released,
            add_step(old(self)@, result, final(self)@.subs, final(self)@.pending),
            ({
                let placed = old(self)@.placed.push(notice_of(old(self)@.next(), result));
                if final(self)@.pending.len() == 0 {
                    r@ == placed.reverse() && final(self)@.placed.len() == 0
                } else {
                    r@.len() == 0 && final(self)@.placed == placed
                }
            }),
    {
        let ghost v = self@;
        let ghost subs0 = self.subs@;
        let ghost rest = self.pending@.drop_last();
        assert(v.well_placed());
        let mut p = self.pending.pop().unwrap();
        assert(self.pending@ == rest);
        assert(v.pending[v.pending.len() - 1] == p);
        assert forall|i: int| 0 <= i < rest.len() implies #[trigger] rest[i] == v.pending[i] by {}
        let id = p.id;
        match result {
            Err(k) => {
                self.placed.push(Notice { id, placement: Placement::Failed(k) });
            },
            Ok(wd) => {
                let placement = if p.channel == 0 {
                    Placement::Started
                } else {
                    Placement::Restarted
                };
                match self.find_slot(p.channel, wd) {
                    Some(k) => {
                        let mut q = self.subs.remove(k);
                        assert(v.subs[k as int].channel < v.open.len());
                        let n = self.open.len();
                        assert(q.channel < n);
                        q.channel = q.channel + 1;
                        p.wd = wd;
                        self.subs.push(p);
                        self.pending.push(q);
                        proof {
                            let s2 = self.subs@;
                            let r2 = subs0.remove(k as int);
                            assert forall|i: int, j: int|
                                0 <= i < s2.len() && 0 <= j < s2.len() && i != j implies s2[i].id
                                != s2[j].id && (s2[i].channel != s2[j].channel || s2[i].wd
                                != s2[j].wd) by {
                                if i < r2.len() {
                                    assert(s2[i] == subs0[if i < k { i } else { i + 1 }]);
                                }
                                if j < r2.len() {
                                    assert(s2[j] == subs0[if j < k { j } else { j + 1 }]);
                                }
                            }
                            assert forall|i: int| 0 <= i < s2.len() implies #[trigger] s2[i].channel
                                < self.open@.len() && self.open@[s2[i].channel as int] by {
                                if i < r2.len() {
                                    assert(s2[i] == subs0[if i < k { i } else { i + 1 }]);
                                }
                            }
                            assert forall|i: int, j: int|
                                0 <= i < self.pending@.len() && 0 <= j < s2.len() implies
                                #[trigger] self.pending@[i].id != #[trigger] s2[j].id by {
                                if j < r2.len() {
                                    assert(s2[j] == subs0[if j < k { j } else { j + 1 }]);
                                }
                                if i < rest.len() {
                                    assert(rest[i] == v.pending[i]);
                                }
                            }
                            assert forall|i: int, j: int|
                                0 <= i < self.pending@.len() && 0 <= j < self.pending@.len() && i
                                    != j implies #[trigger] self.pending@[i].id
                                != #[trigger] self.pending@[j].id by {
                                if i < rest.len() {
                                    assert(rest[i] == v.pending[i]);
                                }
                                if j < rest.len() {
                                    assert(rest[j] == v.pending[j]);
                                }
                            }
                            assert(occupies(subs0[k as int], v.next().channel as int, wd));
                        }
                    },
                    None => {
                        p.wd = wd;
                        self.subs.push(p);
                        proof {
                            let s2 = self.subs@;
                            assert forall|i: int, j: int|
                                0 <= i < s2.len() && 0 <= j < s2.len() && i != j implies s2[i].id
                                != s2[j].id && (s2[i].channel != s2[j].channel || s2[i].wd
                                != s2[j].wd) by {
                                if i == subs0.len() {
                                    assert(!occupies(subs0[j], v.next().channel as int, wd));
                                }
                                if j == subs0.len() {
                                    assert(!occupies(subs0[i], v.next().channel as int, wd));
                                }
                            }
                        }
                    },
                }
                self.placed.push(Notice { id, placement });
            },
        }
        proof {
            self.lemma_released_kept(v);
        }
        if self.pending.len() == 0 {
            self.take_placed()
        } else {
            Vec::new()
        }
    }

    /// Ends the subscription of `id`, returning the channel and slot that the kernel must
    /// release; the slot is remembered until its final notification arrives. Releasing a
    /// subscriber that has no live subscription changes nothing and asks for no kernel call.
    pub fn deregister(&mut self, id: u64) -> (r: Option<(usize, i32)>)
        requires
            old(self).wf(),
            old(self)@.idle(),
        ensures
            final(self).wf(),
            final(self)@.idle(),
            final(self)@.open == old(self)@.open,
            !has_id(final(self)@.subs, id),
            match r {
                None => !has_id(old(self)@.subs, id) && final(self)@.subs == old(self)@.subs
                    && final(self)@.released == old(self)@.released,
                Some((c, wd)) => exists|k: int|
                    0 <= k < old(self)@.subs.len() && #[trigger] old(self)@.subs[k].id == id
                        && occupies(old(self)@.subs[k], c as int, wd) && final(self)@.subs == old(
                        self,
                    )@.subs.remove(k) && final(self)@.released == old(self)@.released.push((c, wd)),
            },
    {
        let ghost v = self@;
        let ghost subs0 = self.subs@;
        match self.find_id(id) {
            None => {
                assert(self@.subs == subs0);
                None
            },
            Some(k) => {
                let s = self.subs.remove(k);
                self.released.push((s.channel, s.wd));
                proof {
                    let s2 = self.subs@;
                    assert(v.subs[k as int] == s);
                    assert forall|i: int| 0 <= i < s2.len() implies s2[i].id != id by {
                        assert(s2[i] == subs0[if i < k { i } else { i + 1 }]);
                    }
                    assert forall|i: int, j: int|
                        0 <= i < s2.len() && 0 <= j < s2.len() && i != j implies s2[i].id
                        != s2[j].id && (s2[i].channel != s2[j].channel || s2[i].wd
                        != s2[j].wd) by {
                        assert(s2[i] == subs0[if i < k { i } else { i + 1 }]);
                        assert(s2[j] == subs0[if j < k { j } else { j + 1 }]);
                    }
                    assert forall|i: int| 0 <= i < s2.len() implies #[trigger] s2[i].channel
                        < self.open@.len() && self.open@[s2[i].channel as int] by {
                        assert(s2[i] == subs0[if i < k { i } else { i + 1 }]);
                    }
                    let rl = self.released@;
                    assert forall|i: int| 0 <= i < rl.len() implies (#[trigger] rl[i]).0
                        < self.open@.len() && self.open@[rl[i].0 as int] by {
                        if i < v.released.len() {
                            assert(rl[i] == v.released[i]);
                        }
                    }
                    assert(occupies(subs0[k as int], s.channel as int, s.wd));
                    assert(self@.subs == subs0.remove(k as int));
                    assert(old(self)@.subs[k as int].id == id);
                }
                Some((s.channel, s.wd))
            },
        }
    }

    fn channel_used(&self, c: usize) -> (r: bool)
        ensures
            r == self@.on_channel(c as int),
    {
        let mut k: usize = 0;
        while k < self.subs.len()
            invariant
                k <= self.subs@.len(),
                forall|i: int| 0 <= i < k ==> #[trigger] self.subs@[i].channel != c,
            decreases self.subs@.len() - k,
        {
            if self.subs[k].channel == c {
                assert(self@.subs[k as int].channel == c);
                return true;
            }
            k = k + 1;
        }
        false
    }

    /// Keeps of the released slots those on open channels, other than `slot`.
    fn keep_released(&mut self, slot: Option<(usize, i32)>)
        ensures
            final(self).subs@ == old(self).subs@,
            final(self).pending@ == old(self).pending@,
            final(self).placed@ == old(self).placed@,
            final(self).open@ == old(self).open@,
            forall|i: int|
                0 <= i < final(self).released@.len() ==> (#[trigger] final(self).released@[i]).0
                    < final(self).open@.len() && final(self).open@[final(self).released@[i].0 as int],
            forall|c: usize, wd: i32|
                #![trigger final(self)@.is_released(c, wd)]
                #![trigger old(self)@.is_released(c, wd)]
                final(self)@.is_released(c, wd) <==> (old(self)@.is_released(c, wd) && c
                    < old(self)@.open.len() && old(self)@.open[c as int] && slot != Some((c, wd))),
    {
        let ghost old_rel = self.released@;
        let mut kept: Vec<(usize, i32)> = Vec::new();
        let mut i: usize = 0;
        while i < self.released.len()
            invariant
                i <= self.released@.len(),
                self.released@ == old_rel,
                old_rel == old(self).released@,
                self.open@ == old(self).open@,
                forall|j: int| 0 <= j < kept@.len() ==> (#[trigger] kept@[j]).0 < self.open@.len()
                    && self.open@[kept@[j].0 as int] && slot != Some(kept@[j]) && exists|m: int|
                    0 <= m < i && old_rel[m] == kept@[j],
                forall|m: int|
                    0 <= m < i && (#[trigger] old_rel[m]).0 < self.open@.len() && self.open@[old_rel[m].0 as int]
                        && slot != Some(old_rel[m]) ==> exists|j: int|
                        0 <= j < kept@.len() && kept@[j] == old_rel[m],
            decreases self.released@.len() - i,
        {
            let x = self.released[i];
            let keep = x.0 < self.open.len() && self.open[x.0] && match slot {
                Some(y) => !(y.0 == x.0 && y.1 == x.1),
                None => true,
            };
            let ghost k0 = kept@;
            if keep {
                kept.push(x);
                assert(kept@[k0.len() as int] == old_rel[i as int]);
            }
            assert forall|j: int| 0 <= j < kept@.len() implies (#[trigger] kept@[j]).0 < self.open@.len()
                && self.open@[kept@[j].0 as int] && slot != Some(kept@[j]) && exists|m: int|
                0 <= m < i + 1 && old_rel[m] == kept@[j] by {
                if j < k0.len() {
                    assert(kept@[j] == k0[j]);
                    let m = choose|m: int| 0 <= m < i && old_rel[m] == k0[j];
                    assert(0 <= m < i + 1 && old_rel[m] == kept@[j]);
                } else {
                    assert(old_rel[i as int] == kept@[j]);
                }
            }
            assert forall|m: int|
                0 <= m < i + 1 && (#[trigger] old_rel[m]).0 < self.open@.len() && self.open@[old_rel[m].0 as int]
                    && slot != Some(old_rel[m]) implies exists|j: int|
                    0 <= j < kept@.len() && kept@[j] == old_rel[m] by {
                if m < i {
                    let j = choose|j: int| 0 <= j < k0.len() && k0[j] == old_rel[m];
                    assert(kept@[j] == k0[j]);
                } else {
                    assert(kept@[k0.len() as int] == old_rel[m]);
                }
            }
            i = i + 1;
        }
        self.released = kept;
        proof {
            let v = self@;
            let o = old(self)@;
            assert(v.released == kept@);
            assert forall|c: usize, wd: i32| #![trigger v.is_released(c, wd)] #![trigger o.is_released(c, wd)]
                v.is_released(c, wd) <==> (o.is_released(c, wd) && c < o.open.len()
                    && o.open[c as int] && slot != Some((c, wd))) by {
                if v.is_released(c, wd) {
                    let j = choose|j: int| 0 <= j < v.released.len() && v.released[j] == (c, wd);
                    assert(v.released[j] == kept@[j]);
                    let m = choose|m: int| 0 <= m < old_rel.len() && old_rel[m] == kept@[j];
                    assert(o.released[m] == (c, wd));
                }
                if o.is_released(c, wd) && c < o.open.len() && o.open[c as int] && slot != Some((c, wd)) {
                    let m = choose|m: int| 0 <= m < o.released.len() && o.released[m] == (c, wd);
                    assert(old_rel[m] == (c, wd));
                    assert(old_rel[m].0 < self.open@.len() && self.open@[old_rel[m].0 as int]
                        && slot != Some(old_rel[m]));
                    let j = choose|j: int| 0 <= j < kept@.len() && kept@[j] == old_rel[m];
                    assert(v.released[j] == (c, wd));
                }
            }
        }
    }

    /// Closes every channel other than the primary one that holds no subscription, and
    /// returns the indices it closed. Channels that hold a subscription stay open under
    /// their index; the released slots of closed channels are forgotten.
    pub fn retire_empty_channels(&mut self) -> (r: Vec<usize>)
        requires
            old(self).wf(),
            old(self)@.idle(),
        ensures
            final(self).wf(),
            final(self)@.idle(),
            final(self)@.subs == old(self)@.subs,
            final(self)@.open.len() == old(self)@.open.len(),
            forall|c: int|
                0 <= c < old(self)@.open.len() ==> #[trigger] final(self)@.open[c] == (old(
                    self,
                )@.open[c] && (c == 0 || old(self)@.on_channel(c))),
            forall|i: int|
                0 <= i < r@.len() ==> #[trigger] r@[i] < old(self)@.open.len() && old(self)@.open[r@[i] as int]
                    && !final(self)@.open[r@[i] as int],
            forall|c: int|
                0 <= c < old(self)@.open.len() && old(self)@.open[c] && !final(self)@.open[c]
                    ==> #[trigger] r@.contains(c as usize),
            forall|c: usize, wd: i32|
                #![trigger final(self)@.is_released(c, wd)]
                final(self)@.is_released(c, wd) <==> (old(self)@.is_released(c, wd)
                    && final(self)@.open[c as int]),
    {
        let ghost o = self@;
        let mut closed: Vec<usize> = Vec::new();
        let mut c: usize = 1;
        while c < self.open.len()
            invariant
                self.subs@ == o.subs,
                self.pending@ == o.pending,
                self.placed@ == o.placed,
                self.released@ == o.released,
                self.open@.len() == o.open.len(),
                o.well_placed(),
                1 <= c,
                forall|d: int|
                    0 <= d < o.open.len() ==> #[trigger] self.open@[d] == if 1 <= d < c {
                        o.open[d] && o.on_channel(d)
                    } else {
                        o.open[d]
                    },
                forall|i: int|
                    0 <= i < closed@.len() ==> #[trigger] closed@[i] < c && closed@[i] < o.open.len()
                        && o.open[closed@[i] as int]
                        && !self.open@[closed@[i] as int],
                forall|d: int|
                    0 <= d < c && d < o.open.len() && o.open[d] && !self.open@[d]
                        ==> #[trigger] closed@.contains(d as usize),
            decreases o.open.len() - c,
        {
            let ghost op0 = self.open@;
            assert(self@.subs == o.subs);
            if self.open[c] && !self.channel_used(c) {
                let ghost cl0 = closed@;
                self.open.set(c, false);
                closed.push(c);
                proof {
                    assert forall|d: int|
                        0 <= d < c + 1 && d < o.open.len() && o.open[d] && !self.open@[d]
                            implies #[trigger] closed@.contains(d as usize) by {
                        if d < c {
                            assert(cl0.contains(d as usize));
                            let j = choose|j: int| 0 <= j < cl0.len() && cl0[j] == d as usize;
                            assert(closed@[j] == d as usize);
                        } else {
                            assert(closed@[cl0.len() as int] == d as usize);
                        }
                    }
                }
            }
            proof {
                assert(self@.on_channel(c as int) == o.on_channel(c as int));
                assert forall|d: int|
                    0 <= d < o.open.len() implies #[trigger] self.open@[d] == if 1 <= d < c + 1 {
                        o.open[d] && o.on_channel(d)
                    } else {
                        o.open[d]
                    } by {
                    if d != c {
                        assert(self.open@[d] == op0[d]);
                    }
                }
            }
            c = c + 1;
        }
        proof {
            assert forall|i: int| 0 <= i < self.subs@.len() implies #[trigger] self.subs@[i].channel
                < self.open@.len() && self.open@[self.subs@[i].channel as int] by {
                let d = self.subs@[i].channel as int;
                assert(o.subs[i].channel == d);
                assert(o.on_channel(d));
            }
        }
        let ghost pre = self@;
        self.keep_released(None);
        proof {
            let v = self@;
            assert forall|c2: usize, wd: i32| #![trigger v.is_released(c2, wd)]
                v.is_released(c2, wd) <==> (o.is_released(c2, wd) && v.open[c2 as int]) by {
                assert(pre.released == o.released);
                assert(pre.is_released(c2, wd) == o.is_released(c2, wd));
                if o.is_released(c2, wd) {
                    let i = choose|i: int| 0 <= i < o.released.len() && o.released[i] == (c2, wd);
                    assert(o.released[i].0 < o.open.len());
                }
            }
            assert forall|i: int| 0 <= i < v.subs.len() implies #[trigger] v.subs[i].channel
                < v.open.len() && v.open[v.subs[i].channel as int] by {
                assert(self.subs@[i] == v.subs[i]);
            }
            assert forall|d: int|
                0 <= d < o.open.len() implies #[trigger] v.open[d] == (o.open[d] && (d == 0
                    || o.on_channel(d))) by {
                assert(self.open@[d] == v.open[d]);
                if d == 0 {
                } else {
                }
            }
        }
        closed
    }

    fn find_released(&self, c: usize, wd: i32) -> (r: bool)
        ensures
            r == self@.is_released(c, wd),
    {
        let mut i: usize = 0;
        while i < self.released.len()
            invariant
                i <= self.released@.len(),
                forall|j: int| 0 <= j < i ==> #[trigger] self.released@[j] != (c, wd),
            decreases self.released@.len() - i,
        {
            let x = self.released[i];
            if x.0 == c && x.1 == wd {
                assert(self@.released[i as int] == (c, wd));
                return true;
            }
            i = i + 1;
        }
        false
    }

    /// Decides what becomes of a notification read from `channel`. It goes to the
    /// subscriber whose subscription holds its slot, and if it is the kernel's final word
    /// on that watch, the subscription ends with it. A notification for a released slot is
    /// dropped. A final notification makes its slot forgotten. Any other is an error.
    pub fn route_event(&mut self, channel: usize, ev: &Event) -> (r: Result<Option<u64>, Error>)
        requires
            old(self).wf(),
        ensures
            final(self).wf(),
            final(self)@.pending == old(self)@.pending,
            final(self)@.placed == old(self)@.placed,
            final(self)@.open == old(self)@.open,
            r is Ok ==> if ev.mask & IN_IGNORED != 0 {
                forgets(old(self)@, final(self)@, channel, ev.wd.0) && !has_slot(
                    final(self)@.subs,
                    channel as int,
                    ev.wd.0,
                )
            } else {
                final(self)@.released == old(self)@.released
            },
            match r {
                Ok(Some(id)) => exists|k: int|
                    0 <= k < old(self)@.subs.len() && occupies(
                        #[trigger] old(self)@.subs[k],
                        channel as int,
                        ev.wd.0,
                    ) && old(self)@.subs[k].id == id && final(self)@.subs == if ev.mask & IN_IGNORED
                        != 0 {
                        old(self)@.subs.remove(k)
                    } else {
                        old(self)@.subs
                    },
                Ok(None) => !has_slot(old(self)@.subs, channel as int, ev.wd.0) && old(
                    self,
                )@.is_released(channel, ev.wd.0) && final(self)@.subs == old(self)@.subs,
                Err(e) => !has_slot(old(self)@.subs, channel as int, ev.wd.0) && !old(
                    self,
                )@.is_released(channel, ev.wd.0) && e.kind == ErrorKind::Other && final(self)@
                    == old(self)@,
            },
    {
        let ghost o = self@;
        let wd = ev.wd.0;
        let last = is_final_mask(ev.mask);
        let routed = match self.find_slot(channel, wd) {
            Some(k) => {
                let id = self.subs[k].id;
                assert(o.subs[k as int] == self.subs@[k as int]);
                if last {
                    self.subs.remove(k);
                    proof {
                        let s2 = self.subs@;
                        let subs0 = o.subs;
                        assert(s2 == subs0.remove(k as int));
                        assert forall|i: int, j: int|
                            0 <= i < s2.len() && 0 <= j < s2.len() && i != j implies s2[i].id
                            != s2[j].id && (s2[i].channel != s2[j].channel || s2[i].wd
                            != s2[j].wd) by {
                            assert(s2[i] == subs0[if i < k { i } else { i + 1 }]);
                            assert(s2[j] == subs0[if j < k { j } else { j + 1 }]);
                        }
                        assert forall|i: int| 0 <= i < s2.len() implies !occupies(
                            #[trigger] s2[i],
                            channel as int,
                            wd,
                        ) by {
                            assert(s2[i] == subs0[if i < k { i } else { i + 1 }]);
                        }
                    }
                }
                Some(id)
            },
            None => {
                if !self.find_released(channel, wd) {
                    return Err(Error::new(ErrorKind::Other));
                }
                None
            },
        };
        let ghost mid = self@;
        proof {
            assert forall|i: int| 0 <= i < mid.subs.len() implies #[trigger] mid.subs[i].channel
                < mid.open.len() && mid.open[mid.subs[i].channel as int] && exists|j: int|
                0 <= j < o.subs.len() && o.subs[j] == mid.subs[i] by {
                let j = choose|j: int| 0 <= j < o.subs.len() && o.subs[j] == mid.subs[i];
                assert(o.subs[j].channel < o.open.len());
            }
        }
        if last {
            self.keep_released(Some((channel, wd)));
            proof {
                let v = self@;
                assert forall|c: usize, wd2: i32| #![trigger v.is_released(c, wd2)]
                    v.is_released(c, wd2) <==> (o.is_released(c, wd2) && (c, wd2) != (channel, wd)) by {
                    assert(mid.released == o.released);
                    assert(mid.is_released(c, wd2) == o.is_released(c, wd2));
                    if o.is_released(c, wd2) {
                        let i = choose|i: int| 0 <= i < o.released.len() && o.released[i] == (c, wd2);
                        assert(o.released[i].0 < o.open.len());
                    }
                }
            }
        }
        proof {
            let v = self@;
            assert forall|i: int| 0 <= i < v.subs.len() implies #[trigger] v.subs[i].channel
                < v.open.len() && v.open[v.subs[i].channel as int] by {
                assert(mid.subs[i] == v.subs[i]);
            }
            assert forall|i: int, j: int|
                0 <= i < v.pending.len() && 0 <= j < v.subs.len() implies #[trigger] v.pending[i].id
                != #[trigger] v.subs[j].id by {
                assert(mid.subs[j] == v.subs[j]);
                let m = choose|m: int| 0 <= m < o.subs.len() && o.subs[m] == mid.subs[j];
                assert(o.pending[i] == v.pending[i]);
                assert(o.pending[i].id != o.subs[m].id);
            }
            assert(v.pending == o.pending);
            if !last {
                assert(v.subs == o.subs);
                self.lemma_released_kept(o);
            }
        }
        Ok(routed)
    }
}

} // verus!
