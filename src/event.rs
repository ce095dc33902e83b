use vstd::prelude::*;

use crate::error::{Error, ErrorKind};
use crate::mask::{is_final_mask, IN_IGNORED};
use crate::registry::Placement;

verus! {

/// Size of the fixed header of a raw notification record: slot identity, mask,
/// cookie and name length, four bytes each.
pub const HEADER_SIZE: usize = 16;

/// Identity of one watch slot inside one channel, as issued by the kernel.
#[derive(Debug, Clone, Copy, PartialEq, Eq, Structural, Hash)]
pub struct WatchDecriptor(pub i32);

/// One kernel notification.
#[derive(Debug, Clone)]
pub struct Event {
    pub wd: WatchDecriptor,
    pub mask: u32,
    pub cookie: u32,
    /// The name of the entry inside the watched directory, without its NUL padding.
    pub name: Option<Vec<u8>>,
}

/// What a subscriber receives.
#[derive(Debug, Clone)]
pub enum WatcherEvent {
    /// The subscription was installed on the primary channel.
    StartWatching,
    /// The subscription was displaced by a newer one on the same object and installed
    /// again on another channel; notifications may have been lost meanwhile.
    RestartWatching,
    /// A kernel notification.
    Notified(Event),
}

impl WatcherEvent {
    /// Whether the subscriber's sequence ends after this event: the kernel says the
    /// watched object is gone.
    pub fn is_last(&self) -> (r: bool)
        ensures
            r == match self {
                WatcherEvent::Notified(e) => e.mask & IN_IGNORED != 0,
                _ => false,
            },
    {
        match self {
            WatcherEvent::Notified(e) => is_final_mask(e.mask),
            _ => false,
        }
    }

    /// What a placement means to its subscriber.
    pub fn from_placement(p: Placement) -> (r: Result<WatcherEvent, Error>)
        ensures
            match (p, r) {
                (Placement::Started, Ok(WatcherEvent::StartWatching)) => true,
                (Placement::Restarted, Ok(WatcherEvent::RestartWatching)) => true,
                (Placement::Failed(k), Err(e)) => e.kind == k,
                _ => false,
            },
    {
        match p {
            Placement::Started => Ok(WatcherEvent::StartWatching),
            Placement::Restarted => Ok(WatcherEvent::RestartWatching),
            Placement::Failed(k) => Err(Error::new(k)),
        }
    }
}

/// Where a subscriber's sequence of events stands: it ends after the event that says the
/// watched object is gone, and stays ended.
#[derive(Debug, Clone, Copy, PartialEq, Eq, Structural)]
pub struct StreamEnd {
    pub ended: bool,
}

impl StreamEnd {
    pub fn new() -> (r: StreamEnd)
        ensures
            !r.ended,
    {
        StreamEnd { ended: false }
    }

    /// Whether no further event may be handed out.
    pub fn is_ended(&self) -> (r: bool)
        ensures
            r == self.ended,
    {
        self.ended
    }

    /// Takes note of an event handed out to the subscriber.
    pub fn observe(&mut self, ev: &WatcherEvent)
        ensures
            final(self).ended == (old(self).ended || match ev {
                WatcherEvent::Notified(e) => e.mask & IN_IGNORED != 0,
                _ => false,
            }),
    {
        if ev.is_last() {
            self.ended = true;
        }
    }
}

/// Mathematical value of an `Event`.
pub struct EventView {
    pub wd: i32,
    pub mask: u32,
    pub cookie: u32,
    pub name: Option<Seq<u8>>,
}

impl Event {
    pub open spec fn view(&self) -> EventView {
        EventView {
            wd: self.wd.0,
            mask: self.mask,
            cookie: self.cookie,
            name: match self.name {
                Some(n) => Some(n@),
                None => None,
            },
        }
    }
}

pub open spec fn views(s: Seq<Event>) -> Seq<EventView> {
    s.map_values(|e: Event| e.view())
}

/// Little-endian value of the four bytes of `b` at `i`.
pub open spec fn u32_at(b: Seq<u8>, i: int) -> int {
    b[i] + 256 * (b[i + 1] + 256 * (b[i + 2] + 256 * b[i + 3]))
}

/// The signed reading of 32 bits.
pub open spec fn signed_of(v: int) -> int {
    if v < 0x8000_0000 {
        v
    } else {
        v - 0x1_0000_0000
    }
}

/// End of a name field `b[start..end]` once the trailing run of NUL pairs is trimmed:
/// the field keeps exactly one terminating NUL.
pub open spec fn trimmed_end(b: Seq<u8>, start: int, end: int) -> int
    decreases end - start,
{
    if end > start + 1 && b[end - 1] == 0 && b[end - 2] == 0 {
        trimmed_end(b, start, end - 1)
    } else {
        end
    }
}

/// A trimmed name field `b[start..end]` is one NUL-terminated string without interior NUL.
pub open spec fn is_c_string(b: Seq<u8>, start: int, end: int) -> bool {
    start < end && b[end - 1] == 0 && forall|j: int| start <= j < end - 1 ==> b[j] != 0
}

/// Name length declared by the record that starts the stream `b`.
pub open spec fn declared_len(b: Seq<u8>) -> int {
    u32_at(b, 12)
}

/// The defect of the record that starts the stream `b`, if it has one.
pub open spec fn record_error(b: Seq<u8>) -> Option<ErrorKind> {
    if b.len() < HEADER_SIZE {
        Some(ErrorKind::Other)
    } else if HEADER_SIZE + declared_len(b) > b.len() {
        Some(ErrorKind::Other)
    } else if declared_len(b) != 0 && !is_c_string(
        b,
        HEADER_SIZE as int,
        trimmed_end(b, HEADER_SIZE as int, HEADER_SIZE + declared_len(b)),
    ) {
        Some(ErrorKind::Other)
    } else {
        None
    }
}

/// Length of the record that starts the stream `b`.
pub open spec fn record_len(b: Seq<u8>) -> int {
    HEADER_SIZE + declared_len(b)
}

/// The event that the record starting the stream `b` describes.
pub open spec fn record_view(b: Seq<u8>) -> EventView {
    EventView {
        wd: signed_of(u32_at(b, 0)) as i32,
        mask: u32_at(b, 4) as u32,
        cookie: u32_at(b, 8) as u32,
        name: if declared_len(b) == 0 {
            None
        } else {
            Some(b.subrange(HEADER_SIZE as int, trimmed_end(b, HEADER_SIZE as int, record_len(b)) - 1))
        },
    }
}

/// The events that the record stream `b` holds, or the kind of the first defect in it.
pub open spec fn parse_spec(b: Seq<u8>) -> Result<Seq<EventView>, ErrorKind>
    decreases b.len(),
{
    if b.len() == 0 {
        Ok(Seq::empty())
    } else {
        match record_error(b) {
            Some(k) => Err(k),
            None => prepend(seq![record_view(b)], parse_spec(b.subrange(record_len(b), b.len() as int))),
        }
    }
}

pub open spec fn prepend(p: Seq<EventView>, r: Result<Seq<EventView>, ErrorKind>) -> Result<
    Seq<EventView>,
    ErrorKind,
> {
    match r {
        Ok(s) => Ok(p + s),
        Err(k) => Err(k),
    }
}

fn read_u32(b: &[u8], i: usize) -> (r: u32)
    requires
        i + 4 <= b@.len(),
    ensures
        r == u32_at(b@, i as int),
{
    let v: u64 = b[i] as u64 + 256 * (b[i + 1] as u64 + 256 * (b[i + 2] as u64 + 256 * (b[i
        + 3] as u64)));
    v as u32
}

proof fn lemma_trim_shift(b: Seq<u8>, off: int, start: int, end: int)
    requires
        0 <= off <= start < end <= b.len(),
    ensures
        trimmed_end(b.subrange(off, b.len() as int), start - off, end - off) == trimmed_end(
            b,
            start,
            end,
        ) - off,
    decreases end - start,
{
    if end > start + 1 && b[end - 1] == 0 && b[end - 2] == 0 {
        lemma_trim_shift(b, off, start, end - 1);
    }
}

fn trim_end(b: &[u8], start: usize, end: usize) -> (r: usize)
    requires
        start < end <= b@.len(),
    ensures
        r == trimmed_end(b@, start as int, end as int),
        start < r <= end,
{
    let mut e = end;
    while e > start + 1 && b[e - 1] == 0 && b[e - 2] == 0
        invariant
            start < e <= end <= b@.len(),
            trimmed_end(b@, start as int, e as int) == trimmed_end(b@, start as int, end as int),
        decreases e,
    {
        e = e - 1;
    }
    e
}

/// Copies the NUL-terminated name held in `b[start..end]`, or fails if it is not one.
fn c_name(b: &[u8], start: usize, end: usize) -> (r: Result<Vec<u8>, Error>)
    requires
        start < end <= b@.len(),
    ensures
        match r {
            Ok(n) => is_c_string(b@, start as int, end as int) && n@ == b@.subrange(
                start as int,
                end - 1,
            ),
            Err(e) => !is_c_string(b@, start as int, end as int) && e.kind == ErrorKind::Other,
        },
{
    if b[end - 1] != 0 {
        return Err(Error::new(ErrorKind::Other));
    }
    let mut n: Vec<u8> = Vec::new();
    let mut j: usize = start;
    while j < end - 1
        invariant
            start <= j <= end - 1,
            end <= b@.len(),
            n@ == b@.subrange(start as int, j as int),
            forall|k: int| start <= k < j ==> b@[k] != 0,
        decreases end - j,
    {
        if b[j] == 0 {
            return Err(Error::new(ErrorKind::Other));
        }
        n.push(b[j]);
        j = j + 1;
        assert(n@ =~= b@.subrange(start as int, j as int));
    }
    Ok(n)
}

/// Parses the record that starts at `off`.
fn parse_record(b: &[u8], off: usize) -> (r: Result<(Event, usize), Error>)
    requires
        off < b@.len(),
    ensures
        ({
            let rest = b@.subrange(off as int, b@.len() as int);
            match r {
                Ok((ev, next)) => record_error(rest) is None && ev.view() == record_view(rest)
                    && next == off + record_len(rest),
                Err(e) => record_error(rest) == Some(e.kind),
            }
        }),
{
    let ghost rest = b@.subrange(off as int, b@.len() as int);
    if b.len() - off < HEADER_SIZE {
        return Err(Error::new(ErrorKind::Other));
    }
    let wd_bits = read_u32(b, off);
    let mask = read_u32(b, off + 4);
    let cookie = read_u32(b, off + 8);
    let len = read_u32(b, off + 12);
    assert(wd_bits == u32_at(rest, 0));
    assert(mask == u32_at(rest, 4));
    assert(cookie == u32_at(rest, 8));
    assert(len == declared_len(rest));
    if (len as usize) > b.len() - off - HEADER_SIZE {
        return Err(Error::new(ErrorKind::Other));
    }
    let start = off + HEADER_SIZE;
    let next = start + len as usize;
    let name = if len == 0 {
        None
    } else {
        let end = trim_end(b, start, next);
        proof {
            lemma_trim_shift(b@, off as int, start as int, next as int);
            let re = end - off;
            if is_c_string(rest, HEADER_SIZE as int, re) {
                assert forall|k: int| start <= k < end - 1 implies b@[k] != 0 by {
                    assert(rest[k - off] == b@[k]);
                }
            }
            if is_c_string(b@, start as int, end as int) {
                assert forall|k: int| HEADER_SIZE <= k < re - 1 implies rest[k] != 0 by {
                    assert(rest[k] == b@[k + off]);
                }
            }
        }
        match c_name(b, start, end) {
            Ok(n) => {
                assert(n@ =~= rest.subrange(HEADER_SIZE as int, (end - off) as int - 1));
                Some(n)
            },
            Err(e) => {
                return Err(e);
            },
        }
    };
    let wd: i32 = if wd_bits < 0x8000_0000 {
        wd_bits as i32
    } else {
        (wd_bits as i64 - 0x1_0000_0000) as i32
    };
    let ev = Event { wd: WatchDecriptor(wd), mask, cookie, name };
    Ok((ev, next))
}

/// Parses a buffer filled by one read of a notification descriptor into its events, in
/// order.
pub fn parse_events(b: &[u8]) -> (r: Result<Vec<Event>, Error>)
    ensures
        match (r, parse_spec(b@)) {
            (Ok(v), Ok(s)) => views(v@) == s,
            (Err(e), Err(k)) => e.kind == k,
            _ => false,
        },
{
    let mut out: Vec<Event> = Vec::new();
    let mut off: usize = 0;
    assert(b@.subrange(0, b@.len() as int) =~= b@);
    assert(views(out@) + parse_spec(b@)->Ok_0 =~= parse_spec(b@)->Ok_0);
    while off < b.len()
        invariant
            off <= b@.len(),
            prepend(views(out@), parse_spec(b@.subrange(off as int, b@.len() as int)))
                == parse_spec(b@),
        decreases b@.len() - off,
    {
        let ghost rest = b@.subrange(off as int, b@.len() as int);
        let (ev, next) = match parse_record(b, off) {
            Ok(p) => p,
            Err(e) => {
                return Err(e);
            },
        };
        let ghost old_out = views(out@);
        out.push(ev);
        proof {
            let tail = rest.subrange(record_len(rest), rest.len() as int);
            assert(tail =~= b@.subrange(next as int, b@.len() as int));
            assert(views(out@) =~= old_out + seq![ev.view()]);
            match parse_spec(tail) {
                Ok(s) => {
                    assert(old_out + (seq![ev.view()] + s) =~= views(out@) + s);
                },
                Err(k) => {},
            }
        }
        off = next;
    }
    proof {
        assert(b@.subrange(off as int, b@.len() as int) =~= Seq::<u8>::empty());
        assert(views(out@) + Seq::<EventView>::empty() =~= views(out@));
    }
    Ok(out)
}

/// The four little-endian bytes of `v`.
#[verifier::opaque]
pub open spec fn le_bytes(v: int) -> Seq<u8> {
    seq![(v % 256) as u8, ((v / 256) % 256) as u8, ((v / 256 / 256) % 256) as u8, (v / 256 / 256 / 256) as u8]
}

/// The 32 bits that stand for `wd`.
pub open spec fn unsigned_of(wd: i32) -> int {
    if wd >= 0 {
        wd as int
    } else {
        wd + 0x1_0000_0000
    }
}

/// Declared name length of a record whose name is followed by `pad` NUL bytes.
pub open spec fn field_len(name: Option<Seq<u8>>, pad: nat) -> int {
    match name {
        None => 0,
        Some(n) => n.len() + pad as int,
    }
}

/// A record as the kernel lays it out: header, then the name padded with `pad` NUL bytes.
pub open spec fn encode_record(e: EventView, pad: nat) -> Seq<u8> {
    le_bytes(unsigned_of(e.wd)) + le_bytes(e.mask as int) + le_bytes(e.cookie as int) + le_bytes(
        field_len(e.name, pad),
    ) + match e.name {
        None => Seq::<u8>::empty(),
        Some(n) => n + Seq::new(pad, |i: int| 0u8),
    }
}

/// A record that the kernel could write: a name has no NUL byte and at least one byte
/// of padding, and a record without a name has no padding.
pub open spec fn well_formed_record(e: EventView, pad: nat) -> bool {
    match e.name {
        None => pad == 0,
        Some(n) => pad >= 1 && n.len() + pad < 0x1_0000_0000 && forall|i: int|
            0 <= i < n.len() ==> n[i] != 0,
    }
}

/// The records `es`, padded by `pads`, one after another.
pub open spec fn encode_all(es: Seq<EventView>, pads: Seq<nat>) -> Seq<u8>
    decreases es.len(),
{
    if es.len() == 0 || pads.len() == 0 {
        Seq::empty()
    } else {
        encode_record(es[0], pads[0]) + encode_all(es.drop_first(), pads.drop_first())
    }
}

proof fn lemma_le_bytes(b: Seq<u8>, k: int, v: int)
    requires
        0 <= v < 0x1_0000_0000,
        0 <= k,
        k + 4 <= b.len(),
        forall|i: int| 0 <= i < 4 ==> b[k + i] == le_bytes(v)[i],
    ensures
        u32_at(b, k) == v,
{
    reveal(le_bytes);
    let q1 = v / 256;
    let q2 = q1 / 256;
    let q3 = q2 / 256;
    assert(b[k] == le_bytes(v)[0]);
    assert(b[k + 1] == le_bytes(v)[1]);
    assert(b[k + 2] == le_bytes(v)[2]);
    assert(b[k + 3] == le_bytes(v)[3]);
    assert(v == 256 * q1 + v % 256);
    assert(q1 == 256 * q2 + q1 % 256);
    assert(q2 == 256 * q3 + q2 % 256);
    assert(q3 < 256);
}

proof fn lemma_trim_padding(b: Seq<u8>, n: Seq<u8>, k: int)
    requires
        1 <= k,
        HEADER_SIZE + n.len() + k <= b.len(),
        forall|i: int| 0 <= i < n.len() ==> b[HEADER_SIZE + i] == n[i] && n[i] != 0,
        forall|j: int| HEADER_SIZE + n.len() <= j < HEADER_SIZE + n.len() + k ==> b[j] == 0,
    ensures
        trimmed_end(b, HEADER_SIZE as int, HEADER_SIZE + n.len() + k) == HEADER_SIZE + n.len()
            + 1,
    decreases k,
{
    let end = HEADER_SIZE + n.len() + k;
    if k > 1 {
        assert(b[end - 1] == 0);
        assert(b[end - 2] == 0);
        lemma_trim_padding(b, n, k - 1);
    } else if n.len() > 0 {
        assert(b[end - 2] == n[n.len() - 1]);
    }
}

proof fn lemma_le_len(v: int)
    ensures
        le_bytes(v).len() == 4,
{
    reveal(le_bytes);
}

proof fn lemma_header_fields(e: EventView, pad: nat, b: Seq<u8>)
    requires
        well_formed_record(e, pad),
        b.len() >= HEADER_SIZE,
        forall|i: int|
            0 <= i < HEADER_SIZE ==> b[i] == (le_bytes(unsigned_of(e.wd)) + le_bytes(e.mask as int)
                + le_bytes(e.cookie as int) + le_bytes(field_len(e.name, pad)))[i],
    ensures
        u32_at(b, 0) == unsigned_of(e.wd),
        u32_at(b, 4) == e.mask,
        u32_at(b, 8) == e.cookie,
        declared_len(b) == field_len(e.name, pad),
{
    let l0 = le_bytes(unsigned_of(e.wd));
    let l1 = le_bytes(e.mask as int);
    let l2 = le_bytes(e.cookie as int);
    let l3 = le_bytes(field_len(e.name, pad));
    lemma_le_len(unsigned_of(e.wd));
    lemma_le_len(e.mask as int);
    lemma_le_len(e.cookie as int);
    lemma_le_len(field_len(e.name, pad));
    let hdr = l0 + l1 + l2 + l3;
    assert forall|i: int| 0 <= i < 4 implies b[0 + i] == l0[i] by {
        assert(hdr[i] == l0[i]);
    }
    assert forall|i: int| 0 <= i < 4 implies b[4 + i] == l1[i] by {
        assert(hdr[4 + i] == l1[i]);
    }
    assert forall|i: int| 0 <= i < 4 implies b[8 + i] == l2[i] by {
        assert(hdr[8 + i] == l2[i]);
    }
    assert forall|i: int| 0 <= i < 4 implies b[12 + i] == l3[i] by {
        assert(hdr[12 + i] == l3[i]);
    }
    lemma_le_bytes(b, 0, unsigned_of(e.wd));
    lemma_le_bytes(b, 4, e.mask as int);
    lemma_le_bytes(b, 8, e.cookie as int);
    lemma_le_bytes(b, 12, field_len(e.name, pad));
}

proof fn lemma_record_round_trip(e: EventView, pad: nat, rest: Seq<u8>)
    requires
        well_formed_record(e, pad),
    ensures
        ({
            let b = encode_record(e, pad) + rest;
            &&& record_error(b) is None
            &&& record_view(b) == e
            &&& record_len(b) == encode_record(e, pad).len()
            &&& b.subrange(record_len(b), b.len() as int) == rest
        }),
{
    let fl = field_len(e.name, pad);
    let w = unsigned_of(e.wd);
    lemma_le_len(w);
    lemma_le_len(e.mask as int);
    lemma_le_len(e.cookie as int);
    lemma_le_len(fl);
    let hdr = le_bytes(w) + le_bytes(e.mask as int) + le_bytes(e.cookie as int) + le_bytes(fl);
    let tail = match e.name {
        None => Seq::<u8>::empty(),
        Some(n) => n + Seq::new(pad, |i: int| 0u8),
    };
    let enc = encode_record(e, pad);
    assert(enc == hdr + tail);
    assert(hdr.len() == HEADER_SIZE);
    let b = enc + rest;
    assert(b =~= hdr + (tail + rest));
    assert forall|i: int| 0 <= i < HEADER_SIZE implies b[i] == hdr[i] by {}
    lemma_header_fields(e, pad, b);
    assert(tail.len() == fl);
    assert(record_len(b) == enc.len());
    assert(b.subrange(record_len(b), b.len() as int) =~= rest);
    match e.name {
        None => {
            assert(record_view(b) == e);
        },
        Some(n) => {
            assert forall|i: int| 0 <= i < n.len() implies b[HEADER_SIZE + i] == n[i] && n[i] != 0 by {
                assert(b[HEADER_SIZE + i] == (tail + rest)[i]);
                assert(tail[i] == n[i]);
            }
            assert forall|j: int| HEADER_SIZE + n.len() <= j < HEADER_SIZE + n.len() + pad implies b[j] == 0 by {
                assert(b[j] == (tail + rest)[j - HEADER_SIZE]);
                assert(tail[j - HEADER_SIZE] == 0);
            }
            lemma_trim_padding(b, n, pad as int);
            let end = HEADER_SIZE + n.len() + 1;
            assert(b[end - 1] == 0);
            assert(is_c_string(b, HEADER_SIZE as int, end));
            assert(b.subrange(HEADER_SIZE as int, end - 1) =~= n);
            assert(record_view(b) == e);
        },
    }
}

/// Parsing a stream of well-formed records, whatever their names and padding, gives back
/// exactly those records in order, each name without its padding.
pub proof fn lemma_parse_round_trip(es: Seq<EventView>, pads: Seq<nat>)
    requires
        es.len() == pads.len(),
        forall|i: int| 0 <= i < es.len() ==> well_formed_record(#[trigger] es[i], pads[i]),
    ensures
        parse_spec(encode_all(es, pads)) == Ok::<Seq<EventView>, ErrorKind>(es),
    decreases es.len(),
{
    if es.len() == 0 {
        assert(encode_all(es, pads).len() == 0);
        assert(es =~= Seq::<EventView>::empty());
    } else {
        let rest = encode_all(es.drop_first(), pads.drop_first());
        assert forall|i: int| 0 <= i < es.drop_first().len() implies well_formed_record(
            #[trigger] es.drop_first()[i],
            pads.drop_first()[i],
        ) by {
            assert(es.drop_first()[i] == es[i + 1]);
        }
        assert(well_formed_record(es[0], pads[0]));
        lemma_parse_round_trip(es.drop_first(), pads.drop_first());
        lemma_record_round_trip(es[0], pads[0], rest);
        let b = encode_all(es, pads);
        assert(b == encode_record(es[0], pads[0]) + rest);
        let tail = b.subrange(record_len(b), b.len() as int);
        assert(tail == rest);
        assert(parse_spec(tail) == Ok::<Seq<EventView>, ErrorKind>(es.drop_first()));
        assert(b.len() > 0) by {
            lemma_le_len(unsigned_of(es[0].wd));
        }
        assert(seq![es[0]] + es.drop_first() =~= es);
        assert(parse_spec(b) == prepend(seq![record_view(b)], parse_spec(tail)));
    }
}

} // verus!
