//! Beast binary output: the format every consumer of a Mode S receiver speaks.
//!
//! Message: 0x1a, type (0x32 short Mode S, 0x33 long), 6-byte big-endian
//! timestamp in 12 MHz ticks, one signal byte, the frame. Every 0x1a in the
//! body is doubled. Slow consumers are dropped rather than allowed to stall
//! the radio.

use crate::text::{trim, trimmed};
use vstd::prelude::*;
use vstd::utf8::encode_utf8;

verus! {

/// The byte that opens a message.
pub const ESCAPE: u8 = 0x1a;

/// The low 48 bits of a timestamp, big-endian.
pub open spec fn stamp(ticks: u64) -> Seq<u8> {
    let q1 = ticks as int / 256;
    let q2 = q1 / 256;
    let q3 = q2 / 256;
    let q4 = q3 / 256;
    let q5 = q4 / 256;
    seq![
        (q5 % 256) as u8,
        (q4 % 256) as u8,
        (q3 % 256) as u8,
        (q2 % 256) as u8,
        (q1 % 256) as u8,
        (ticks as int % 256) as u8,
    ]
}

/// `body` with every 0x1a doubled.
pub open spec fn escaped(body: Seq<u8>) -> Seq<u8>
    decreases body.len(),
{
    if body.len() == 0 {
        Seq::empty()
    } else if body.last() == ESCAPE {
        escaped(body.drop_last()) + seq![ESCAPE, ESCAPE]
    } else {
        escaped(body.drop_last()) + seq![body.last()]
    }
}

/// The type byte of a frame of `n` bytes.
pub open spec fn kind_of(n: nat) -> u8 {
    if n == 7 { 0x32 } else { 0x33 }
}

/// The body of a message: timestamp, signal, frame.
pub open spec fn body_of(frame: Seq<u8>, ticks: u64, signal: u8) -> Seq<u8> {
    stamp(ticks) + seq![signal] + frame
}

/// The message of one frame.
pub open spec fn message(frame: Seq<u8>, ticks: u64, signal: u8) -> Seq<u8> {
    seq![ESCAPE, kind_of(frame.len())] + escaped(body_of(frame, ticks, signal))
}

/// Append `b` to `out`, doubled if it is the escape.
fn put(out: &mut Vec<u8>, b: u8)
    ensures
        final(out)@ == old(out)@ + (if b == ESCAPE {
            seq![ESCAPE, ESCAPE]
        } else {
            seq![b]
        }),
{
    out.push(b);
    if b == ESCAPE {
        out.push(ESCAPE);
    }
    assert(out@ =~= old(out)@ + (if b == ESCAPE {
        seq![ESCAPE, ESCAPE]
    } else {
        seq![b]
    }));
}

/// Encode one frame. `ticks` is the 12 MHz timestamp, `signal` 0..255.
pub fn encode(frame: &[u8], ticks: u64, signal: u8, out: &mut Vec<u8>)
    requires
        frame@.len() <= 14,
    ensures
        final(out)@ == old(out)@ + message(frame@, ticks, signal),
{
    let mut body: Vec<u8> = Vec::with_capacity(21);
    let q1: u64 = ticks / 256;
    let q2: u64 = q1 / 256;
    let q3: u64 = q2 / 256;
    let q4: u64 = q3 / 256;
    let q5: u64 = q4 / 256;
    body.push((q5 % 256) as u8);
    body.push((q4 % 256) as u8);
    body.push((q3 % 256) as u8);
    body.push((q2 % 256) as u8);
    body.push((q1 % 256) as u8);
    body.push((ticks % 256) as u8);
    body.push(signal);
    for k in 0..frame.len()
        invariant
            body@ == stamp(ticks) + seq![signal] + frame@.take(k as int),
    {
        body.push(frame[k]);
        assert(frame@.take(k + 1) =~= frame@.take(k as int).push(frame@[k as int]));
    }
    assert(frame@.take(frame@.len() as int) =~= frame@);
    out.push(ESCAPE);
    out.push(if frame.len() == 7 { 0x32 } else { 0x33 });
    let ghost head = out@;
    assert(escaped(body@.take(0)) =~= Seq::<u8>::empty());
    for k in 0..body.len()
        invariant
            out@ == head + escaped(body@.take(k as int)),
    {
        assert(body@.take(k + 1).drop_last() =~= body@.take(k as int));
        put(out, body[k]);
        assert(out@ =~= head + escaped(body@.take(k + 1)));
    }
    assert(body@.take(body@.len() as int) =~= body@);
    assert(out@ =~= old(out)@ + message(frame@, ticks, signal));
}

/// Which stream a consumer takes.
#[derive(Debug, Clone, Copy, PartialEq, Eq, Structural)]
pub enum Stream {
    Full,
    Reduced,
}

/// A heartbeat: a Mode A/C message of zeros.
pub const HEARTBEAT: [u8; 11] = [0x1a, 0x31, 0, 0, 0, 0, 0, 0, 0, 0, 0];

/// `n` heartbeats.
pub open spec fn heartbeats(n: nat) -> Seq<u8>
    decreases n,
{
    if n == 0 {
        Seq::empty()
    } else {
        heartbeats((n - 1) as nat) + HEARTBEAT@
    }
}

/// The station's name in 36 bytes, cut or padded with 'f'.
pub open spec fn padded(uuid: Seq<char>) -> Seq<u8> {
    let b = encode_utf8(trimmed(uuid));
    Seq::new(36, |k: int| if k < b.len() { b[k] } else { 0x66u8 })
}

/// The bytes that open a link.
pub open spec fn greeting(uuid: Option<Seq<char>>) -> Seq<u8> {
    match uuid {
        Some(u) => seq![ESCAPE, 0xE4] + padded(u) + seq![ESCAPE, 0x57, 0x4F] + heartbeats(5),
        None => heartbeats(5),
    }
}

/// The bytes sent when a link opens: the station UUID where there is one (0x1a
/// 0xE4, 36 characters padded with 'f') and a 0x1a "WO" marker, then five
/// heartbeats.
pub fn hello(uuid: Option<&str>) -> (v: Vec<u8>)
    ensures
        v@ == greeting(
            match uuid {
                Some(u) => Some(u@),
                None => None,
            },
        ),
{
    let mut v: Vec<u8> = Vec::new();
    if let Some(u) = uuid {
        v.push(ESCAPE);
        v.push(0xE4);
        let b: &[u8] = trim(u).as_bytes();
        for k in 0..36usize
            invariant
                b@ == encode_utf8(trimmed(u@)),
                v@ == seq![ESCAPE, 0xE4u8] + padded(u@).take(k as int),
        {
            v.push(if k < b.len() { b[k] } else { 0x66 });
            assert(v@ =~= seq![ESCAPE, 0xE4u8] + padded(u@).take(k + 1));
        }
        assert(padded(u@).take(36) =~= padded(u@));
        v.push(ESCAPE);
        v.push(0x57);
        v.push(0x4F);
        assert(v@ =~= seq![ESCAPE, 0xE4] + padded(u@) + seq![ESCAPE, 0x57, 0x4F]);
    }
    let ghost head = v@;
    for n in 0..5usize
        invariant
            v@ == head + heartbeats(n as nat),
    {
        v.extend_from_slice(&HEARTBEAT);
        assert(v@ =~= head + heartbeats((n + 1) as nat));
    }
    assert(v@ =~= greeting(
        match uuid {
            Some(u) => Some(u@),
            None => None,
        },
    ));
    v
}

/// A live sink: who it is and which stream it takes.
#[derive(Clone, Copy, PartialEq, Eq, Structural)]
pub struct Sink {
    pub id: u64,
    pub stream: Stream,
}

/// Who takes `stream`, in the order they came.
pub open spec fn takers(sinks: Seq<Sink>, stream: Stream) -> Seq<u64>
    decreases sinks.len(),
{
    if sinks.len() == 0 {
        Seq::empty()
    } else {
        let rest = takers(sinks.drop_last(), stream);
        if sinks.last().stream == stream {
            rest.push(sinks.last().id)
        } else {
            rest
        }
    }
}

/// The sinks left when a chunk of `stream` was offered to its takers and taken
/// or not, as `took` says of each in turn.
pub open spec fn left(sinks: Seq<Sink>, stream: Stream, took: Seq<bool>) -> Seq<Sink>
    decreases sinks.len(),
{
    if sinks.len() == 0 {
        Seq::empty()
    } else {
        let first = sinks.drop_last();
        let rest = left(first, stream, took);
        if sinks.last().stream != stream || took[takers(first, stream).len() as int] {
            rest.push(sinks.last())
        } else {
            rest
        }
    }
}

/// Fan-out of encoded bytes to every live sink, full or reduced stream.
pub struct Hub {
    sinks: Vec<Sink>,
    next: u64,
}

impl View for Hub {
    type V = Seq<Sink>;

    closed spec fn view(&self) -> Seq<Sink> {
        self.sinks@
    }
}

impl Hub {
    /// How many sinks there have been.
    pub closed spec fn seen(&self) -> u64 {
        self.next
    }

    /// No two sinks have the same name, and names are used once.
    pub open spec fn wf(&self) -> bool {
        &&& forall|k: int| 0 <= k < self@.len() ==> (#[trigger] self@[k]).id < self.seen()
        &&& forall|j: int, k: int|
            0 <= j < k < self@.len() ==> (#[trigger] self@[j]).id < (#[trigger] self@[k]).id
    }

    pub fn new() -> (h: Hub)
        ensures
            h@ == Seq::<Sink>::empty(),
            h.seen() == 0,
            h.wf(),
    {
        Hub { sinks: Vec::new(), next: 0 }
    }

    /// Take in a consumer of `stream`; the name under which chunks are offered
    /// to it.
    pub fn subscribe(&mut self, stream: Stream) -> (id: u64)
        requires
            old(self).wf(),
            old(self).seen() < u64::MAX,
        ensures
            final(self).wf(),
            id == old(self).seen(),
            final(self).seen() == id + 1,
            final(self)@ == old(self)@.push(Sink { id, stream }),
    {
        let id: u64 = self.next;
        self.sinks.push(Sink { id, stream });
        self.next = id + 1;
        id
    }

    /// Who is to be offered a chunk of `stream`.
    pub fn targets(&self, stream: Stream) -> (ids: Vec<u64>)
        ensures
            ids@ == takers(self@, stream),
    {
        let mut ids: Vec<u64> = Vec::new();
        for k in 0..self.sinks.len()
            invariant
                ids@ == takers(self.sinks@.take(k as int), stream),
        {
            assert(self.sinks@.take(k + 1).drop_last() =~= self.sinks@.take(k as int));
            if self.sinks[k].stream == stream {
                ids.push(self.sinks[k].id);
            }
        }
        assert(self.sinks@.take(self.sinks@.len() as int) =~= self.sinks@);
        ids
    }

    /// A chunk of `stream` was offered to each of its targets, and taken or
    /// not: a sink that did not take it is dropped.
    pub fn publish(&mut self, stream: Stream, took: &[bool])
        requires
            old(self).wf(),
            took@.len() == takers(old(self)@, stream).len(),
        ensures
            final(self).wf(),
            final(self).seen() == old(self).seen(),
            final(self)@ == left(old(self)@, stream, took@),
    {
        let n: usize = self.sinks.len();
        let mut kept: Vec<Sink> = Vec::new();
        let mut at: usize = 0;
        assert(self.sinks@.take(n as int) =~= self.sinks@);
        for k in 0..n
            invariant
                n == self.sinks@.len(),
                self.sinks@ == old(self)@,
                self.next == old(self).seen(),
                old(self).wf(),
                took@.len() == takers(self.sinks@, stream).len(),
                at == takers(self.sinks@.take(k as int), stream).len(),
                kept@ == left(self.sinks@.take(k as int), stream, took@),
                forall|j: int| 0 <= j < kept@.len() ==> (#[trigger] kept@[j]).id < self.next,
                forall|i: int, j: int|
                    0 <= i < j < kept@.len() ==> (#[trigger] kept@[i]).id < (#[trigger] kept@[j]).id,
                k < n ==> forall|j: int|
                    0 <= j < kept@.len() ==> (#[trigger] kept@[j]).id < self.sinks@[k as int].id,
        {
            assert(self.sinks@.take(k + 1).drop_last() =~= self.sinks@.take(k as int));
            let s: Sink = self.sinks[k];
            if s.stream == stream {
                proof {
                    lemma_takers_grow(self.sinks@, k + 1, stream);
                }
                if took[at] {
                    kept.push(s);
                }
                at += 1;
            } else {
                kept.push(s);
            }
            assert(k + 1 < n ==> self.sinks@[k as int].id < self.sinks@[k + 1].id);
        }
        assert(self.sinks@.take(n as int) =~= self.sinks@);
        self.sinks = kept;
    }

    pub fn consumers(&self) -> (n: usize)
        ensures
            n == self@.len(),
    {
        self.sinks.len()
    }
}

proof fn lemma_takers_grow(sinks: Seq<Sink>, k: int, stream: Stream)
    requires
        0 <= k <= sinks.len(),
    ensures
        takers(sinks.take(k), stream).len() <= takers(sinks, stream).len(),
    decreases sinks.len() - k,
{
    if k < sinks.len() {
        lemma_takers_grow(sinks, k + 1, stream);
        assert(sinks.take(k + 1).drop_last() =~= sinks.take(k));
    } else {
        assert(sinks.take(k) =~= sinks);
    }
}

proof fn lemma_left_are_sinks(sinks: Seq<Sink>, stream: Stream, took: Seq<bool>)
    ensures
        forall|j: int|
            0 <= j < left(sinks, stream, took).len() ==> sinks.contains(
                #[trigger] left(sinks, stream, took)[j],
            ),
    decreases sinks.len(),
{
    if sinks.len() > 0 {
        let first = sinks.drop_last();
        lemma_left_are_sinks(first, stream, took);
        let all = left(sinks, stream, took);
        assert forall|j: int| 0 <= j < all.len() implies sinks.contains(#[trigger] all[j]) by {
            if j < left(first, stream, took).len() {
                let k = first.index_of(left(first, stream, took)[j]);
                assert(sinks[k] == all[j]);
            } else {
                assert(sinks[sinks.len() - 1] == all[j]);
            }
        }
    }
}

/// A consumer stays exactly when the chunk was of the other stream, or when it
/// took the chunk.
pub proof fn law_only_refusers_are_dropped(sinks: Seq<Sink>, stream: Stream, took: Seq<bool>, k: int)
    requires
        0 <= k < sinks.len(),
        forall|i: int, j: int| 0 <= i < j < sinks.len() ==> (#[trigger] sinks[i]).id < (#[trigger] sinks[j]).id,
    ensures
        left(sinks, stream, took).contains(sinks[k]) <==> sinks[k].stream != stream || took[takers(
            sinks.take(k),
            stream,
        ).len() as int],
    decreases sinks.len(),
{
    let first = sinks.drop_last();
    let rest = left(first, stream, took);
    let all = left(sinks, stream, took);
    if k < first.len() {
        law_only_refusers_are_dropped(first, stream, took, k);
        assert(first.take(k) =~= sinks.take(k));
        if rest.contains(sinks[k]) {
            let j = rest.index_of(sinks[k]);
            assert(all[j] == sinks[k]);
        }
        if all.contains(sinks[k]) {
            let j = all.index_of(sinks[k]);
            if j < rest.len() {
                assert(rest[j] == sinks[k]);
            } else {
                assert(all[j] == sinks[sinks.len() - 1]);
            }
        }
    } else {
        assert(first =~= sinks.take(k));
        if sinks[k].stream != stream || took[takers(first, stream).len() as int] {
            assert(all[rest.len() as int] == sinks[k]);
        } else if all.contains(sinks[k]) {
            let j = all.index_of(sinks[k]);
            lemma_left_are_sinks(first, stream, took);
            assert(rest[j] == sinks[k]);
            let i = first.index_of(rest[j]);
            assert(sinks[i].id < sinks[k].id);
        }
    }
}

/// The seconds to wait after an attempt to reach a host, and the wait after the
/// next one: from one second, doubled at each failure, up to sixty.
pub fn backoff(wait: u64, connected: bool) -> (r: (u64, u64))
    ensures
        r.0 == if connected { 1 } else { wait },
        r.1 == if 2 * r.0 < 60 { 2 * r.0 } else { 60 },
        r == waits(wait, connected),
{
    let now: u64 = if connected { 1 } else { wait };
    (now, if now < 30 { 2 * now } else { 60 })
}

/// A timestamp goes out as the low 48 bits of the ticks, the highest byte first.
pub proof fn law_stamp_is_big_endian(ticks: u64)
    ensures
        stamp(ticks).len() == 6,
        ((((stamp(ticks)[0] * 256 + stamp(ticks)[1]) * 256 + stamp(ticks)[2]) * 256 + stamp(ticks)[3]) * 256
            + stamp(ticks)[4]) * 256 + stamp(ticks)[5] == ticks as int % 0x1_0000_0000_0000,
{
    let t = ticks as int;
    assert(t / 256 / 256 / 256 / 256 / 256 / 256 == t / 0x1_0000_0000_0000);
}

proof fn lemma_unescaped(body: Seq<u8>)
    requires
        !body.contains(0x1a),
    ensures
        escaped(body) == body,
    decreases body.len(),
{
    if body.len() > 0 {
        let rest = body.drop_last();
        assert(body[body.len() - 1] != 0x1a) by {
            assert(body.contains(body[body.len() - 1]));
        }
        assert(!rest.contains(0x1a)) by {
            if rest.contains(0x1a) {
                let k = rest.index_of(0x1a);
                assert(body[k] == 0x1a);
            }
        }
        lemma_unescaped(rest);
        assert(escaped(body) =~= body);
    } else {
        assert(escaped(body) =~= body);
    }
}

/// How many of the bytes are 0x1a.
pub open spec fn escapes_in(body: Seq<u8>) -> nat
    decreases body.len(),
{
    if body.len() == 0 {
        0
    } else {
        escapes_in(body.drop_last()) + if body.last() == 0x1a { 1nat } else { 0nat }
    }
}

proof fn lemma_escapes_add(body: Seq<u8>)
    ensures
        escaped(body).len() == body.len() + escapes_in(body),
    decreases body.len(),
{
    if body.len() > 0 {
        lemma_escapes_add(body.drop_last());
    }
}

/// A message is 0x1a, 0x32 for a short frame and 0x33 for a long one, six bytes of time,
/// the signal and the frame. Every 0x1a after the type is sent twice, and where there is
/// none these stand as they are.
pub proof fn law_message_layout(frame: Seq<u8>, ticks: u64, signal: u8)
    requires
        frame.len() == 7 || frame.len() == 14,
    ensures
        ({
            let m = message(frame, ticks, signal);
            let body = stamp(ticks) + seq![signal] + frame;
            &&& m[0] == 0x1a
            &&& frame.len() == 7 ==> m[1] == 0x32
            &&& frame.len() == 14 ==> m[1] == 0x33
            &&& m.len() == 9 + frame.len() + escapes_in(body)
            &&& !body.contains(0x1a) ==> {
                &&& m.subrange(2, 8) == stamp(ticks)
                &&& m[8] == signal
                &&& m.skip(9) == frame
            }
        }),
{
    let m = message(frame, ticks, signal);
    let body = stamp(ticks) + seq![signal] + frame;
    lemma_escapes_add(body);
    if !body.contains(0x1a) {
        lemma_unescaped(body);
        assert(m.subrange(2, 8) =~= stamp(ticks));
        assert(m.skip(9) =~= frame);
    }
}

proof fn lemma_heartbeats(n: nat, k: int)
    requires
        0 <= k < n,
    ensures
        heartbeats(n).len() == 11 * n,
        heartbeats(n).subrange(11 * k, 11 * k + 11) == seq![0x1au8, 0x31, 0, 0, 0, 0, 0, 0, 0, 0, 0],
    decreases n,
{
    lemma_heartbeats_len(n);
    lemma_heartbeats_len((n - 1) as nat);
    let rest = heartbeats((n - 1) as nat);
    if k < n - 1 {
        lemma_heartbeats((n - 1) as nat, k);
        assert(heartbeats(n).subrange(11 * k, 11 * k + 11) =~= rest.subrange(11 * k, 11 * k + 11));
    } else {
        assert(heartbeats(n).subrange(11 * k, 11 * k + 11) =~= HEARTBEAT@);
        assert(HEARTBEAT@ =~= seq![0x1au8, 0x31, 0, 0, 0, 0, 0, 0, 0, 0, 0]);
    }
}

proof fn lemma_heartbeats_len(n: nat)
    ensures
        heartbeats(n).len() == 11 * n,
    decreases n,
{
    if n > 0 {
        lemma_heartbeats_len((n - 1) as nat);
    }
}

/// A link opens with five heartbeats, each 0x1a, 0x31 and nine zeros.
pub proof fn law_greeting_is_five_heartbeats(k: int)
    requires
        0 <= k < 5,
    ensures
        greeting(None).len() == 55,
        greeting(None).subrange(11 * k, 11 * k + 11) == seq![0x1au8, 0x31, 0, 0, 0, 0, 0, 0, 0, 0, 0],
{
    lemma_heartbeats(5, k);
}

proof fn lemma_named(u: Seq<char>, rest: Seq<u8>, j: int)
    requires
        0 <= j < 36,
    ensures
        ({
            let g = seq![0x1au8, 0xE4] + padded(u) + seq![0x1au8, 87, 79] + rest;
            let name = encode_utf8(trimmed(u));
            &&& g[0] == 0x1a && g[1] == 0xE4
            &&& j < name.len() ==> g[2 + j] == name[j]
            &&& j >= name.len() ==> g[2 + j] == 102
            &&& g[38] == 0x1a && g[39] == 87 && g[40] == 79
            &&& g.skip(41) == rest
        }),
{
    let (open, close) = (seq![0x1au8, 0xE4], seq![0x1au8, 87, 79]);
    let g = open + padded(u) + close + rest;
    assert(padded(u).len() == 36);
    assert(g[2 + j] == padded(u)[j]);
    assert(g.skip(41) =~= rest);
}

/// Where the station has a name, 0x1a 0xE4, 36 bytes of it, white space at its ends aside
/// and 'f' for those that it lacks, and 0x1a "WO" come before the heartbeats.
pub proof fn law_greeting_names_the_station(u: Seq<char>, j: int)
    requires
        0 <= j < 36,
    ensures
        ({
            let g = greeting(Some(u));
            let name = encode_utf8(trimmed(u));
            &&& g[0] == 0x1a && g[1] == 0xE4
            &&& j < name.len() ==> g[2 + j] == name[j]
            &&& j >= name.len() ==> g[2 + j] == 102
            &&& g[38] == 0x1a && g[39] == 87 && g[40] == 79
            &&& g.skip(41) == greeting(None)
        }),
{
    lemma_named(u, heartbeats(5), j);
}

/// A chunk is offered to every consumer of its stream, in the order they came, and to no
/// other.
pub proof fn law_chunks_go_to_their_stream(sinks: Seq<Sink>, stream: Stream, id: u64)
    requires
        forall|i: int, j: int| 0 <= i < j < sinks.len() ==> (#[trigger] sinks[i]).id < (#[trigger] sinks[j]).id,
    ensures
        takers(sinks, stream).contains(id) <==> exists|k: int|
            0 <= k < sinks.len() && (#[trigger] sinks[k]).id == id && sinks[k].stream == stream,
        forall|i: int, j: int|
            0 <= i < j < takers(sinks, stream).len() ==> #[trigger] takers(sinks, stream)[i] < #[trigger] takers(
                sinks,
                stream,
            )[j],
    decreases sinks.len(),
{
    let all = takers(sinks, stream);
    if sinks.len() > 0 {
        let (first, last) = (sinks.drop_last(), sinks.last());
        let rest = takers(first, stream);
        law_chunks_go_to_their_stream(first, stream, id);
        assert(sinks[sinks.len() - 1] == last);
        if rest.contains(id) {
            let k = rest.index_of(id);
            assert(all[k] == id);
            let i = choose|i: int| 0 <= i < first.len() && (#[trigger] first[i]).id == id && first[i].stream == stream;
            assert(sinks[i] == first[i]);
        }
        if all.contains(id) {
            let k = all.index_of(id);
            if k < rest.len() {
                assert(rest[k] == id);
            }
        }
        if last.stream == stream {
            assert(all[rest.len() as int] == last.id);
        }
        assert forall|k: int| 0 <= k < sinks.len() && (#[trigger] sinks[k]).id == id && sinks[k].stream
            == stream implies all.contains(id) by {
            if k < first.len() {
                assert(first[k] == sinks[k]);
            }
        }
        assert forall|i: int, j: int| 0 <= i < j < all.len() implies #[trigger] all[i] < #[trigger] all[j] by {
            assert(all[i] == rest[i]);
            if j < rest.len() {
                assert(all[j] == rest[j]);
            } else {
                law_chunks_go_to_their_stream(first, stream, rest[i]);
                assert(rest.contains(rest[i]));
                let x = choose|x: int|
                    0 <= x < first.len() && (#[trigger] first[x]).id == rest[i] && first[x].stream == stream;
                assert(sinks[x].id < sinks[sinks.len() - 1].id);
            }
        }
    }
}

/// What is waited after an attempt, and what after the next.
pub open spec fn waits(wait: u64, connected: bool) -> (u64, u64) {
    let now = if connected { 1 } else { wait };
    (now, if 2 * now < 60 { (2 * now) as u64 } else { 60 })
}

/// The wait before the `n`th attempt in a row that fails, counted from none.
pub open spec fn nth_wait(n: nat) -> u64
    decreases n,
{
    if n == 0 {
        1
    } else {
        waits(nth_wait((n - 1) as nat), false).1
    }
}

/// Waits start at one second, double at each failure and stay at a minute from the seventh
/// on; reaching the host starts them again.
pub proof fn law_waits_double_up_to_a_minute(n: nat, wait: u64)
    ensures
        nth_wait(0) == 1,
        n < 5 ==> nth_wait(n + 1) == 2 * nth_wait(n),
        n >= 6 ==> nth_wait(n) == 60,
        nth_wait(n) <= 60,
        waits(nth_wait(n), false).0 == nth_wait(n),
        waits(wait, true) == (1u64, 2u64),
    decreases n,
{
    reveal_with_fuel(nth_wait, 7);
    if n > 6 {
        law_waits_double_up_to_a_minute((n - 1) as nat, wait);
    }
}

} // verus!
