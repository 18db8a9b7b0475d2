//! Beast input: frames arriving over the network. The station's multilateration
//! client sends its results here, pairs of frames carrying a timestamp of
//! their own.
//!
//! Framing: 0x1a, type (0x31 Mode A/C, 0x32 short, 0x33 long, 0x34 config),
//! 6-byte big-endian timestamp, signal byte, payload; every 0x1a inside the
//! body is doubled. Anything else after a 0x1a is skipped by resyncing on the
//! next 0x1a. Mode A/C messages (which is what heartbeats are) are consumed and
//! dropped.

use crate::beast::{ESCAPE, HEARTBEAT, body_of, escaped, kind_of, message, stamp};
use vstd::prelude::*;
use vstd::slice::slice_subrange;

verus! {

/// The timestamp that multilateration puts on its result frames.
pub const MLAT_MAGIC: u64 = 0xFF00_4D4C_4154;

/// One frame received on Beast input.
#[derive(Debug, Clone, PartialEq, Eq)]
pub struct InFrame {
    pub ts: u64,
    pub signal: u8,
    pub bytes: Vec<u8>,
}

/// A received frame as a value.
pub struct InView {
    pub ts: u64,
    pub signal: u8,
    pub bytes: Seq<u8>,
}

impl View for InFrame {
    type V = InView;

    open spec fn view(&self) -> InView {
        InView { ts: self.ts, signal: self.signal, bytes: self.bytes@ }
    }
}

impl InFrame {
    pub fn is_mlat(&self) -> (yes: bool)
        ensures
            yes == (self.ts == MLAT_MAGIC),
    {
        self.ts == MLAT_MAGIC
    }
}

/// Received frames as values.
pub open spec fn received(out: Seq<InFrame>) -> Seq<InView> {
    Seq::new(out.len(), |k: int| out[k]@)
}

/// How a body reads.
pub enum Body {
    /// All of it is there: what it holds, and where it ends.
    Whole(Seq<u8>, int),
    /// More bytes are needed to tell.
    Short,
    /// Another message begins inside it.
    Cut(int),
}

/// `n` bytes of a body, from `i` on, with doubled escapes taken once.
pub open spec fn body_at(b: Seq<u8>, i: int, n: nat) -> Body
    decreases n,
{
    if n == 0 {
        Body::Whole(Seq::empty(), i)
    } else {
        match body_at(b, i, (n - 1) as nat) {
            Body::Whole(got, j) => if j >= b.len() {
                Body::Short
            } else if b[j] != ESCAPE {
                Body::Whole(got.push(b[j]), j + 1)
            } else if j + 1 >= b.len() {
                Body::Short
            } else if b[j + 1] == ESCAPE {
                Body::Whole(got.push(ESCAPE), j + 2)
            } else {
                Body::Cut(j)
            },
            other => other,
        }
    }
}

/// The payload of a message of type `t`, and whether its frame is kept.
pub open spec fn payload_of(t: u8) -> Option<(nat, bool)> {
    if t == 0x31 {
        Some((2nat, false))
    } else if t == 0x32 {
        Some((7nat, true))
    } else if t == 0x33 {
        Some((14nat, true))
    } else if t == 0x34 {
        Some((7nat, false))
    } else {
        None
    }
}

/// Six bytes as a timestamp.
pub open spec fn ticks_of(body: Seq<u8>) -> u64 {
    (((((body[0] * 256 + body[1]) * 256 + body[2]) * 256 + body[3]) * 256 + body[4]) * 256 + body[5]) as u64
}

/// The frame that a body holds.
pub open spec fn frame_of(body: Seq<u8>) -> InView {
    InView { ts: ticks_of(body), signal: body[6], bytes: body.skip(7) }
}

/// One message from the front of `b`: the bytes it takes, and the frame if it
/// holds one. None when more bytes are needed.
pub open spec fn parsed(b: Seq<u8>) -> Option<(int, Option<InView>)> {
    match b.index_of_first(ESCAPE) {
        None => None,
        Some(start) => if start > 0 {
            // What comes before an escape is skipped.
            Some((start, None))
        } else if b.len() < 2 {
            None
        } else {
            match payload_of(b[1]) {
                // An unknown type: skip the escape, and resync on the next.
                None => Some((1, None)),
                Some((n, keep)) => match body_at(b, 2, 7 + n) {
                    Body::Short => None,
                    Body::Cut(i) => Some((i, None)),
                    Body::Whole(body, i) => Some((i, if keep { Some(frame_of(body)) } else { None })),
                },
            }
        },
    }
}

proof fn lemma_body_at(b: Seq<u8>, i: int, n: nat)
    ensures
        match body_at(b, i, n) {
            Body::Whole(got, j) => got.len() == n && i + n <= j <= i + 2 * n && (n > 0 ==> j <= b.len()),
            Body::Short => true,
            Body::Cut(j) => i <= j && j + 1 < b.len() && b[j] == ESCAPE && b[j + 1] != ESCAPE,
        },
    decreases n,
{
    if n > 0 {
        lemma_body_at(b, i, (n - 1) as nat);
    }
}

/// A message takes at least one byte, and no more than there are.
pub proof fn lemma_parsed(b: Seq<u8>)
    ensures
        parsed(b) matches Some((used, f)) ==> 0 < used <= b.len(),
{
    b.index_of_first_ensures(ESCAPE);
    if b.len() >= 2 {
        if let Some((n, keep)) = payload_of(b[1]) {
            lemma_body_at(b, 2, 7 + n);
        }
    }
}

/// What comes of the bytes `b`: the frames, and the bytes left over.
pub open spec fn fed(b: Seq<u8>) -> (Seq<InView>, Seq<u8>)
    decreases b.len(),
    via fed_decreases
{
    match parsed(b) {
        None => (Seq::empty(), b),
        Some((used, f)) => {
            let (frames, rest) = fed(b.skip(used));
            match f {
                Some(f) => (seq![f] + frames, rest),
                None => (frames, rest),
            }
        },
    }
}

#[via_fn]
proof fn fed_decreases(b: Seq<u8>) {
    lemma_parsed(b);
}

/// The index of the first escape of `b`.
fn first_escape(b: &[u8]) -> (i: Option<usize>)
    ensures
        match i {
            Some(i) => b@.index_of_first(ESCAPE) == Some(i as int),
            None => b@.index_of_first(ESCAPE) is None,
        },
{
    proof {
        b@.index_of_first_ensures(ESCAPE);
    }
    for i in 0..b.len()
        invariant
            forall|j: int| 0 <= j < i ==> b@[j] != ESCAPE,
            match b@.index_of_first(ESCAPE) {
                Some(k) => 0 <= k < b@.len() && b@[k] == ESCAPE && forall|j: int|
                    0 <= j < k ==> b@[j] != ESCAPE,
                None => !b@.contains(ESCAPE),
            },
    {
        if b[i] == ESCAPE {
            return Some(i);
        }
    }
    None
}

/// One message from the front of `b`: the bytes it takes, and the frame if it
/// holds one. None when the buffer holds an incomplete message.
pub fn parse_one(b: &[u8]) -> (r: Option<(usize, Option<InFrame>)>)
    ensures
        match r {
            None => parsed(b@) is None,
            Some((used, None)) => parsed(b@) == Some((used as int, None::<InView>)),
            Some((used, Some(f))) => parsed(b@) == Some((used as int, Some(f@))),
        },
{
    let start: usize = match first_escape(b) {
        Some(i) => i,
        None => return None,
    };
    if start > 0 {
        return Some((start, None));
    }
    let len: usize = b.len();
    if len < 2 {
        return None;
    }
    let t: u8 = b[1];
    let (n, keep): (usize, bool) = if t == 0x31 {
        (2, false)
    } else if t == 0x32 {
        (7, true)
    } else if t == 0x33 {
        (14, true)
    } else if t == 0x34 {
        (7, false)
    } else {
        return Some((1, None));
    };
    let mut body: Vec<u8> = Vec::with_capacity(7 + n);
    let mut i: usize = 2;
    assert(body@ =~= Seq::<u8>::empty());
    while body.len() < 7 + n
        invariant
            len == b@.len(),
            2 <= len,
            n <= 14,
            b@.index_of_first(ESCAPE) == Some(0int),
            payload_of(b@[1]) == Some((n as nat, keep)),
            body@.len() <= 7 + n,
            2 <= i <= 2 + 2 * body@.len(),
            i <= len,
            body_at(b@, 2, body@.len()) == Body::Whole(body@, i as int),
        decreases 7 + n - body@.len(),
    {
        let ghost k = body@.len();
        if i >= len {
            proof {
                lemma_body_stops(b@, 2, k + 1, (7 + n) as nat);
            }
            return None;
        }
        let x: u8 = b[i];
        if x == ESCAPE {
            if i + 1 >= len {
                proof {
                    lemma_body_stops(b@, 2, k + 1, (7 + n) as nat);
                }
                return None;
            }
            if b[i + 1] != ESCAPE {
                proof {
                    lemma_body_stops(b@, 2, k + 1, (7 + n) as nat);
                }
                return Some((i, None));
            }
            i += 1;
        }
        body.push(x);
        i += 1;
    }
    if !keep {
        return Some((i, None));
    }
    let mut ts: u64 = 0;
    ts = 256 * ts + body[0] as u64;
    ts = 256 * ts + body[1] as u64;
    ts = 256 * ts + body[2] as u64;
    ts = 256 * ts + body[3] as u64;
    ts = 256 * ts + body[4] as u64;
    ts = 256 * ts + body[5] as u64;
    let mut bytes: Vec<u8> = Vec::with_capacity(n);
    for k in 7..body.len()
        invariant
            body@.len() == 7 + n,
            bytes@ == body@.subrange(7, k as int),
    {
        bytes.push(body[k]);
        assert(bytes@ =~= body@.subrange(7, k + 1));
    }
    assert(body@.subrange(7, body@.len() as int) =~= body@.skip(7));
    Some((i, Some(InFrame { ts, signal: body[6], bytes })))
}

/// A body that ends early ends there however much of it is asked for.
proof fn lemma_body_stops(b: Seq<u8>, i: int, k: nat, n: nat)
    requires
        k <= n,
        !(body_at(b, i, k) is Whole),
    ensures
        body_at(b, i, n) == body_at(b, i, k),
    decreases n,
{
    if k < n {
        lemma_body_stops(b, i, k, (n - 1) as nat);
    }
}

/// Streaming parser: feed bytes, collect frames. Bytes of an incomplete message
/// are kept until the next feed.
pub struct Parser {
    buf: Vec<u8>,
}

impl View for Parser {
    type V = Seq<u8>;

    closed spec fn view(&self) -> Seq<u8> {
        self.buf@
    }
}

impl Default for Parser {
    fn default() -> (p: Self)
        ensures
            p@ == Seq::<u8>::empty(),
    {
        Parser { buf: Vec::new() }
    }
}

impl Parser {
    pub fn new() -> (p: Self)
        ensures
            p@ == Seq::<u8>::empty(),
    {
        Parser { buf: Vec::new() }
    }

    pub fn feed(&mut self, data: &[u8], out: &mut Vec<InFrame>)
        ensures
            received(final(out)@) == received(old(out)@) + fed(old(self)@ + data@).0,
            final(self)@ == fed(old(self)@ + data@).1,
    {
        self.buf.extend_from_slice(data);
        let ghost all = self.buf@;
        assert(all =~= old(self)@ + data@);
        let len: usize = self.buf.len();
        let mut pos: usize = 0;
        let ghost out0 = received(out@);
        assert(all.skip(0) =~= all);
        assert(received(out@) + fed(all.skip(0)).0 =~= out0 + fed(all).0);
        loop
            invariant
                all == self.buf@,
                len == all.len(),
                pos <= len,
                received(out@) + fed(all.skip(pos as int)).0 == out0 + fed(all).0,
                fed(all.skip(pos as int)).1 == fed(all).1,
            ensures
                all == self.buf@,
                pos <= len,
                received(out@) == out0 + fed(all).0,
                all.skip(pos as int) == fed(all).1,
            decreases len - pos,
        {
            let rest: &[u8] = slice_subrange(self.buf.as_slice(), pos, len);
            assert(rest@ =~= all.skip(pos as int));
            proof {
                lemma_parsed(rest@);
            }
            match parse_one(rest) {
                None => {
                    assert(received(out@) + fed(all.skip(pos as int)).0 =~= received(out@));
                    break;
                },
                Some((used, frame)) => {
                    let ghost before = received(out@);
                    let ghost tail = fed(all.skip(pos as int)).0;
                    assert(all.skip(pos as int).skip(used as int) =~= all.skip(pos + used));
                    pos = pos + used;
                    if let Some(f) = frame {
                        out.push(f);
                        assert(received(out@) =~= before.push(f@));
                    }
                    assert(received(out@) + fed(all.skip(pos as int)).0 =~= before + tail);
                },
            }
        }
        let mut left: Vec<u8> = Vec::with_capacity(len - pos);
        for k in pos..len
            invariant
                all == self.buf@,
                len == all.len(),
                pos <= len,
                left@ == all.subrange(pos as int, k as int),
        {
            left.push(self.buf[k]);
            assert(left@ =~= all.subrange(pos as int, k + 1));
        }
        assert(all.subrange(pos as int, len as int) =~= all.skip(pos as int));
        self.buf = left;
    }
}

proof fn lemma_body_extends(a: Seq<u8>, b: Seq<u8>, i: int, n: nat)
    requires
        0 <= i,
        !(body_at(a, i, n) is Short),
    ensures
        body_at(a + b, i, n) == body_at(a, i, n),
    decreases n,
{
    if n > 0 {
        lemma_body_extends(a, b, i, (n - 1) as nat);
        lemma_body_at(a, i, (n - 1) as nat);
    }
}

proof fn lemma_first_escape(b: Seq<u8>, i: int)
    requires
        0 <= i < b.len(),
        b[i] == ESCAPE,
        forall|j: int| 0 <= j < i ==> b[j] != ESCAPE,
    ensures
        b.index_of_first(ESCAPE) == Some(i),
{
    b.index_of_first_ensures(ESCAPE);
    assert(b.contains(ESCAPE));
}

/// A message reads the same whatever comes after it.
pub proof fn law_more_bytes_change_nothing(a: Seq<u8>, b: Seq<u8>)
    requires
        parsed(a) is Some,
    ensures
        parsed(a + b) == parsed(a),
{
    a.index_of_first_ensures(ESCAPE);
    let start = a.index_of_first(ESCAPE)->0;
    lemma_first_escape(a + b, start);
    if start == 0 {
        if let Some((n, keep)) = payload_of(a[1]) {
            lemma_body_extends(a, b, 2, 7 + n);
        }
    }
}

/// One message off the wire takes at least one byte and no more than there are. A
/// frame comes of a message that begins with an escape and a type that carries one;
/// it has the length of that type, and its timestamp has 48 bits. Other types yield
/// none.
pub proof fn law_message_is_of_its_type(b: Seq<u8>)
    ensures
        parsed(b) matches Some((used, f)) ==> {
            &&& 1 <= used <= b.len()
            &&& f matches Some(x) ==> {
                &&& b[0] == ESCAPE
                &&& b[1] == 0x32 && x.bytes.len() == 7 || b[1] == 0x33 && x.bytes.len() == 14
                &&& x.ts < 0x1_0000_0000_0000
            }
        },
{
    lemma_parsed(b);
    b.index_of_first_ensures(ESCAPE);
    if b.len() >= 2 {
        if let Some((n, keep)) = payload_of(b[1]) {
            lemma_body_at(b, 2, 7 + n);
        }
    }
}

/// It does not matter how a stream is cut into chunks: feeding `a` and then `b`
/// gives the frames, and leaves the bytes, of feeding both at once.
pub proof fn law_chunks_do_not_matter(a: Seq<u8>, b: Seq<u8>)
    ensures
        fed(a + b).0 == fed(a).0 + fed(fed(a).1 + b).0,
        fed(a + b).1 == fed(fed(a).1 + b).1,
    decreases a.len(),
{
    match parsed(a) {
        None => {
            assert(fed(a).0 + fed(fed(a).1 + b).0 =~= fed(a + b).0);
        },
        Some((used, f)) => {
            lemma_parsed(a);
            law_more_bytes_change_nothing(a, b);
            assert((a + b).skip(used) =~= a.skip(used) + b);
            law_chunks_do_not_matter(a.skip(used), b);
            assert(fed(a).0 + fed(fed(a).1 + b).0 =~= fed(a + b).0);
        },
    }
}

/// An escaped body reads as what it was.
proof fn lemma_escaped_reads(pre: Seq<u8>, body: Seq<u8>, rest: Seq<u8>)
    ensures
        body_at(pre + escaped(body) + rest, pre.len() as int, body.len()) == Body::Whole(
            body,
            (pre + escaped(body)).len() as int,
        ),
    decreases body.len(),
{
    if body.len() > 0 {
        let first = body.drop_last();
        let x = body.last();
        let one = if x == ESCAPE {
            seq![ESCAPE, ESCAPE]
        } else {
            seq![x]
        };
        lemma_escaped_reads(pre, first, one + rest);
        let all = pre + escaped(body) + rest;
        assert(escaped(body) == escaped(first) + one);
        assert(all =~= pre + escaped(first) + (one + rest));
        assert(body =~= first.push(x));
        let j = (pre + escaped(first)).len() as int;
        assert(all[j] == x);
        assert(x == ESCAPE ==> all[j + 1] == ESCAPE);
    } else {
        assert(escaped(body) =~= Seq::<u8>::empty());
        assert(body =~= Seq::<u8>::empty());
    }
}

proof fn lemma_stamp(ticks: u64)
    ensures
        ticks_of(stamp(ticks)) == ticks as int % 0x1_0000_0000_0000,
{
    let q1 = ticks as int / 256;
    let q2 = q1 / 256;
    let q3 = q2 / 256;
    let q4 = q3 / 256;
    let q5 = q4 / 256;
    let q6 = q5 / 256;
    let low = ((((q5 % 256 * 256 + q4 % 256) * 256 + q3 % 256) * 256 + q2 % 256) * 256 + q1 % 256) * 256
        + ticks as int % 256;
    assert(ticks == q6 * 0x1_0000_0000_0000 + low);
    assert(0 <= low < 0x1_0000_0000_0000);
    assert(ticks as int % 0x1_0000_0000_0000 == low);
}

proof fn lemma_body_read(frame: Seq<u8>, ticks: u64, signal: u8)
    ensures
        frame_of(body_of(frame, ticks, signal)) == (InView {
            ts: (ticks as int % 0x1_0000_0000_0000) as u64,
            signal,
            bytes: frame,
        }),
{
    let body = body_of(frame, ticks, signal);
    lemma_stamp(ticks);
    assert(body[0] == stamp(ticks)[0]);
    assert(body[1] == stamp(ticks)[1]);
    assert(body[2] == stamp(ticks)[2]);
    assert(body[3] == stamp(ticks)[3]);
    assert(body[4] == stamp(ticks)[4]);
    assert(body[5] == stamp(ticks)[5]);
    assert(body[6] == signal);
    assert(body.skip(7) =~= frame);
}

/// A frame that was encoded is read back: its bytes, its signal, and the low 48
/// bits of its timestamp; and the stream goes on after it.
pub proof fn law_message_is_read_back(frame: Seq<u8>, ticks: u64, signal: u8, rest: Seq<u8>)
    requires
        frame.len() == 7 || frame.len() == 14,
    ensures
        fed(message(frame, ticks, signal) + rest).0 == seq![
            InView { ts: (ticks as int % 0x1_0000_0000_0000) as u64, signal, bytes: frame },
        ] + fed(rest).0,
        fed(message(frame, ticks, signal) + rest).1 == fed(rest).1,
{
    let pre = seq![ESCAPE, kind_of(frame.len())];
    let body = body_of(frame, ticks, signal);
    let msg = message(frame, ticks, signal);
    let all = msg + rest;
    lemma_first_escape(all, 0);
    lemma_escaped_reads(pre, body, rest);
    lemma_body_read(frame, ticks, signal);
    assert(body.len() == 7 + frame.len());
    assert(all[1] == kind_of(frame.len()));
    assert(parsed(all) == Some((msg.len() as int, Some(frame_of(body)))));
    assert(all.skip(msg.len() as int) =~= rest);
}

/// The messages of `frames`, one after another.
pub open spec fn wire(frames: Seq<InView>) -> Seq<u8>
    decreases frames.len(),
{
    if frames.len() == 0 {
        Seq::empty()
    } else {
        message(frames[0].bytes, frames[0].ts, frames[0].signal) + wire(frames.drop_first())
    }
}

/// Whatever frames are encoded one after another, the same are read back, and
/// nothing is left over.
pub proof fn law_stream_is_read_back(frames: Seq<InView>)
    requires
        forall|k: int|
            0 <= k < frames.len() ==> ((#[trigger] frames[k]).bytes.len() == 7 || frames[k].bytes.len() == 14)
                && frames[k].ts < 0x1_0000_0000_0000,
    ensures
        fed(wire(frames)).0 == frames,
        fed(wire(frames)).1 == Seq::<u8>::empty(),
    decreases frames.len(),
{
    if frames.len() == 0 {
        let none = Seq::<u8>::empty();
        none.index_of_first_ensures(ESCAPE);
        assert(fed(none).0 =~= frames);
    } else {
        let rest = frames.drop_first();
        assert forall|k: int| 0 <= k < rest.len() implies ((#[trigger] rest[k]).bytes.len() == 7
            || rest[k].bytes.len() == 14) && rest[k].ts < 0x1_0000_0000_0000 by {
            assert(rest[k] == frames[k + 1]);
        }
        law_stream_is_read_back(rest);
        law_message_is_read_back(frames[0].bytes, frames[0].ts, frames[0].signal, wire(rest));
        assert(fed(wire(frames)).0 =~= frames);
    }
}

/// Bytes before a message are skipped.
pub proof fn law_garbage_is_skipped(garbage: Seq<u8>, next: Seq<u8>)
    requires
        !garbage.contains(ESCAPE),
        next.len() > 0,
        next[0] == ESCAPE,
    ensures
        fed(garbage + next) == fed(next),
{
    let all = garbage + next;
    if garbage.len() > 0 {
        assert forall|j: int| 0 <= j < garbage.len() implies all[j] != ESCAPE by {
            assert(garbage.contains(garbage[j]));
        }
        assert(all[garbage.len() as int] == next[0]);
        lemma_first_escape(all, garbage.len() as int);
        assert(all.skip(garbage.len() as int) =~= next);
    } else {
        assert(all =~= next);
    }
}

/// A message of unknown type is skipped up to the next escape.
pub proof fn law_unknown_message_is_skipped(t: u8, inside: Seq<u8>, next: Seq<u8>)
    requires
        payload_of(t) is None,
        t != ESCAPE,
        !inside.contains(ESCAPE),
        next.len() > 0,
        next[0] == ESCAPE,
    ensures
        fed(seq![ESCAPE, t] + inside + next) == fed(next),
{
    let all = seq![ESCAPE, t] + inside + next;
    let rest = seq![t] + inside;
    lemma_first_escape(all, 0);
    assert(all.skip(1) =~= rest + next);
    assert(!rest.contains(ESCAPE)) by {
        if rest.contains(ESCAPE) {
            let j = rest.index_of(ESCAPE);
            assert(j > 0 && inside[j - 1] == ESCAPE);
        }
    }
    law_garbage_is_skipped(rest, next);
}

/// A message cut short between two bytes of its body is skipped where the next
/// message begins.
pub proof fn law_cut_message_is_skipped(frame: Seq<u8>, ticks: u64, signal: u8, k: int, next: Seq<u8>)
    requires
        frame.len() == 7 || frame.len() == 14,
        0 <= k < 7 + frame.len(),
        next.len() >= 2,
        next[0] == ESCAPE,
        next[1] != ESCAPE,
    ensures
        fed(seq![ESCAPE, kind_of(frame.len())] + escaped(body_of(frame, ticks, signal).take(k)) + next)
            == fed(next),
{
    let pre = seq![ESCAPE, kind_of(frame.len())];
    let part = body_of(frame, ticks, signal).take(k);
    let cut = pre + escaped(part);
    let all = cut + next;
    lemma_first_escape(all, 0);
    lemma_escaped_reads(pre, part, next);
    assert(all[cut.len() as int] == next[0]);
    assert(all[cut.len() as int + 1] == next[1]);
    assert(body_at(all, 2, (k + 1) as nat) == Body::Cut(cut.len() as int));
    lemma_body_stops(all, 2, (k + 1) as nat, 7 + frame.len());
    assert(all.skip(cut.len() as int) =~= next);
}

/// A Mode A/C or configuration message is consumed and gives no frame.
pub proof fn law_unkept_message_is_dropped(t: u8, body: Seq<u8>, rest: Seq<u8>)
    requires
        payload_of(t) matches Some((n, keep)) && !keep && body.len() == 7 + n,
    ensures
        fed(seq![ESCAPE, t] + escaped(body) + rest) == fed(rest),
{
    let pre = seq![ESCAPE, t];
    let msg = pre + escaped(body);
    let all = msg + rest;
    lemma_escaped_reads(pre, body, rest);
    lemma_first_escape(all, 0);
    assert(all[1] == t);
    assert(all.skip(msg.len() as int) =~= rest);
}

/// A heartbeat is consumed and gives no frame.
pub proof fn law_heartbeat_is_dropped(rest: Seq<u8>)
    ensures
        fed(HEARTBEAT@ + rest) == fed(rest),
{
    let zeros = seq![0u8, 0, 0, 0, 0, 0, 0, 0, 0];
    reveal_with_fuel(escaped, 10);
    assert(escaped(zeros) =~= zeros);
    assert(HEARTBEAT@ =~= seq![ESCAPE, 0x31u8] + zeros);
    law_unkept_message_is_dropped(0x31, zeros, rest);
}

/// Every frame received is a short or a long one.
pub proof fn law_received_frames_are_whole(b: Seq<u8>)
    ensures
        forall|k: int|
            0 <= k < fed(b).0.len() ==> (#[trigger] fed(b).0[k]).bytes.len() == 7 || fed(b).0[k].bytes.len()
                == 14,
    decreases b.len(),
{
    match parsed(b) {
        None => {},
        Some((used, f)) => {
            lemma_parsed(b);
            let rest = fed(b.skip(used)).0;
            law_received_frames_are_whole(b.skip(used));
            if let Some(g) = f {
                let (n, keep) = payload_of(b[1])->0;
                lemma_body_at(b, 2, 7 + n);
                assert(fed(b).0 == seq![g] + rest);
                assert forall|k: int| 0 <= k < fed(b).0.len() implies (#[trigger] fed(b).0[k]).bytes.len()
                    == 7 || fed(b).0[k].bytes.len() == 14 by {
                    if k > 0 {
                        assert(fed(b).0[k] == rest[k - 1]);
                    }
                }
            } else {
                assert(fed(b).0 == rest);
            }
        },
    }
}

/// The timestamp that marks a multilateration result reads "MLAT" in its last four bytes,
/// after 0xFF and 0.
pub proof fn law_mlat_mark_spells_its_name()
    ensures
        stamp(MLAT_MAGIC) == seq![0xFFu8, 0, 77, 76, 65, 84],
{
    assert(stamp(MLAT_MAGIC) =~= seq![0xFFu8, 0, 77, 76, 65, 84]);
}

} // verus!
