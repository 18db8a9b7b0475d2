//! What goes out for each frame: the full stream takes every frame, the reduced
//! one those that its reducer lets pass.

use crate::beast::{encode, message};
use crate::beast_in::{InFrame, InView, fed, law_message_is_read_back, law_stream_is_read_back, wire};
use crate::demod::{Frame, FrameView};
use crate::reduce::{Memory, Reducer, after, is_readable, leaves_room, passes};
use vstd::prelude::*;

verus! {

/// The signal byte of a level scaled by 6336: the level in raw magnitude units
/// (0..181) stretched by 1.4 to 0..255.
pub open spec fn signal_of(level: u32) -> u8 {
    (if 7 * level / 31_680 < 255 { 7 * level / 31_680 } else { 255 }) as u8
}

/// The signal byte of a frame's level.
pub fn signal_byte(level: u32) -> (b: u8)
    ensures
        b == signal_of(level),
{
    let v: u64 = 7 * (level as u64) / 31_680;
    if v < 255 { v as u8 } else { 255 }
}

/// The full stream once the frame `f` went out on it.
pub open spec fn sent_on(full: Seq<u8>, f: FrameView) -> Seq<u8> {
    full + message(f.bytes, f.start, signal_of(f.signal))
}

/// The reduced stream once the frame `f` was offered to it.
pub open spec fn offered_on(reduced: Seq<u8>, s: Memory, f: FrameView, now_ms: u64) -> Seq<u8> {
    if passes(s, f.bytes, now_ms) {
        reduced + message(f.bytes, f.start, signal_of(f.signal))
    } else {
        reduced
    }
}

/// The full stream once the received frame `f` went out on it.
pub open spec fn relayed_on(full: Seq<u8>, f: InView) -> Seq<u8> {
    full + message(f.bytes, f.ts, f.signal)
}

/// Encode a frame for the full stream, and for the reduced one if it is due
/// there. Its timestamp is its start, five ticks of 12 MHz to the sample.
pub fn emit(f: &Frame, reducer: &mut Reducer, now_ms: u64, full: &mut Vec<u8>, reduced: &mut Vec<u8>)
    requires
        f.bytes@.len() <= 14,
        is_readable(f.bytes@),
        leaves_room(old(reducer)@, f.bytes@, now_ms),
    ensures
        final(full)@ == sent_on(old(full)@, f@),
        final(reduced)@ == offered_on(old(reduced)@, old(reducer)@, f@, now_ms),
        final(full)@ == old(full)@ + message(f.bytes@, f.start, signal_of(f.signal)),
        final(reduced)@ == if passes(old(reducer)@, f.bytes@, now_ms) {
            old(reduced)@ + message(f.bytes@, f.start, signal_of(f.signal))
        } else {
            old(reduced)@
        },
        final(reducer)@ == after(old(reducer)@, f.bytes@, now_ms),
{
    let signal: u8 = signal_byte(f.signal);
    encode(f.bytes.as_slice(), f.start, signal, full);
    if reducer.forward(f.bytes.as_slice(), now_ms) {
        encode(f.bytes.as_slice(), f.start, signal, reduced);
    }
}

/// Encode a frame received over the network for the full stream; it never goes
/// on the reduced one.
pub fn relay(f: &InFrame, full: &mut Vec<u8>)
    requires
        f.bytes@.len() <= 14,
    ensures
        final(full)@ == relayed_on(old(full)@, f@),
        final(full)@ == old(full)@ + message(f.bytes@, f.ts, f.signal),
{
    encode(f.bytes.as_slice(), f.ts, f.signal, full);
}

/// The signal byte is the level in raw magnitude units times 1.4, the fraction dropped,
/// and 255 where that is more. A stronger frame never has a weaker byte.
pub proof fn law_signal_byte_is_the_level(level: u32, stronger: u32)
    requires
        level <= stronger,
    ensures
        signal_of(level) < 255 ==> 5 * 6336 * signal_of(level) <= 7 * level < 5 * 6336 * (signal_of(level) + 1),
        signal_of(level) == 255 <==> 7 * level >= 5 * 6336 * 255,
        signal_of(level) <= signal_of(stronger),
{
    let (a, b) = (7 * level / 31_680, 7 * stronger / 31_680);
    assert(31_680 * a <= 7 * level < 31_680 * (a + 1));
    assert(31_680 * b <= 7 * stronger < 31_680 * (b + 1));
}

proof fn lemma_fed_after(frames: Seq<InView>, rest: Seq<u8>)
    requires
        forall|k: int|
            0 <= k < frames.len() ==> ((#[trigger] frames[k]).bytes.len() == 7 || frames[k].bytes.len() == 14)
                && frames[k].ts < 0x1_0000_0000_0000,
    ensures
        fed(wire(frames) + rest).0 == frames + fed(rest).0,
        fed(wire(frames) + rest).1 == fed(rest).1,
    decreases frames.len(),
{
    if frames.len() == 0 {
        assert(wire(frames) + rest =~= rest);
        assert(frames + fed(rest).0 =~= fed(rest).0);
    } else {
        let next = frames.drop_first();
        assert forall|k: int| 0 <= k < next.len() implies ((#[trigger] next[k]).bytes.len() == 7
            || next[k].bytes.len() == 14) && next[k].ts < 0x1_0000_0000_0000 by {
            assert(next[k] == frames[k + 1]);
        }
        lemma_fed_after(next, rest);
        law_message_is_read_back(frames[0].bytes, frames[0].ts, frames[0].signal, wire(next) + rest);
        let first = message(frames[0].bytes, frames[0].ts, frames[0].signal);
        assert(first + wire(next) + rest =~= first + (wire(next) + rest));
        assert(seq![frames[0]] + (next + fed(rest).0) =~= frames + fed(rest).0);
    }
}

/// Who reads the full stream gets what was on it and then the frame that went out: its
/// bytes, the level as its signal, and its start as the time, in 48 bits. A received frame
/// comes as it was received. The reduced stream has the same of a frame that passes, and
/// nothing of one that does not.
pub proof fn law_streams_are_read_back(
    frames: Seq<InView>,
    f: FrameView,
    v: InView,
    s: Memory,
    now_ms: u64,
)
    requires
        forall|k: int|
            0 <= k < frames.len() ==> ((#[trigger] frames[k]).bytes.len() == 7 || frames[k].bytes.len() == 14)
                && frames[k].ts < 0x1_0000_0000_0000,
        f.bytes.len() == 7 || f.bytes.len() == 14,
        v.bytes.len() == 7 || v.bytes.len() == 14,
        v.ts < 0x1_0000_0000_0000,
        f.start < 0x1_0000_0000_0000,
    ensures
        ({
            let one = InView { ts: f.start, signal: signal_of(f.signal), bytes: f.bytes };
            let w = wire(frames);
            &&& fed(sent_on(w, f)).0 == frames.push(one)
            &&& fed(relayed_on(w, v)).0 == frames.push(v)
            &&& passes(s, f.bytes, now_ms) ==> fed(offered_on(w, s, f, now_ms)).0 == frames.push(one)
            &&& !passes(s, f.bytes, now_ms) ==> fed(offered_on(w, s, f, now_ms)).0 == frames
        }),
{
    let none = Seq::<u8>::empty();
    let one = InView { ts: f.start, signal: signal_of(f.signal), bytes: f.bytes };
    let (a, b) = (message(f.bytes, f.start, signal_of(f.signal)), message(v.bytes, v.ts, v.signal));
    law_message_is_read_back(f.bytes, f.start, signal_of(f.signal), none);
    law_message_is_read_back(v.bytes, v.ts, v.signal, none);
    law_stream_is_read_back(Seq::empty());
    assert(wire(Seq::empty()) =~= none);
    assert(a + none =~= a && b + none =~= b);
    lemma_fed_after(frames, a);
    lemma_fed_after(frames, b);
    lemma_fed_after(frames, none);
    assert(wire(frames) + none =~= wire(frames));
    assert(frames + (seq![one] + fed(none).0) =~= frames.push(one));
    assert(frames + (seq![v] + fed(none).0) =~= frames.push(v));
    assert(frames + fed(none).0 =~= frames);
}

} // verus!
