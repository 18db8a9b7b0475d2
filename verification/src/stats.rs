//! stats.json for the fields the radio has: totals since start and the last
//! minute, due every 10 s. Levels are sums and counts here; what they come to
//! in dBFS is worked out where they are written.

use crate::text::{
    decimal, lemma_says, lemma_says_on, lemma_says_run, put_decimal, put_signed_decimal, put_tenths,
    says, signed_decimal, tenths,
};
use std::collections::VecDeque;
use vstd::prelude::*;

verus! {

/// Frame levels are scaled by this, raw magnitude units times the 16 of the
/// magnitudes and the 396 of the preamble levels.
pub const LEVEL_SCALE: u32 = 6336;

/// A frame at or above this level, 178 raw units, is strong.
pub const STRONG: u32 = 1_127_808;

/// Seconds in the short window.
pub const MINUTE: usize = 60;

/// Milliseconds between writes.
pub const WRITE_MS: u64 = 10_000;

/// What was counted over some time. The counters wrap.
#[derive(Debug, Clone, Copy)]
pub struct Bucket {
    pub samples: u64,
    pub dropped: u64,
    pub clean: u64,
    pub repaired: u64,
    pub strong: u64,
    /// Sum of frame levels, scaled by `LEVEL_SCALE`, and their count.
    pub signal_sum: u64,
    pub signal_n: u64,
    /// Sum of per-block mean magnitudes, millionths of a raw unit, and their
    /// count.
    pub noise_sum: u64,
    pub noise_n: u64,
}

/// Nothing counted.
pub open spec fn nothing() -> Bucket {
    Bucket {
        samples: 0,
        dropped: 0,
        clean: 0,
        repaired: 0,
        strong: 0,
        signal_sum: 0,
        signal_n: 0,
        noise_sum: 0,
        noise_n: 0,
    }
}

/// Two counts together.
pub open spec fn both(a: Bucket, b: Bucket) -> Bucket {
    Bucket {
        samples: a.samples.wrapping_add(b.samples),
        dropped: a.dropped.wrapping_add(b.dropped),
        clean: a.clean.wrapping_add(b.clean),
        repaired: a.repaired.wrapping_add(b.repaired),
        strong: a.strong.wrapping_add(b.strong),
        signal_sum: a.signal_sum.wrapping_add(b.signal_sum),
        signal_n: a.signal_n.wrapping_add(b.signal_n),
        noise_sum: a.noise_sum.wrapping_add(b.noise_sum),
        noise_n: a.noise_n.wrapping_add(b.noise_n),
    }
}

/// All of `bs` together.
pub open spec fn sum_of(bs: Seq<Bucket>) -> Bucket
    decreases bs.len(),
{
    if bs.len() == 0 {
        nothing()
    } else {
        both(sum_of(bs.drop_last()), bs.last())
    }
}

impl Default for Bucket {
    fn default() -> (b: Self)
        ensures
            b == nothing(),
    {
        Bucket {
            samples: 0,
            dropped: 0,
            clean: 0,
            repaired: 0,
            strong: 0,
            signal_sum: 0,
            signal_n: 0,
            noise_sum: 0,
            noise_n: 0,
        }
    }
}

impl Bucket {
    /// Count what `o` counted too.
    pub fn add(&mut self, o: &Bucket)
        ensures
            *final(self) == both(*old(self), *o),
    {
        self.samples = self.samples.wrapping_add(o.samples);
        self.dropped = self.dropped.wrapping_add(o.dropped);
        self.clean = self.clean.wrapping_add(o.clean);
        self.repaired = self.repaired.wrapping_add(o.repaired);
        self.strong = self.strong.wrapping_add(o.strong);
        self.signal_sum = self.signal_sum.wrapping_add(o.signal_sum);
        self.signal_n = self.signal_n.wrapping_add(o.signal_n);
        self.noise_sum = self.noise_sum.wrapping_add(o.noise_sum);
        self.noise_n = self.noise_n.wrapping_add(o.noise_n);
    }
}

/// The counters as values.
pub struct History {
    pub start: u64,
    pub total: Bucket,
    pub current: Bucket,
    /// One bucket per second, the last 60.
    pub minute: Seq<Bucket>,
    pub last_written: u64,
    /// Tenths of a dB.
    pub gain: Option<i32>,
}

/// The counters after a frame of level `level` with `fixed` repaired bits.
pub open spec fn with_frame(b: Bucket, level: u32, fixed: u8) -> Bucket {
    Bucket {
        clean: if fixed == 0 { b.clean.wrapping_add(1) } else { b.clean },
        repaired: if fixed == 0 { b.repaired } else { b.repaired.wrapping_add(1) },
        strong: if level >= STRONG { b.strong.wrapping_add(1) } else { b.strong },
        signal_sum: b.signal_sum.wrapping_add(level as u64),
        signal_n: b.signal_n.wrapping_add(1),
        ..b
    }
}

/// The last `n` of `s`.
pub open spec fn last_of(s: Seq<Bucket>, n: nat) -> Seq<Bucket> {
    if s.len() > n { s.skip(s.len() - n) } else { s }
}

/// A second has passed: what was counted in it goes to the total and into the
/// minute, and it is noted when the document falls due.
pub open spec fn ticked(h: History, now: u64) -> History {
    History {
        total: both(h.total, h.current),
        current: nothing(),
        minute: last_of(h.minute.push(h.current), MINUTE as nat),
        last_written: if now - h.last_written >= WRITE_MS { now } else { h.last_written },
        ..h
    }
}

/// One section of the document: the counts of `b` between two times in
/// milliseconds, its levels in millionths of dBFS and the gain in tenths of a dB.
pub open spec fn section_of(
    b: Bucket,
    start: int,
    end: int,
    signal: int,
    noise: int,
    gain: Option<i32>,
) -> Seq<char> {
    "{\"start\":"@ + signed_decimal(start, 100) + ",\"end\":"@ + signed_decimal(end, 100)
        + ",\"local\":{\"samples_processed\":"@ + decimal(b.samples as nat)
        + ",\"samples_dropped\":"@ + decimal(b.dropped as nat) + ",\"accepted\":["@ + decimal(
        b.clean as nat,
    ) + ","@ + decimal(b.repaired as nat) + "],\"strong_signals\":"@ + decimal(b.strong as nat)
        + ",\"signal\":"@ + signed_decimal(signal, 100_000) + ",\"noise\":"@ + signed_decimal(noise, 100_000)
        + ",\"gain_db\":"@ + (
    match gain {
        Some(g) => tenths(g as int),
        None => "null"@,
    }) + "},\"messages\":"@ + decimal(b.clean.wrapping_add(b.repaired) as nat) + "}"@
}

/// The whole document.
pub open spec fn document_of(now: int, total: Seq<char>, last: Seq<char>) -> Seq<char> {
    "{\"now\":"@ + signed_decimal(now, 100) + ",\"total\":"@ + total + ",\"last1min\":"@ + last + "}"@
}

/// Rates and totals of the radio.
pub struct Stats {
    start: u64,
    total: Bucket,
    current: Bucket,
    minute: VecDeque<Bucket>,
    last_written: u64,
    gain: Option<i32>,
}

impl View for Stats {
    type V = History;

    closed spec fn view(&self) -> History {
        History {
            start: self.start,
            total: self.total,
            current: self.current,
            minute: self.minute@,
            last_written: self.last_written,
            gain: self.gain,
        }
    }
}

impl Stats {
    /// The minute has at most 60 buckets.
    pub open spec fn wf(&self) -> bool {
        self@.minute.len() <= MINUTE
    }

    /// Start counting at `now` (milliseconds); `gain` in tenths of a dB.
    pub fn new(now: u64, gain: Option<i32>) -> (s: Stats)
        ensures
            s.wf(),
            s@ == (History {
                start: now,
                total: nothing(),
                current: nothing(),
                minute: Seq::empty(),
                last_written: 0,
                gain,
            }),
    {
        Stats {
            start: now,
            total: Bucket::default(),
            current: Bucket::default(),
            minute: VecDeque::new(),
            last_written: 0,
            gain,
        }
    }

    pub fn samples(&mut self, n: u64)
        ensures
            final(self)@ == (History {
                current: Bucket {
                    samples: old(self)@.current.samples.wrapping_add(n),
                    ..old(self)@.current
                },
                ..old(self)@
            }),
    {
        self.current.samples = self.current.samples.wrapping_add(n);
    }

    pub fn dropped(&mut self, n: u64)
        ensures
            final(self)@ == (History {
                current: Bucket {
                    dropped: old(self)@.current.dropped.wrapping_add(n),
                    ..old(self)@.current
                },
                ..old(self)@
            }),
    {
        self.current.dropped = self.current.dropped.wrapping_add(n);
    }

    /// A frame: its level, scaled by `LEVEL_SCALE`, and its repaired bits.
    pub fn frame(&mut self, level: u32, fixed: u8)
        ensures
            final(self)@ == (History {
                current: with_frame(old(self)@.current, level, fixed),
                ..old(self)@
            }),
    {
        if fixed == 0 {
            self.current.clean = self.current.clean.wrapping_add(1);
        } else {
            self.current.repaired = self.current.repaired.wrapping_add(1);
        }
        if level >= STRONG {
            self.current.strong = self.current.strong.wrapping_add(1);
        }
        self.current.signal_sum = self.current.signal_sum.wrapping_add(level as u64);
        self.current.signal_n = self.current.signal_n.wrapping_add(1);
    }

    /// Mean magnitude of a block, millionths of a raw unit: the noise floor on a
    /// quiet sky.
    pub fn noise(&mut self, mean: u64)
        ensures
            final(self)@ == (History {
                current: Bucket {
                    noise_sum: old(self)@.current.noise_sum.wrapping_add(mean),
                    noise_n: old(self)@.current.noise_n.wrapping_add(1),
                    ..old(self)@.current
                },
                ..old(self)@
            }),
    {
        self.current.noise_sum = self.current.noise_sum.wrapping_add(mean);
        self.current.noise_n = self.current.noise_n.wrapping_add(1);
    }

    /// Call once a second, with the time in milliseconds. Returns whether the
    /// document is due.
    pub fn tick(&mut self, now: u64) -> (due: bool)
        requires
            old(self).wf(),
        ensures
            final(self).wf(),
            final(self)@ == ticked(old(self)@, now),
            due == (now - old(self)@.last_written >= WRITE_MS),
    {
        let cur: Bucket = self.current;
        self.current = Bucket::default();
        self.total.add(&cur);
        self.minute.push_back(cur);
        if self.minute.len() > MINUTE {
            let _ = self.minute.pop_front();
        }
        assert(self.minute@ =~= last_of(old(self)@.minute.push(cur), MINUTE as nat));
        if now >= self.last_written && now - self.last_written >= WRITE_MS {
            self.last_written = now;
            true
        } else {
            false
        }
    }

    /// Everything counted up to the last tick.
    pub fn total(&self) -> (b: Bucket)
        ensures
            b == self@.total,
    {
        self.total
    }

    /// How many seconds the last minute covers so far.
    pub fn seconds(&self) -> (n: usize)
        ensures
            n == self@.minute.len(),
    {
        self.minute.len()
    }

    /// Everything counted in the last minute.
    pub fn last_minute(&self) -> (b: Bucket)
        ensures
            b == sum_of(self@.minute),
    {
        let mut last: Bucket = Bucket::default();
        for k in 0..self.minute.len()
            invariant
                last == sum_of(self.minute@.take(k as int)),
        {
            assert(self.minute@.take(k + 1).drop_last() =~= self.minute@.take(k as int));
            last.add(&self.minute[k]);
        }
        assert(self.minute@.take(self.minute@.len() as int) =~= self.minute@);
        last
    }

    /// One section of the document. Times in milliseconds, levels in millionths of
    /// dBFS.
    pub fn section(&self, b: &Bucket, start: i64, end: i64, signal: i64, noise: i64) -> (s: String)
        ensures
            s@ == section_of(
                *b,
                start as int,
                end as int,
                signal as int,
                noise as int,
                self@.gain,
            ),
    {
        let mut s: String = String::new();
        s.append("{\"start\":");
        put_signed_decimal(&mut s, start, 100);
        s.append(",\"end\":");
        put_signed_decimal(&mut s, end, 100);
        s.append(",\"local\":{\"samples_processed\":");
        put_decimal(&mut s, b.samples);
        s.append(",\"samples_dropped\":");
        put_decimal(&mut s, b.dropped);
        s.append(",\"accepted\":[");
        put_decimal(&mut s, b.clean);
        s.append(",");
        put_decimal(&mut s, b.repaired);
        s.append("],\"strong_signals\":");
        put_decimal(&mut s, b.strong);
        s.append(",\"signal\":");
        put_signed_decimal(&mut s, signal, 100_000);
        s.append(",\"noise\":");
        put_signed_decimal(&mut s, noise, 100_000);
        s.append(",\"gain_db\":");
        match self.gain {
            Some(g) => put_tenths(&mut s, g as i64),
            None => s.append("null"),
        }
        s.append("},\"messages\":");
        put_decimal(&mut s, b.clean.wrapping_add(b.repaired));
        s.append("}");
        assert(s@ =~= section_of(
            *b,
            start as int,
            end as int,
            signal as int,
            noise as int,
            self@.gain,
        ));
        s
    }

    /// The whole document, from its two sections. The time in milliseconds.
    pub fn document(now: i64, total: &str, last: &str) -> (s: String)
        ensures
            s@ == document_of(now as int, total@, last@),
    {
        let mut s: String = String::new();
        s.append("{\"now\":");
        put_signed_decimal(&mut s, now, 100);
        s.append(",\"total\":");
        s.append(total);
        s.append(",\"last1min\":");
        s.append(last);
        s.append("}");
        assert(s@ =~= document_of(now as int, total@, last@));
        s
    }
}

/// What was counted in a second, and when it ended.
pub struct Second {
    pub counted: Bucket,
    pub end: u64,
}

/// The counters after `seconds` in turn.
pub open spec fn after_seconds(h: History, seconds: Seq<Second>) -> History
    decreases seconds.len(),
{
    if seconds.len() == 0 {
        h
    } else {
        let before = after_seconds(h, seconds.drop_last());
        ticked(History { current: seconds.last().counted, ..before }, seconds.last().end)
    }
}

/// What each of `seconds` counted.
pub open spec fn counts(seconds: Seq<Second>) -> Seq<Bucket> {
    Seq::new(seconds.len(), |k: int| seconds[k].counted)
}

/// However long it runs, the minute is the last 60 seconds, and the total is
/// all of them.
pub proof fn law_minute_and_totals(h: History, seconds: Seq<Second>)
    requires
        h.total == nothing(),
        h.minute == Seq::<Bucket>::empty(),
    ensures
        after_seconds(h, seconds).minute == last_of(counts(seconds), MINUTE as nat),
        after_seconds(h, seconds).total == sum_of(counts(seconds)),
    decreases seconds.len(),
{
    let all = counts(seconds);
    if seconds.len() == 0 {
        assert(all =~= Seq::<Bucket>::empty());
    } else {
        let first = seconds.drop_last();
        law_minute_and_totals(h, first);
        assert(counts(first) =~= all.drop_last());
        assert(all =~= all.drop_last().push(all.last()));
        assert(after_seconds(h, seconds).minute =~= last_of(all, MINUTE as nat));
    }
}

/// A frame counts once: as clean where no bit was repaired, else as repaired, and as
/// strong too from 178 raw units on. Its level goes into the mean.
pub proof fn law_frames_count_once(b: Bucket, level: u32, fixed: u8)
    requires
        b.clean < u64::MAX,
        b.repaired < u64::MAX,
        b.strong < u64::MAX,
        b.signal_n < u64::MAX,
        b.signal_sum + level <= u64::MAX,
    ensures
        ({
            let c = with_frame(b, level, fixed);
            &&& fixed == 0 ==> c.clean == b.clean + 1 && c.repaired == b.repaired
            &&& fixed > 0 ==> c.clean == b.clean && c.repaired == b.repaired + 1
            &&& level >= 178 * 6336 ==> c.strong == b.strong + 1
            &&& level < 178 * 6336 ==> c.strong == b.strong
            &&& c.signal_sum == b.signal_sum + level
            &&& c.signal_n == b.signal_n + 1
            &&& c.samples == b.samples && c.dropped == b.dropped
            &&& c.noise_sum == b.noise_sum && c.noise_n == b.noise_n
        }),
{
}

/// Each counter of two counts together is the sum of both, and nothing counted adds
/// nothing.
pub proof fn law_counts_add_up(a: Bucket, b: Bucket)
    ensures
        both(a, b) == both(b, a),
        both(a, nothing()) == a,
        a.samples + b.samples <= u64::MAX ==> both(a, b).samples == a.samples + b.samples,
        a.dropped + b.dropped <= u64::MAX ==> both(a, b).dropped == a.dropped + b.dropped,
        a.clean + b.clean <= u64::MAX ==> both(a, b).clean == a.clean + b.clean,
        a.repaired + b.repaired <= u64::MAX ==> both(a, b).repaired == a.repaired + b.repaired,
        a.strong + b.strong <= u64::MAX ==> both(a, b).strong == a.strong + b.strong,
        a.signal_sum + b.signal_sum <= u64::MAX ==> both(a, b).signal_sum == a.signal_sum + b.signal_sum,
        a.signal_n + b.signal_n <= u64::MAX ==> both(a, b).signal_n == a.signal_n + b.signal_n,
        a.noise_sum + b.noise_sum <= u64::MAX ==> both(a, b).noise_sum == a.noise_sum + b.noise_sum,
        a.noise_n + b.noise_n <= u64::MAX ==> both(a, b).noise_n == a.noise_n + b.noise_n,
{
}

/// At each second the newest stands last in the minute, those before it keep their
/// order, none is older than 60 seconds, and counting starts anew. The document is written
/// when ten seconds have passed since it last was.
pub proof fn law_seconds_pass(h: History, now: u64)
    requires
        h.minute.len() <= 60,
    ensures
        ({
            let t = ticked(h, now);
            let n = t.minute.len();
            &&& n == if h.minute.len() < 60 { h.minute.len() + 1 } else { 60 }
            &&& t.minute[n - 1] == h.current
            &&& forall|k: int| 1 <= k < n ==> #[trigger] t.minute[n - 1 - k] == h.minute[h.minute.len() - k]
            &&& t.total == both(h.total, h.current)
            &&& t.current == nothing()
            &&& now >= h.last_written + 10_000 ==> t.last_written == now
            &&& now < h.last_written + 10_000 ==> t.last_written == h.last_written
            &&& t.start == h.start && t.gain == h.gain
        }),
{
    let t = ticked(h, now);
    let n = t.minute.len() as int;
    assert forall|k: int| 1 <= k < n implies #[trigger] t.minute[n - 1 - k] == h.minute[h.minute.len() - k] by {}
}

/// A section gives each count under its name, and the messages are the clean frames and
/// the repaired ones.
pub proof fn law_section_names_the_counts(
    b: Bucket,
    start: int,
    end: int,
    signal: int,
    noise: int,
    gain: Option<i32>,
)
    requires
        b.clean + b.repaired <= u64::MAX,
    ensures
        ({
            let s = section_of(b, start, end, signal, noise, gain);
            &&& says(s, "{\"start\":"@ + signed_decimal(start, 100) + ",\"end\":"@)
            &&& says(s, ",\"end\":"@ + signed_decimal(end, 100) + ",\"local\":{\"samples_processed\":"@)
            &&& says(
                s,
                ",\"local\":{\"samples_processed\":"@ + decimal(b.samples as nat) + ",\"samples_dropped\":"@,
            )
            &&& says(s, ",\"samples_dropped\":"@ + decimal(b.dropped as nat) + ",\"accepted\":["@)
            &&& says(s, ",\"accepted\":["@ + decimal(b.clean as nat) + ","@)
            &&& says(s, ","@ + decimal(b.repaired as nat) + "],\"strong_signals\":"@)
            &&& says(s, "],\"strong_signals\":"@ + decimal(b.strong as nat) + ",\"signal\":"@)
            &&& says(s, ",\"signal\":"@ + signed_decimal(signal, 100_000) + ",\"noise\":"@)
            &&& says(s, ",\"noise\":"@ + signed_decimal(noise, 100_000) + ",\"gain_db\":"@)
            &&& says(s, "},\"messages\":"@ + decimal((b.clean + b.repaired) as nat) + "}"@)
        }),
{
    let g = match gain {
        Some(g) => tenths(g as int),
        None => "null"@,
    };
    let s0 = "{\"start\":"@;
    let s1 = s0 + signed_decimal(start, 100);
    lemma_says_on(s0, signed_decimal(start, 100));
    let s2 = s1 + ",\"end\":"@;
    lemma_says_on(s1, ",\"end\":"@);
    lemma_says(Seq::empty(), s2, Seq::empty());
    let s3 = s2 + signed_decimal(end, 100);
    lemma_says_on(s2, signed_decimal(end, 100));
    let s4 = s3 + ",\"local\":{\"samples_processed\":"@;
    lemma_says_on(s3, ",\"local\":{\"samples_processed\":"@);
    lemma_says_run(s1, ",\"end\":"@, signed_decimal(end, 100), ",\"local\":{\"samples_processed\":"@);
    let s5 = s4 + decimal(b.samples as nat);
    lemma_says_on(s4, decimal(b.samples as nat));
    let s6 = s5 + ",\"samples_dropped\":"@;
    lemma_says_on(s5, ",\"samples_dropped\":"@);
    lemma_says_run(s3, ",\"local\":{\"samples_processed\":"@, decimal(b.samples as nat), ",\"samples_dropped\":"@);
    let s7 = s6 + decimal(b.dropped as nat);
    lemma_says_on(s6, decimal(b.dropped as nat));
    let s8 = s7 + ",\"accepted\":["@;
    lemma_says_on(s7, ",\"accepted\":["@);
    lemma_says_run(s5, ",\"samples_dropped\":"@, decimal(b.dropped as nat), ",\"accepted\":["@);
    let s9 = s8 + decimal(b.clean as nat);
    lemma_says_on(s8, decimal(b.clean as nat));
    let s10 = s9 + ","@;
    lemma_says_on(s9, ","@);
    lemma_says_run(s7, ",\"accepted\":["@, decimal(b.clean as nat), ","@);
    let s11 = s10 + decimal(b.repaired as nat);
    lemma_says_on(s10, decimal(b.repaired as nat));
    let s12 = s11 + "],\"strong_signals\":"@;
    lemma_says_on(s11, "],\"strong_signals\":"@);
    lemma_says_run(s9, ","@, decimal(b.repaired as nat), "],\"strong_signals\":"@);
    let s13 = s12 + decimal(b.strong as nat);
    lemma_says_on(s12, decimal(b.strong as nat));
    let s14 = s13 + ",\"signal\":"@;
    lemma_says_on(s13, ",\"signal\":"@);
    lemma_says_run(s11, "],\"strong_signals\":"@, decimal(b.strong as nat), ",\"signal\":"@);
    let s15 = s14 + signed_decimal(signal, 100_000);
    lemma_says_on(s14, signed_decimal(signal, 100_000));
    let s16 = s15 + ",\"noise\":"@;
    lemma_says_on(s15, ",\"noise\":"@);
    lemma_says_run(s13, ",\"signal\":"@, signed_decimal(signal, 100_000), ",\"noise\":"@);
    let s17 = s16 + signed_decimal(noise, 100_000);
    lemma_says_on(s16, signed_decimal(noise, 100_000));
    let s18 = s17 + ",\"gain_db\":"@;
    lemma_says_on(s17, ",\"gain_db\":"@);
    lemma_says_run(s15, ",\"noise\":"@, signed_decimal(noise, 100_000), ",\"gain_db\":"@);
    let s19 = s18 + g;
    lemma_says_on(s18, g);
    let s20 = s19 + "},\"messages\":"@;
    lemma_says_on(s19, "},\"messages\":"@);
    lemma_says_run(s17, ",\"gain_db\":"@, g, "},\"messages\":"@);
    let s21 = s20 + decimal(b.clean.wrapping_add(b.repaired) as nat);
    lemma_says_on(s20, decimal(b.clean.wrapping_add(b.repaired) as nat));
    let s22 = s21 + "}"@;
    lemma_says_on(s21, "}"@);
    lemma_says_run(s19, "},\"messages\":"@, decimal(b.clean.wrapping_add(b.repaired) as nat), "}"@);
    assert(s22 == section_of(b, start, end, signal, noise, gain));
}

/// The document gives the time and both sections, each under its name.
pub proof fn law_document_holds_the_sections(now: int, total: Seq<char>, last: Seq<char>)
    ensures
        ({
            let s = document_of(now, total, last);
            &&& says(s, "{\"now\":"@ + signed_decimal(now, 100) + ",\"total\":"@)
            &&& says(s, ",\"total\":"@ + total + ",\"last1min\":"@)
            &&& says(s, ",\"last1min\":"@ + last + "}"@)
        }),
{
    let t = signed_decimal(now, 100);
    let s2 = "{\"now\":"@ + t + ",\"total\":"@;
    let s4 = s2 + total + ",\"last1min\":"@;
    lemma_says(Seq::empty(), s2, total);
    lemma_says_on(s2 + total, ",\"last1min\":"@);
    lemma_says_run("{\"now\":"@ + t, ",\"total\":"@, total, ",\"last1min\":"@);
    lemma_says_on(s4, last);
    lemma_says_on(s4 + last, "}"@);
    lemma_says_run(s2 + total, ",\"last1min\":"@, last, "}"@);
}

} // verus!
