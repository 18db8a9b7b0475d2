//! Measured gain control. Every window (10 s) the radio looks at how often
//! samples hit full scale, whether strong frames clipped, and where the noise
//! floor sits, and moves the tuner gain one step toward the operating point: no
//! clipping, noise floor above the quantization floor. A step needs two
//! consecutive windows agreeing and is followed by a hold, so the loop cannot
//! oscillate on a passing aircraft.

use vstd::prelude::*;

verus! {

/// What one window of samples and frames looked like.
#[derive(Debug, Clone, Copy)]
pub struct Window {
    /// Samples with I or Q at or near full scale, of those seen.
    pub clipped: u64,
    pub seen: u64,
    /// A decoded frame reported a signal byte at or above 250.
    pub strong_clip: bool,
    /// Mean magnitude of the samples, in millionths of a raw unit (of 0..181).
    pub noise: u64,
}

#[derive(Debug, Clone, Copy, PartialEq, Eq, Structural)]
pub enum Vote {
    Down,
    Up,
    Hold,
}

/// More clipping than one sample in this many steps the gain down.
pub const CLIP_DOWN: u64 = 1000;

/// Less clipping than one sample in this many allows a step up.
pub const CLIP_OK: u64 = 5000;

/// Noise floor, 1.4 raw units, below which the gain steps up: below it, weak
/// frames are lost to quantization rather than to noise.
pub const NOISE_LOW: u64 = 1_400_000;

/// Milliseconds between windows.
pub const WINDOW_MS: u64 = 10_000;

/// Milliseconds to hold after a change.
pub const HOLD_MS: u64 = 20_000;

/// The vote of one window on its own.
pub open spec fn vote_of(w: Window) -> Vote {
    if w.strong_clip || w.clipped * CLIP_DOWN > w.seen {
        Vote::Down
    } else if w.clipped * CLIP_OK < w.seen && w.noise < NOISE_LOW {
        Vote::Up
    } else {
        Vote::Hold
    }
}

/// The vote of one window on its own.
pub fn vote(w: &Window) -> (v: Vote)
    ensures
        v == vote_of(*w),
{
    if w.strong_clip || w.clipped as u128 * CLIP_DOWN as u128 > w.seen as u128 {
        Vote::Down
    } else if (w.clipped as u128 * CLIP_OK as u128) < w.seen as u128 && w.noise < NOISE_LOW {
        Vote::Up
    } else {
        Vote::Hold
    }
}

/// How far two gains are apart.
pub open spec fn apart(a: i32, b: i32) -> int {
    if a >= b { a - b } else { b - a }
}

/// `k` is the first of the steps closest to `target`.
pub open spec fn is_nearest(steps: Seq<i32>, target: i32, k: int) -> bool {
    &&& 0 <= k < steps.len()
    &&& forall|j: int| 0 <= j < k ==> apart(#[trigger] steps[j], target) > apart(steps[k], target)
    &&& forall|j: int| k <= j < steps.len() ==> apart(#[trigger] steps[j], target) >= apart(steps[k], target)
}

/// The first of the steps closest to `target`, if there are any.
pub fn nearest(steps: &Vec<i32>, target: i32) -> (k: Option<usize>)
    ensures
        match k {
            Some(k) => is_nearest(steps@, target, k as int),
            None => steps@.len() == 0,
        },
{
    if steps.len() == 0 {
        return None;
    }
    let mut best: usize = 0;
    let mut least: i64 = if steps[0] >= target {
        steps[0] as i64 - target as i64
    } else {
        target as i64 - steps[0] as i64
    };
    for j in 1..steps.len()
        invariant
            best < j,
            best < steps@.len(),
            least == apart(steps@[best as int], target),
            forall|i: int| 0 <= i < best ==> apart(#[trigger] steps@[i], target) > least,
            forall|i: int| best <= i < j ==> apart(#[trigger] steps@[i], target) >= least,
    {
        let d: i64 = if steps[j] >= target {
            steps[j] as i64 - target as i64
        } else {
            target as i64 - steps[j] as i64
        };
        if d < least {
            best = j;
            least = d;
        }
    }
    Some(best)
}

/// What the gain loop remembers.
pub struct Loop {
    /// The tuner's gain steps, tenths of a dB.
    pub steps: Seq<i32>,
    /// The current step.
    pub at: int,
    /// The previous window's vote, where it counts.
    pub last_vote: Option<Vote>,
    /// When the last step was taken; nothing is decided for `HOLD_MS` after it.
    pub last_step: Option<u64>,
}

/// A hold is on at `now`.
pub open spec fn is_held(s: Loop, now: u64) -> bool {
    s.last_step matches Some(t) && now < t + HOLD_MS
}

/// The gain at the current step.
pub open spec fn gain_of(s: Loop) -> i32 {
    if 0 <= s.at < s.steps.len() { s.steps[s.at] } else { 0 }
}

/// What a window at `now` does: what is remembered then, and the new gain when
/// a step is taken.
pub open spec fn stepped(s: Loop, w: Window, now: u64) -> (Loop, Option<i32>) {
    let v = vote_of(w);
    let to = match v {
        Vote::Down => s.at - 1,
        Vote::Up => s.at + 1,
        Vote::Hold => s.at,
    };
    if s.steps.len() < 2 || is_held(s, now) {
        (Loop { last_vote: None, ..s }, None)
    } else if s.last_vote != Some(v) || v == Vote::Hold || !(0 <= to < s.steps.len()) {
        (Loop { last_vote: Some(v), ..s }, None)
    } else {
        (Loop { at: to, last_vote: None, last_step: Some(now), ..s }, Some(s.steps[to]))
    }
}

/// Gain loop state: the tuner's gain steps (tenths of a dB, ascending), the
/// current step, the previous window's vote, and the time of the last step.
pub struct Controller {
    steps: Vec<i32>,
    idx: usize,
    last_vote: Option<Vote>,
    last_step: Option<u64>,
}

impl View for Controller {
    type V = Loop;

    closed spec fn view(&self) -> Loop {
        Loop {
            steps: self.steps@,
            at: self.idx as int,
            last_vote: self.last_vote,
            last_step: self.last_step,
        }
    }
}

impl Controller {
    /// The current step is one of the steps, where there are any.
    pub open spec fn wf(&self) -> bool {
        self@.steps.len() > 0 ==> 0 <= self@.at < self@.steps.len()
    }

    /// Start at `start_tenths` (snapped to a step) with no hold.
    pub fn new(steps: Vec<i32>, start_tenths: i32) -> (c: Controller)
        ensures
            c.wf(),
            c@.steps == steps@,
            steps@.len() > 0 ==> is_nearest(steps@, start_tenths, c@.at),
            steps@.len() == 0 ==> c@.at == 0,
            c@.last_vote is None,
            c@.last_step is None,
    {
        let idx: usize = match nearest(&steps, start_tenths) {
            Some(k) => k,
            None => 0,
        };
        Controller { steps, idx, last_vote: None, last_step: None }
    }

    pub fn current(&self) -> (g: i32)
        ensures
            g == gain_of(self@),
    {
        if self.idx < self.steps.len() { self.steps[self.idx] } else { 0 }
    }

    /// Offer a window at time `now` (milliseconds). Returns the new gain in
    /// tenths of a dB when a step is taken.
    pub fn step(&mut self, w: &Window, now: u64) -> (g: Option<i32>)
        requires
            old(self).wf(),
        ensures
            final(self).wf(),
            (final(self)@, g) == stepped(old(self)@, *w, now),
    {
        let held: bool = match self.last_step {
            Some(t) => now < t || now - t < HOLD_MS,
            None => false,
        };
        if self.steps.len() < 2 || held {
            self.last_vote = None;
            return None;
        }
        let v: Vote = vote(w);
        let agreed: bool = match self.last_vote {
            Some(u) => u == v,
            None => false,
        };
        self.last_vote = Some(v);
        if !agreed {
            return None;
        }
        let new_idx: usize = match v {
            Vote::Down => if self.idx > 0 {
                self.idx - 1
            } else {
                return None;
            },
            Vote::Up => if self.idx + 1 < self.steps.len() {
                self.idx + 1
            } else {
                return None;
            },
            Vote::Hold => return None,
        };
        self.idx = new_idx;
        self.last_vote = None;
        self.last_step = Some(now);
        Some(self.steps[new_idx])
    }
}

/// A step moves to the next step up or down, and only when this window and the
/// one before it voted for it and no hold was on; a hold begins with it. Without a
/// step the gain stays, and the windows at the ends of the range take none outward.
pub proof fn law_steps_take_two_votes(s: Loop, w: Window, now: u64)
    requires
        s.steps.len() > 0 ==> 0 <= s.at < s.steps.len(),
    ensures
        ({
            let (t, g) = stepped(s, w, now);
            &&& g is Some <==> {
                &&& s.steps.len() >= 2
                &&& !is_held(s, now)
                &&& s.last_vote == Some(vote_of(w))
                &&& vote_of(w) == Vote::Down && s.at > 0 || vote_of(w) == Vote::Up && s.at + 1 < s.steps.len()
            }
            &&& g is Some ==> {
                &&& g == Some(gain_of(t))
                &&& vote_of(w) == Vote::Down ==> t.at == s.at - 1
                &&& vote_of(w) == Vote::Up ==> t.at == s.at + 1
                &&& t.last_vote is None
                &&& forall|later: u64| is_held(t, later) <==> later < now + HOLD_MS
            }
            &&& g is None ==> t.at == s.at && gain_of(t) == gain_of(s) && t.last_step == s.last_step
            &&& t.steps == s.steps
        }),
{
}

/// A window at a time.
pub struct Sighting {
    pub w: Window,
    pub now: u64,
}

/// What is remembered after `seen` in turn.
pub open spec fn after_all(s: Loop, seen: Seq<Sighting>) -> Loop
    decreases seen.len(),
{
    if seen.len() == 0 {
        s
    } else {
        stepped(after_all(s, seen.drop_last()), seen.last().w, seen.last().now).0
    }
}

/// No window of `seen` takes a step.
pub open spec fn quiet(s: Loop, seen: Seq<Sighting>) -> bool
    decreases seen.len(),
{
    seen.len() > 0 ==> {
        &&& quiet(s, seen.drop_last())
        &&& stepped(after_all(s, seen.drop_last()), seen.last().w, seen.last().now).1 is None
    }
}

/// What a remembered vote says: it was that of the last window, which came outside
/// a hold.
proof fn lemma_remembered(s: Loop, seen: Seq<Sighting>)
    requires
        quiet(s, seen),
        s.last_vote is None,
    ensures
        after_all(s, seen).last_step == s.last_step,
        after_all(s, seen).at == s.at,
        after_all(s, seen).steps == s.steps,
        after_all(s, seen).last_vote matches Some(v) ==> seen.len() > 0 && v == vote_of(seen.last().w)
            && !is_held(s, seen.last().now),
    decreases seen.len(),
{
    if seen.len() > 0 {
        lemma_remembered(s, seen.drop_last());
    }
}

/// A step is taken on the strength of the window before it: from a start, or from
/// the step before, the window just before the one that takes a step took none,
/// came outside the hold, and voted the same.
pub proof fn law_window_before_a_step_agreed(s: Loop, seen: Seq<Sighting>, next: Sighting)
    requires
        s.last_vote is None,
        quiet(s, seen),
        stepped(after_all(s, seen), next.w, next.now).1 is Some,
    ensures
        seen.len() > 0,
        vote_of(seen.last().w) == vote_of(next.w),
        !is_held(s, seen.last().now),
        !is_held(s, next.now),
{
    lemma_remembered(s, seen);
}

/// After a step there is none for the length of the hold, whatever windows come,
/// and the gain stays; and then there is one only once two windows after the hold
/// agree.
pub proof fn law_steps_are_apart(s: Loop, w: Window, now: u64, seen: Seq<Sighting>, next: Sighting)
    requires
        stepped(s, w, now).1 is Some,
        quiet(stepped(s, w, now).0, seen),
    ensures
        gain_of(after_all(stepped(s, w, now).0, seen)) == gain_of(stepped(s, w, now).0),
        next.now < now + HOLD_MS ==> stepped(
            after_all(stepped(s, w, now).0, seen),
            next.w,
            next.now,
        ).1 is None,
        stepped(after_all(stepped(s, w, now).0, seen), next.w, next.now).1 is Some ==> {
            &&& next.now >= now + HOLD_MS
            &&& seen.len() > 0
            &&& seen.last().now >= now + HOLD_MS
        },
{
    lemma_remembered(stepped(s, w, now).0, seen);
}

/// A window votes by the share of its samples that clip, however many it saw: two
/// windows with the same share, and alike otherwise, vote the same.
pub proof fn law_vote_is_by_share(v: Window, w: Window)
    requires
        v.seen > 0,
        w.seen > 0,
        v.clipped * w.seen == w.clipped * v.seen,
        v.strong_clip == w.strong_clip,
        v.noise == w.noise,
    ensures
        vote_of(v) == vote_of(w),
{
    let (a, m, b, n) = (v.clipped as int, v.seen as int, w.clipped as int, w.seen as int);
    assert((1000 * a > m <==> 1000 * b > n) && (5000 * a < m <==> 5000 * b < n)) by (nonlinear_arith)
        requires
            a * n == b * m,
            m > 0,
            n > 0,
            a >= 0,
            b >= 0,
    ;
}

/// The shares that decide: more than one sample in a thousand near full scale, or a
/// frame that clipped, asks for less gain. Less than one in five thousand asks for
/// more, where the mean magnitude is below 1.4 raw units. All else asks for neither.
pub proof fn law_votes_by_share_and_noise(w: Window)
    ensures
        w.strong_clip ==> vote_of(w) == Vote::Down,
        !w.strong_clip ==> (vote_of(w) == Vote::Down <==> 1000 * w.clipped > w.seen),
        vote_of(w) == Vote::Up <==> !w.strong_clip && 5000 * w.clipped < w.seen && w.noise < 1_400_000,
{
}

/// More clipping never asks for more gain, and more noise never does.
pub proof fn law_votes_are_monotone(v: Window, w: Window)
    requires
        v.seen == w.seen,
        v.clipped <= w.clipped,
        v.strong_clip ==> w.strong_clip,
        v.noise <= w.noise,
    ensures
        vote_of(w) == Vote::Up ==> vote_of(v) == Vote::Up,
        vote_of(v) == Vote::Down ==> vote_of(w) == Vote::Down,
{
}

/// After a step, no window changes the gain in the 20 s that follow.
pub proof fn law_hold_lasts_twenty_seconds(s: Loop, w: Window, now: u64, next: Window, later: u64)
    requires
        stepped(s, w, now).1 is Some,
    ensures
        later < now + 20_000 ==> stepped(stepped(s, w, now).0, next, later).1 is None,
        is_held(stepped(s, w, now).0, later) <==> later < now + 20_000,
{
}

/// Two windows that agree, outside a hold, move the gain by one step the way they
/// ask, as long as there is one.
pub proof fn law_two_windows_move_the_gain(s: Loop, v: Window, w: Window, t: u64, u: u64)
    requires
        s.steps.len() >= 2,
        0 <= s.at < s.steps.len(),
        s.last_vote is None,
        s.last_step is None,
        vote_of(v) == vote_of(w),
    ensures
        ({
            let r = stepped(stepped(s, v, t).0, w, u);
            &&& stepped(s, v, t).1 is None
            &&& vote_of(w) == Vote::Down && s.at > 0 ==> r.1 == Some(s.steps[s.at - 1])
            &&& vote_of(w) == Vote::Up && s.at + 1 < s.steps.len() ==> r.1 == Some(s.steps[s.at + 1])
            &&& vote_of(w) == Vote::Hold ==> r.1 is None
        }),
{
}

/// The step at which the loop starts is as near to the wanted gain as any.
pub proof fn law_start_is_nearest(steps: Seq<i32>, target: i32, k: int, j: int)
    requires
        is_nearest(steps, target, k),
        0 <= j < steps.len(),
    ensures
        0 <= k < steps.len(),
        steps[k] - target <= steps[j] - target || steps[k] - target <= target - steps[j],
        target - steps[k] <= steps[j] - target || target - steps[k] <= target - steps[j],
        steps[j] == target ==> steps[k] == target,
{
    if j < k {
        assert(apart(steps[j], target) > apart(steps[k], target));
    } else {
        assert(apart(steps[j], target) >= apart(steps[k], target));
    }
}

} // verus!
