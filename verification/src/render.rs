use vstd::prelude::*;
use std::time::{Duration, Instant};

verus! {

/// `std::time::Instant`, a moment of the monotone clock. Nothing is known
/// of what it holds.
#[verifier::external_type_specification]
#[verifier::external_body]
pub struct ExInstant(Instant);

/// `Instant::now`: the present moment. Nothing is known of it.
#[verifier::external_body]
fn instant_now() -> (now: Instant) {
    Instant::now()
}

/// `Instant::duration_since`: the time from `earlier` to `later`, or none
/// where `earlier` is the later one. Nothing is known of it.
#[verifier::external_body]
fn duration_between(later: &Instant, earlier: &Instant) -> (elapsed: Duration) {
    later.duration_since(*earlier)
}

/// `Duration::as_secs`: the whole seconds of a duration. Nothing is known of
/// them.
#[verifier::external_body]
fn whole_seconds(elapsed: &Duration) -> (seconds: u64) {
    elapsed.as_secs()
}

/// `Duration::subsec_nanos`: what a duration has beyond its whole seconds,
/// in nanoseconds, which is less than a second.
#[verifier::external_body]
fn fraction_nanos(elapsed: &Duration) -> (nanos: u32)
    ensures
        nanos < 1_000_000_000,
{
    elapsed.subsec_nanos()
}

/// The fraction of a second, in nanoseconds, from which on a time that is
/// measured in seconds of single precision comes out as a whole second:
/// half a step of that precision short of it.
pub const ROUNDS_TO_A_SECOND: u32 = 999_999_968;

/// The frame counter of the renderer: the frames drawn in the running
/// second, and the count of the second before it.
pub struct RenderState {
    /// The frames that were drawn in the last full second.
    pub fps: u32,
    /// The frames drawn since `fps_counter`.
    pub frames: u32,
    /// When the running second began.
    pub fps_counter: Instant,
}

impl RenderState {
    /// Whether a second has gone by after so many whole seconds and
    /// nanoseconds, the time being taken in seconds of single precision.
    pub open spec fn second_gone(seconds: u64, nanos: u32) -> bool {
        seconds >= 1 || nanos >= ROUNDS_TO_A_SECOND
    }

    /// The counter after one more frame, drawn the given time after the
    /// running second began: once a second has gone by, its count becomes
    /// the rate and a new second begins at `now` with this frame; before
    /// that, the frame is counted in the running one.
    pub open spec fn counted(self, seconds: u64, nanos: u32, now: Instant) -> RenderState {
        if Self::second_gone(seconds, nanos) {
            RenderState { fps: self.frames, frames: 1, fps_counter: now }
        } else {
            RenderState {
                fps: self.fps,
                frames: (self.frames + 1) as u32,
                fps_counter: self.fps_counter,
            }
        }
    }

    /// `after` is this counter with one more frame in the running second.
    pub open spec fn counted_in_second(self, after: RenderState) -> bool {
        &&& after.fps == self.fps
        &&& after.frames == self.frames + 1
        &&& after.fps_counter == self.fps_counter
    }

    /// `after` is this counter once a new second has begun: the count of
    /// the second that ended is the rate, and the new one has one frame.
    pub open spec fn counted_in_next(self, after: RenderState) -> bool {
        &&& after.fps == self.frames
        &&& after.frames == 1
    }

    /// A counter that starts now, with no frame drawn.
    pub fn new() -> (state: RenderState)
        ensures
            state.fps == 0,
            state.frames == 0,
    {
        RenderState { fps: 0, frames: 0, fps_counter: instant_now() }
    }

    /// Counts one frame that is drawn `seconds` whole seconds and `nanos`
    /// nanoseconds after the running second began, `now` being the present
    /// moment.
    pub fn count_frame(&mut self, seconds: u64, nanos: u32, now: Instant)
        requires
            old(self).frames < u32::MAX,
        ensures
            *final(self) == old(self).counted(seconds, nanos, now),
    {
        if seconds >= 1 || nanos >= ROUNDS_TO_A_SECOND {
            self.fps = self.frames;
            self.frames = 0;
            self.fps_counter = now;
        }
        self.frames += 1;
    }

    /// Counts one frame at the present moment. Whatever the clock says, the
    /// frame is either counted in the running second or is the first of a
    /// new one, whose predecessor's count is the new rate.
    pub fn update(&mut self)
        requires
            old(self).frames < u32::MAX,
        ensures
            old(self).counted_in_second(*final(self)) || old(self).counted_in_next(*final(self)),
    {
        let now = instant_now();
        let elapsed = duration_between(&now, &self.fps_counter);
        let seconds = whole_seconds(&elapsed);
        let nanos = fraction_nanos(&elapsed);
        let restart = instant_now();
        self.count_frame(seconds, nanos, restart);
    }
}

} // verus!
