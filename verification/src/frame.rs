//! The pacing of game ticks within rendered frames. A renderer's main loop
//! asks at the start of every frame whether a tick is due; a tick is due
//! when no frames are left until the next one. A tick that ran sets the
//! frames left to the frames per tick (frame rate over tick rate), and every
//! frame drawn counts one down.
use vstd::prelude::*;

verus! {

/// Frames still to draw until the next tick.
pub struct FramePacer {
    frames_left: u32,
}

impl View for FramePacer {
    type V = nat;

    closed spec fn view(&self) -> nat {
        self.frames_left as nat
    }
}

/// Frames left after a frame drawn with `frames_left` left, in which a tick
/// ran at `fps` frames and `tick_rate` ticks per second when `ticked`.
pub open spec fn frame_step(frames_left: nat, ticked: bool, fps: nat, tick_rate: nat) -> nat {
    let left = if ticked { fps / tick_rate } else { frames_left };
    if left > 0 {
        (left - 1) as nat
    } else {
        0
    }
}

/// Frames left after `n` frames without a tick.
pub open spec fn idle_frames(frames_left: nat, n: nat) -> nat
    decreases n,
{
    if n == 0 {
        frames_left
    } else {
        frame_step(idle_frames(frames_left, (n - 1) as nat), false, 0, 1)
    }
}

impl FramePacer {
    /// A pacer whose first frame ticks.
    pub fn new() -> (p: FramePacer)
        ensures
            p@ == 0,
    {
        FramePacer { frames_left: 0 }
    }

    /// Frames still to draw until the next tick.
    pub fn frames_left(&self) -> (n: u32)
        ensures
            n == self@,
    {
        self.frames_left
    }

    /// Whether a tick is due in the frame that starts.
    pub fn tick_due(&self) -> (due: bool)
        ensures
            due == (self@ == 0),
    {
        self.frames_left == 0
    }

    /// Ends a frame, in which a tick ran at `fps` frames and `tick_rate`
    /// ticks per second when `ticked`.
    pub fn end_frame(&mut self, ticked: bool, fps: u32, tick_rate: u32)
        requires
            ticked ==> tick_rate > 0,
        ensures
            final(self)@ == frame_step(old(self)@, ticked, fps as nat, tick_rate as nat),
    {
        if ticked {
            self.frames_left = fps / tick_rate;
        }
        if self.frames_left > 0 {
            self.frames_left = self.frames_left - 1;
        }
    }
}

/// Frames without a tick count the frames left down to zero and no further.
pub proof fn lemma_idle_frames(frames_left: nat, n: nat)
    ensures
        idle_frames(frames_left, n) == if n <= frames_left { (frames_left - n) as nat } else { 0 },
    decreases n,
{
    if n > 0 {
        lemma_idle_frames(frames_left, (n - 1) as nat);
    }
}

/// After a frame with a tick at `fps` frames and `tick_rate` ticks per
/// second, the next tick is due exactly `fps / tick_rate` frames after the
/// one that ticked (in the very next frame when that is zero).
pub proof fn lemma_ticks_are_paced(fps: nat, tick_rate: nat, n: nat)
    requires
        tick_rate > 0,
    ensures
        (idle_frames(frame_step(0, true, fps, tick_rate), n) == 0) <==> n + 1 >= fps / tick_rate,
{
    lemma_idle_frames(frame_step(0, true, fps, tick_rate), n);
}

} // verus!
