//! Frame timing. The clock stays outside: each call is handed the time of the frame, in
//! nanoseconds since any fixed start, as a monotonic clock gives it.
use vstd::prelude::*;

verus! {

/// Nanoseconds in one second.
pub const NANOS_PER_SECOND: u64 = 1_000_000_000;

/// The frame rate over the last second: how many frames there were, and the time that
/// each took on average, in nanoseconds.
#[derive(Clone, Copy, Debug, PartialEq, Eq, Structural)]
pub struct Stats {
    pub fps: u32,
    pub time_per_frame: u64,
}

/// Counts frames and, once a second has passed since the count began, reports the rate.
pub struct FpsCounter {
    frames: u32,
    since: u64,
}

impl FpsCounter {
    /// The frames counted since the count began.
    pub closed spec fn frames(self) -> u32 {
        self.frames
    }

    /// The time at which the count began.
    pub closed spec fn since(self) -> u64 {
        self.since
    }

    /// A counter whose count begins at `now`.
    pub fn new(now: u64) -> (c: Self)
        ensures
            c.frames() == 0,
            c.since() == now,
    {
        FpsCounter { frames: 0, since: now }
    }

    /// Counts a frame shown at `now`. When a second or more has passed since the count
    /// began, returns the rate over that span and begins a new count at `now`. A clock
    /// reading earlier than the start counts as no time passed.
    pub fn on_frame(&mut self, now: u64) -> (r: Option<Stats>)
        ensures
            ({
                let frames = if old(self).frames() < u32::MAX {
                    (old(self).frames() + 1) as u32
                } else {
                    u32::MAX
                };
                if now >= old(self).since() && now - old(self).since() >= NANOS_PER_SECOND {
                    &&& r == Some(
                        Stats { fps: frames, time_per_frame: (NANOS_PER_SECOND / frames as u64) as u64 },
                    )
                    &&& final(self).frames() == 0
                    &&& final(self).since() == now
                } else {
                    &&& r is None
                    &&& final(self).frames() == frames
                    &&& final(self).since() == old(self).since()
                }
            }),
    {
        self.frames = self.frames.saturating_add(1);
        if now.saturating_sub(self.since) >= NANOS_PER_SECOND {
            let stats = Stats { fps: self.frames, time_per_frame: NANOS_PER_SECOND / self.frames as u64 };
            self.frames = 0;
            self.since = now;
            Some(stats)
        } else {
            None
        }
    }
}

/// Measures the time between one frame and the next.
pub struct Delta {
    last_frame: Option<u64>,
}

impl Delta {
    /// The time of the last frame seen, if any.
    pub closed spec fn last_frame(self) -> Option<u64> {
        self.last_frame
    }

    pub fn new() -> (d: Self)
        ensures
            d.last_frame() is None,
    {
        Delta { last_frame: None }
    }

    /// Records a frame shown at `now` and returns the time since the previous one; `None`
    /// for the first frame. A clock reading earlier than the previous one gives zero.
    pub fn on_frame(&mut self, now: u64) -> (r: Option<u64>)
        ensures
            r == match old(self).last_frame() {
                Some(last) => Some(if now >= last { (now - last) as u64 } else { 0 }),
                None => None,
            },
            final(self).last_frame() == Some(now),
    {
        let out = match self.last_frame {
            Some(last) => Some(now.saturating_sub(last)),
            None => None,
        };
        self.last_frame = Some(now);
        out
    }
}

impl Default for Delta {
    fn default() -> (d: Self)
        ensures
            d.last_frame() is None,
    {
        Delta::new()
    }
}

} // verus!
