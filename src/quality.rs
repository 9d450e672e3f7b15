//! Render quality control. A quality level picks the block scale of the next
//! frame: level 0 traces one ray per 4x4 block, level 1 per 2x2 block and
//! level 2 per pixel. The level is either chosen by hand or, in automatic
//! mode, moved one step at a time by periodic checks of the average frame
//! rate.
use vstd::prelude::*;

verus! {

/// Number of most recent frame rates the automatic mode averages.
pub const FPS_HISTORY_LEN: usize = 10;

/// Fewest recorded frame rates the automatic mode acts on.
pub const MIN_FPS_SAMPLES: usize = 5;

/// An average frame rate below this raises the level.
pub const LOW_FPS: u32 = 20;

/// An average frame rate above this lowers the level towards the hand-picked one.
pub const HIGH_FPS: u32 = 45;

/// Highest quality level: one ray per pixel.
pub const MAX_QUALITY: u8 = 2;

/// Block scale used at quality level `level`.
pub open spec fn scale_for(level: int) -> int {
    if level == 0 {
        4
    } else if level == 1 {
        2
    } else {
        1
    }
}

/// Sum of the recorded frame rates.
pub open spec fn sum_of(s: Seq<u32>) -> int
    decreases s.len(),
{
    if s.len() == 0 {
        0
    } else {
        sum_of(s.drop_last()) + s.last()
    }
}

/// Frame-rate history after recording `fps`: the oldest entry is dropped
/// once more than `FPS_HISTORY_LEN` are held.
pub open spec fn recorded(history: Seq<u32>, fps: u32) -> Seq<u32> {
    let pushed = history.push(fps);
    if pushed.len() > FPS_HISTORY_LEN {
        pushed.subrange(1, pushed.len() as int)
    } else {
        pushed
    }
}

/// Level after a periodic check that measured `average` frames per second:
/// an average below `LOW_FPS` raises the level by one (up to `MAX_QUALITY`),
/// an average above `HIGH_FPS` lowers it by one, but only while it is above
/// the hand-picked level.
pub open spec fn adjusted_level(level: int, manual_level: int, average: int) -> int {
    if average < LOW_FPS && level < MAX_QUALITY {
        level + 1
    } else if average > HIGH_FPS && level > 0 && level > manual_level {
        level - 1
    } else {
        level
    }
}

#[derive(Clone, Debug)]
pub struct QualityControl {
    /// Level the next frame is rendered at.
    pub level: u8,
    /// Level last chosen by hand.
    pub manual_level: u8,
    /// Whether the level follows the frame rate.
    pub auto: bool,
    /// Most recent frame rates, oldest first (recorded in automatic mode only).
    pub fps_history: Vec<u32>,
}

impl QualityControl {
    pub open spec fn wf(&self) -> bool {
        &&& self.level <= MAX_QUALITY
        &&& self.manual_level <= MAX_QUALITY
        &&& self.fps_history@.len() <= FPS_HISTORY_LEN
    }

    /// Starts at the middle level, chosen by hand, with no history.
    pub fn new() -> (q: QualityControl)
        ensures
            q.wf(),
            q.level == 1,
            q.manual_level == 1,
            !q.auto,
            q.fps_history@.len() == 0,
    {
        QualityControl { level: 1, manual_level: 1, auto: false, fps_history: Vec::new() }
    }

    /// Block scale of the next frame.
    pub fn render_scale(&self) -> (r: usize)
        ensures
            r == scale_for(self.level as int),
    {
        if self.level == 0 {
            4
        } else if self.level == 1 {
            2
        } else {
            1
        }
    }

    /// Picks a level by hand. It takes effect at once unless the automatic
    /// mode is on; there it is the level that lowering stops at.
    pub fn select_level(&mut self, level: u8)
        requires
            old(self).wf(),
            level <= MAX_QUALITY,
        ensures
            final(self).wf(),
            final(self).manual_level == level,
            final(self).level == if old(self).auto {
                old(self).level
            } else {
                level
            },
            final(self).auto == old(self).auto,
            final(self).fps_history@ == old(self).fps_history@,
    {
        self.manual_level = level;
        if !self.auto {
            self.level = level;
        }
    }

    /// Switches the automatic mode on or off. Switching it off returns to the
    /// hand-picked level.
    pub fn toggle_auto(&mut self)
        requires
            old(self).wf(),
        ensures
            final(self).wf(),
            final(self).auto == !old(self).auto,
            final(self).manual_level == old(self).manual_level,
            final(self).level == if final(self).auto {
                old(self).level
            } else {
                old(self).manual_level
            },
            final(self).fps_history@ == old(self).fps_history@,
    {
        self.auto = !self.auto;
        if !self.auto {
            self.level = self.manual_level;
        }
    }

    /// Records the frame rate of a frame. In automatic mode the rate joins
    /// the history, and when a check is due (`check_due`) and at least
    /// `MIN_FPS_SAMPLES` rates are held, the level is adjusted from their
    /// average (rounded down). Returns whether that check ran, after which the
    /// caller starts timing the next one.
    pub fn record_frame(&mut self, fps: u32, check_due: bool) -> (checked: bool)
        requires
            old(self).wf(),
        ensures
            final(self).wf(),
            final(self).auto == old(self).auto,
            final(self).manual_level == old(self).manual_level,
            !old(self).auto ==> !checked && final(self).level == old(self).level
                && final(self).fps_history@ == old(self).fps_history@,
            old(self).auto ==> {
                let history = recorded(old(self).fps_history@, fps);
                &&& final(self).fps_history@ == history
                &&& checked == (check_due && history.len() >= MIN_FPS_SAMPLES)
                &&& final(self).level == if checked {
                    adjusted_level(
                        old(self).level as int,
                        old(self).manual_level as int,
                        sum_of(history) / history.len() as int,
                    )
                } else {
                    old(self).level as int
                }
            },
    {
        if !self.auto {
            return false;
        }
        self.fps_history.push(fps);
        if self.fps_history.len() > FPS_HISTORY_LEN {
            self.fps_history.remove(0);
        }
        proof {
            let pushed = old(self).fps_history@.push(fps);
            if pushed.len() > FPS_HISTORY_LEN {
                assert(self.fps_history@ =~= pushed.subrange(1, pushed.len() as int));
            }
        }
        let n = self.fps_history.len();
        if !(check_due && n >= MIN_FPS_SAMPLES) {
            return false;
        }
        let mut total: u64 = 0;
        let mut i: usize = 0;
        while i < n
            invariant
                n == self.fps_history@.len(),
                n <= FPS_HISTORY_LEN,
                i <= n,
                total == sum_of(self.fps_history@.take(i as int)),
                total <= i * 0xffff_ffff,
            decreases n - i,
        {
            proof {
                assert(self.fps_history@.take(i + 1).drop_last() =~= self.fps_history@.take(
                    i as int,
                ));
            }
            total = total + self.fps_history[i] as u64;
            i += 1;
        }
        proof {
            assert(self.fps_history@.take(n as int) =~= self.fps_history@);
        }
        let average = total / n as u64;
        if average < LOW_FPS as u64 && self.level < MAX_QUALITY {
            self.level = self.level + 1;
        } else if average > HIGH_FPS as u64 && self.level > 0 && self.level > self.manual_level {
            self.level = self.level - 1;
        }
        true
    }
}

} // verus!
