use vstd::prelude::*;

verus! {

/// Whether a redraw is owed.
#[derive(PartialEq, Eq, Structural, Clone, Copy, Debug)]
pub enum RedrawState {
    Idle,
    RedrawOwed,
}

/// What the loop should do after an event.
#[derive(PartialEq, Eq, Structural, Clone, Copy, Debug)]
pub enum RedrawAction {
    /// Lay out and draw the screen now.
    Redraw,
    /// Draw nothing yet; wake up again after `wait_ms`.
    Wait,
}

/// Decides when the screen is redrawn, so that bursts of lines make one frame: never two
/// frames closer than the minimum interval, and a frame that is owed comes when the
/// interval has passed. Times are milliseconds on a clock that does not go back.
pub struct Scheduler {
    state: RedrawState,
    last_redraw: u64,
    min_interval: u64,
    idle_wait: u64,
    drawing: bool,
}

impl Scheduler {
    pub closed spec fn state(self) -> RedrawState {
        self.state
    }

    pub closed spec fn last_redraw(self) -> u64 {
        self.last_redraw
    }

    pub closed spec fn min_interval(self) -> u64 {
        self.min_interval
    }

    pub closed spec fn idle_wait(self) -> u64 {
        self.idle_wait
    }

    pub closed spec fn drawing(self) -> bool {
        self.drawing
    }

    /// Whether the minimum interval has passed at time `now` since the last frame.
    pub open spec fn interval_passed(self, now: u64) -> bool {
        now >= self.last_redraw() && now - self.last_redraw() >= self.min_interval()
    }

    /// A scheduler whose last frame was drawn at `now`. With `drawing` off it never asks for
    /// a frame.
    pub fn new(now: u64, min_interval: u64, idle_wait: u64, drawing: bool) -> (r: Scheduler)
        ensures
            r.state() == RedrawState::Idle,
            r.last_redraw() == now,
            r.min_interval() == min_interval,
            r.idle_wait() == idle_wait,
            r.drawing() == drawing,
    {
        Scheduler { state: RedrawState::Idle, last_redraw: now, min_interval, idle_wait, drawing }
    }

    /// How long the loop may sleep before the next timer event: the minimum interval while a
    /// frame is owed, else the idle wait.
    pub fn wait_ms(&self) -> (r: u64)
        ensures
            r == if self.state() == RedrawState::RedrawOwed {
                self.min_interval()
            } else {
                self.idle_wait()
            },
    {
        match self.state {
            RedrawState::RedrawOwed => self.min_interval,
            RedrawState::Idle => self.idle_wait,
        }
    }

    /// A line arrived at time `now` and was parsed: draw now if the interval has passed,
    /// else owe a frame.
    pub fn on_line(&mut self, now: u64) -> (r: RedrawAction)
        ensures
            final(self).min_interval() == old(self).min_interval(),
            final(self).idle_wait() == old(self).idle_wait(),
            final(self).drawing() == old(self).drawing(),
            !old(self).drawing() ==> r == RedrawAction::Wait && *final(self) == *old(self),
            old(self).drawing() && old(self).interval_passed(now) ==> r == RedrawAction::Redraw
                && final(self).state() == RedrawState::Idle && final(self).last_redraw() == now,
            old(self).drawing() && !old(self).interval_passed(now) ==> r == RedrawAction::Wait
                && final(self).state() == RedrawState::RedrawOwed && final(self).last_redraw()
                == old(self).last_redraw(),
    {
        if !self.drawing {
            return RedrawAction::Wait;
        }
        if now >= self.last_redraw && now - self.last_redraw >= self.min_interval {
            self.state = RedrawState::Idle;
            self.last_redraw = now;
            RedrawAction::Redraw
        } else {
            self.state = RedrawState::RedrawOwed;
            RedrawAction::Wait
        }
    }

    /// The wake timer fired at time `now`: an owed frame is drawn once the interval has
    /// passed; with nothing owed nothing happens.
    pub fn on_timer(&mut self, now: u64) -> (r: RedrawAction)
        ensures
            final(self).min_interval() == old(self).min_interval(),
            final(self).idle_wait() == old(self).idle_wait(),
            final(self).drawing() == old(self).drawing(),
            old(self).state() == RedrawState::RedrawOwed && old(self).interval_passed(now) ==> r
                == RedrawAction::Redraw && final(self).state() == RedrawState::Idle
                && final(self).last_redraw() == now,
            !(old(self).state() == RedrawState::RedrawOwed && old(self).interval_passed(now)) ==> r
                == RedrawAction::Wait && *final(self) == *old(self),
    {
        match self.state {
            RedrawState::RedrawOwed => {
                if now >= self.last_redraw && now - self.last_redraw >= self.min_interval {
                    self.state = RedrawState::Idle;
                    self.last_redraw = now;
                    RedrawAction::Redraw
                } else {
                    RedrawAction::Wait
                }
            },
            RedrawState::Idle => RedrawAction::Wait,
        }
    }
}

/// What an interrupt asks for.
#[derive(PartialEq, Eq, Structural, Clone, Copy, Debug)]
pub enum InterruptAction {
    /// Stop reading, draw the last frame and shut the readers down.
    GracefulStop,
    /// Exit at once.
    ForceExit,
}

/// Counts interrupts: the first asks for a graceful stop, every later one for an exit.
pub struct Interrupts {
    count: u64,
}

impl Interrupts {
    pub closed spec fn count(self) -> u64 {
        self.count
    }

    pub fn new() -> (r: Interrupts)
        ensures
            r.count() == 0,
    {
        Interrupts { count: 0 }
    }

    pub fn on_interrupt(&mut self) -> (r: InterruptAction)
        ensures
            final(self).count() == if old(self).count() < u64::MAX {
                old(self).count() + 1
            } else {
                old(self).count() as int
            },
            r == if old(self).count() == 0 {
                InterruptAction::GracefulStop
            } else {
                InterruptAction::ForceExit
            },
    {
        let first = self.count == 0;
        if self.count < u64::MAX {
            self.count = self.count + 1;
        }
        if first {
            InterruptAction::GracefulStop
        } else {
            InterruptAction::ForceExit
        }
    }
}

/// The number of rows of the last frame: the screen's rows less those kept for what is
/// printed after it, or none when that is more than the screen has.
pub fn final_rows(rows: usize, final_shrink: usize) -> (r: usize)
    ensures
        r == if rows >= final_shrink {
            rows - final_shrink
        } else {
            0
        },
{
    if rows >= final_shrink {
        rows - final_shrink
    } else {
        0
    }
}

} // verus!
