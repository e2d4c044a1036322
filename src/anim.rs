//! Motion phase of a unit and the sprite-frame sequences that show it.

use vstd::prelude::*;

use crate::utils::Direction;

verus! {

/// How an animation walks through its frames.
#[derive(Debug, Clone, Copy, PartialEq, Eq, Structural)]
pub enum AnimationMode {
    /// Back to the first frame after the last one.
    Loop,
    /// Back and forth; the flag tells whether it currently goes forward.
    Zip(bool),
    /// Stays on the last frame once reached.
    Stop,
}

/// A non-empty sequence of sprite indices and the position reached in it.
pub struct Animation {
    current_frame: usize,
    mode: AnimationMode,
    frames: Vec<usize>,
}

/// The position and mode that follow `(i, mode)` in an animation of `len`
/// frames.
pub open spec fn frame_step(i: int, mode: AnimationMode, len: int) -> (int, AnimationMode) {
    match mode {
        AnimationMode::Loop => ((i + 1) % len, mode),
        AnimationMode::Stop => (if i + 1 < len - 1 { i + 1 } else { len - 1 }, mode),
        AnimationMode::Zip(forward) => {
            let (res, turn_at) = if forward {
                ((i + 1) % len, len - 1)
            } else {
                (if i == 0 { 0 } else { i - 1 }, 0)
            };
            (res, if res == turn_at { AnimationMode::Zip(!forward) } else { mode })
        },
    }
}

impl Animation {
    /// The sprite indices, in order.
    pub closed spec fn frame_seq(&self) -> Seq<usize> {
        self.frames@
    }

    /// The position reached in the frames.
    pub closed spec fn position(&self) -> int {
        self.current_frame as int
    }

    pub closed spec fn mode_of(&self) -> AnimationMode {
        self.mode
    }

    /// At least one frame, and the position is one of them.
    pub open spec fn wf(&self) -> bool {
        0 < self.frame_seq().len() && 0 <= self.position() < self.frame_seq().len()
    }

    /// An animation over `frames`, at its first frame. An empty frame list
    /// is malformed data and is refused by the precondition.
    pub fn new(mode: AnimationMode, frames: Vec<usize>) -> (r: Self)
        requires
            frames.len() > 0,
        ensures
            r.wf(),
            r.frame_seq() == frames@,
            r.position() == 0,
            r.mode_of() == mode,
    {
        Self { current_frame: 0, mode, frames }
    }

    /// Moves to the next frame as the mode says. Going backwards from the
    /// first frame stays on it, and turns forward again.
    pub fn change_frame(&mut self)
        requires
            old(self).wf(),
        ensures
            final(self).wf(),
            final(self).frame_seq() == old(self).frame_seq(),
            (final(self).position(), final(self).mode_of()) == frame_step(
                old(self).position(),
                old(self).mode_of(),
                old(self).frame_seq().len() as int,
            ),
    {
        let len = self.frame_count();
        let i = self.current_frame;
        match self.mode {
            AnimationMode::Loop => {
                self.current_frame = (i + 1) % len;
            },
            AnimationMode::Stop => {
                self.current_frame = if i + 1 < len - 1 { i + 1 } else { len - 1 };
            },
            AnimationMode::Zip(forward) => {
                let (res, turn_at) = if forward {
                    ((i + 1) % len, len - 1)
                } else {
                    (if i == 0 { 0 } else { i - 1 }, 0)
                };
                if res == turn_at {
                    self.mode = AnimationMode::Zip(!forward);
                }
                self.current_frame = res;
            },
        }
    }

    /// The sprite index shown now.
    pub fn current_frame(&self) -> (r: usize)
        requires
            self.wf(),
        ensures
            r == self.frame_seq()[self.position()],
    {
        self.frames[self.current_frame]
    }

    /// Whether a `Stop` animation has reached its last frame.
    pub fn is_stopped(&self) -> (r: bool)
        requires
            self.wf(),
        ensures
            r == (self.mode_of() == AnimationMode::Stop && self.position()
                == self.frame_seq().len() - 1),
    {
        self.mode == AnimationMode::Stop && self.current_frame == self.frame_count() - 1
    }

    pub fn frame_count(&self) -> (r: usize)
        ensures
            r == self.frame_seq().len(),
    {
        self.frames.len()
    }
}

/// The motion phase of a unit and its facing.
#[derive(Debug, Clone, Copy, PartialEq, Eq, Structural)]
pub enum UnitState {
    Still(Direction),
    Moving(Direction),
}

/// The sprite indices that show state `s`.
pub open spec fn frames_of(s: UnitState) -> Seq<usize> {
    match s {
        UnitState::Still(Direction::Down) => seq![1],
        UnitState::Still(Direction::Right) => seq![7],
        UnitState::Still(Direction::Up) => seq![10],
        UnitState::Still(Direction::Left) => seq![4],
        UnitState::Moving(Direction::Down) => seq![1, 2, 1, 0],
        UnitState::Moving(Direction::Right) => seq![7, 8, 7, 6],
        UnitState::Moving(Direction::Up) => seq![10, 11, 10, 9],
        UnitState::Moving(Direction::Left) => seq![4, 5, 4, 3],
    }
}

impl UnitState {
    pub fn is_still(&self) -> (r: bool)
        ensures
            r == (*self is Still),
    {
        match self {
            Self::Still(_) => true,
            _ => false,
        }
    }

    /// The looping animation that shows this state.
    pub fn get_animation(&self) -> (r: Animation)
        ensures
            r.wf(),
            r.frame_seq() == frames_of(*self),
            r.position() == 0,
            r.mode_of() == AnimationMode::Loop,
    {
        let frames = match self {
            Self::Still(Direction::Down) => vec![1],
            Self::Still(Direction::Right) => vec![7],
            Self::Still(Direction::Up) => vec![10],
            Self::Still(Direction::Left) => vec![4],
            Self::Moving(Direction::Down) => vec![1, 2, 1, 0],
            Self::Moving(Direction::Right) => vec![7, 8, 7, 6],
            Self::Moving(Direction::Up) => vec![10, 11, 10, 9],
            Self::Moving(Direction::Left) => vec![4, 5, 4, 3],
        };
        proof {
            assert(frames@ =~= frames_of(*self));
        }
        Animation::new(AnimationMode::Loop, frames)
    }
}

impl Default for UnitState {
    fn default() -> (r: Self)
        ensures
            r == UnitState::Still(Direction::Down),
    {
        Self::Still(Direction::Down)
    }
}

} // verus!
