//! Animation tags of sprite sheets: which frame an animation starts and
//! ends on, which frame follows which, and what happens when a frame's time
//! runs out.
use vstd::prelude::*;

verus! {

/// The index of a tag in a sprite sheet.
#[derive(Debug, Clone, Copy, Default, PartialEq, Eq, Structural, PartialOrd, Ord, Hash)]
pub struct TagId(pub u32);

/// The index of a frame in a sprite sheet.
#[derive(Debug, Clone, Copy, Default, PartialEq, Eq, Structural, PartialOrd, Ord, Hash)]
pub struct FrameId(pub u32);

/// The order in which a tag plays its frames.
#[derive(Debug, Clone, Copy, PartialEq, Eq, Structural)]
pub enum Direction {
    Forward,
    Reverse,
    Pingpong,
}

/// A named run of frames `from..=to` of a sprite sheet.
#[derive(Debug, Clone)]
pub struct Tag {
    pub name: String,
    pub from: u32,
    pub to: u32,
    pub direction: Direction,
}

/// The frame that follows another.
#[derive(Debug, Clone, Copy, PartialEq, Eq, Structural)]
pub enum NextFrame {
    /// Just the next frame.
    Stepped(FrameId),
    /// The frame the animation goes back to when it loops.
    Wrapped(FrameId),
}

/// The inputs on which `Tag::next_frame` is defined: no step runs past the
/// ends of `u32`, and a ping-pong tag is asked only at a frame it holds.
pub open spec fn next_frame_defined(tag: Tag, current: u32) -> bool {
    match tag.direction {
        Direction::Forward => current != tag.to ==> current < u32::MAX,
        Direction::Reverse => current != tag.from ==> current > 0,
        Direction::Pingpong => (current == tag.to && tag.to > 0) || (current != tag.to && current
            == tag.from && tag.from < u32::MAX) || (tag.from < current && current < tag.to),
    }
}

/// The frame after `current` in `tag`: `Ok` with the next frame, or `Err`
/// with the frame the animation wraps around to when it would loop.
pub open spec fn spec_next_frame(tag: Tag, current: u32) -> Result<FrameId, FrameId> {
    match tag.direction {
        Direction::Forward => if current == tag.to {
            Err(FrameId(tag.from))
        } else {
            Ok(FrameId((current + 1) as u32))
        },
        Direction::Reverse => if current == tag.from {
            Err(FrameId(tag.to))
        } else {
            Ok(FrameId((current - 1) as u32))
        },
        Direction::Pingpong => if current == tag.to {
            Err(FrameId(if tag.to - 1 >= tag.from { (tag.to - 1) as u32 } else { tag.from }))
        } else if current == tag.from {
            Err(FrameId(if tag.from + 1 <= tag.to { (tag.from + 1) as u32 } else { tag.to }))
        } else {
            Ok(FrameId((current + 1) as u32))
        },
    }
}

impl Tag {
    /// The frame the tag starts on: `from`, or `to` when it plays in reverse.
    pub fn first_frame(&self) -> (r: FrameId)
        ensures
            r == FrameId(
                if self.direction == Direction::Reverse {
                    self.to
                } else {
                    self.from
                },
            ),
    {
        match self.direction {
            Direction::Forward | Direction::Pingpong => FrameId(self.from),
            Direction::Reverse => FrameId(self.to),
        }
    }

    /// The frame the tag ends on: `to`, or `from` when it plays in reverse.
    pub fn last_frame(&self) -> (r: FrameId)
        ensures
            r == FrameId(
                if self.direction == Direction::Reverse {
                    self.from
                } else {
                    self.to
                },
            ),
    {
        match self.direction {
            Direction::Forward | Direction::Pingpong => FrameId(self.to),
            Direction::Reverse => FrameId(self.from),
        }
    }

    /// The frame after `current`: `Ok` with the next frame, or `Err` with
    /// the frame the animation goes back to when this step would loop it.
    /// A ping-pong tag turns at both ends, and between them steps on to the
    /// next frame without looping.
    pub fn next_frame(&self, current: FrameId) -> (r: Result<FrameId, FrameId>)
        requires
            next_frame_defined(*self, current.0),
        ensures
            r == spec_next_frame(*self, current.0),
    {
        let FrameId(current) = current;
        match self.direction {
            Direction::Forward => {
                if current == self.to {
                    Err(FrameId(self.from))
                } else {
                    Ok(FrameId(current + 1))
                }
            },
            Direction::Reverse => {
                if current == self.from {
                    Err(FrameId(self.to))
                } else {
                    Ok(FrameId(current - 1))
                }
            },
            Direction::Pingpong => {
                if current == self.to {
                    let back = self.to - 1;
                    Err(FrameId(
                        if back >= self.from {
                            back
                        } else {
                            self.from
                        },
                    ))
                } else if current == self.from {
                    let on = self.from + 1;
                    Err(FrameId(
                        if on <= self.to {
                            on
                        } else {
                            self.to
                        },
                    ))
                } else {
                    Ok(FrameId(current + 1))
                }
            },
        }
    }
}

/// What an animation does when its frame's time runs out.
#[derive(Debug, Clone, Copy, PartialEq, Eq, Structural)]
pub enum Advance {
    /// Show this frame next, for its own duration.
    Show(FrameId),
    /// Stop on this frame: the animation ended and does not loop.
    Pause(FrameId),
}

/// What an animation at `current` in `tag` does when the frame's time runs
/// out: it pauses on the tag's last frame where it would loop and
/// `should_loop` is off; else it shows the next frame, or the frame it
/// wraps around to.
pub fn advance(tag: &Tag, current: FrameId, should_loop: bool) -> (r: Advance)
    requires
        next_frame_defined(*tag, current.0),
    ensures
        r == advance_outcome(*tag, current.0, should_loop),
{
    match tag.next_frame(current) {
        Err(_) if !should_loop => Advance::Pause(tag.last_frame()),
        Ok(f) => Advance::Show(f),
        Err(f) => Advance::Show(f),
    }
}

/// Laws of stepping through a tag. A forward tag steps from each frame below
/// its last to the very next one and wraps from its last frame to its first;
/// a reverse tag steps from each frame above its first to the one before
/// and wraps from its first frame to its last; so stepping visits every
/// frame of the tag, in order, before it wraps. A ping-pong tag turns at its
/// ends and steps on between them.
pub proof fn lemma_next_frame_steps(tag: Tag, c: u32)
    requires
        next_frame_defined(tag, c),
    ensures
        tag.direction == Direction::Forward && tag.from <= c && c < tag.to ==> spec_next_frame(tag, c)
            == Ok::<FrameId, FrameId>(FrameId((c + 1) as u32)),
        tag.direction == Direction::Forward && c == tag.to ==> spec_next_frame(tag, c) == Err::<
            FrameId,
            FrameId,
        >(FrameId(tag.from)),
        tag.direction == Direction::Reverse && tag.from < c && c <= tag.to ==> spec_next_frame(tag, c)
            == Ok::<FrameId, FrameId>(FrameId((c - 1) as u32)),
        tag.direction == Direction::Reverse && c == tag.from ==> spec_next_frame(tag, c) == Err::<
            FrameId,
            FrameId,
        >(FrameId(tag.to)),
        tag.direction == Direction::Pingpong && tag.from < c && c < tag.to ==> spec_next_frame(tag, c)
            == Ok::<FrameId, FrameId>(FrameId((c + 1) as u32)),
        tag.direction == Direction::Pingpong && c == tag.to && tag.from < tag.to ==> spec_next_frame(tag, c)
            == Err::<FrameId, FrameId>(FrameId((tag.to - 1) as u32)),
        tag.direction == Direction::Pingpong && c == tag.from && tag.from < tag.to ==> spec_next_frame(
            tag,
            c,
        ) == Err::<FrameId, FrameId>(FrameId((tag.from + 1) as u32)),
{
}

/// The outcome that `advance` promises for `tag` at `c`.
pub open spec fn advance_outcome(tag: Tag, c: u32, should_loop: bool) -> Advance {
    match spec_next_frame(tag, c) {
        Ok(f) => Advance::Show(f),
        Err(f) => if should_loop {
            Advance::Show(f)
        } else {
            Advance::Pause(FrameId(if tag.direction == Direction::Reverse { tag.from } else { tag.to }))
        },
    }
}

/// While an animation has not reached the end of its tag, `advance` shows the
/// frame right after the current one (before it, for a reverse tag), whether
/// or not it loops; at the end it goes back to the first frame when it
/// loops, and else pauses on the last one.
pub proof fn lemma_advance_steps(tag: Tag, c: u32, should_loop: bool)
    requires
        next_frame_defined(tag, c),
    ensures
        tag.direction == Direction::Forward && tag.from <= c && c < tag.to ==> advance_outcome(tag, c, should_loop)
            == Advance::Show(FrameId((c + 1) as u32)),
        tag.direction == Direction::Reverse && tag.from < c && c <= tag.to ==> advance_outcome(tag, c, should_loop)
            == Advance::Show(FrameId((c - 1) as u32)),
        tag.direction == Direction::Forward && c == tag.to ==> advance_outcome(tag, c, should_loop) == if should_loop {
            Advance::Show(FrameId(tag.from))
        } else {
            Advance::Pause(FrameId(tag.to))
        },
        tag.direction == Direction::Reverse && c == tag.from ==> advance_outcome(tag, c, should_loop) == if should_loop {
            Advance::Show(FrameId(tag.to))
        } else {
            Advance::Pause(FrameId(tag.from))
        },
{
}
} // verus!
