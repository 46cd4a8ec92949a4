use vstd::prelude::*;

verus! {

/// A run of sprite frames `start_index..=end_index` and the frame now shown.
#[derive(Clone, Copy, PartialEq, Eq, Structural, Debug)]
pub struct AnimationRange {
    pub start_index: u32,
    pub end_index: u32,
    pub current_index: u32,
}

impl AnimationRange {
    /// The play cursor lies within the run.
    pub open spec fn wf(&self) -> bool {
        self.start_index <= self.current_index <= self.end_index
    }

    /// An animation over `start_index..=end_index`, at its first frame.
    pub fn from_start_end(start_index: u32, end_index: u32) -> (r: AnimationRange)
        ensures
            r.start_index == start_index,
            r.end_index == end_index,
            r.current_index == start_index,
    {
        AnimationRange { start_index, end_index, current_index: start_index }
    }

    /// Moves the play cursor back to the first frame.
    pub fn reset(&mut self)
        ensures
            *final(self) == (AnimationRange { current_index: old(self).start_index, ..*old(self) }),
    {
        self.current_index = self.start_index;
    }

    /// Steps to the next frame. At the last frame, a looping animation starts
    /// over and another one stays there. A cursor past the last frame keeps
    /// counting up, so it must not sit at the largest index.
    pub fn advance(&mut self, should_loop: bool)
        requires
            old(self).current_index < u32::MAX || old(self).current_index == old(self).end_index,
        ensures
            old(self).wf() ==> final(self).wf(),
            final(self).start_index == old(self).start_index,
            final(self).end_index == old(self).end_index,
            final(self).current_index == if old(self).current_index == old(self).end_index {
                if should_loop {
                    old(self).start_index
                } else {
                    old(self).end_index
                }
            } else {
                (old(self).current_index + 1) as u32
            },
    {
        if self.current_index == self.end_index {
            if should_loop {
                self.reset();
            }
        } else {
            self.current_index += 1;
        }
    }

    /// Returns the frame to show now, then advances.
    pub fn step(&mut self, should_loop: bool) -> (shown: u32)
        requires
            old(self).current_index < u32::MAX || old(self).current_index == old(self).end_index,
        ensures
            shown == old(self).current_index,
            old(self).wf() ==> final(self).wf(),
            final(self).start_index == old(self).start_index,
            final(self).end_index == old(self).end_index,
            final(self).current_index == if old(self).current_index == old(self).end_index {
                if should_loop {
                    old(self).start_index
                } else {
                    old(self).end_index
                }
            } else {
                (old(self).current_index + 1) as u32
            },
    {
        let shown = self.current_index;
        self.advance(should_loop);
        shown
    }
}

} // verus!
