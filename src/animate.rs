use vstd::prelude::*;

verus! {

/// A message sent at the stages of a frame; each carries the time of the
/// stage, in microseconds from an origin that the frame source picks.
#[derive(Clone, Copy, PartialEq, Eq, Structural, Debug)]
pub enum FrameMsg {
    /// All events are processed and layout and paint may start.
    NewFrame(u64),
    /// Layout is done and the tree is ready to draw. It may come more than
    /// once in a frame if a listener causes a new layout.
    LayoutReady(u64),
    /// The frame's render data has been submitted.
    Finish(u64),
}

/// Whether one animation counts as running. The count of running
/// animations belongs to its owner and is handed in by `&mut`.
#[derive(Clone, Copy, PartialEq, Eq, Structural, Debug)]
pub struct AnimateTrack {
    pub actived: bool,
}

impl AnimateTrack {
    pub fn new() -> (t: AnimateTrack)
        ensures
            !t.actived,
    {
        AnimateTrack { actived: false }
    }

    /// Gives the track up: a running track leaves the count.
    pub fn release(self, actived_cnt: &mut u32)
        requires
            self.actived ==> *old(actived_cnt) > 0,
        ensures
            *final(actived_cnt) == (if self.actived {
                *old(actived_cnt) - 1
            } else {
                *old(actived_cnt) as int
            }),
    {
        if self.actived {
            *actived_cnt = *actived_cnt - 1;
        }
    }

    /// Switches the track on or off and keeps `actived_cnt` in step: it goes
    /// up by one when the track turns on and down by one when it turns off.
    pub fn set_actived(&mut self, actived: bool, actived_cnt: &mut u32)
        requires
            actived && !old(self).actived ==> *old(actived_cnt) < u32::MAX,
            !actived && old(self).actived ==> *old(actived_cnt) > 0,
        ensures
            final(self).actived == actived,
            *final(actived_cnt) == (if actived == old(self).actived {
                *old(actived_cnt) as int
            } else if actived {
                *old(actived_cnt) + 1
            } else {
                *old(actived_cnt) - 1
            }),
    {
        if self.actived == actived {
            return;
        }
        self.actived = actived;
        if actived {
            *actived_cnt = *actived_cnt + 1;
        } else {
            *actived_cnt = *actived_cnt - 1;
        }
    }
}

} // verus!
