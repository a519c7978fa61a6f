//! The command-frame clock, and the offset that relates the clocks of two
//! peers.

use vstd::prelude::*;
use crate::message::CommandFrame;

verus! {

/// Counts the fixed simulation ticks of one peer.
#[derive(Debug, Clone, Copy)]
pub struct CommandFrameTicker {
    command_frame: CommandFrame,
    interval: u32,
}

impl CommandFrameTicker {
    pub closed spec fn spec_command_frame(&self) -> CommandFrame {
        self.command_frame
    }

    /// The least time, in milliseconds, between two ticks.
    pub closed spec fn interval(&self) -> u32 {
        self.interval
    }

    /// A clock at frame 0 that ticks every `interval` milliseconds.
    pub fn new(interval: u32) -> (r: CommandFrameTicker)
        ensures
            r.command_frame() == 0,
            r.interval() == interval,
    {
        CommandFrameTicker { command_frame: 0, interval }
    }

    /// The current command frame.
    #[verifier::when_used_as_spec(spec_command_frame)]
    pub fn command_frame(&self) -> (r: CommandFrame)
        ensures
            r == self.spec_command_frame(),
    {
        self.command_frame
    }

    /// Moves the clock on by one frame.
    pub fn advance(&mut self)
        requires
            old(self).command_frame() < CommandFrame::MAX,
        ensures
            final(self).command_frame() == old(self).command_frame() + 1,
            final(self).interval() == old(self).interval(),
    {
        self.command_frame = self.command_frame + 1;
    }

    /// Moves the clock on by one frame where `elapsed` milliseconds since
    /// the last tick make up an interval, and says whether it did. However
    /// long the time, it is one frame; at the last frame the clock stays.
    pub fn try_tick(&mut self, elapsed: u32) -> (r: bool)
        ensures
            r == (elapsed >= old(self).interval() && old(self).command_frame()
                < CommandFrame::MAX),
            final(self).command_frame() == if r {
                (old(self).command_frame() + 1) as CommandFrame
            } else {
                old(self).command_frame()
            },
            final(self).interval() == old(self).interval(),
    {
        if elapsed >= self.interval && self.command_frame < CommandFrame::MAX {
            self.advance();
            true
        } else {
            false
        }
    }
}

/// The fixed distance between the clock of a peer and the clock of the
/// server: a frame `n` of the peer is the frame `n + delta` of the server.
#[derive(Debug, Clone, Copy, PartialEq, Eq)]
pub struct FrameOffset {
    delta: i64,
}

impl FrameOffset {
    pub closed spec fn delta(&self) -> int {
        self.delta as int
    }

    /// The distance as a number.
    pub fn raw(&self) -> (r: i64)
        ensures
            r == self.delta(),
    {
        self.delta
    }

    /// The distance never exceeds the range of the frame counter.
    pub closed spec fn wf(&self) -> bool {
        -(CommandFrame::MAX as int) <= self.delta <= CommandFrame::MAX as int
    }

    /// The offset under which the frame `local` of the peer falls on the
    /// frame `remote` of the server.
    pub fn between(local: CommandFrame, remote: CommandFrame) -> (r: FrameOffset)
        ensures
            r.wf(),
            r.delta() == remote - local,
    {
        FrameOffset { delta: remote as i64 - local as i64 }
    }

    /// The server's frame for the peer's frame `local`, if the counter can
    /// hold it.
    pub fn to_remote(&self, local: CommandFrame) -> (r: Option<CommandFrame>)
        requires
            self.wf(),
        ensures
            r.is_some() == (0 <= local + self.delta() <= CommandFrame::MAX),
            r.is_some() ==> r.unwrap() == local + self.delta(),
    {
        let shifted: i64 = local as i64 + self.delta;
        if 0 <= shifted && shifted <= CommandFrame::MAX as i64 {
            Some(shifted as CommandFrame)
        } else {
            None
        }
    }

    /// The peer's frame for the server's frame `remote`, if the counter can
    /// hold it.
    pub fn to_local(&self, remote: CommandFrame) -> (r: Option<CommandFrame>)
        requires
            self.wf(),
        ensures
            r.is_some() == (0 <= remote - self.delta() <= CommandFrame::MAX),
            r.is_some() ==> r.unwrap() == remote - self.delta(),
    {
        let shifted: i64 = remote as i64 - self.delta;
        if 0 <= shifted && shifted <= CommandFrame::MAX as i64 {
            Some(shifted as CommandFrame)
        } else {
            None
        }
    }
}

} // verus!
