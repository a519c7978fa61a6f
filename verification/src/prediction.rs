//! The client's prediction buffer: the commands that were applied locally
//! and that the server has not confirmed yet.

use vstd::prelude::*;
use vstd::relations::sorted_by;
use crate::components::Position;
use crate::message::{ClientCommand, CommandFrame};
use crate::queue::lemma_split_is_filter;
use crate::uid::Uid;

verus! {

/// A command that the client applied ahead of the server.
#[derive(Debug, Clone, Copy, PartialEq, Eq)]
pub struct PredictionEntry {
    /// The frame at which the command was issued.
    pub command_frame: CommandFrame,
    pub command: ClientCommand,
    /// The entity that the command moved.
    pub uid: Uid,
    /// Where the entity stood before the command.
    pub pre_state: Position,
}

/// Ordered by frame.
pub open spec fn in_frame_order() -> spec_fn(PredictionEntry, PredictionEntry) -> bool {
    |a: PredictionEntry, b: PredictionEntry| a.command_frame <= b.command_frame
}

/// The entries of the frame `frame` and of later frames.
pub open spec fn at_or_after(frame: int) -> spec_fn(PredictionEntry) -> bool {
    |entry: PredictionEntry| entry.command_frame >= frame
}

/// The entries of frames before `frame`.
pub open spec fn before(frame: int) -> spec_fn(PredictionEntry) -> bool {
    |entry: PredictionEntry| entry.command_frame < frame
}

/// The log of predicted commands, ordered by frame.
pub struct ClientCommandBuffer {
    entries: Vec<PredictionEntry>,
    horizon: u64,
}

impl ClientCommandBuffer {
    /// The predicted commands, earliest frame first.
    pub closed spec fn entries(&self) -> Seq<PredictionEntry> {
        self.entries@
    }

    /// The first frame that was not discarded: a command of an earlier
    /// frame is stale.
    pub closed spec fn horizon(&self) -> nat {
        self.horizon as nat
    }

    /// The log is ordered by frame and holds no frame below the horizon.
    pub closed spec fn wf(&self) -> bool {
        &&& self.horizon <= CommandFrame::MAX + 1
        &&& sorted_by(self.entries@, in_frame_order())
        &&& forall|i: int|
            0 <= i < self.entries@.len() ==> (#[trigger] self.entries@[i]).command_frame
                >= self.horizon
    }

    /// A well-formed log is ordered by frame, from the horizon upwards.
    pub proof fn lemma_ordered(&self)
        requires
            self.wf(),
        ensures
            sorted_by(self.entries(), in_frame_order()),
            forall|i: int|
                0 <= i < self.entries().len() ==> (#[trigger] self.entries()[i]).command_frame
                    >= self.horizon(),
    {
    }

    pub fn new() -> (r: ClientCommandBuffer)
        ensures
            r.wf(),
            r.entries() == Seq::<PredictionEntry>::empty(),
            r.horizon() == 0,
    {
        ClientCommandBuffer { entries: Vec::new(), horizon: 0 }
    }

    /// The number of predicted commands.
    pub fn len(&self) -> (r: usize)
        ensures
            r == self.entries().len(),
    {
        self.entries.len()
    }

    /// Whether a command of the frame `frame` can be recorded: the frame
    /// was not discarded, and no later frame was recorded.
    pub open spec fn admits(&self, frame: CommandFrame) -> bool {
        &&& frame >= self.horizon()
        &&& self.entries().len() > 0 ==> frame >= self.entries().last().command_frame
    }

    /// Records a command that was applied locally at the frame `frame` to
    /// the entity `uid`, which stood at `pre_state`. A stale command is
    /// dropped. Answers whether the command was recorded.
    pub fn record(&mut self, frame: CommandFrame, command: ClientCommand, uid: Uid, pre_state: Position) -> (r: bool)
        requires
            old(self).wf(),
        ensures
            final(self).wf(),
            final(self).horizon() == old(self).horizon(),
            r == old(self).admits(frame),
            final(self).entries() == if r {
                old(self).entries().push(
                    PredictionEntry { command_frame: frame, command, uid, pre_state },
                )
            } else {
                old(self).entries()
            },
    {
        if (frame as u64) < self.horizon {
            return false;
        }
        let count: usize = self.entries.len();
        if count > 0 && frame < self.entries[count - 1].command_frame {
            return false;
        }
        let ghost before = self.entries@;
        self.entries.push(PredictionEntry { command_frame: frame, command, uid, pre_state });
        proof {
            let after = self.entries@;
            assert forall|i: int, j: int| 0 <= i < j < after.len() implies #[trigger] in_frame_order()(
                after[i],
                after[j],
            ) by {
                if j < before.len() {
                    assert(in_frame_order()(before[i], before[j]));
                } else if i < before.len() - 1 {
                    assert(in_frame_order()(before[i], before[before.len() - 1]));
                }
            }
        }
        true
    }

    fn first_at_or_after(&self, frame: u64) -> (k: usize)
        requires
            self.wf(),
        ensures
            k <= self.entries().len(),
            self.entries().filter(before(frame as int)) == self.entries().take(k as int),
            self.entries().filter(at_or_after(frame as int)) == self.entries().skip(k as int),
    {
        let mut k: usize = 0;
        while k < self.entries.len() && (self.entries[k].command_frame as u64) < frame
            invariant
                k <= self.entries@.len(),
                forall|i: int| 0 <= i < k ==> (#[trigger] self.entries@[i]).command_frame < frame,
            decreases self.entries@.len() - k,
        {
            k += 1;
        }
        proof {
            let entries = self.entries@;
            assert forall|i: int| k <= i < entries.len() implies (#[trigger] entries[i]).command_frame
                >= frame by {
                if i > k {
                    assert(in_frame_order()(entries[k as int], entries[i]));
                }
            }
            lemma_split_is_filter(entries, before(frame as int), at_or_after(frame as int), k as int);
        }
        k
    }

    /// The predicted commands of the frame `frame` and of later frames, in
    /// order: what a resimulation replays.
    pub fn commands_at_or_after(&self, frame: CommandFrame) -> (r: Vec<PredictionEntry>)
        requires
            self.wf(),
        ensures
            r@ == self.entries().filter(at_or_after(frame as int)),
    {
        let start = self.first_at_or_after(frame as u64);
        let mut out: Vec<PredictionEntry> = Vec::new();
        let mut i: usize = start;
        while i < self.entries.len()
            invariant
                start <= i <= self.entries@.len(),
                out@ == self.entries@.subrange(start as int, i as int),
            decreases self.entries@.len() - i,
        {
            out.push(self.entries[i]);
            assert(out@ =~= self.entries@.subrange(start as int, i as int + 1));
            i += 1;
        }
        assert(out@ =~= self.entries@.skip(start as int));
        out
    }

    /// Drops the predicted commands up to and with the frame `frame`, which
    /// the server has confirmed. No command of such a frame is recorded
    /// from now on.
    pub fn discard_up_to(&mut self, frame: CommandFrame)
        requires
            old(self).wf(),
        ensures
            final(self).wf(),
            final(self).entries() == old(self).entries().filter(at_or_after(frame + 1)),
            final(self).horizon() == if frame + 1 > old(self).horizon() {
                (frame + 1) as nat
            } else {
                old(self).horizon()
            },
    {
        let ghost before = self.entries@;
        let start = self.first_at_or_after(frame as u64 + 1);
        let mut rest = self.entries.split_off(start);
        std::mem::swap(&mut rest, &mut self.entries);
        if frame as u64 + 1 > self.horizon {
            self.horizon = frame as u64 + 1;
        }
        proof {
            let after = self.entries@;
            assert(after =~= before.skip(start as int));
            assert forall|i: int, j: int| 0 <= i < j < after.len() implies #[trigger] in_frame_order()(
                after[i],
                after[j],
            ) by {
                assert(in_frame_order()(before[start + i], before[start + j]));
            }
            assert forall|i: int| 0 <= i < after.len() implies (#[trigger] after[i]).command_frame
                >= self.horizon by {
                assert(after[i] == before[start + i]);
                crate::queue::lemma_filtered_came_from(before, at_or_after(frame + 1), i);
            }
        }
    }
}

} // verus!
