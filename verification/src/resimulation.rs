//! Reconciliation of the client's predicted state with a correction from
//! the server: the predicted commands from the corrected frame on are
//! replayed on top of the authoritative value.

use vstd::prelude::*;
use crate::apply_command;
use crate::components::Position;
use crate::message::{ClientCommand, CommandFrame};
use crate::next_position;
use crate::prediction::{at_or_after, ClientCommandBuffer, PredictionEntry};
use crate::transport::{stamped_command, StampedCommand};
use crate::uid::Uid;

verus! {

/// Where a position gets to by a sequence of commands, applied in order.
pub open spec fn after_commands(position: Position, commands: Seq<ClientCommand>) -> Position
    decreases commands.len(),
{
    if commands.len() == 0 {
        position
    } else {
        next_position(commands.last(), after_commands(position, commands.drop_last()))
    }
}

/// The command of a predicted entry.
pub open spec fn command_of() -> spec_fn(PredictionEntry) -> ClientCommand {
    |entry: PredictionEntry| entry.command
}

/// The entries that moved the entity `uid`.
pub open spec fn of_entity(uid: Uid) -> spec_fn(PredictionEntry) -> bool {
    |entry: PredictionEntry| entry.uid == uid
}

/// Where the replay of `entries` on top of `baseline` gets to.
pub open spec fn replayed(baseline: Position, entries: Seq<PredictionEntry>) -> Position {
    after_commands(baseline, entries.map_values(command_of()))
}

/// The predicted commands that a correction of the entity `uid` at the
/// frame `frame` invalidates: those of the entity from that frame on.
pub open spec fn invalidated(entries: Seq<PredictionEntry>, uid: Uid, frame: CommandFrame) -> Seq<
    PredictionEntry,
> {
    entries.filter(at_or_after(frame as int)).filter(of_entity(uid))
}

/// Applying commands one run after another is applying them in one run.
pub proof fn lemma_after_commands_split(
    position: Position,
    first: Seq<ClientCommand>,
    second: Seq<ClientCommand>,
)
    ensures
        after_commands(position, first + second) == after_commands(
            after_commands(position, first),
            second,
        ),
    decreases second.len(),
{
    if second.len() == 0 {
        assert(first + second =~= first);
    } else {
        lemma_after_commands_split(position, first, second.drop_last());
        assert((first + second).drop_last() =~= first + second.drop_last());
    }
}

/// A client has predicted the commands `commands` from the position
/// `start`, one after another, when a correction arrives for the point
/// after the first `k` of them. The replay of the commands that are left,
/// `pending`, then gets to where the server gets by applying the same
/// commands, `on_server`, to the corrected position. And where the
/// correction is what the client had predicted for that point, the replay
/// gets to what the client had predicted for the end.
pub proof fn lemma_resimulation_converges(
    start: Position,
    commands: Seq<ClientCommand>,
    k: int,
    correction: Position,
    pending: Seq<PredictionEntry>,
    on_server: Seq<StampedCommand>,
)
    requires
        0 <= k <= commands.len(),
        pending.map_values(command_of()) == commands.skip(k),
        on_server.map_values(stamped_command()) == commands.skip(k),
    ensures
        replayed(correction, pending) == after_commands(
            correction,
            on_server.map_values(stamped_command()),
        ),
        correction == after_commands(start, commands.take(k)) ==> replayed(correction, pending)
            == after_commands(start, commands),
{
    lemma_after_commands_split(start, commands.take(k), commands.skip(k));
    assert(commands.take(k) + commands.skip(k) =~= commands);
}

/// The two states of the resimulation engine.
#[derive(Debug, Clone, Copy, PartialEq, Eq, Structural)]
pub enum ResimulationState {
    Idle,
    Resimulating,
}

/// What a resimulation replayed: the frames it spans and the commands.
#[derive(Debug, PartialEq, Eq)]
pub struct ResimulationEntry {
    pub start_command_frame: CommandFrame,
    pub end_command_frame: CommandFrame,
    pub to_resimulate: Vec<PredictionEntry>,
}

/// The resimulations that were run and not yet reported.
pub struct ResimulationBuffer {
    pub entries: Vec<ResimulationEntry>,
}

impl ResimulationBuffer {
    pub fn new() -> (r: ResimulationBuffer)
        ensures
            r.entries@.len() == 0,
    {
        ResimulationBuffer { entries: Vec::new() }
    }

    /// The number of resimulations that wait to be reported.
    pub fn len(&self) -> (r: usize)
        ensures
            r == self.entries@.len(),
    {
        self.entries.len()
    }

    /// Files a resimulation for the report.
    pub fn push(&mut self, entry: ResimulationEntry)
        ensures
            final(self).entries@ == old(self).entries@.push(entry),
    {
        self.entries.push(entry);
    }
}

/// What the engine made of a correction.
#[derive(Debug, Clone, Copy, PartialEq, Eq)]
pub enum CorrectionOutcome {
    /// A newer correction had been applied: this one changed nothing.
    Discarded,
    /// No predicted command was invalidated: the entity stands where the
    /// server put it.
    Applied(Position),
    /// The invalidated commands were replayed: the entity stands where the
    /// replay got to.
    Resimulated(Position),
}

/// How the engine takes up a correction.
#[derive(Debug, Clone, Copy, PartialEq, Eq, Structural)]
pub enum Decision {
    /// A newer correction had been applied.
    Discard,
    /// No predicted command is invalidated.
    ApplyDirectly,
    /// The engine has begun to resimulate.
    Resimulate,
}

/// The resimulation engine of one predicted entity.
pub struct ResimulationEngine {
    state: ResimulationState,
    newest: Option<CommandFrame>,
    start: CommandFrame,
    end: CommandFrame,
    baseline: Position,
    pending: Vec<PredictionEntry>,
}

impl ResimulationEngine {
    pub closed spec fn spec_state(&self) -> ResimulationState {
        self.state
    }

    /// The frame of the newest correction that was taken up.
    pub closed spec fn newest(&self) -> Option<CommandFrame> {
        self.newest
    }

    /// While resimulating: the commands to replay.
    pub closed spec fn pending(&self) -> Seq<PredictionEntry> {
        self.pending@
    }

    /// While resimulating: the corrected position on which to replay.
    pub closed spec fn baseline(&self) -> Position {
        self.baseline
    }

    /// While resimulating: the corrected frame and the client's frame.
    pub closed spec fn range(&self) -> (CommandFrame, CommandFrame) {
        (self.start, self.end)
    }

    /// The engine resimulates exactly while it has commands to replay.
    pub closed spec fn wf(&self) -> bool {
        (self.state == ResimulationState::Resimulating) == (self.pending@.len() > 0)
    }

    /// Whether a correction for the frame `frame` comes after a newer one.
    pub open spec fn is_stale(&self, frame: CommandFrame) -> bool {
        self.newest().is_some() && frame < self.newest().unwrap()
    }

    pub fn new() -> (r: ResimulationEngine)
        ensures
            r.wf(),
            r.state() == ResimulationState::Idle,
            r.newest().is_none(),
    {
        ResimulationEngine {
            state: ResimulationState::Idle,
            newest: None,
            start: 0,
            end: 0,
            baseline: Position { x: 0, y: 0 },
            pending: Vec::new(),
        }
    }

    #[verifier::when_used_as_spec(spec_state)]
    pub fn state(&self) -> (r: ResimulationState)
        ensures
            r == self.spec_state(),
    {
        self.state
    }

    /// Takes up the correction of the entity `uid` to `authoritative` at
    /// the frame `frame`, while the client is at the frame `current_frame`.
    /// The engine begins to resimulate where predicted commands of the
    /// entity exist from that frame on.
    pub fn begin(
        &mut self,
        buffer: &ClientCommandBuffer,
        uid: Uid,
        frame: CommandFrame,
        authoritative: Position,
        current_frame: CommandFrame,
    ) -> (r: Decision)
        requires
            old(self).wf(),
            old(self).state() == ResimulationState::Idle,
            buffer.wf(),
        ensures
            final(self).wf(),
            r == if old(self).is_stale(frame) {
                Decision::Discard
            } else if invalidated(buffer.entries(), uid, frame).len() == 0 {
                Decision::ApplyDirectly
            } else {
                Decision::Resimulate
            },
            final(self).newest() == if r == Decision::Discard {
                old(self).newest()
            } else {
                Some(frame)
            },
            final(self).state() == if r == Decision::Resimulate {
                ResimulationState::Resimulating
            } else {
                ResimulationState::Idle
            },
            r == Decision::Resimulate ==> final(self).pending() == invalidated(
                buffer.entries(),
                uid,
                frame,
            ) && final(self).baseline() == authoritative && final(self).range() == (
                frame,
                current_frame,
            ),
    {
        let stale = match self.newest {
            Some(newest) => frame < newest,
            None => false,
        };
        if stale {
            return Decision::Discard;
        }
        self.newest = Some(frame);
        let candidates = buffer.commands_at_or_after(frame);
        let mut pending: Vec<PredictionEntry> = Vec::new();
        let mut i: usize = 0;
        proof {
            reveal(Seq::filter);
            assert(candidates@.take(0).filter(of_entity(uid)) =~= Seq::<PredictionEntry>::empty());
        }
        while i < candidates.len()
            invariant
                i <= candidates@.len(),
                pending@ == candidates@.take(i as int).filter(of_entity(uid)),
            decreases candidates@.len() - i,
        {
            let entry = candidates[i];
            proof {
                assert(candidates@.take(i as int + 1) =~= candidates@.take(i as int).push(entry));
                candidates@.take(i as int).lemma_filter_push(entry, of_entity(uid));
            }
            if entry.uid == uid {
                pending.push(entry);
            }
            i += 1;
        }
        assert(candidates@.take(candidates@.len() as int) =~= candidates@);
        if pending.len() == 0 {
            Decision::ApplyDirectly
        } else {
            self.state = ResimulationState::Resimulating;
            self.start = frame;
            self.end = current_frame;
            self.baseline = authoritative;
            self.pending = pending;
            Decision::Resimulate
        }
    }

    /// Replays the invalidated commands on the corrected position and
    /// comes to rest. Hands back where the replay got to, and what was
    /// replayed.
    pub fn replay(&mut self) -> (r: (Position, ResimulationEntry))
        requires
            old(self).wf(),
            old(self).state() == ResimulationState::Resimulating,
        ensures
            final(self).wf(),
            final(self).state() == ResimulationState::Idle,
            final(self).newest() == old(self).newest(),
            r.0 == replayed(old(self).baseline(), old(self).pending()),
            r.1.start_command_frame == old(self).range().0,
            r.1.end_command_frame == old(self).range().1,
            r.1.to_resimulate@ == old(self).pending(),
    {
        let mut commands: Vec<PredictionEntry> = Vec::new();
        std::mem::swap(&mut commands, &mut self.pending);
        self.state = ResimulationState::Idle;
        let position = replay_commands(self.baseline, &commands);
        (
            position,
            ResimulationEntry {
                start_command_frame: self.start,
                end_command_frame: self.end,
                to_resimulate: commands,
            },
        )
    }

    /// Reconciles the predicted state of the entity `uid` with the
    /// correction to `authoritative` at the frame `frame`: `begin`, then
    /// `replay` where the engine began to resimulate. The commands before
    /// `frame` are confirmed by the correction and leave the buffer; a
    /// resimulation is filed in `report`.
    pub fn reconcile(
        &mut self,
        buffer: &mut ClientCommandBuffer,
        report: &mut ResimulationBuffer,
        uid: Uid,
        frame: CommandFrame,
        authoritative: Position,
        current_frame: CommandFrame,
    ) -> (r: CorrectionOutcome)
        requires
            old(self).wf(),
            old(self).state() == ResimulationState::Idle,
            old(buffer).wf(),
        ensures
            final(self).wf(),
            final(self).state() == ResimulationState::Idle,
            final(buffer).wf(),
            r == if old(self).is_stale(frame) {
                CorrectionOutcome::Discarded
            } else if invalidated(old(buffer).entries(), uid, frame).len() == 0 {
                CorrectionOutcome::Applied(authoritative)
            } else {
                CorrectionOutcome::Resimulated(
                    replayed(authoritative, invalidated(old(buffer).entries(), uid, frame)),
                )
            },
            final(self).newest() == if r is Discarded {
                old(self).newest()
            } else {
                Some(frame)
            },
            final(buffer).entries() == if r is Discarded {
                old(buffer).entries()
            } else {
                old(buffer).entries().filter(at_or_after(frame as int))
            },
            final(buffer).horizon() == if r is Discarded || frame <= old(buffer).horizon() {
                old(buffer).horizon()
            } else {
                frame as nat
            },
            if r is Resimulated {
                &&& final(report).entries@.len() == old(report).entries@.len() + 1
                &&& final(report).entries@.drop_last() == old(report).entries@
                &&& final(report).entries@.last().start_command_frame == frame
                &&& final(report).entries@.last().end_command_frame == current_frame
                &&& final(report).entries@.last().to_resimulate@ == invalidated(
                    old(buffer).entries(),
                    uid,
                    frame,
                )
            } else {
                final(report).entries@ == old(report).entries@
            },
    {
        let decision = self.begin(buffer, uid, frame, authoritative, current_frame);
        match decision {
            Decision::Discard => CorrectionOutcome::Discarded,
            Decision::ApplyDirectly => {
                Self::confirm_before(buffer, frame);
                CorrectionOutcome::Applied(authoritative)
            },
            Decision::Resimulate => {
                Self::confirm_before(buffer, frame);
                let (position, entry) = self.replay();
                report.push(entry);
                proof {
                    assert(report.entries@.drop_last() =~= old(report).entries@);
                }
                CorrectionOutcome::Resimulated(position)
            },
        }
    }

    fn confirm_before(buffer: &mut ClientCommandBuffer, frame: CommandFrame)
        requires
            old(buffer).wf(),
        ensures
            final(buffer).wf(),
            final(buffer).entries() == old(buffer).entries().filter(at_or_after(frame as int)),
            final(buffer).horizon() == if frame <= old(buffer).horizon() {
                old(buffer).horizon()
            } else {
                frame as nat
            },
    {
        if frame > 0 {
            buffer.discard_up_to(frame - 1);
        } else {
            proof {
                buffer.lemma_ordered();
                crate::queue::lemma_split_is_filter(
                    buffer.entries(),
                    crate::prediction::before(0),
                    at_or_after(0),
                    0,
                );
                assert(buffer.entries().skip(0) =~= buffer.entries());
            }
        }
    }
}

/// Applies the commands of `entries` to `baseline`, in order.
pub fn replay_commands(baseline: Position, entries: &Vec<PredictionEntry>) -> (r: Position)
    ensures
        r == replayed(baseline, entries@),
{
    let mut position = baseline;
    let mut i: usize = 0;
    while i < entries.len()
        invariant
            i <= entries@.len(),
            position == replayed(baseline, entries@.take(i as int)),
        decreases entries@.len() - i,
    {
        proof {
            let seen = entries@.take(i as int + 1).map_values(command_of());
            assert(seen.drop_last() =~= entries@.take(i as int).map_values(command_of()));
            assert(seen.last() == entries@[i as int].command);
        }
        position = apply_command(&entries[i].command, position);
        i += 1;
    }
    assert(entries@.take(entries@.len() as int) =~= entries@);
    position
}

} // verus!
