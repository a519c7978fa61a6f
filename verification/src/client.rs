//! The synchronisation passes of a client.

use vstd::prelude::*;
use std::collections::VecDeque;
use crate::apply::{
    applied_ids, applied_next_uid, applied_world, apply_event, consistent,
};
use crate::apply_command;
use crate::codec::Component;
use crate::clock::CommandFrameTicker;
use crate::components::Position;
use crate::message::{ClientCommand, ClientId, ClientMessage, CommandFrame, ServerMessage};
use crate::next_position;
use crate::postbox::{answers, lemma_pick_is_filter, pick, PostBox};
use crate::prediction::{at_or_after, ClientCommandBuffer, PredictionEntry};
use crate::resimulation::{
    invalidated, replayed, CorrectionOutcome, ResimulationBuffer, ResimulationEngine,
    ResimulationEntry, ResimulationState,
};
use crate::tracker::Event;
use crate::transport::{ClientToServerMessage, ServerToClientMessage};
use crate::uid::{is_named, name_of, EntityId, Uid, UidAllocator};
use crate::world::{Entity, World};
use crate::ConnectionInformation;
use crate::ConnectionState;

verus! {

/// The keys that the player can press.
#[derive(Debug, Clone, Copy, PartialEq, Eq, Structural)]
pub enum Key {
    W,
    A,
    S,
    D,
    Q,
    Other,
}

/// The keys that were pressed and wait to be handled, oldest first.
pub struct PressedInputBuffer {
    pub input: VecDeque<Key>,
}

impl PressedInputBuffer {
    pub fn new() -> (r: PressedInputBuffer)
        ensures
            r.input@ == Seq::<Key>::empty(),
    {
        PressedInputBuffer { input: VecDeque::<Key>::new() }
    }
}

/// The command that a key stands for.
pub open spec fn key_command(key: Key) -> Option<ClientCommand> {
    match key {
        Key::W => Some(ClientCommand::MoveUp),
        Key::D => Some(ClientCommand::MoveRight),
        Key::S => Some(ClientCommand::MoveDown),
        Key::A => Some(ClientCommand::MoveLeft),
        _ => None,
    }
}

/// Whether the slot holds an entity that the client `client_id` steers: it
/// has a position, a kind and that client for its owner.
pub open spec fn is_steered_by(slot: Option<Entity>, client_id: ClientId) -> bool {
    &&& slot.is_some()
    &&& slot.unwrap().position.is_some()
    &&& slot.unwrap().player_type.is_some()
    &&& slot.unwrap().player_info.is_some()
    &&& slot.unwrap().player_info.unwrap().client_id() == client_id
}

/// The slot `k` of the world after the client `client_id` gave `command`:
/// an entity that the client steers, and that has a name, has gone one
/// step; nothing else has changed.
pub open spec fn steered(
    world: Seq<Option<Entity>>,
    ids: Map<Uid, EntityId>,
    k: int,
    client_id: ClientId,
    command: ClientCommand,
) -> Option<Entity> {
    if is_steered_by(world[k], client_id) && is_named(ids, EntityId(k as usize)) {
        Some(
            Entity {
                position: Some(next_position(command, world[k].unwrap().position.unwrap())),
                ..world[k].unwrap()
            },
        )
    } else {
        world[k]
    }
}

/// The predictions that `command` at the frame `frame` makes in the first
/// `upto` slots: one for each entity that it moves.
pub open spec fn predictions(
    world: Seq<Option<Entity>>,
    ids: Map<Uid, EntityId>,
    client_id: ClientId,
    command: ClientCommand,
    frame: CommandFrame,
    upto: int,
) -> Seq<PredictionEntry>
    decreases upto,
{
    if upto <= 0 {
        Seq::empty()
    } else {
        let earlier = predictions(world, ids, client_id, command, frame, upto - 1);
        let entity = EntityId((upto - 1) as usize);
        if is_steered_by(world[upto - 1], client_id) && is_named(ids, entity) {
            earlier.push(
                PredictionEntry {
                    command_frame: frame,
                    command,
                    uid: name_of(ids, entity),
                    pre_state: world[upto - 1].unwrap().position.unwrap(),
                },
            )
        } else {
            earlier
        }
    }
}

/// Handles the key that was pressed first, if any. `Q` asks the server for
/// a connection. A key that stands for a command moves the entities of
/// this client at once, ahead of the server: each move is recorded as a
/// prediction, and the command is sent to the server with the current
/// frame. A client that was never connected steers nothing.
pub fn move_player_system(
    input_buffer: &mut PressedInputBuffer,
    ticker: &CommandFrameTicker,
    command_buffer: &mut ClientCommandBuffer,
    postbox: &mut PostBox<ServerToClientMessage, ClientToServerMessage>,
    connection: &ConnectionInformation,
    world: &mut World,
    allocator: &UidAllocator,
)
    requires
        old(command_buffer).wf(),
        allocator.wf(),
    ensures
        final(command_buffer).wf(),
        final(command_buffer).horizon() == old(command_buffer).horizon(),
        final(postbox).inbox() == old(postbox).inbox(),
        final(world)@.len() == old(world)@.len(),
        final(input_buffer).input@ == if old(input_buffer).input@.len() == 0 {
            old(input_buffer).input@
        } else {
            old(input_buffer).input@.drop_first()
        },
        ({
            let key = if old(input_buffer).input@.len() == 0 {
                Key::Other
            } else {
                old(input_buffer).input@[0]
            };
            let frame = ticker.command_frame();
            match (key_command(key), connection.assigned_id()) {
                (Some(command), Some(client_id)) => {
                    &&& final(postbox).outbox() == old(postbox).outbox().push(
                        ClientToServerMessage::Command(frame, command),
                    )
                    &&& forall|k: int|
                        0 <= k < old(world)@.len() ==> #[trigger] final(world)@[k] == steered(
                            old(world)@,
                            allocator@,
                            k,
                            client_id,
                            command,
                        )
                    &&& final(command_buffer).entries() == if old(command_buffer).admits(frame) {
                        old(command_buffer).entries() + predictions(
                            old(world)@,
                            allocator@,
                            client_id,
                            command,
                            frame,
                            old(world)@.len() as int,
                        )
                    } else {
                        old(command_buffer).entries()
                    }
                },
                _ => {
                    &&& final(postbox).outbox() == if key == Key::Q {
                        old(postbox).outbox().push(
                            ClientToServerMessage::Message(ClientMessage::ConnectionRequest),
                        )
                    } else {
                        old(postbox).outbox()
                    }
                    &&& final(world)@ == old(world)@
                    &&& final(command_buffer).entries() == old(command_buffer).entries()
                },
            }
        }),
{
    let key = match input_buffer.input.pop_front() {
        Some(key) => key,
        None => {
            return ;
        },
    };
    proof {
        assert(input_buffer.input@ =~= old(input_buffer).input@.drop_first());
    }
    let command = match key {
        Key::W => ClientCommand::MoveUp,
        Key::D => ClientCommand::MoveRight,
        Key::S => ClientCommand::MoveDown,
        Key::A => ClientCommand::MoveLeft,
        Key::Q => {
            postbox.send(ClientToServerMessage::Message(ClientMessage::ConnectionRequest));
            return ;
        },
        Key::Other => {
            return ;
        },
    };
    let client_id = match connection.assigned_client_id() {
        Some(client_id) => client_id,
        None => {
            return ;
        },
    };
    let frame = ticker.command_frame();
    let ghost before = world@;
    let ghost recorded = command_buffer.entries();
    let ghost admitted = command_buffer.admits(frame);
    let count: usize = world.len();
    let mut k: usize = 0;
    proof {
        assert(recorded + Seq::<PredictionEntry>::empty() =~= recorded);
    }
    while k < count
        invariant
            k <= count,
            count == before.len(),
            world@.len() == before.len(),
            allocator.wf(),
            command_buffer.wf(),
            command_buffer.horizon() == old(command_buffer).horizon(),
            admitted == command_buffer.admits(frame),
            forall|j: int|
                0 <= j < k ==> #[trigger] world@[j] == steered(
                    before,
                    allocator@,
                    j,
                    client_id,
                    command,
                ),
            forall|j: int| k <= j < count ==> #[trigger] world@[j] == before[j],
            command_buffer.entries() == if admitted {
                recorded + predictions(before, allocator@, client_id, command, frame, k as int)
            } else {
                recorded
            },
        decreases count - k,
    {
        let id = EntityId(k);
        match world.get(id) {
            Some(entity) => {
                match (entity.position, entity.player_type, entity.player_info) {
                    (Some(position), Some(_), Some(info)) => {
                        if info.client_id() == client_id {
                            match allocator.uid_of(id) {
                                Some(uid) => {
                                    proof {
                                        allocator.lemma_one_to_one();
                                        assert(name_of(allocator@, id) == uid);
                                    }
                                    let target = apply_command(&command, position);
                                    let _ = world.set(
                                        id,
                                        Entity { position: Some(target), ..entity },
                                    );
                                    let ghost so_far = command_buffer.entries();
                                    let _ = command_buffer.record(frame, command, uid, position);
                                    proof {
                                        if admitted {
                                            assert(command_buffer.entries() =~= recorded
                                                + predictions(
                                                before,
                                                allocator@,
                                                client_id,
                                                command,
                                                frame,
                                                k as int + 1,
                                            ));
                                        }
                                    }
                                },
                                None => {},
                            }
                        }
                    },
                    _ => {},
                }
            },
            None => {},
        }
        k += 1;
    }
    postbox.send(ClientToServerMessage::Command(frame, command));
}

/// The application-level messages.
pub open spec fn is_message() -> spec_fn(ServerToClientMessage) -> bool {
    |message: ServerToClientMessage| message is Message
}

/// The changes of the authoritative state.
pub open spec fn is_event() -> spec_fn(ServerToClientMessage) -> bool {
    |message: ServerToClientMessage| message is Event
}

/// Handles the application-level messages of the server, in the order of
/// their arrival, and leaves the others in the inbox: an acceptance
/// connects the client under the identity that it carries.
pub fn handle_messages_system(
    postbox: &mut PostBox<ServerToClientMessage, ClientToServerMessage>,
    connection: &mut ConnectionInformation,
)
    ensures
        final(postbox).outbox() == old(postbox).outbox(),
        final(postbox).inbox() == old(postbox).inbox().filter(is_event()),
        ({
            let messages = old(postbox).inbox().filter(is_message());
            if messages.len() == 0 {
                &&& final(connection).state() == old(connection).state()
                &&& final(connection).assigned_id() == old(connection).assigned_id()
            } else {
                &&& final(connection).state() == ConnectionState::Connected
                &&& messages.last() matches ServerToClientMessage::Message(
                    ServerMessage::ConnectionAccepted(client_id),
                ) && final(connection).assigned_id() == Some(client_id)
            }
        }),
{
    let ghost arrived = postbox.inbox();
    let wanted = |message: &ServerToClientMessage| -> (b: bool)
        ensures
            b == is_message()(*message),
        {
            match message {
                ServerToClientMessage::Message(_) => true,
                _ => false,
            }
        };
    let inbox = postbox.drain_inbox(wanted);
    proof {
        let mask = choose|mask: Seq<bool>|
            {
                &&& #[trigger] answers(wanted, arrived, mask)
                &&& inbox@ == pick(arrived, mask, true)
                &&& postbox.inbox() == pick(arrived, mask, false)
            };
        lemma_pick_is_filter(arrived, mask, is_message(), is_event());
    }
    let mut i: usize = 0;
    while i < inbox.len()
        invariant
            i <= inbox@.len(),
            inbox@ == arrived.filter(is_message()),
            if i == 0 {
                &&& connection.state() == old(connection).state()
                &&& connection.assigned_id() == old(connection).assigned_id()
            } else {
                &&& connection.state() == ConnectionState::Connected
                &&& inbox@[i - 1] matches ServerToClientMessage::Message(
                    ServerMessage::ConnectionAccepted(client_id),
                ) && connection.assigned_id() == Some(client_id)
            },
        decreases inbox@.len() - i,
    {
        proof {
            crate::queue::lemma_filtered_came_from(arrived, is_message(), i as int);
        }
        match inbox[i] {
            ServerToClientMessage::Message(message) => match message {
                ServerMessage::ConnectionAccepted(client_id) => {
                    connection.set_connected(client_id);
                },
            },
            _ => {},
        }
        i += 1;
    }
}

/// What a resimulation replayed, in numbers.
#[derive(Debug, Clone, Copy, PartialEq, Eq, Structural)]
pub struct ResimulationReport {
    pub start_command_frame: CommandFrame,
    pub end_command_frame: CommandFrame,
    /// The number of commands that were replayed.
    pub commands: usize,
}

/// The numbers of a resimulation.
pub open spec fn report_of() -> spec_fn(ResimulationEntry) -> ResimulationReport {
    |entry: ResimulationEntry|
        ResimulationReport {
            start_command_frame: entry.start_command_frame,
            end_command_frame: entry.end_command_frame,
            commands: entry.to_resimulate@.len() as usize,
        }
}

/// Reports the resimulations that were run since the last report, oldest
/// first, and clears them.
pub fn handle_resimulation(resimulating: &mut ResimulationBuffer) -> (r: Vec<ResimulationReport>)
    ensures
        r@ == old(resimulating).entries@.map_values(report_of()),
        final(resimulating).entries@ == Seq::<ResimulationEntry>::empty(),
{
    let mut reports: Vec<ResimulationReport> = Vec::new();
    let mut i: usize = 0;
    while i < resimulating.entries.len()
        invariant
            i <= resimulating.entries@.len(),
            resimulating.entries@ == old(resimulating).entries@,
            reports@ == resimulating.entries@.take(i as int).map_values(report_of()),
        decreases resimulating.entries@.len() - i,
    {
        let entry = &resimulating.entries[i];
        reports.push(
            ResimulationReport {
                start_command_frame: entry.start_command_frame,
                end_command_frame: entry.end_command_frame,
                commands: entry.to_resimulate.len(),
            },
        );
        proof {
            assert(resimulating.entries@.take(i as int + 1) =~= resimulating.entries@.take(
                i as int,
            ).push(*entry));
            assert(reports@ =~= resimulating.entries@.take(i as int + 1).map_values(report_of()));
        }
        i += 1;
    }
    proof {
        assert(resimulating.entries@.take(resimulating.entries@.len() as int)
            =~= resimulating.entries@);
    }
    resimulating.entries.clear();
    reports
}

/// A resimulation that was run: the frames it spans and the commands that
/// it replayed.
pub struct Replay {
    pub start_command_frame: CommandFrame,
    pub end_command_frame: CommandFrame,
    pub commands: Seq<PredictionEntry>,
}

/// The resimulation that an entry of the report stands for.
pub open spec fn replay_of() -> spec_fn(ResimulationEntry) -> Replay {
    |entry: ResimulationEntry|
        Replay {
            start_command_frame: entry.start_command_frame,
            end_command_frame: entry.end_command_frame,
            commands: entry.to_resimulate@,
        }
}

/// What a client holds of the simulation, as far as an event of the
/// server can change it.
pub struct Replica {
    /// The slots of the world.
    pub world: Seq<Option<Entity>>,
    /// The live identifiers.
    pub ids: Map<Uid, EntityId>,
    /// The counter of the identity allocator.
    pub next_uid: nat,
    /// The frame of the newest correction that the engine took up.
    pub newest: Option<CommandFrame>,
    /// The predicted commands.
    pub entries: Seq<PredictionEntry>,
    /// The first frame that the prediction buffer has not discarded.
    pub horizon: nat,
    /// The resimulations that wait to be reported.
    pub replays: Seq<Replay>,
}

/// The replica that the parts of a client make up.
pub open spec fn replica_of(
    world: World,
    allocator: UidAllocator,
    engine: ResimulationEngine,
    command_buffer: ClientCommandBuffer,
    report: ResimulationBuffer,
) -> Replica {
    Replica {
        world: world@,
        ids: allocator@,
        next_uid: allocator.next_uid(),
        newest: engine.newest(),
        entries: command_buffer.entries(),
        horizon: command_buffer.horizon(),
        replays: report.entries@.map_values(replay_of()),
    }
}

/// Whether `event` corrects the position of an entity that the client
/// `own` steers, and so predicts.
pub open spec fn corrects_prediction(replica: Replica, own: Option<ClientId>, event: Event) -> bool {
    &&& own.is_some()
    &&& event matches Event::Modified(uid, Component::Position(_))
    &&& replica.ids.contains_key(uid)
    &&& replica.ids[uid].0 < replica.world.len()
    &&& is_steered_by(replica.world[replica.ids[uid].0 as int], own.unwrap())
}

/// The replica after an event of the server for the frame `frame` was
/// handled at the client's frame `now`. A correction of a predicted
/// position goes through the resimulation engine: it is discarded where a
/// newer one was taken up; else the predicted commands from `frame` on are
/// replayed on it, and the commands before `frame` leave the buffer. Any
/// other event is applied as it is.
pub open spec fn received(
    replica: Replica,
    own: Option<ClientId>,
    now: CommandFrame,
    frame: CommandFrame,
    event: Event,
) -> Replica {
    if corrects_prediction(replica, own, event) {
        let uid = event.uid();
        let corrected = event->Modified_1->Position_0;
        if replica.newest.is_some() && frame < replica.newest.unwrap() {
            replica
        } else {
            let pending = invalidated(replica.entries, uid, frame);
            Replica {
                world: applied_world(
                    replica.world,
                    replica.ids,
                    Event::Modified(uid, Component::Position(replayed(corrected, pending))),
                ),
                newest: Some(frame),
                entries: replica.entries.filter(at_or_after(frame as int)),
                horizon: if frame <= replica.horizon {
                    replica.horizon
                } else {
                    frame as nat
                },
                replays: if pending.len() > 0 {
                    replica.replays.push(
                        Replay {
                            start_command_frame: frame,
                            end_command_frame: now,
                            commands: pending,
                        },
                    )
                } else {
                    replica.replays
                },
                ..replica
            }
        }
    } else {
        Replica {
            world: applied_world(replica.world, replica.ids, event),
            ids: applied_ids(replica.world, replica.ids, event),
            next_uid: applied_next_uid(replica.ids, replica.next_uid, event),
            ..replica
        }
    }
}

/// The replica after the events of `messages` were handled, in order.
pub open spec fn received_all(
    replica: Replica,
    own: Option<ClientId>,
    now: CommandFrame,
    messages: Seq<ServerToClientMessage>,
) -> Replica
    decreases messages.len(),
{
    if messages.len() == 0 {
        replica
    } else {
        let earlier = received_all(replica, own, now, messages.drop_last());
        match messages.last() {
            ServerToClientMessage::Event(frame, event) => received(earlier, own, now, frame, event),
            _ => earlier,
        }
    }
}

/// Handles one event of the server for the frame `frame`.
pub fn handle_event(
    world: &mut World,
    allocator: &mut UidAllocator,
    engine: &mut ResimulationEngine,
    command_buffer: &mut ClientCommandBuffer,
    report: &mut ResimulationBuffer,
    connection: &ConnectionInformation,
    ticker: &CommandFrameTicker,
    frame: CommandFrame,
    event: &Event,
)
    requires
        old(allocator).wf(),
        old(engine).wf(),
        old(engine).state() == ResimulationState::Idle,
        old(command_buffer).wf(),
        consistent(old(world)@, old(allocator)@),
    ensures
        final(allocator).wf(),
        final(engine).wf(),
        final(engine).state() == ResimulationState::Idle,
        final(command_buffer).wf(),
        consistent(final(world)@, final(allocator)@),
        replica_of(
            *final(world),
            *final(allocator),
            *final(engine),
            *final(command_buffer),
            *final(report),
        ) == received(
            replica_of(*old(world), *old(allocator), *old(engine), *old(command_buffer), *old(report)),
            connection.assigned_id(),
            ticker.command_frame(),
            frame,
            *event,
        ),
{
    let ghost replica = replica_of(*world, *allocator, *engine, *command_buffer, *report);
    let own = connection.assigned_client_id();
    let correction = match (*event, own) {
        (Event::Modified(uid, Component::Position(position)), Some(client_id)) => {
            match allocator.resolve(uid) {
                Ok(id) => match world.get(id) {
                    Some(entity) => {
                        let steers = match (entity.position, entity.player_type, entity.player_info) {
                            (Some(_), Some(_), Some(info)) => info.client_id() == client_id,
                            _ => false,
                        };
                        if steers {
                            Some((uid, position))
                        } else {
                            None
                        }
                    },
                    None => None,
                },
                Err(_) => None,
            }
        },
        _ => None,
    };
    proof {
        assert(correction.is_some() == corrects_prediction(replica, own, *event));
    }
    match correction {
        Some((uid, position)) => {
            let outcome = engine.reconcile(
                command_buffer,
                report,
                uid,
                frame,
                position,
                ticker.command_frame(),
            );
            let target = match outcome {
                CorrectionOutcome::Discarded => {
                    return ;
                },
                CorrectionOutcome::Applied(target) => target,
                CorrectionOutcome::Resimulated(target) => target,
            };
            proof {
                let pending = invalidated(replica.entries, uid, frame);
                if pending.len() > 0 {
                    assert(report.entries@.map_values(replay_of()) =~= replica.replays.push(
                        Replay {
                            start_command_frame: frame,
                            end_command_frame: ticker.command_frame(),
                            commands: pending,
                        },
                    )) by {
                        assert(report.entries@.drop_last() == old(report).entries@);
                        assert forall|i: int| 0 <= i < old(report).entries@.len() implies report.entries@[i]
                            == old(report).entries@[i] by {
                            assert(report.entries@.drop_last()[i] == report.entries@[i]);
                        }
                    }
                } else {
                    assert(pending.map_values(crate::resimulation::command_of()) =~= Seq::<
                        ClientCommand,
                    >::empty());
                }
            }
            let _ = apply_event(world, allocator, &Event::Modified(uid, Component::Position(target)));
        },
        None => {
            let _ = apply_event(world, allocator, event);
        },
    }
}

/// Handles the changes of the authoritative state that have arrived, in
/// the order of their arrival, and leaves the other messages in the
/// inbox.
pub fn handle_events_system(
    postbox: &mut PostBox<ServerToClientMessage, ClientToServerMessage>,
    world: &mut World,
    allocator: &mut UidAllocator,
    engine: &mut ResimulationEngine,
    command_buffer: &mut ClientCommandBuffer,
    report: &mut ResimulationBuffer,
    connection: &ConnectionInformation,
    ticker: &CommandFrameTicker,
)
    requires
        old(allocator).wf(),
        old(engine).wf(),
        old(engine).state() == ResimulationState::Idle,
        old(command_buffer).wf(),
        consistent(old(world)@, old(allocator)@),
    ensures
        final(allocator).wf(),
        final(engine).wf(),
        final(engine).state() == ResimulationState::Idle,
        final(command_buffer).wf(),
        consistent(final(world)@, final(allocator)@),
        final(postbox).outbox() == old(postbox).outbox(),
        final(postbox).inbox() == old(postbox).inbox().filter(is_message()),
        replica_of(
            *final(world),
            *final(allocator),
            *final(engine),
            *final(command_buffer),
            *final(report),
        ) == received_all(
            replica_of(*old(world), *old(allocator), *old(engine), *old(command_buffer), *old(report)),
            connection.assigned_id(),
            ticker.command_frame(),
            old(postbox).inbox().filter(is_event()),
        ),
{
    let ghost arrived = postbox.inbox();
    let ghost start = replica_of(*world, *allocator, *engine, *command_buffer, *report);
    let wanted = |message: &ServerToClientMessage| -> (b: bool)
        ensures
            b == is_event()(*message),
        {
            match message {
                ServerToClientMessage::Event(_, _) => true,
                _ => false,
            }
        };
    let inbox = postbox.drain_inbox(wanted);
    proof {
        let mask = choose|mask: Seq<bool>|
            {
                &&& #[trigger] answers(wanted, arrived, mask)
                &&& inbox@ == pick(arrived, mask, true)
                &&& postbox.inbox() == pick(arrived, mask, false)
            };
        lemma_pick_is_filter(arrived, mask, is_event(), is_message());
    }
    let mut i: usize = 0;
    while i < inbox.len()
        invariant
            i <= inbox@.len(),
            allocator.wf(),
            engine.wf(),
            engine.state() == ResimulationState::Idle,
            command_buffer.wf(),
            consistent(world@, allocator@),
            replica_of(*world, *allocator, *engine, *command_buffer, *report) == received_all(
                start,
                connection.assigned_id(),
                ticker.command_frame(),
                inbox@.take(i as int),
            ),
        decreases inbox@.len() - i,
    {
        proof {
            assert(inbox@.take(i as int + 1).drop_last() =~= inbox@.take(i as int));
        }
        match inbox[i] {
            ServerToClientMessage::Event(frame, event) => {
                handle_event(
                    world,
                    allocator,
                    engine,
                    command_buffer,
                    report,
                    connection,
                    ticker,
                    frame,
                    &event,
                );
            },
            _ => {},
        }
        i += 1;
    }
    proof {
        assert(inbox@.take(inbox@.len() as int) =~= inbox@);
    }
}

} // verus!
