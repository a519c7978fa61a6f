//! The synchronisation passes of the server.

use vstd::prelude::*;
use crate::apply::consistent;
use crate::apply_command;
use crate::clock::CommandFrameTicker;
use crate::codec::Component;
use crate::components::{PlayerInfo, PlayerType, PlayerTypeOp, Position};
use crate::message::{ClientCommand, ClientId, ClientMessage, CommandFrame, ServerMessage};
use crate::resimulation::after_commands;
use crate::tracker::{upsert, ChangeTracker, Event};
use crate::transport::{
    due, later, place_of, stamped_command, Client, CommandPostBox, PostOffice,
    ServerToClientMessage, StampedCommand,
};
use crate::uid::{is_named, name_of, uid_limit, EntityId, Uid, UidAllocator};
use crate::world::{is_live, Entity, World};

verus! {

/// The commands of the client `client_id` that are due at `frame`, in the
/// order in which they are to be applied.
pub open spec fn due_commands(clients: Seq<Client>, client_id: ClientId, frame: CommandFrame) -> Seq<
    ClientCommand,
> {
    match place_of(clients, client_id) {
        Some(i) => clients[i].command_postbox().buffered().filter(due(frame)).map_values(
            stamped_command(),
        ),
        None => Seq::empty(),
    }
}

/// A slot of the world after the commands that are due at `frame`: an
/// entity with a position and an owner has gone where the commands of its
/// owner lead; nothing else has changed.
pub open spec fn commanded(slot: Option<Entity>, clients: Seq<Client>, frame: CommandFrame) -> Option<
    Entity,
> {
    match slot {
        Some(entity) => match (entity.position, entity.player_info) {
            (Some(position), Some(info)) => Some(
                Entity {
                    position: Some(
                        after_commands(position, due_commands(clients, info.client_id(), frame)),
                    ),
                    ..entity
                },
            ),
            _ => slot,
        },
        None => None,
    }
}

/// Whether the entity in the slot `k` stands elsewhere in `after` than in
/// `before`.
pub open spec fn has_moved(before: Seq<Option<Entity>>, after: Seq<Option<Entity>>, k: int) -> bool {
    before[k].is_some() && after[k].is_some() && after[k].unwrap().position.is_some()
        && before[k].unwrap().position != after[k].unwrap().position
}

/// The log of modifications after the moves in the first `upto` slots were
/// noted, slot by slot: each entity that has a name and has moved is noted
/// with its new position.
pub open spec fn noted_moves(
    modified: Seq<Event>,
    before: Seq<Option<Entity>>,
    after: Seq<Option<Entity>>,
    ids: Map<Uid, EntityId>,
    upto: int,
) -> Seq<Event>
    decreases upto,
{
    if upto <= 0 {
        modified
    } else {
        let earlier = noted_moves(modified, before, after, ids, upto - 1);
        let entity = EntityId((upto - 1) as usize);
        if has_moved(before, after, upto - 1) && is_named(ids, entity) {
            upsert(
                earlier,
                name_of(ids, entity),
                Component::Position(after[upto - 1].unwrap().position.unwrap()),
            )
        } else {
            earlier
        }
    }
}

/// Applies `commands` to `position`, in order.
pub fn run_commands(position: Position, commands: &Vec<StampedCommand>) -> (r: Position)
    ensures
        r == after_commands(position, commands@.map_values(stamped_command())),
{
    let mut current = position;
    let mut i: usize = 0;
    while i < commands.len()
        invariant
            i <= commands@.len(),
            current == after_commands(
                position,
                commands@.take(i as int).map_values(stamped_command()),
            ),
        decreases commands@.len() - i,
    {
        proof {
            let seen = commands@.take(i as int + 1).map_values(stamped_command());
            assert(seen.drop_last() =~= commands@.take(i as int).map_values(stamped_command()));
            assert(seen.last() == commands@[i as int].command);
        }
        current = apply_command(&commands[i].command, current);
        i += 1;
    }
    assert(commands@.take(commands@.len() as int) =~= commands@);
    current
}

/// Takes out of every client's buffer the commands that are due at
/// `frame`.
fn drain_due(post_office: &mut PostOffice, frame: CommandFrame) -> (r: Vec<Vec<StampedCommand>>)
    requires
        old(post_office).wf(),
    ensures
        final(post_office).wf(),
        channels_drained(old(post_office).clients(), final(post_office).clients(), frame),
        r@.len() == old(post_office).clients().len(),
        forall|i: int|
            0 <= i < r@.len() ==> (#[trigger] r@[i])@ == old(
                post_office,
            ).clients()[i].command_postbox().buffered().filter(due(frame)),
{
    let ghost before = post_office.clients();
    let mut batches: Vec<Vec<StampedCommand>> = Vec::new();
    let mut i: usize = 0;
    while i < post_office.len()
        invariant
            i <= before.len(),
            post_office.wf(),
            post_office.clients().len() == before.len(),
            batches@.len() == i,
            forall|k: int|
                0 <= k < i ==> (#[trigger] batches@[k])@ == before[k].command_postbox().buffered().filter(
                    due(frame),
                ),
            forall|k: int| 0 <= k < i ==> drained(before[k], #[trigger] post_office.clients()[k], frame),
            forall|k: int| i <= k < before.len() ==> #[trigger] post_office.clients()[k] == before[k],
        decreases before.len() - i,
    {
        let ghost during = post_office.clients();
        let buffer = post_office.command_postbox_mut(i);
        let batch = match buffer.drain_frame(frame) {
            Some(batch) => batch,
            None => Vec::new(),
        };
        proof {
            broadcast use Client::lemma_with_command_postbox;

            let after = post_office.clients();
            assert(batch@ =~= before[i as int].command_postbox().buffered().filter(due(frame)));
            assert forall|a: int, b: int| 0 <= a < b < after.len() implies (
            #[trigger] after[a]).client_id() != (#[trigger] after[b]).client_id() by {
                assert(during[a].client_id() != during[b].client_id());
            }
            assert forall|a: int| 0 <= a < after.len() implies (#[trigger] after[a]).wf() by {
                assert(during[a].wf());
            }
        }
        batches.push(batch);
        i += 1;
    }
    batches
}

/// The channels of one client after the commands that are due at `frame`
/// were taken out: only the buffer of commands has changed.
pub open spec fn drained(before: Client, after: Client, frame: CommandFrame) -> bool {
    &&& after.client_id() == before.client_id()
    &&& after.postbox() == before.postbox()
    &&& after.command_postbox().buffered() == before.command_postbox().buffered().filter(
        later(frame),
    )
    &&& after.command_postbox().offset() == before.command_postbox().offset()
    &&& after.command_postbox().highest_seen() == before.command_postbox().highest_seen()
    &&& after.command_postbox().floor() == if frame > before.command_postbox().floor() {
        frame
    } else {
        before.command_postbox().floor()
    }
}

/// The channels of every client after the commands that are due at `frame`
/// were taken out.
pub open spec fn channels_drained(before: Seq<Client>, after: Seq<Client>, frame: CommandFrame) -> bool {
    &&& after.len() == before.len()
    &&& forall|i: int| 0 <= i < before.len() ==> drained(before[i], #[trigger] after[i], frame)
}

/// Applies the commands that are due at the current frame. The commands of
/// a client move the entities of that client and no others; each entity
/// that has moved is noted in the tracker with its new position.
pub fn handle_commands_system(
    post_office: &mut PostOffice,
    ticker: &CommandFrameTicker,
    world: &mut World,
    allocator: &UidAllocator,
    tracker: &mut ChangeTracker,
)
    requires
        old(post_office).wf(),
        allocator.wf(),
        old(tracker).wf(),
    ensures
        final(post_office).wf(),
        final(tracker).wf(),
        channels_drained(
            old(post_office).clients(),
            final(post_office).clients(),
            ticker.command_frame(),
        ),
        final(world)@.len() == old(world)@.len(),
        forall|k: int|
            0 <= k < old(world)@.len() ==> #[trigger] final(world)@[k] == commanded(
                old(world)@[k],
                old(post_office).clients(),
                ticker.command_frame(),
            ),
        final(tracker).inserted() == old(tracker).inserted(),
        final(tracker).removed() == old(tracker).removed(),
        final(tracker).modified() == noted_moves(
            old(tracker).modified(),
            old(world)@,
            final(world)@,
            allocator@,
            old(world)@.len() as int,
        ),
{
    let frame = ticker.command_frame();
    let ghost clients = post_office.clients();
    let ghost before = world@;
    let ghost log = tracker.modified();
    let batches = drain_due(post_office, frame);
    let count: usize = world.len();
    let mut k: usize = 0;
    while k < count
        invariant
            k <= count,
            count == before.len(),
            world@.len() == before.len(),
            post_office.wf(),
            allocator.wf(),
            tracker.wf(),
            old(post_office).wf(),
            clients == old(post_office).clients(),
            channels_drained(clients, post_office.clients(), frame),
            batches@.len() == clients.len(),
            forall|i: int|
                0 <= i < batches@.len() ==> (#[trigger] batches@[i])@
                    == clients[i].command_postbox().buffered().filter(due(frame)),
            forall|j: int| 0 <= j < k ==> #[trigger] world@[j] == commanded(before[j], clients, frame),
            forall|j: int| k <= j < count ==> #[trigger] world@[j] == before[j],
            tracker.inserted() == old(tracker).inserted(),
            tracker.removed() == old(tracker).removed(),
            tracker.modified() == noted_moves(log, before, world@, allocator@, k as int),
        decreases count - k,
    {
        let id = EntityId(k);
        let ghost during = world@;
        let mut moved_to: Option<Position> = None;
        match world.get(id) {
            Some(entity) => {
                match (entity.position, entity.player_info) {
                    (Some(position), Some(info)) => {
                        proof {
                            lemma_same_places(clients, post_office.clients(), info.client_id());
                        }
                        match post_office.index_of(info.client_id()) {
                            Some(i) => {
                                let target = run_commands(position, &batches[i]);
                                if target != position {
                                    let _ = world.set(
                                        id,
                                        Entity { position: Some(target), ..entity },
                                    );
                                    moved_to = Some(target);
                                }
                            },
                            None => {},
                        }
                    },
                    _ => {},
                }
            },
            None => {},
        }
        proof {
            assert(world@[k as int] == commanded(before[k as int], clients, frame));
            assert(moved_to.is_some() == has_moved(before, world@, k as int));
            lemma_noted_moves_frame(log, before, during, world@, allocator@, k as int);
        }
        match moved_to {
            Some(target) => {
                match allocator.uid_of(id) {
                    Some(uid) => {
                        proof {
                            allocator.lemma_one_to_one();
                            assert(name_of(allocator@, id) == uid);
                        }
                        tracker.track_modified(uid, Component::Position(target));
                    },
                    None => {},
                }
            },
            None => {},
        }
        k += 1;
    }
}

/// The place of a client does not change where the identities do not.
proof fn lemma_same_places(before: Seq<Client>, after: Seq<Client>, client_id: ClientId)
    requires
        after.len() == before.len(),
        forall|i: int| 0 <= i < before.len() ==> (#[trigger] after[i]).client_id() == before[i].client_id(),
        forall|i: int, j: int|
            0 <= i < j < before.len() ==> (#[trigger] before[i]).client_id() != (
            #[trigger] before[j]).client_id(),
    ensures
        place_of(after, client_id) == place_of(before, client_id),
{
    if exists|i: int| 0 <= i < before.len() && (#[trigger] before[i]).client_id() == client_id {
        let i = choose|i: int| 0 <= i < before.len() && (#[trigger] before[i]).client_id() == client_id;
        assert(after[i].client_id() == client_id);
        let j = choose|j: int| 0 <= j < after.len() && (#[trigger] after[j]).client_id() == client_id;
        if i < j {
            assert(before[i].client_id() != before[j].client_id());
        } else if j < i {
            assert(before[j].client_id() != before[i].client_id());
        }
    } else {
        if exists|j: int| 0 <= j < after.len() && (#[trigger] after[j]).client_id() == client_id {
            let j = choose|j: int| 0 <= j < after.len() && (#[trigger] after[j]).client_id() == client_id;
            assert(before[j].client_id() == client_id);
        }
    }
}

/// The moves that were noted in the first `upto` slots depend on those
/// slots alone.
proof fn lemma_noted_moves_frame(
    modified: Seq<Event>,
    before: Seq<Option<Entity>>,
    first: Seq<Option<Entity>>,
    second: Seq<Option<Entity>>,
    ids: Map<Uid, EntityId>,
    upto: int,
)
    requires
        forall|j: int| 0 <= j < upto ==> #[trigger] first[j] == second[j],
    ensures
        noted_moves(modified, before, first, ids, upto) == noted_moves(
            modified,
            before,
            second,
            ids,
            upto,
        ),
    decreases upto,
{
    if upto > 0 {
        lemma_noted_moves_frame(modified, before, first, second, ids, upto - 1);
        assert(first[upto - 1] == second[upto - 1]);
    }
}

/// The part of the server's state that a new entity changes.
pub struct Realm {
    /// The slots of the world.
    pub world: Seq<Option<Entity>>,
    /// The live identifiers.
    pub ids: Map<Uid, EntityId>,
    /// The counter of the identity allocator.
    pub next_uid: nat,
    /// The insertions that the tracker holds.
    pub inserted: Seq<Event>,
}

/// The realm that the world, the allocator and the tracker make up.
pub open spec fn realm_of(world: World, allocator: UidAllocator, tracker: ChangeTracker) -> Realm {
    Realm {
        world: world@,
        ids: allocator@,
        next_uid: allocator.next_uid(),
        inserted: tracker.inserted(),
    }
}

/// The realm after `entity` came to be: it stands in a new slot, under the
/// next identifier, and its insertion is noted. Where the identifiers are
/// used up, nothing comes to be.
pub open spec fn spawned(realm: Realm, entity: Entity) -> Realm {
    if realm.next_uid >= uid_limit() {
        realm
    } else {
        Realm {
            world: realm.world.push(Some(entity)),
            ids: realm.ids.insert(
                Uid(realm.next_uid as u32),
                EntityId(realm.world.len() as usize),
            ),
            next_uid: realm.next_uid + 1,
            inserted: realm.inserted.push(Event::Inserted(Uid(realm.next_uid as u32), entity)),
        }
    }
}

/// The realm after `entity` came to be `times` times over.
pub open spec fn spawned_times(realm: Realm, entity: Entity, times: nat) -> Realm
    decreases times,
{
    if times == 0 {
        realm
    } else {
        spawned(spawned_times(realm, entity, (times - 1) as nat), entity)
    }
}

/// The entity of a player who has just connected.
pub open spec fn new_player(client_id: ClientId) -> Entity {
    Entity {
        position: Some(Position { x: 200, y: 200 }),
        player_type: Some(PlayerType { player_type: 2 }),
        player_info: Some(PlayerInfo::of_client(client_id)),
    }
}

/// The entity of an enemy that has just appeared.
pub open spec fn new_enemy() -> Entity {
    Entity {
        position: Some(Position { x: 20, y: 15 }),
        player_type: Some(PlayerType { player_type: 1 }),
        player_info: None,
    }
}

/// The requests for a connection.
pub open spec fn is_request() -> spec_fn(ClientMessage) -> bool {
    |message: ClientMessage| message == ClientMessage::ConnectionRequest
}

/// The number of requests for a connection among `inbox`.
pub open spec fn requests(inbox: Seq<ClientMessage>) -> nat {
    inbox.filter(is_request()).len()
}

/// The realm after the requests of `clients` were served, client by client
/// and request by request: each request makes a player.
pub open spec fn admitted(realm: Realm, clients: Seq<Client>) -> Realm
    decreases clients.len(),
{
    if clients.len() == 0 {
        realm
    } else {
        spawned_times(
            admitted(realm, clients.drop_last()),
            new_player(clients.last().client_id()),
            requests(clients.last().postbox().inbox()),
        )
    }
}

/// The replies to `times` requests of the client `client_id`.
pub open spec fn acceptances(client_id: ClientId, times: int) -> Seq<ServerToClientMessage> {
    Seq::new(
        times as nat,
        |k: int| ServerToClientMessage::Message(ServerMessage::ConnectionAccepted(client_id)),
    )
}

/// The channels of one client after its requests were served, `granted` of
/// them with success: the inbox is empty, and the outbox has a reply for
/// each success.
pub open spec fn served(before: Client, after: Client, granted: int) -> bool {
    &&& after.client_id() == before.client_id()
    &&& after.command_postbox() == before.command_postbox()
    &&& after.postbox().inbox() == Seq::<ClientMessage>::empty()
    &&& after.postbox().outbox() == before.postbox().outbox() + acceptances(
        before.client_id(),
        granted,
    )
}

/// Brings `entity` into the world under a fresh identifier, and notes the
/// insertion. `None`, and no change, where the identifiers are used up.
pub fn spawn(world: &mut World, allocator: &mut UidAllocator, tracker: &mut ChangeTracker, entity: Entity) -> (r: Option<Uid>)
    requires
        old(allocator).wf(),
        old(tracker).wf(),
        consistent(old(world)@, old(allocator)@),
    ensures
        final(allocator).wf(),
        final(tracker).wf(),
        consistent(final(world)@, final(allocator)@),
        realm_of(*final(world), *final(allocator), *final(tracker)) == spawned(
            realm_of(*old(world), *old(allocator), *old(tracker)),
            entity,
        ),
        final(tracker).modified() == old(tracker).modified(),
        final(tracker).removed() == old(tracker).removed(),
        r == if old(allocator).next_uid() >= uid_limit() {
            None
        } else {
            Some(Uid(old(allocator).next_uid() as u32))
        },
{
    let ghost ids = allocator@;
    let ghost before = world@;
    let id = EntityId(world.len());
    proof {
        if allocator.is_mapped(id) {
            let other = choose|other: Uid| #[trigger] ids.contains_key(other) && ids[other] == id;
            assert(is_live(before, ids[other]));
        }
        allocator.lemma_one_to_one();
    }
    match allocator.allocate(id, None) {
        Ok(uid) => {
            let _ = world.create(entity);
            tracker.track_inserted(uid, entity);
            proof {
                assert forall|other: Uid| #[trigger] allocator@.contains_key(other) implies is_live(
                    world@,
                    allocator@[other],
                ) by {
                    if other != uid {
                        assert(ids.contains_key(other));
                        assert(is_live(before, ids[other]));
                    }
                }
            }
            Some(uid)
        },
        Err(_) => None,
    }
}

/// Serves the messages of the clients. A request for a connection makes a
/// player for the client and is answered with the client's identity; while
/// the identifiers are used up a request stays without effect and without
/// answer. A notice of disconnection changes nothing here.
pub fn handle_messages_system(
    post_office: &mut PostOffice,
    allocator: &mut UidAllocator,
    world: &mut World,
    tracker: &mut ChangeTracker,
)
    requires
        old(post_office).wf(),
        old(allocator).wf(),
        old(tracker).wf(),
        consistent(old(world)@, old(allocator)@),
    ensures
        final(post_office).wf(),
        final(allocator).wf(),
        final(tracker).wf(),
        consistent(final(world)@, final(allocator)@),
        realm_of(*final(world), *final(allocator), *final(tracker)) == admitted(
            realm_of(*old(world), *old(allocator), *old(tracker)),
            old(post_office).clients(),
        ),
        final(tracker).modified() == old(tracker).modified(),
        final(tracker).removed() == old(tracker).removed(),
        final(post_office).clients().len() == old(post_office).clients().len(),
        forall|i: int|
            0 <= i < old(post_office).clients().len() ==> served(
                old(post_office).clients()[i],
                #[trigger] final(post_office).clients()[i],
                admitted(
                    realm_of(*old(world), *old(allocator), *old(tracker)),
                    old(post_office).clients().take(i + 1),
                ).next_uid - admitted(
                    realm_of(*old(world), *old(allocator), *old(tracker)),
                    old(post_office).clients().take(i),
                ).next_uid,
            ),
{
    let ghost clients = post_office.clients();
    let ghost start = realm_of(*world, *allocator, *tracker);
    let mut i: usize = 0;
    while i < post_office.len()
        invariant
            i <= clients.len(),
            clients == old(post_office).clients(),
            start == realm_of(*old(world), *old(allocator), *old(tracker)),
            post_office.wf(),
            old(post_office).wf(),
            allocator.wf(),
            tracker.wf(),
            consistent(world@, allocator@),
            post_office.clients().len() == clients.len(),
            realm_of(*world, *allocator, *tracker) == admitted(start, clients.take(i as int)),
            tracker.modified() == old(tracker).modified(),
            tracker.removed() == old(tracker).removed(),
            forall|k: int|
                0 <= k < i ==> served(
                    clients[k],
                    #[trigger] post_office.clients()[k],
                    admitted(start, clients.take(k + 1)).next_uid - admitted(
                        start,
                        clients.take(k),
                    ).next_uid,
                ),
            forall|k: int| i <= k < clients.len() ==> #[trigger] post_office.clients()[k] == clients[k],
        decreases clients.len() - i,
    {
        let client_id = post_office.client(i).client_id();
        let ghost during = post_office.clients();
        let ghost entered = realm_of(*world, *allocator, *tracker);
        let messages = post_office.postbox_mut(i).drain_all_inbox();
        proof {
            broadcast use Client::lemma_with_postbox;

            let after = post_office.clients();
            assert forall|a: int, b: int| 0 <= a < b < after.len() implies (
            #[trigger] after[a]).client_id() != (#[trigger] after[b]).client_id() by {
                assert(during[a].client_id() != during[b].client_id());
            }
            assert forall|a: int| 0 <= a < after.len() implies (#[trigger] after[a]).wf() by {
                assert(during[a].wf());
            }
            assert(messages@.take(0).filter(is_request()) =~= Seq::<ClientMessage>::empty()) by {
                reveal(Seq::filter);
            }
            assert(post_office.clients()[i as int].postbox().outbox()
                =~= clients[i as int].postbox().outbox() + acceptances(client_id, 0));
        }
        let mut j: usize = 0;
        while j < messages.len()
            invariant
                j <= messages@.len(),
                i < clients.len(),
                post_office.wf(),
                allocator.wf(),
                tracker.wf(),
                consistent(world@, allocator@),
                post_office.clients().len() == clients.len(),
                during.len() == clients.len(),
                entered.next_uid <= realm_of(*world, *allocator, *tracker).next_uid,
                realm_of(*world, *allocator, *tracker) == spawned_times(
                    entered,
                    new_player(client_id),
                    requests(messages@.take(j as int)),
                ),
                tracker.modified() == old(tracker).modified(),
                tracker.removed() == old(tracker).removed(),
                served(
                    clients[i as int],
                    post_office.clients()[i as int],
                    realm_of(*world, *allocator, *tracker).next_uid - entered.next_uid,
                ),
                client_id == clients[i as int].client_id(),
                forall|k: int|
                    0 <= k < clients.len() && k != i ==> #[trigger] post_office.clients()[k]
                        == during[k],
            decreases messages@.len() - j,
        {
            proof {
                assert(messages@.take(j as int + 1) =~= messages@.take(j as int).push(
                    messages@[j as int],
                ));
                messages@.take(j as int).lemma_filter_push(messages@[j as int], is_request());
            }
            match messages[j] {
                ClientMessage::ConnectionRequest => {
                    let player = Entity {
                        position: Some(Position { x: 200, y: 200 }),
                        player_type: Some(PlayerType::new(PlayerTypeOp::Player)),
                        player_info: Some(PlayerInfo::new(client_id)),
                    };
                    let ghost granted = realm_of(*world, *allocator, *tracker).next_uid
                        - entered.next_uid;
                    match spawn(world, allocator, tracker, player) {
                        Some(_) => {
                            let ghost inner = post_office.clients();
                            post_office.postbox_mut(i).send(
                                ServerToClientMessage::Message(
                                    ServerMessage::ConnectionAccepted(client_id),
                                ),
                            );
                            proof {
                                broadcast use Client::lemma_with_postbox;

                                let after = post_office.clients();
                                assert forall|a: int, b: int|
                                    0 <= a < b < after.len() implies (
                                #[trigger] after[a]).client_id() != (
                                #[trigger] after[b]).client_id() by {
                                    assert(inner[a].client_id() != inner[b].client_id());
                                }
                                assert forall|a: int| 0 <= a < after.len() implies (
                                #[trigger] after[a]).wf() by {
                                    assert(inner[a].wf());
                                }
                                assert(acceptances(client_id, granted).push(
                                    ServerToClientMessage::Message(
                                        ServerMessage::ConnectionAccepted(client_id),
                                    ),
                                ) =~= acceptances(client_id, granted + 1));
                            }
                        },
                        None => {},
                    }
                },
                ClientMessage::Disconnect => {},
            }
            j += 1;
        }
        proof {
            assert(messages@.take(messages@.len() as int) =~= messages@);
            assert(clients.take(i as int + 1).drop_last() =~= clients.take(i as int));
            assert(clients.take(i as int + 1).last() == clients[i as int]);
        }
        i += 1;
    }
    proof {
        assert(clients.take(clients.len() as int) =~= clients);
    }
}

/// Whether the slot holds an enemy.
pub open spec fn holds_enemy(slot: Option<Entity>) -> bool {
    slot.is_some() && slot.unwrap().player_type == Some(PlayerType { player_type: 1 })
}

/// The three queues of the tracker.
pub struct Log {
    pub inserted: Seq<Event>,
    pub modified: Seq<Event>,
    pub removed: Seq<Event>,
}

/// The queues that `tracker` holds.
pub open spec fn log_of(tracker: ChangeTracker) -> Log {
    Log { inserted: tracker.inserted(), modified: tracker.modified(), removed: tracker.removed() }
}

/// The queues after the removal of the entity `uid` was noted.
pub open spec fn with_removal(log: Log, uid: Uid) -> Log {
    Log {
        inserted: log.inserted.filter(crate::tracker::spares(uid)),
        modified: log.modified.filter(crate::tracker::spares(uid)),
        removed: if log.removed.contains(Event::Removed(uid)) {
            log.removed
        } else {
            log.removed.push(Event::Removed(uid))
        },
    }
}

/// The queues after the removal of the enemies in the first `upto` slots
/// was noted, slot by slot. An enemy without a name leaves no note.
pub open spec fn with_removed_enemies(
    log: Log,
    world: Seq<Option<Entity>>,
    ids: Map<Uid, EntityId>,
    upto: int,
) -> Log
    decreases upto,
{
    if upto <= 0 {
        log
    } else {
        let earlier = with_removed_enemies(log, world, ids, upto - 1);
        let entity = EntityId((upto - 1) as usize);
        if holds_enemy(world[upto - 1]) && is_named(ids, entity) {
            with_removal(earlier, name_of(ids, entity))
        } else {
            earlier
        }
    }
}

/// The identifiers that do not name an enemy in one of the first `upto`
/// slots.
pub open spec fn without_enemies(ids: Map<Uid, EntityId>, world: Seq<Option<Entity>>, upto: int) -> Map<
    Uid,
    EntityId,
> {
    Map::new(
        |uid: Uid| ids.contains_key(uid) && !(ids[uid].0 < upto && holds_enemy(world[ids[uid].0 as int])),
        |uid: Uid| ids[uid],
    )
}

/// The slot after the enemies were deleted.
pub open spec fn culled(slot: Option<Entity>) -> Option<Entity> {
    if holds_enemy(slot) {
        None
    } else {
        slot
    }
}

/// Deletes every enemy: the entity leaves the world, its identifier is
/// released, and the removal is noted.
pub fn cull_enemies(world: &mut World, allocator: &mut UidAllocator, tracker: &mut ChangeTracker)
    requires
        old(allocator).wf(),
        old(tracker).wf(),
        consistent(old(world)@, old(allocator)@),
    ensures
        final(allocator).wf(),
        final(tracker).wf(),
        consistent(final(world)@, final(allocator)@),
        final(world)@.len() == old(world)@.len(),
        forall|k: int| 0 <= k < old(world)@.len() ==> #[trigger] final(world)@[k] == culled(old(world)@[k]),
        final(allocator)@ == without_enemies(old(allocator)@, old(world)@, old(world)@.len() as int),
        final(allocator).next_uid() == old(allocator).next_uid(),
        log_of(*final(tracker)) == with_removed_enemies(
            log_of(*old(tracker)),
            old(world)@,
            old(allocator)@,
            old(world)@.len() as int,
        ),
{
    let ghost before = world@;
    let ghost ids = allocator@;
    let ghost log = log_of(*tracker);
    let count: usize = world.len();
    let mut k: usize = 0;
    proof {
        assert(allocator@ =~= without_enemies(ids, before, 0));
    }
    while k < count
        invariant
            k <= count,
            count == before.len(),
            world@.len() == before.len(),
            allocator.wf(),
            old(allocator).wf(),
            ids == old(allocator)@,
            tracker.wf(),
            consistent(world@, allocator@),
            consistent(before, ids),
            forall|j: int| 0 <= j < k ==> #[trigger] world@[j] == culled(before[j]),
            forall|j: int| k <= j < count ==> #[trigger] world@[j] == before[j],
            allocator@ == without_enemies(ids, before, k as int),
            allocator.next_uid() == old(allocator).next_uid(),
            log_of(*tracker) == with_removed_enemies(log, before, ids, k as int),
        decreases count - k,
    {
        let id = EntityId(k);
        let is_enemy = match world.get(id) {
            Some(entity) => match entity.player_type {
                Some(player_type) => player_type.player_type == 1,
                None => false,
            },
            None => false,
        };
        proof {
            old(allocator).lemma_one_to_one();
            allocator.lemma_one_to_one();
            assert(is_enemy == holds_enemy(before[k as int]));
        }
        if is_enemy {
            let ghost during = allocator@;
            let ghost midway = world@;
            let _ = world.delete(id);
            match allocator.uid_of(id) {
                Some(uid) => {
                    proof {
                        assert(ids.contains_key(uid) && ids[uid] == id);
                        assert(name_of(ids, id) == uid);
                    }
                    let _ = allocator.release(uid);
                    tracker.track_removed(uid);
                    proof {
                        assert(allocator@ =~= without_enemies(ids, before, k as int + 1)) by {
                            assert forall|other: Uid|
                                without_enemies(ids, before, k as int + 1).contains_key(other)
                                    == #[trigger] during.remove(uid).contains_key(other) by {
                                if ids.contains_key(other) && other != uid {
                                    assert(ids[other] != ids[uid]);
                                }
                            }
                        }
                    }
                },
                None => {
                    proof {
                        if is_named(ids, id) {
                            let uid = name_of(ids, id);
                            assert(during.contains_key(uid) && during[uid] == id);
                        }
                        assert(allocator@ =~= without_enemies(ids, before, k as int + 1));
                    }
                },
            }
            proof {
                assert forall|other: Uid| #[trigger] allocator@.contains_key(other) implies is_live(
                    world@,
                    allocator@[other],
                ) by {
                    assert(during.contains_key(other));
                    assert(is_live(midway, during[other]));
                }
            }
        } else {
            proof {
                assert(allocator@ =~= without_enemies(ids, before, k as int + 1));
            }
        }
        k += 1;
    }
}

/// Lets the enemies come and go with the frames: at every three hundredth
/// frame the enemies that there are leave, and at every hundredth frame
/// one appears.
pub fn enemy_system(
    ticker: &CommandFrameTicker,
    world: &mut World,
    allocator: &mut UidAllocator,
    tracker: &mut ChangeTracker,
)
    requires
        old(allocator).wf(),
        old(tracker).wf(),
        consistent(old(world)@, old(allocator)@),
    ensures
        final(allocator).wf(),
        final(tracker).wf(),
        consistent(final(world)@, final(allocator)@),
        ({
            let leave = ticker.command_frame() % 300 == 0;
            let appear = ticker.command_frame() % 100 == 0;
            let log = if leave {
                with_removed_enemies(
                    log_of(*old(tracker)),
                    old(world)@,
                    old(allocator)@,
                    old(world)@.len() as int,
                )
            } else {
                log_of(*old(tracker))
            };
            let left = Realm {
                world: if leave {
                    old(world)@.map_values(|slot: Option<Entity>| culled(slot))
                } else {
                    old(world)@
                },
                ids: if leave {
                    without_enemies(old(allocator)@, old(world)@, old(world)@.len() as int)
                } else {
                    old(allocator)@
                },
                next_uid: old(allocator).next_uid(),
                inserted: log.inserted,
            };
            &&& realm_of(*final(world), *final(allocator), *final(tracker)) == if appear {
                spawned(left, new_enemy())
            } else {
                left
            }
            &&& final(tracker).modified() == log.modified
            &&& final(tracker).removed() == log.removed
        }),
{
    let frame = ticker.command_frame();
    if frame % 300 == 0 {
        cull_enemies(world, allocator, tracker);
        proof {
            assert(world@ =~= old(world)@.map_values(|slot: Option<Entity>| culled(slot)));
        }
    }
    if frame % 100 == 0 {
        let enemy = Entity {
            position: Some(Position { x: 20, y: 15 }),
            player_type: Some(PlayerType::new(PlayerTypeOp::Enemy)),
            player_info: None,
        };
        let _ = spawn(world, allocator, tracker, enemy);
    }
}

/// A change as the server sends it: stamped with the frame `frame`.
pub open spec fn stamped_with(frame: CommandFrame) -> spec_fn(Event) -> ServerToClientMessage {
    |event: Event| ServerToClientMessage::Event(frame, event)
}

/// The frame that follows `frame`; the last frame follows itself.
pub open spec fn following(frame: CommandFrame) -> CommandFrame {
    if frame < CommandFrame::MAX {
        (frame + 1) as CommandFrame
    } else {
        frame
    }
}

/// The stamp of the changes that the server sends to `client` at the
/// server frame `frame`: the changes hold the commands that were due up
/// to `frame`, so they hold from the following frame on, read on the
/// clock of the client.
pub open spec fn stamp_for(client: Client, frame: CommandFrame) -> CommandFrame {
    CommandPostBox::client_frame(client.command_postbox().offset(), following(frame))
}

/// The channels of one client after `news` were queued for it.
pub open spec fn informed(before: Client, after: Client, news: Seq<ServerToClientMessage>) -> bool {
    &&& after.client_id() == before.client_id()
    &&& after.command_postbox() == before.command_postbox()
    &&& after.postbox().inbox() == before.postbox().inbox()
    &&& after.postbox().outbox() == before.postbox().outbox() + news
}

/// Empties the tracker and queues what it held for every client: the
/// insertions, then the modifications, then the removals, each stamped
/// for the client with the frame from which on it holds.
pub fn broadcast_events_system(
    tracker: &mut ChangeTracker,
    post_office: &mut PostOffice,
    ticker: &CommandFrameTicker,
)
    requires
        old(tracker).wf(),
        old(post_office).wf(),
    ensures
        final(tracker).wf(),
        final(post_office).wf(),
        final(tracker).inserted() == Seq::<Event>::empty(),
        final(tracker).modified() == Seq::<Event>::empty(),
        final(tracker).removed() == Seq::<Event>::empty(),
        final(post_office).clients().len() == old(post_office).clients().len(),
        forall|i: int|
            0 <= i < old(post_office).clients().len() ==> informed(
                old(post_office).clients()[i],
                #[trigger] final(post_office).clients()[i],
                (old(tracker).inserted() + old(tracker).modified() + old(tracker).removed()).map_values(
                    stamped_with(stamp_for(old(post_office).clients()[i], ticker.command_frame())),
                ),
            ),
{
    let frame = ticker.command_frame();
    let next_frame: CommandFrame = if frame < CommandFrame::MAX {
        frame + 1
    } else {
        frame
    };
    let mut events = tracker.drain_inserted();
    let mut modified = tracker.drain_modified();
    let mut removed = tracker.drain_removed();
    events.append(&mut modified);
    events.append(&mut removed);
    let ghost clients = post_office.clients();
    let mut i: usize = 0;
    while i < post_office.len()
        invariant
            i <= clients.len(),
            clients == old(post_office).clients(),
            post_office.wf(),
            post_office.clients().len() == clients.len(),
            next_frame == following(frame),
            forall|k: int|
                0 <= k < i ==> informed(
                    clients[k],
                    #[trigger] post_office.clients()[k],
                    events@.map_values(stamped_with(stamp_for(clients[k], frame))),
                ),
            forall|k: int| i <= k < clients.len() ==> #[trigger] post_office.clients()[k] == clients[k],
        decreases clients.len() - i,
    {
        let ghost during = post_office.clients();
        let stamp = post_office.client(i).command_postbox().to_client_frame(next_frame);
        let ghost news = events@.map_values(stamped_with(stamp));
        let postbox = post_office.postbox_mut(i);
        let ghost outbox = postbox.outbox();
        let ghost inbox = postbox.inbox();
        let mut j: usize = 0;
        while j < events.len()
            invariant
                j <= events@.len(),
                news == events@.map_values(stamped_with(stamp)),
                postbox.inbox() == inbox,
                postbox.outbox() == outbox + news.take(j as int),
            decreases events@.len() - j,
        {
            postbox.send(ServerToClientMessage::Event(stamp, events[j]));
            proof {
                assert(news.take(j as int + 1) =~= news.take(j as int).push(news[j as int]));
                assert(postbox.outbox() =~= outbox + news.take(j as int + 1));
            }
            j += 1;
        }
        proof {
            broadcast use Client::lemma_with_postbox;

            assert(news.take(events@.len() as int) =~= news);
            let after = post_office.clients();
            assert forall|a: int, b: int| 0 <= a < b < after.len() implies (
            #[trigger] after[a]).client_id() != (#[trigger] after[b]).client_id() by {
                assert(during[a].client_id() != during[b].client_id());
            }
            assert forall|a: int| 0 <= a < after.len() implies (#[trigger] after[a]).wf() by {
                assert(during[a].wf());
            }
        }
        i += 1;
    }
}

} // verus!
