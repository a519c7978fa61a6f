//! What travels between the peers, and the server's channels: one post box
//! and one buffer of commands for each connected client.

use vstd::prelude::*;
use vstd::relations::sorted_by;
use crate::clock::FrameOffset;
use crate::error::ChannelClosedError;
use crate::message::{ClientCommand, ClientId, ClientMessage, CommandFrame, ServerMessage};
use crate::postbox::PostBox;
use crate::queue::lemma_split_is_filter;
use crate::tracker::Event;

verus! {

/// What the server sends to a client.
#[derive(Debug, Clone, Copy, PartialEq, Eq)]
pub enum ServerToClientMessage {
    /// An application-level message.
    Message(ServerMessage),
    /// A change of the authoritative state, and the frame of the client
    /// from which on it holds: the commands of earlier frames are in it.
    Event(CommandFrame, Event),
}

/// What a client sends to the server.
#[derive(Debug, Clone, Copy, PartialEq, Eq)]
pub enum ClientToServerMessage {
    /// An application-level message.
    Message(ClientMessage),
    /// A command, and the frame of the client at which it was issued.
    Command(CommandFrame, ClientCommand),
}

/// A command and the server frame at which it is due.
#[derive(Debug, Clone, Copy, PartialEq, Eq, Structural)]
pub struct StampedCommand {
    pub command_frame: CommandFrame,
    pub command: ClientCommand,
}

/// The command of a stamped command.
pub open spec fn stamped_command() -> spec_fn(StampedCommand) -> ClientCommand {
    |stamped: StampedCommand| stamped.command
}

/// Ordered by frame.
pub open spec fn by_frame() -> spec_fn(StampedCommand, StampedCommand) -> bool {
    |a: StampedCommand, b: StampedCommand| a.command_frame <= b.command_frame
}

/// The commands that are due at `frame` or were due before.
pub open spec fn due(frame: CommandFrame) -> spec_fn(StampedCommand) -> bool {
    |c: StampedCommand| c.command_frame <= frame
}

/// The commands that are due after `frame`.
pub open spec fn later(frame: CommandFrame) -> spec_fn(StampedCommand) -> bool {
    |c: StampedCommand| c.command_frame > frame
}

/// The buffer after `command` was filed behind the commands of its frame
/// and of earlier frames.
pub open spec fn filed(buffered: Seq<StampedCommand>, command: StampedCommand) -> Seq<
    StampedCommand,
> {
    buffered.insert(buffered.filter(due(command.command_frame)).len() as int, command)
}

/// The commands of one client that wait for their frame, in the order in
/// which the server will apply them.
pub struct CommandPostBox {
    offset: Option<FrameOffset>,
    highest_seen: CommandFrame,
    floor: CommandFrame,
    buffered: Vec<StampedCommand>,
}

impl CommandPostBox {
    /// The waiting commands, earliest frame first; within a frame, first
    /// arrived first.
    pub closed spec fn buffered(&self) -> Seq<StampedCommand> {
        self.buffered@
    }

    /// The distance from the client's clock to the server's, once the
    /// first command has fixed it.
    pub closed spec fn offset(&self) -> Option<int> {
        match self.offset {
            Some(offset) => Some(offset.delta()),
            None => None,
        }
    }

    /// The highest frame of the client that a command carried.
    pub closed spec fn spec_highest_seen(&self) -> CommandFrame {
        self.highest_seen
    }

    /// The latest frame that was drained. A command that is due before it
    /// comes too late.
    pub closed spec fn floor(&self) -> CommandFrame {
        self.floor
    }

    /// The buffer is ordered by frame and holds nothing that is due before
    /// the floor.
    pub closed spec fn wf(&self) -> bool {
        &&& sorted_by(self.buffered@, by_frame())
        &&& forall|i: int|
            0 <= i < self.buffered@.len() ==> (#[trigger] self.buffered@[i]).command_frame
                >= self.floor
        &&& match self.offset {
            Some(offset) => offset.wf(),
            None => true,
        }
    }

    /// A well-formed buffer is ordered by frame, from the floor upwards.
    pub proof fn lemma_ordered(&self)
        requires
            self.wf(),
        ensures
            sorted_by(self.buffered(), by_frame()),
            forall|i: int|
                0 <= i < self.buffered().len() ==> (#[trigger] self.buffered()[i]).command_frame
                    >= self.floor(),
    {
    }

    pub fn new() -> (r: CommandPostBox)
        ensures
            r.wf(),
            r.buffered() == Seq::<StampedCommand>::empty(),
            r.offset().is_none(),
            r.highest_seen() == 0,
            r.floor() == 0,
    {
        CommandPostBox { offset: None, highest_seen: 0, floor: 0, buffered: Vec::new() }
    }

    /// The distance from the client's clock to the server's, if a command
    /// has fixed it.
    pub fn command_frame_offset(&self) -> (r: Option<i64>)
        requires
            self.wf(),
        ensures
            r.is_some() == self.offset().is_some(),
            r.is_some() ==> r.unwrap() == self.offset().unwrap(),
    {
        match &self.offset {
            Some(offset) => Some(offset.raw()),
            None => None,
        }
    }

    #[verifier::when_used_as_spec(spec_highest_seen)]
    pub fn highest_seen(&self) -> (r: CommandFrame)
        ensures
            r == self.spec_highest_seen(),
    {
        self.highest_seen
    }

    /// The frame of the client on which the server frame `server_frame`
    /// falls: the server frame itself while no command has fixed the
    /// offset, and the nearest frame that there is where the counter
    /// cannot hold the exact one.
    pub open spec fn client_frame(offset: Option<int>, server_frame: CommandFrame) -> CommandFrame {
        match offset {
            Some(delta) => if server_frame - delta < 0 {
                0
            } else if server_frame - delta > CommandFrame::MAX {
                CommandFrame::MAX
            } else {
                (server_frame - delta) as CommandFrame
            },
            None => server_frame,
        }
    }

    /// Reads a frame of the server on the clock of the client.
    pub fn to_client_frame(&self, server_frame: CommandFrame) -> (r: CommandFrame)
        requires
            self.wf(),
        ensures
            r == Self::client_frame(self.offset(), server_frame),
    {
        match &self.offset {
            Some(offset) => match offset.to_local(server_frame) {
                Some(frame) => frame,
                None => if offset.raw() > 0 {
                    0
                } else {
                    CommandFrame::MAX
                },
            },
            None => server_frame,
        }
    }

    /// Forgets the offset, so that the next command fixes it anew.
    pub fn reset_offset(&mut self)
        requires
            old(self).wf(),
        ensures
            final(self).wf(),
            final(self).offset().is_none(),
            final(self).buffered() == old(self).buffered(),
            final(self).floor() == old(self).floor(),
            final(self).highest_seen() == old(self).highest_seen(),
    {
        self.offset = None;
    }

    /// The server frame at which a command of the client's frame
    /// `client_frame` is due, when it arrives at the server frame
    /// `server_frame`: the first command is due on arrival, and fixes the
    /// offset for those that follow.
    pub open spec fn due_frame(
        offset: Option<int>,
        client_frame: CommandFrame,
        server_frame: CommandFrame,
    ) -> int {
        match offset {
            Some(delta) => client_frame + delta,
            None => server_frame as int,
        }
    }

    /// Whether a command that is due at `frame` is taken into the buffer.
    pub open spec fn accepts(&self, frame: int) -> bool {
        self.floor() <= frame <= CommandFrame::MAX
    }

    /// Whether `after` is this buffer after a command arrived: the first
    /// command fixes the offset, every command may raise the highest frame
    /// seen, and a command that is accepted is filed by its frame.
    pub open spec fn pushed(
        &self,
        after: CommandPostBox,
        client_frame: CommandFrame,
        command: ClientCommand,
        server_frame: CommandFrame,
    ) -> bool {
        let frame = Self::due_frame(self.offset(), client_frame, server_frame);
        &&& after.floor() == self.floor()
        &&& after.offset() == match self.offset() {
            Some(delta) => Some(delta),
            None => Some(server_frame - client_frame),
        }
        &&& after.highest_seen() == if client_frame > self.highest_seen() {
            client_frame
        } else {
            self.highest_seen()
        }
        &&& after.buffered() == if self.accepts(frame) {
            filed(self.buffered(), StampedCommand { command_frame: frame as CommandFrame, command })
        } else {
            self.buffered()
        }
    }

    /// Files a command that arrived. It is dropped where it is due before
    /// a frame that was drained already, or beyond the last frame. Answers
    /// whether it was filed.
    pub fn push(&mut self, client_frame: CommandFrame, command: ClientCommand, server_frame: CommandFrame) -> (r: bool)
        requires
            old(self).wf(),
        ensures
            final(self).wf(),
            r == old(self).accepts(Self::due_frame(old(self).offset(), client_frame, server_frame)),
            old(self).pushed(*final(self), client_frame, command, server_frame),
    {
        let offset = match self.offset {
            Some(offset) => offset,
            None => {
                let offset = FrameOffset::between(client_frame, server_frame);
                self.offset = Some(offset);
                offset
            },
        };
        if client_frame > self.highest_seen {
            self.highest_seen = client_frame;
        }
        let frame = match offset.to_remote(client_frame) {
            Some(frame) => frame,
            None => {
                return false;
            },
        };
        if frame < self.floor {
            return false;
        }
        let ghost before = self.buffered@;
        let mut k: usize = self.buffered.len();
        while k > 0 && self.buffered[k - 1].command_frame > frame
            invariant
                k <= self.buffered@.len(),
                self.buffered@ == before,
                forall|i: int| k <= i < before.len() ==> (#[trigger] before[i]).command_frame > frame,
            decreases k,
        {
            k -= 1;
        }
        let stamped = StampedCommand { command_frame: frame, command };
        proof {
            assert forall|i: int| 0 <= i < k implies (#[trigger] before[i]).command_frame
                <= frame by {
                assert(by_frame()(before[i], before[k - 1]));
            }
            lemma_split_is_filter(before, due(frame), later(frame), k as int);
            assert(before.take(k as int).len() == k);
        }
        self.buffered.insert(k, stamped);
        proof {
            let after = self.buffered@;
            assert forall|i: int, j: int| 0 <= i < j < after.len() implies #[trigger] by_frame()(
                after[i],
                after[j],
            ) by {
                let a = if i < k { i } else { i - 1 };
                let b = if j < k { j } else { j - 1 };
                if i != k && j != k {
                    assert(by_frame()(before[a], before[b]));
                }
            }
        }
        true
    }

    /// Takes out the commands that are due at `frame` or were due before,
    /// in the order in which they are to be applied, and raises the floor
    /// to `frame`. `None` where no command is due.
    pub fn drain_frame(&mut self, frame: CommandFrame) -> (r: Option<Vec<StampedCommand>>)
        requires
            old(self).wf(),
        ensures
            final(self).wf(),
            final(self).offset() == old(self).offset(),
            final(self).highest_seen() == old(self).highest_seen(),
            final(self).floor() == if frame > old(self).floor() {
                frame
            } else {
                old(self).floor()
            },
            final(self).buffered() == old(self).buffered().filter(later(frame)),
            match r {
                Some(commands) => commands@.len() > 0 && commands@ == old(self).buffered().filter(
                    due(frame),
                ),
                None => old(self).buffered().filter(due(frame)).len() == 0,
            },
    {
        let ghost before = self.buffered@;
        let mut k: usize = 0;
        while k < self.buffered.len() && self.buffered[k].command_frame <= frame
            invariant
                k <= self.buffered@.len(),
                self.buffered@ == before,
                forall|i: int| 0 <= i < k ==> (#[trigger] before[i]).command_frame <= frame,
            decreases self.buffered@.len() - k,
        {
            k += 1;
        }
        proof {
            assert forall|i: int| k <= i < before.len() implies (#[trigger] before[i]).command_frame
                > frame by {
                if i > k {
                    assert(by_frame()(before[k as int], before[i]));
                }
            }
            lemma_split_is_filter(before, due(frame), later(frame), k as int);
        }
        let mut rest = self.buffered.split_off(k);
        std::mem::swap(&mut rest, &mut self.buffered);
        if frame > self.floor {
            self.floor = frame;
        }
        proof {
            assert(self.buffered@ =~= before.skip(k as int));
            assert(rest@ =~= before.take(k as int));
            assert forall|i: int, j: int|
                0 <= i < j < self.buffered@.len() implies #[trigger] by_frame()(
                self.buffered@[i],
                self.buffered@[j],
            ) by {
                assert(by_frame()(before[k + i], before[k + j]));
            }
        }
        if rest.len() == 0 {
            None
        } else {
            Some(rest)
        }
    }
}

/// The server's side of the connection to one client.
pub struct Client {
    client_id: ClientId,
    postbox: PostBox<ClientMessage, ServerToClientMessage>,
    command_postbox: CommandPostBox,
}

impl Client {
    pub closed spec fn spec_client_id(&self) -> ClientId {
        self.client_id
    }

    pub closed spec fn spec_postbox(&self) -> &PostBox<ClientMessage, ServerToClientMessage> {
        &self.postbox
    }

    pub closed spec fn spec_command_postbox(&self) -> &CommandPostBox {
        &self.command_postbox
    }

    /// The client with another post box in place of its own.
    pub closed spec fn with_postbox(
        &self,
        postbox: PostBox<ClientMessage, ServerToClientMessage>,
    ) -> Client {
        Client { client_id: self.client_id, postbox, command_postbox: self.command_postbox }
    }

    /// The client with another buffer of commands in place of its own.
    pub closed spec fn with_command_postbox(&self, command_postbox: CommandPostBox) -> Client {
        Client { client_id: self.client_id, postbox: self.postbox, command_postbox }
    }

    pub open spec fn wf(&self) -> bool {
        self.command_postbox().wf()
    }

    /// Replacing a part of a client replaces that part and no other.
    pub broadcast proof fn lemma_with_postbox(
        &self,
        postbox: PostBox<ClientMessage, ServerToClientMessage>,
    )
        ensures
            (#[trigger] self.with_postbox(postbox)).client_id() == self.client_id(),
            self.with_postbox(postbox).postbox() == postbox,
            self.with_postbox(postbox).command_postbox() == self.command_postbox(),
    {
    }

    /// Replacing a part of a client replaces that part and no other.
    pub broadcast proof fn lemma_with_command_postbox(&self, command_postbox: CommandPostBox)
        ensures
            (#[trigger] self.with_command_postbox(command_postbox)).client_id()
                == self.client_id(),
            self.with_command_postbox(command_postbox).postbox() == self.postbox(),
            self.with_command_postbox(command_postbox).command_postbox() == command_postbox,
    {
    }

    /// Whether this is the client `client_id` as it is when it has just
    /// connected: nothing waits in its channels, and no command has fixed
    /// the offset.
    pub open spec fn is_new(&self, client_id: ClientId) -> bool {
        &&& self.client_id() == client_id
        &&& self.postbox().inbox() == Seq::<ClientMessage>::empty()
        &&& self.postbox().outbox() == Seq::<ServerToClientMessage>::empty()
        &&& self.command_postbox().buffered() == Seq::<StampedCommand>::empty()
        &&& self.command_postbox().offset().is_none()
        &&& self.command_postbox().highest_seen() == 0
        &&& self.command_postbox().floor() == 0
    }

    pub fn new(client_id: ClientId) -> (r: Client)
        ensures
            r.wf(),
            r.is_new(client_id),
    {
        Client { client_id, postbox: PostBox::new(), command_postbox: CommandPostBox::new() }
    }

    #[verifier::when_used_as_spec(spec_client_id)]
    pub fn client_id(&self) -> (r: ClientId)
        ensures
            r == self.spec_client_id(),
    {
        self.client_id
    }

    #[verifier::when_used_as_spec(spec_postbox)]
    pub fn postbox(&self) -> (r: &PostBox<ClientMessage, ServerToClientMessage>)
        ensures
            r == self.spec_postbox(),
    {
        &self.postbox
    }

    pub fn postbox_mut(&mut self) -> (r: &mut PostBox<ClientMessage, ServerToClientMessage>)
        ensures
            *r == old(self).postbox(),
            *final(self) == old(self).with_postbox(*final(r)),
    {
        &mut self.postbox
    }

    #[verifier::when_used_as_spec(spec_command_postbox)]
    pub fn command_postbox(&self) -> (r: &CommandPostBox)
        ensures
            r == self.spec_command_postbox(),
    {
        &self.command_postbox
    }

    pub fn command_postbox_mut(&mut self) -> (r: &mut CommandPostBox)
        ensures
            *r == old(self).command_postbox(),
            *final(self) == old(self).with_command_postbox(*final(r)),
    {
        &mut self.command_postbox
    }

    /// Whether `message`, arriving at the server frame `server_frame`, is
    /// filed: a message always, a command where the buffer accepts it.
    pub open spec fn files(&self, message: ClientToServerMessage, server_frame: CommandFrame) -> bool {
        match message {
            ClientToServerMessage::Message(_) => true,
            ClientToServerMessage::Command(client_frame, _) => self.command_postbox().accepts(
                CommandPostBox::due_frame(
                    self.command_postbox().offset(),
                    client_frame,
                    server_frame,
                ),
            ),
        }
    }

    /// Whether `after` is this client after `message` arrived at the
    /// server frame `server_frame`: a message stands at the end of the
    /// inbox, a command went to the buffer of commands.
    pub open spec fn received(
        &self,
        after: Client,
        message: ClientToServerMessage,
        server_frame: CommandFrame,
    ) -> bool {
        &&& after.client_id() == self.client_id()
        &&& match message {
            ClientToServerMessage::Message(m) => {
                &&& after.postbox().inbox() == self.postbox().inbox().push(m)
                &&& after.postbox().outbox() == self.postbox().outbox()
                &&& after.command_postbox() == self.command_postbox()
            },
            ClientToServerMessage::Command(client_frame, command) => {
                &&& after.postbox() == self.postbox()
                &&& self.command_postbox().pushed(
                    *after.command_postbox(),
                    client_frame,
                    command,
                    server_frame,
                )
            },
        }
    }

    /// Files what arrived from the client at the server frame
    /// `server_frame`: a message into the post box, a command into the
    /// buffer of commands. Answers whether it was filed; a command that
    /// comes too late is not.
    pub fn receive(&mut self, message: ClientToServerMessage, server_frame: CommandFrame) -> (r: bool)
        requires
            old(self).wf(),
        ensures
            final(self).wf(),
            r == old(self).files(message, server_frame),
            old(self).received(*final(self), message, server_frame),
    {
        match message {
            ClientToServerMessage::Message(m) => {
                self.postbox.add_to_inbox(m);
                true
            },
            ClientToServerMessage::Command(client_frame, command) => self.command_postbox.push(
                client_frame,
                command,
                server_frame,
            ),
        }
    }
}

/// The clients with a message in the inbox.
pub open spec fn has_mail() -> spec_fn(Client) -> bool {
    |client: Client| client.postbox().inbox().len() > 0
}

/// The identity of a client.
pub open spec fn id_of() -> spec_fn(Client) -> ClientId {
    |client: Client| client.client_id()
}

/// The place of the client `client_id` among `clients`, if it is there.
pub open spec fn place_of(clients: Seq<Client>, client_id: ClientId) -> Option<int> {
    if exists|i: int| 0 <= i < clients.len() && (#[trigger] clients[i]).client_id() == client_id {
        Some(
            choose|i: int| 0 <= i < clients.len() && (#[trigger] clients[i]).client_id() == client_id,
        )
    } else {
        None
    }
}

/// The server's channels: one for each connected client.
pub struct PostOffice {
    clients: Vec<Client>,
}

impl PostOffice {
    /// The connected clients, in the order in which they connected.
    pub closed spec fn clients(&self) -> Seq<Client> {
        self.clients@
    }

    /// Every client is well-formed, and no two have the same identity.
    pub open spec fn wf(&self) -> bool {
        &&& forall|i: int| 0 <= i < self.clients().len() ==> (#[trigger] self.clients()[i]).wf()
        &&& forall|i: int, j: int|
            0 <= i < j < self.clients().len() ==> (#[trigger] self.clients()[i]).client_id() != (
            #[trigger] self.clients()[j]).client_id()
    }

    /// In a well-formed post office a client stands at the place at which
    /// its identity is found.
    pub proof fn lemma_place_of(&self, i: int)
        requires
            self.wf(),
            0 <= i < self.clients().len(),
        ensures
            place_of(self.clients(), self.clients()[i].client_id()) == Some(i),
    {
        let clients = self.clients();
        let client_id = clients[i].client_id();
        let j = choose|j: int| 0 <= j < clients.len() && (#[trigger] clients[j]).client_id() == client_id;
        if j < i {
            assert(clients[j].client_id() != clients[i].client_id());
        } else if i < j {
            assert(clients[i].client_id() != clients[j].client_id());
        }
    }

    pub fn new() -> (r: PostOffice)
        ensures
            r.wf(),
            r.clients() == Seq::<Client>::empty(),
    {
        PostOffice { clients: Vec::new() }
    }

    /// The number of connected clients.
    pub fn len(&self) -> (r: usize)
        ensures
            r == self.clients().len(),
    {
        self.clients.len()
    }

    /// The place of the client `client_id`.
    pub fn index_of(&self, client_id: ClientId) -> (r: Option<usize>)
        ensures
            match r {
                Some(i) => i < self.clients().len() && self.clients()[i as int].client_id()
                    == client_id,
                None => place_of(self.clients(), client_id).is_none(),
            },
            self.wf() ==> match r {
                Some(i) => place_of(self.clients(), client_id) == Some(i as int),
                None => true,
            },
    {
        let mut i: usize = 0;
        while i < self.clients.len()
            invariant
                i <= self.clients@.len(),
                forall|k: int| 0 <= k < i ==> (#[trigger] self.clients@[k]).client_id() != client_id,
            decreases self.clients@.len() - i,
        {
            if self.clients[i].client_id() == client_id {
                proof {
                    if self.wf() {
                        self.lemma_place_of(i as int);
                    }
                }
                return Some(i);
            }
            i += 1;
        }
        None
    }

    /// Opens the channels of a client that connected. Answers `false`, and
    /// changes nothing, where the client is connected already.
    pub fn add_client(&mut self, client_id: ClientId) -> (r: bool)
        requires
            old(self).wf(),
        ensures
            final(self).wf(),
            r == place_of(old(self).clients(), client_id).is_none(),
            r ==> final(self).clients().len() == old(self).clients().len() + 1
                && final(self).clients().drop_last() == old(self).clients() && final(self).clients().last().is_new(client_id),
            !r ==> final(self).clients() == old(self).clients(),
    {
        match self.index_of(client_id) {
            Some(_) => false,
            None => {
                let client = Client::new(client_id);
                self.clients.push(client);
                proof {
                    assert(self.clients@.drop_last() =~= old(self).clients@);
                }
                true
            },
        }
    }

    /// Tears down the channels of a client that disconnected, with all that
    /// waits in them. Answers whether the client was connected.
    pub fn remove_client(&mut self, client_id: ClientId) -> (r: bool)
        requires
            old(self).wf(),
        ensures
            final(self).wf(),
            match place_of(old(self).clients(), client_id) {
                Some(i) => r && final(self).clients() == old(self).clients().remove(i),
                None => !r && final(self).clients() == old(self).clients(),
            },
    {
        match self.index_of(client_id) {
            Some(i) => {
                let ghost before = self.clients@;
                let _ = self.clients.remove(i);
                proof {
                    let after = self.clients@;
                    assert forall|a: int, b: int| 0 <= a < b < after.len() implies (
                    #[trigger] after[a]).client_id() != (#[trigger] after[b]).client_id() by {
                        let x = if a < i { a } else { a + 1 };
                        let y = if b < i { b } else { b + 1 };
                        assert(before[x].client_id() != before[y].client_id());
                    }
                    assert forall|a: int| 0 <= a < after.len() implies (#[trigger] after[a]).wf() by {
                        let x = if a < i { a } else { a + 1 };
                        assert(before[x].wf());
                    }
                }
                true
            },
            None => false,
        }
    }

    /// The client at the place `index`.
    pub fn client(&self, index: usize) -> (r: &Client)
        requires
            index < self.clients().len(),
        ensures
            *r == self.clients()[index as int],
    {
        &self.clients[index]
    }

    /// The post box of the client at the place `index`, to drain and to
    /// send through.
    pub fn postbox_mut(&mut self, index: usize) -> (r: &mut PostBox<
        ClientMessage,
        ServerToClientMessage,
    >)
        requires
            index < old(self).clients().len(),
        ensures
            *r == old(self).clients()[index as int].postbox(),
            final(self).clients() == old(self).clients().update(
                index as int,
                old(self).clients()[index as int].with_postbox(*final(r)),
            ),
    {
        self.clients[index].postbox_mut()
    }

    /// The buffer of commands of the client at the place `index`.
    pub fn command_postbox_mut(&mut self, index: usize) -> (r: &mut CommandPostBox)
        requires
            index < old(self).clients().len(),
        ensures
            *r == old(self).clients()[index as int].command_postbox(),
            final(self).clients() == old(self).clients().update(
                index as int,
                old(self).clients()[index as int].with_command_postbox(*final(r)),
            ),
    {
        self.clients[index].command_postbox_mut()
    }

    /// The identities of the connected clients.
    pub fn client_ids(&self) -> (r: Vec<ClientId>)
        ensures
            r@ == self.clients().map_values(id_of()),
    {
        let mut ids: Vec<ClientId> = Vec::new();
        let mut i: usize = 0;
        while i < self.clients.len()
            invariant
                i <= self.clients@.len(),
                ids@ == self.clients@.take(i as int).map_values(id_of()),
            decreases self.clients@.len() - i,
        {
            ids.push(self.clients[i].client_id());
            proof {
                assert(self.clients@.take(i as int + 1) =~= self.clients@.take(i as int).push(
                    self.clients@[i as int],
                ));
                assert(ids@ =~= self.clients@.take(i as int + 1).map_values(id_of()));
            }
            i += 1;
        }
        assert(self.clients@.take(self.clients@.len() as int) =~= self.clients@);
        ids
    }

    /// The identities of the clients from which a message has arrived and
    /// waits: a pass has no need to look at the others.
    pub fn clients_with_inbox(&self) -> (r: Vec<ClientId>)
        ensures
            r@ == self.clients().filter(has_mail()).map_values(id_of()),
    {
        let mut ids: Vec<ClientId> = Vec::new();
        let mut i: usize = 0;
        proof {
            reveal(Seq::filter);
            assert(self.clients@.take(0).filter(has_mail()) =~= Seq::<Client>::empty());
        }
        while i < self.clients.len()
            invariant
                i <= self.clients@.len(),
                ids@ == self.clients@.take(i as int).filter(has_mail()).map_values(id_of()),
            decreases self.clients@.len() - i,
        {
            let client = &self.clients[i];
            proof {
                assert(self.clients@.take(i as int + 1) =~= self.clients@.take(i as int).push(
                    *client,
                ));
                self.clients@.take(i as int).lemma_filter_push(*client, has_mail());
            }
            if !client.postbox().empty_inbox() {
                ids.push(client.client_id());
                assert(ids@ =~= self.clients@.take(i as int + 1).filter(has_mail()).map_values(
                    id_of(),
                ));
            }
            i += 1;
        }
        assert(self.clients@.take(self.clients@.len() as int) =~= self.clients@);
        ids
    }

    /// Files what arrived from the client `client_id` at the server frame
    /// `server_frame`, as `Client::receive` does, and answers as it does;
    /// the error, where the client is not connected.
    pub fn receive(
        &mut self,
        client_id: ClientId,
        message: ClientToServerMessage,
        server_frame: CommandFrame,
    ) -> (r: Result<bool, ChannelClosedError>)
        requires
            old(self).wf(),
        ensures
            final(self).wf(),
            final(self).clients().len() == old(self).clients().len(),
            match place_of(old(self).clients(), client_id) {
                None => r == Err::<bool, ChannelClosedError>(ChannelClosedError { client_id })
                    && final(self).clients() == old(self).clients(),
                Some(i) => {
                    &&& r == Ok::<bool, ChannelClosedError>(
                        old(self).clients()[i].files(message, server_frame),
                    )
                    &&& old(self).clients()[i].received(
                        final(self).clients()[i],
                        message,
                        server_frame,
                    )
                    &&& forall|k: int|
                        0 <= k < old(self).clients().len() && k != i ==> final(self).clients()[k]
                            == old(self).clients()[k]
                },
            },
    {
        match self.index_of(client_id) {
            None => Err(ChannelClosedError { client_id }),
            Some(i) => {
                let ghost before = self.clients@;
                let filed = self.clients[i].receive(message, server_frame);
                proof {
                    let after = self.clients@;
                    assert forall|a: int, b: int| 0 <= a < b < after.len() implies (
                    #[trigger] after[a]).client_id() != (#[trigger] after[b]).client_id() by {
                        assert(before[a].client_id() != before[b].client_id());
                    }
                    assert forall|a: int| 0 <= a < after.len() implies (#[trigger] after[a]).wf() by {
                        assert(before[a].wf());
                    }
                }
                Ok(filed)
            },
        }
    }

    /// Queues `message` for the client `client_id`; the error, where the
    /// client is not connected.
    pub fn send(&mut self, client_id: ClientId, message: ServerToClientMessage) -> (r: Result<
        (),
        ChannelClosedError,
    >)
        requires
            old(self).wf(),
        ensures
            final(self).wf(),
            final(self).clients().len() == old(self).clients().len(),
            match place_of(old(self).clients(), client_id) {
                None => r == Err::<(), ChannelClosedError>(ChannelClosedError { client_id })
                    && final(self).clients() == old(self).clients(),
                Some(i) => {
                    &&& r.is_ok()
                    &&& forall|k: int|
                        0 <= k < old(self).clients().len() && k != i ==> final(self).clients()[k]
                            == old(self).clients()[k]
                    &&& final(self).clients()[i].client_id() == client_id
                    &&& final(self).clients()[i].postbox().outbox() == old(self).clients()[i].postbox().outbox().push(message)
                    &&& final(self).clients()[i].postbox().inbox() == old(self).clients()[i].postbox().inbox()
                    &&& final(self).clients()[i].command_postbox() == old(self).clients()[i].command_postbox()
                },
            },
    {
        match self.index_of(client_id) {
            None => Err(ChannelClosedError { client_id }),
            Some(i) => {
                let ghost before = self.clients@;
                let postbox = self.postbox_mut(i);
                postbox.send(message);
                proof {
                    let after = self.clients@;
                    Client::lemma_with_postbox(&before[i as int], *after[i as int].postbox());
                    assert forall|a: int, b: int| 0 <= a < b < after.len() implies (
                    #[trigger] after[a]).client_id() != (#[trigger] after[b]).client_id() by {
                        assert(before[a].client_id() != before[b].client_id());
                    }
                    assert forall|a: int| 0 <= a < after.len() implies (#[trigger] after[a]).wf() by {
                        assert(before[a].wf());
                    }
                }
                Ok(())
            },
        }
    }
}

} // verus!
