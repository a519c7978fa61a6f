use entity_sync::clock::{CommandFrameTicker, FrameOffset};
use entity_sync::error::ChannelClosedError;
use entity_sync::message::{ClientCommand, ClientMessage, ServerMessage};
use entity_sync::postbox::PostBox;
use entity_sync::transport::{
    Client, ClientToServerMessage, CommandPostBox, PostOffice, ServerToClientMessage, StampedCommand,
};

#[test]
fn a_post_box_is_first_in_first_out() {
    let mut postbox: PostBox<u32, u32> = PostBox::new();
    assert!(postbox.empty_inbox());
    assert!(postbox.empty_outbox());
    postbox.send(1);
    postbox.send(2);
    postbox.add_to_inbox(10);
    postbox.add_to_inbox(11);
    assert!(!postbox.empty_inbox());
    assert!(!postbox.empty_outbox());
    assert_eq!(postbox.drain_outbox(), vec![1, 2]);
    assert_eq!(postbox.drain_outbox(), Vec::<u32>::new());
    assert_eq!(postbox.drain_all_inbox(), vec![10, 11]);
    assert!(postbox.empty_inbox());
}

#[test]
fn draining_by_predicate_keeps_the_order_and_leaves_the_rest() {
    let mut postbox: PostBox<u32, u32> = PostBox::new();
    for n in [5u32, 2, 8, 1, 9, 4] {
        postbox.add_to_inbox(n);
    }
    assert_eq!(postbox.drain_inbox(|n| *n > 4), vec![5, 8, 9]);
    assert_eq!(postbox.drain_inbox(|n| *n > 4), Vec::<u32>::new());
    postbox.add_to_inbox(7);
    assert_eq!(postbox.drain_inbox(|n| *n % 2 == 0), vec![2, 4]);
    assert_eq!(postbox.drain_inbox(|_| true), vec![1, 7]);
    assert_eq!(postbox.drain_inbox(|_| true), Vec::<u32>::new());
}

#[test]
fn events_and_messages_are_told_apart_by_kind() {
    let mut postbox: PostBox<ClientToServerMessage, u8> = PostBox::new();
    postbox.add_to_inbox(ClientToServerMessage::Command(1, ClientCommand::MoveUp));
    postbox.add_to_inbox(ClientToServerMessage::Message(ClientMessage::ConnectionRequest));
    postbox.add_to_inbox(ClientToServerMessage::Command(2, ClientCommand::MoveDown));
    let messages = postbox.drain_inbox(|m| matches!(m, ClientToServerMessage::Message(_)));
    assert_eq!(messages, vec![ClientToServerMessage::Message(ClientMessage::ConnectionRequest)]);
    let commands = postbox.drain_inbox(|m| matches!(m, ClientToServerMessage::Command(_, _)));
    assert_eq!(
        commands,
        vec![
            ClientToServerMessage::Command(1, ClientCommand::MoveUp),
            ClientToServerMessage::Command(2, ClientCommand::MoveDown),
        ]
    );
}

#[test]
fn the_clock_ticks_one_frame_at_a_time() {
    let mut ticker = CommandFrameTicker::new(1000);
    assert_eq!(ticker.command_frame(), 0);
    assert!(!ticker.try_tick(999));
    assert_eq!(ticker.command_frame(), 0);
    assert!(ticker.try_tick(1000));
    assert_eq!(ticker.command_frame(), 1);
    assert!(ticker.try_tick(5000));
    assert_eq!(ticker.command_frame(), 2);
    ticker.advance();
    assert_eq!(ticker.command_frame(), 3);
}

#[test]
fn the_offset_relates_the_clocks_of_two_peers() {
    let offset = FrameOffset::between(3, 10);
    assert_eq!(offset.raw(), 7);
    assert_eq!(offset.to_remote(3), Some(10));
    assert_eq!(offset.to_remote(0), Some(7));
    assert_eq!(offset.to_local(10), Some(3));
    assert_eq!(offset.to_local(6), None);
    assert_eq!(offset.to_remote(u32::MAX), None);
    let back = FrameOffset::between(10, 3);
    assert_eq!(back.raw(), -7);
    assert_eq!(back.to_remote(6), None);
    assert_eq!(back.to_remote(7), Some(0));
    assert_eq!(back.to_local(u32::MAX), None);
    assert_eq!(back.to_local(0), Some(7));
}

#[test]
fn commands_leave_the_buffer_in_the_order_of_their_frames() {
    let mut buffer = CommandPostBox::new();
    assert_eq!(buffer.command_frame_offset(), None);
    assert!(buffer.push(3, ClientCommand::MoveRight, 10));
    assert_eq!(buffer.command_frame_offset(), Some(7));
    assert!(buffer.push(1, ClientCommand::MoveLeft, 10));
    assert!(buffer.push(2, ClientCommand::MoveUp, 11));
    assert_eq!(buffer.highest_seen(), 3);
    assert_eq!(buffer.drain_frame(7), None);
    assert_eq!(
        buffer.drain_frame(10),
        Some(vec![
            StampedCommand { command_frame: 8, command: ClientCommand::MoveLeft },
            StampedCommand { command_frame: 9, command: ClientCommand::MoveUp },
            StampedCommand { command_frame: 10, command: ClientCommand::MoveRight },
        ])
    );
    assert_eq!(buffer.drain_frame(10), None);
}

#[test]
fn commands_of_one_frame_keep_the_order_of_their_arrival() {
    let mut buffer = CommandPostBox::new();
    assert!(buffer.push(5, ClientCommand::MoveUp, 5));
    assert!(buffer.push(6, ClientCommand::MoveDown, 5));
    assert!(buffer.push(5, ClientCommand::MoveLeft, 5));
    assert!(buffer.push(5, ClientCommand::MoveRight, 5));
    assert_eq!(
        buffer.drain_frame(5),
        Some(vec![
            StampedCommand { command_frame: 5, command: ClientCommand::MoveUp },
            StampedCommand { command_frame: 5, command: ClientCommand::MoveLeft },
            StampedCommand { command_frame: 5, command: ClientCommand::MoveRight },
        ])
    );
    assert_eq!(
        buffer.drain_frame(6),
        Some(vec![StampedCommand { command_frame: 6, command: ClientCommand::MoveDown }])
    );
}

#[test]
fn a_command_that_comes_too_late_is_dropped() {
    let mut buffer = CommandPostBox::new();
    assert!(buffer.push(10, ClientCommand::MoveUp, 20));
    assert_eq!(buffer.drain_frame(25).map(|commands| commands.len()), Some(1));
    assert!(!buffer.push(14, ClientCommand::MoveDown, 25));
    assert!(buffer.push(15, ClientCommand::MoveDown, 25));
    assert!(!buffer.push(u32::MAX, ClientCommand::MoveDown, 25));
    assert_eq!(buffer.highest_seen(), u32::MAX);
    buffer.reset_offset();
    assert_eq!(buffer.command_frame_offset(), None);
    assert!(buffer.push(100, ClientCommand::MoveLeft, 30));
    assert_eq!(buffer.command_frame_offset(), Some(-70));
    assert_eq!(
        buffer.drain_frame(30),
        Some(vec![
            StampedCommand { command_frame: 25, command: ClientCommand::MoveDown },
            StampedCommand { command_frame: 30, command: ClientCommand::MoveLeft },
        ])
    );
}

#[test]
fn a_client_files_messages_and_commands_apart() {
    let mut client = Client::new(3);
    assert_eq!(client.client_id(), 3);
    assert!(client.receive(ClientToServerMessage::Message(ClientMessage::Disconnect), 0));
    assert!(client.receive(ClientToServerMessage::Command(4, ClientCommand::MoveUp), 9));
    assert!(!client.postbox().empty_inbox());
    assert_eq!(client.postbox_mut().drain_all_inbox(), vec![ClientMessage::Disconnect]);
    assert_eq!(client.command_postbox().highest_seen(), 4);
    assert_eq!(
        client.command_postbox_mut().drain_frame(9),
        Some(vec![StampedCommand { command_frame: 9, command: ClientCommand::MoveUp }])
    );
}

#[test]
fn the_post_office_keeps_one_channel_for_each_client() {
    let mut post_office = PostOffice::new();
    assert!(post_office.add_client(4));
    assert!(post_office.add_client(9));
    assert!(!post_office.add_client(4));
    assert_eq!(post_office.len(), 2);
    assert_eq!(post_office.client_ids(), vec![4, 9]);
    assert_eq!(post_office.index_of(9), Some(1));
    assert_eq!(post_office.index_of(5), None);
    assert_eq!(post_office.client(1).client_id(), 9);
    assert_eq!(post_office.clients_with_inbox(), Vec::<u16>::new());
    assert_eq!(
        post_office.receive(9, ClientToServerMessage::Message(ClientMessage::ConnectionRequest), 0),
        Ok(true)
    );
    assert_eq!(post_office.clients_with_inbox(), vec![9]);
    assert_eq!(
        post_office.receive(4, ClientToServerMessage::Command(1, ClientCommand::MoveUp), 0),
        Ok(true)
    );
    assert_eq!(post_office.clients_with_inbox(), vec![9]);
    assert_eq!(
        post_office.command_postbox_mut(0).drain_frame(0).map(|commands| commands.len()),
        Some(1)
    );
}

#[test]
fn a_client_that_is_not_connected_has_no_channel() {
    let mut post_office = PostOffice::new();
    post_office.add_client(4);
    let accepted = ServerToClientMessage::Message(ServerMessage::ConnectionAccepted(4));
    assert_eq!(post_office.send(4, accepted), Ok(()));
    assert_eq!(post_office.send(5, accepted), Err(ChannelClosedError { client_id: 5 }));
    assert_eq!(
        post_office.receive(5, ClientToServerMessage::Message(ClientMessage::Disconnect), 0),
        Err(ChannelClosedError { client_id: 5 })
    );
    assert!(post_office.remove_client(4));
    assert!(!post_office.remove_client(4));
    assert_eq!(post_office.len(), 0);
    assert_eq!(post_office.send(4, accepted), Err(ChannelClosedError { client_id: 4 }));
}

#[test]
fn a_disconnection_tears_the_channel_down_without_a_trace() {
    let mut post_office = PostOffice::new();
    post_office.add_client(1);
    post_office.add_client(2);
    let _ = post_office.receive(1, ClientToServerMessage::Command(1, ClientCommand::MoveUp), 0);
    let _ =
        post_office.receive(1, ClientToServerMessage::Message(ClientMessage::ConnectionRequest), 0);
    assert!(post_office.remove_client(1));
    assert_eq!(post_office.client_ids(), vec![2]);
    assert_eq!(post_office.clients_with_inbox(), Vec::<u16>::new());
    assert!(post_office.postbox_mut(0).drain_outbox().is_empty());
    assert!(post_office.add_client(1));
    assert_eq!(post_office.clients_with_inbox(), Vec::<u16>::new());
    assert_eq!(post_office.command_postbox_mut(1).drain_frame(u32::MAX), None);
}
