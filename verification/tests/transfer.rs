use file_transfer::acknowledgement_board_view::{AcknowledgementBoardView, Cell, Options};
use file_transfer::client::{refresh_board, Client, ClientEvent, Delivery, Outgoing};
use file_transfer::packet::{ConnectionState, TestPacket};
use file_transfer::server::{Endpoint, Server, ServerAction, ServerEvent};
use file_transfer::vec2::Vec2;

fn endpoint(port: u16) -> Endpoint {
    Endpoint { is_ipv6: false, ip: 0x7f00_0001, port, flowinfo: 0, scope_id: 0 }
}

fn chunk(out: Option<Outgoing>) -> (usize, Vec<u8>) {
    match out {
        Some(Outgoing { delivery: Delivery::ReliableOrdered(Some(1)), packet: TestPacket::Packet(n, data) }) => (n, data),
        _ => panic!("expected a chunk"),
    }
}

#[test]
fn client_cuts_file_into_chunks() {
    let client = Client::new((0u8..10).collect(), 4);
    assert_eq!(client.number_of_chunks(), 3);
    assert!(client.acked_packets().is_empty());
    assert!(client.sent_packets().is_empty());
    assert!(!client.is_connected());
    assert_eq!(Client::new(Vec::new(), 4).number_of_chunks(), 0);
    assert_eq!(Client::new(vec![1; 8], 4).number_of_chunks(), 2);
    assert_eq!(Client::new(vec![1; 8], 100).number_of_chunks(), 1);
}

#[test]
fn client_greets_until_connected() {
    let mut client = Client::new(vec![1, 2, 3], 2);
    for _ in 0..2 {
        match client.tick(None) {
            Some(Outgoing { delivery: Delivery::ReliableUnordered, packet: TestPacket::Connect(greeting) }) => {
                assert_eq!(greeting, b"connect".to_vec())
            }
            _ => panic!("expected a greeting"),
        }
    }
    assert_eq!(client.number_of_chunks(), 2);
    assert_eq!(chunk(client.tick(Some(ClientEvent::Packet(TestPacket::ConnectionAccepted)))), (0, vec![1, 2]));
    assert!(client.is_connected());
}

#[test]
fn client_sends_chunks_in_order_and_reassembles() {
    let file: Vec<u8> = (0u8..=250).collect();
    let mut client = Client::new(file.clone(), 16);
    let total = client.number_of_chunks();
    assert_eq!(total, 16);
    client.tick(None);
    let mut event = Some(ClientEvent::Connect);
    let mut rebuilt = Vec::new();
    let mut expected = 0;
    while let Some(out) = client.tick(event.take()) {
        let (n, data) = chunk(Some(out));
        assert_eq!(n, expected);
        assert!(!data.is_empty() && data.len() <= 16);
        client.confirm_sent();
        rebuilt.extend_from_slice(&data);
        expected += 1;
    }
    assert_eq!(expected, total);
    assert_eq!(rebuilt, file);
    assert_eq!(client.sent_packets(), &(0..total).collect::<Vec<usize>>());
    assert_eq!(client.number_of_chunks(), 0);
    assert!(client.tick(None).is_none());
}

#[test]
fn acknowledgement_counts_twice() {
    let mut client = Client::new(vec![9; 5], 5);
    client.tick(Some(ClientEvent::Connect));
    client.tick(Some(ClientEvent::Packet(TestPacket::Ack(0))));
    assert_eq!(client.acked_packets(), &vec![0, 0]);
    client.tick(Some(ClientEvent::Other));
    client.tick(Some(ClientEvent::Packet(TestPacket::Disconnect)));
    assert_eq!(client.acked_packets(), &vec![0, 0]);
    assert!(client.is_connected());
}

#[test]
fn connection_state_compares() {
    assert!(ConnectionState::Disconnected < ConnectionState::Connected);
    assert_eq!(ConnectionState::Connected, ConnectionState::Connected);
}

#[test]
fn board_follows_the_client() {
    let mut client = Client::new(vec![0; 7], 2);
    let mut board = AcknowledgementBoardView::new(Options { size: Vec2::new(3, 2), acknowledged_fields: 4 });
    client.tick(Some(ClientEvent::Connect));
    client.confirm_sent();
    client.tick(None);
    client.confirm_sent();
    client.tick(Some(ClientEvent::Packet(TestPacket::Ack(0))));
    client.confirm_sent();
    refresh_board(&mut board, &client);
    let colors: Vec<_> = board.cells_to_draw().iter().map(|d| d.color).collect();
    assert_eq!(
        colors,
        vec![
            Cell::Acknowledged.color(),
            Cell::Pending.color(),
            Cell::Pending.color(),
            Cell::NotSent.color(),
            Cell::Empty.color(),
            Cell::Empty.color(),
        ]
    );
}

#[test]
fn server_accepts_connections() {
    let mut server = Server::new(10);
    let actions = server.poll(Some(ServerEvent::Packet { from: endpoint(1), packet: TestPacket::Connect(b"connect".to_vec()) }));
    assert_eq!(actions.len(), 1);
    assert!(matches!(actions[0], ServerAction::Send { to, packet: TestPacket::ConnectionAccepted } if to == endpoint(1)));
    assert!(server.clients().is_empty());
}

#[test]
fn server_ignores_other_events() {
    let mut server = Server::new(10);
    assert!(server.poll(None).is_empty());
    assert!(server.poll(Some(ServerEvent::Connect(endpoint(1)))).is_empty());
    assert!(server.poll(Some(ServerEvent::Timeout(endpoint(1)))).is_empty());
    assert!(server.poll(Some(ServerEvent::Packet { from: endpoint(1), packet: TestPacket::Disconnect })).is_empty());
    assert!(server.poll(Some(ServerEvent::Packet { from: endpoint(1), packet: TestPacket::Ack(3) })).is_empty());
    assert!(server.clients().is_empty());
    assert_eq!(server.file_len(), 10);
}

#[test]
fn server_acknowledges_and_stores() {
    let mut server = Server::new(5);
    let a = server.poll(Some(ServerEvent::Packet { from: endpoint(1), packet: TestPacket::Packet(0, vec![1, 2, 3]) }));
    assert_eq!(a.len(), 1);
    assert!(matches!(a[0], ServerAction::Send { to, packet: TestPacket::Ack(0) } if to == endpoint(1)));
    let b = server.poll(Some(ServerEvent::Packet { from: endpoint(2), packet: TestPacket::Packet(0, vec![9]) }));
    assert_eq!(b.len(), 1);
    let c = server.poll(Some(ServerEvent::Packet { from: endpoint(1), packet: TestPacket::Packet(1, vec![4, 5]) }));
    assert_eq!(c.len(), 2);
    assert!(matches!(c[0], ServerAction::Send { to, packet: TestPacket::Ack(1) } if to == endpoint(1)));
    match &c[1] {
        ServerAction::WriteFile { endpoint: e, bytes } => {
            assert_eq!(*e, endpoint(1));
            assert_eq!(bytes, &vec![1, 2, 3, 4, 5]);
        }
        _ => panic!("expected the file to be stored"),
    }
    let clients = server.clients();
    assert_eq!(clients.len(), 2);
    assert_eq!(clients[0].endpoint, endpoint(1));
    assert_eq!(clients[0].received_bytes, vec![1, 2, 3, 4, 5]);
    assert_eq!(clients[0].total_bytes, 5);
    assert_eq!(clients[1].received_bytes, vec![9]);
}

#[test]
fn server_stores_again_past_the_length() {
    let mut server = Server::new(2);
    server.poll(Some(ServerEvent::Packet { from: endpoint(1), packet: TestPacket::Packet(0, vec![1, 2]) }));
    let again = server.poll(Some(ServerEvent::Packet { from: endpoint(1), packet: TestPacket::Packet(1, vec![3]) }));
    assert_eq!(again.len(), 2);
    assert!(matches!(&again[1], ServerAction::WriteFile { bytes, .. } if bytes == &vec![1, 2, 3]));
}

#[test]
fn endpoints_differ_by_every_field() {
    let mut server = Server::new(100);
    let v6 = Endpoint { is_ipv6: true, ..endpoint(1) };
    server.poll(Some(ServerEvent::Packet { from: endpoint(1), packet: TestPacket::Packet(0, vec![1]) }));
    server.poll(Some(ServerEvent::Packet { from: v6, packet: TestPacket::Packet(0, vec![2]) }));
    assert_eq!(server.clients().len(), 2);
}

#[test]
fn whole_transfer_delivers_the_file() {
    let file: Vec<u8> = (0..3000u32).map(|i| (i * 7 % 251) as u8).collect();
    let mut client = Client::new(file.clone(), 1200);
    let mut server = Server::new(file.len());
    let me = endpoint(4000);
    let mut to_client = Some(ClientEvent::Connect);
    let mut stored = None;
    while let Some(out) = client.tick(to_client.take()) {
        let (n, data) = chunk(Some(out));
        client.confirm_sent();
        for action in server.poll(Some(ServerEvent::Packet { from: me, packet: TestPacket::Packet(n, data) })) {
            match action {
                ServerAction::Send { packet, .. } => to_client = Some(ClientEvent::Packet(packet)),
                ServerAction::WriteFile { bytes, .. } => stored = Some(bytes),
            }
        }
    }
    assert_eq!(stored, Some(file));
    assert_eq!(client.acked_packets(), &vec![0, 0, 1, 1, 2, 2]);
}

#[test]
fn acknowledged_cells_win_over_pending_ones() {
    let mut client = Client::new(vec![0; 4], 1);
    let mut board = AcknowledgementBoardView::new(Options { size: Vec2::new(2, 2), acknowledged_fields: 4 });
    client.tick(Some(ClientEvent::Connect));
    client.confirm_sent();
    client.tick(Some(ClientEvent::Packet(TestPacket::Ack(3))));
    refresh_board(&mut board, &client);
    let colors: Vec<_> = board.cells_to_draw().iter().map(|d| d.color).collect();
    assert_eq!(
        colors,
        vec![Cell::Pending.color(), Cell::NotSent.color(), Cell::NotSent.color(), Cell::Acknowledged.color()]
    );
}

#[test]
fn only_a_confirmed_chunk_counts_as_sent() {
    let mut client = Client::new(vec![5; 6], 2);
    client.confirm_sent();
    assert!(client.sent_packets().is_empty());
    assert_eq!(chunk(client.tick(Some(ClientEvent::Connect))).0, 0);
    assert!(client.sent_packets().is_empty());
    // The send of chunk 0 failed: the next tick hands out chunk 1 instead.
    assert_eq!(chunk(client.tick(None)).0, 1);
    client.confirm_sent();
    client.confirm_sent();
    assert_eq!(client.sent_packets(), &vec![1]);
    assert_eq!(client.number_of_chunks(), 1);
}

#[test]
fn numbers_sent_increase_despite_failed_sends() {
    let mut client = Client::new(vec![1; 10], 2);
    client.tick(Some(ClientEvent::Connect));
    client.confirm_sent();
    client.tick(None);
    client.tick(None);
    client.confirm_sent();
    client.tick(None);
    client.confirm_sent();
    assert_eq!(client.sent_packets(), &vec![0, 2, 3]);
    assert_eq!(client.number_of_chunks(), 1);
    assert_eq!(chunk(client.tick(None)).0, 4);
}

#[test]
fn server_table_holds_each_client_once() {
    let mut server = Server::new(4);
    let a = endpoint(5000);
    server.poll(Some(ServerEvent::Packet { from: a, packet: TestPacket::Packet(0, vec![1, 2]) }));
    let actions = server.poll(Some(ServerEvent::Packet { from: a, packet: TestPacket::Packet(1, vec![3, 4]) }));
    assert_eq!(server.clients().len(), 1);
    assert_eq!(server.clients()[0].received_bytes, vec![1, 2, 3, 4]);
    assert_eq!(server.clients()[0].total_bytes, 4);
    assert_eq!(actions.len(), 2);
    assert!(matches!(actions[0], ServerAction::Send { to, packet: TestPacket::Ack(1) } if to == a));
    assert!(matches!(&actions[1], ServerAction::WriteFile { endpoint: e, bytes } if *e == a && bytes == &vec![1, 2, 3, 4]));
}
