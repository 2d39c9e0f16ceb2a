use vstd::prelude::*;
use crate::chunking::{chunk_count, file_chunks, lemma_chunks_reassemble};
use crate::packet::{PacketModel, TestPacket};

verus! {

/// The network address of a peer: an IPv4 address (in the low 32 bits of
/// `ip`) or an IPv6 address, with its port, and for IPv6 its flow label and
/// scope. Two endpoints are the same peer exactly when all fields agree.
#[derive(Clone, Copy, Debug, PartialEq, Eq, Structural)]
pub struct Endpoint {
    pub is_ipv6: bool,
    pub ip: u128,
    pub port: u16,
    pub flowinfo: u32,
    pub scope_id: u32,
}

/// What the server knows of one client: the bytes received from it so far,
/// where it is, and how many bytes the whole file has.
#[derive(Debug, Clone)]
pub struct ClientEntry {
    pub received_bytes: Vec<u8>,
    pub endpoint: Endpoint,
    pub total_bytes: usize,
}

impl ClientEntry {
    /// A client at `endpoint` from which nothing has been received yet.
    pub fn new(endpoint: Endpoint, total_bytes: usize) -> (e: ClientEntry)
        ensures
            e.received_bytes@ == Seq::<u8>::empty(),
            e.endpoint == endpoint,
            e.total_bytes == total_bytes,
    {
        ClientEntry { received_bytes: Vec::new(), endpoint, total_bytes }
    }
}

/// What the server's socket reported.
pub enum ServerEvent {
    /// A packet arrived from `from`, already decoded.
    Packet { from: Endpoint, packet: TestPacket },
    /// A client connected.
    Connect(Endpoint),
    /// A client went quiet for too long.
    Timeout(Endpoint),
}

/// What the server is to do after an event, in this order.
pub enum ServerAction {
    /// Send a packet, reliably and in order, to a client.
    Send { to: Endpoint, packet: TestPacket },
    /// Store the bytes received from a client as its copy of the file.
    WriteFile { endpoint: Endpoint, bytes: Vec<u8> },
}

/// A value-level picture of a [`ServerAction`].
pub enum ActionModel {
    Send(Endpoint, PacketModel),
    WriteFile(Endpoint, Seq<u8>),
}

impl View for ServerAction {
    type V = ActionModel;

    open spec fn view(&self) -> ActionModel {
        match self {
            ServerAction::Send { to, packet } => ActionModel::Send(*to, packet@),
            ServerAction::WriteFile { endpoint, bytes } => ActionModel::WriteFile(*endpoint, bytes@),
        }
    }
}

/// What the server knows: the bytes received from every client it has heard
/// a chunk from, and the length of the whole file.
pub struct ServerModel {
    pub received: Map<Endpoint, Seq<u8>>,
    pub file_len: usize,
}

/// The bytes received from `from` so far (none if the server has not heard of it).
pub open spec fn received_from(m: ServerModel, from: Endpoint) -> Seq<u8> {
    if m.received.contains_key(from) {
        m.received[from]
    } else {
        Seq::empty()
    }
}

/// The server after it has handled one event: a chunk from a client is
/// appended to what that client has sent; nothing else changes what it knows.
pub open spec fn after_server_event(m: ServerModel, event: Option<ServerEvent>) -> ServerModel {
    match event {
        Some(ServerEvent::Packet { from, packet: TestPacket::Packet(_, data) }) => ServerModel {
            received: m.received.insert(from, received_from(m, from) + data@),
            ..m
        },
        _ => m,
    }
}

/// The server's answer to one event: a connection request is accepted; a
/// chunk is acknowledged by its number to its sender, and once the sender has
/// sent at least the whole file, what it sent is stored; nothing else is answered.
pub open spec fn server_reply(m: ServerModel, event: Option<ServerEvent>) -> Seq<ActionModel> {
    match event {
        Some(ServerEvent::Packet { from, packet: TestPacket::Connect(_) }) => seq![
            ActionModel::Send(from, PacketModel::ConnectionAccepted),
        ],
        Some(ServerEvent::Packet { from, packet: TestPacket::Packet(number, data) }) => {
            let bytes = received_from(m, from) + data@;
            if bytes.len() >= m.file_len {
                seq![
                    ActionModel::Send(from, PacketModel::Ack(number)),
                    ActionModel::WriteFile(from, bytes),
                ]
            } else {
                seq![ActionModel::Send(from, PacketModel::Ack(number))]
            }
        },
        _ => Seq::empty(),
    }
}

/// The server after it has handled a run of events, in order.
pub open spec fn after_server_events(m: ServerModel, events: Seq<Option<ServerEvent>>) -> ServerModel
    decreases events.len(),
{
    if events.len() == 0 {
        m
    } else {
        after_server_events(after_server_event(m, events[0]), events.drop_first())
    }
}

/// The bytes of the chunks that `e` sent in a run of events, put together in order.
pub open spec fn data_from(events: Seq<Option<ServerEvent>>, e: Endpoint) -> Seq<u8>
    decreases events.len(),
{
    if events.len() == 0 {
        Seq::empty()
    } else {
        let rest = data_from(events.drop_first(), e);
        match events[0] {
            Some(ServerEvent::Packet { from, packet: TestPacket::Packet(_, data) }) => if from == e {
                data@ + rest
            } else {
                rest
            },
            _ => rest,
        }
    }
}

/// Whatever events come, what the server holds for a client is what it held
/// before followed by the bytes of the chunks that client sent, in the order
/// they arrived; the file's length never changes.
pub proof fn lemma_server_collects_chunks(m: ServerModel, events: Seq<Option<ServerEvent>>, e: Endpoint)
    ensures
        received_from(after_server_events(m, events), e) == received_from(m, e) + data_from(events, e),
        after_server_events(m, events).file_len == m.file_len,
    decreases events.len(),
{
    if events.len() == 0 {
        assert(received_from(m, e) + Seq::<u8>::empty() =~= received_from(m, e));
    } else {
        let next = after_server_event(m, events[0]);
        lemma_server_collects_chunks(next, events.drop_first(), e);
        match events[0] {
            Some(ServerEvent::Packet { from, packet: TestPacket::Packet(_, data) }) => {
                if from == e {
                    assert(received_from(next, e) == received_from(m, e) + data@);
                    assert(received_from(m, e) + data@ + data_from(events.drop_first(), e)
                        =~= received_from(m, e) + (data@ + data_from(events.drop_first(), e)));
                } else {
                    assert(received_from(next, e) == received_from(m, e));
                }
            },
            _ => {},
        }
    }
}

/// Whether `event` is chunk `number` with bytes `bytes`, sent by `e`.
pub open spec fn is_chunk_from(event: Option<ServerEvent>, e: Endpoint, number: usize, bytes: Seq<u8>) -> bool {
    event matches Some(ServerEvent::Packet { from, packet: TestPacket::Packet(n, data) })
        && from == e && n == number && data@ == bytes
}

/// When every event is a chunk from `e`, the bytes from `e` are the chunks'
/// bytes put together in order.
proof fn lemma_data_from_chunks(events: Seq<Option<ServerEvent>>, e: Endpoint, chunks: Seq<(usize, Seq<u8>)>)
    requires
        events.len() == chunks.len(),
        forall|k: int| 0 <= k < events.len() ==> is_chunk_from(#[trigger] events[k], e, chunks[k].0, chunks[k].1),
    ensures
        data_from(events, e) == chunks.map_values(|c: (usize, Seq<u8>)| c.1).flatten(),
    decreases events.len(),
{
    if events.len() > 0 {
        assert(is_chunk_from(events[0], e, chunks[0].0, chunks[0].1));
        assert forall|k: int| 0 <= k < events.drop_first().len() implies is_chunk_from(
            #[trigger] events.drop_first()[k],
            e,
            chunks.drop_first()[k].0,
            chunks.drop_first()[k].1,
        ) by {
            assert(is_chunk_from(events[k + 1], e, chunks[k + 1].0, chunks[k + 1].1));
        }
        lemma_data_from_chunks(events.drop_first(), e, chunks.drop_first());
        assert(chunks.drop_first().map_values(|c: (usize, Seq<u8>)| c.1)
            =~= chunks.map_values(|c: (usize, Seq<u8>)| c.1).drop_first());
    }
}

/// A whole transfer: when a server that has heard nothing from `e` receives,
/// from `e` and in order, the chunks into which a file was cut, it ends up
/// holding exactly that file for `e`, and the last chunk makes it store it.
pub proof fn lemma_transfer_delivers_file(
    m: ServerModel,
    data: Seq<u8>,
    size: nat,
    e: Endpoint,
    events: Seq<Option<ServerEvent>>,
)
    requires
        size > 0,
        data.len() <= usize::MAX,
        !m.received.contains_key(e),
        m.file_len == data.len(),
        events.len() == chunk_count(data.len(), size),
        forall|k: int|
            0 <= k < events.len() ==> is_chunk_from(
                #[trigger] events[k],
                e,
                file_chunks(data, size)[k].0,
                file_chunks(data, size)[k].1,
            ),
    ensures
        received_from(after_server_events(m, events), e) == data,
        events.len() > 0 ==> server_reply(after_server_events(m, events.drop_last()), events.last()).contains(
            ActionModel::WriteFile(e, data),
        ),
{
    lemma_chunks_reassemble(data, size);
    lemma_data_from_chunks(events, e, file_chunks(data, size));
    lemma_server_collects_chunks(m, events, e);
    assert(received_from(m, e) =~= Seq::<u8>::empty());
    assert(Seq::<u8>::empty() + data =~= data);
    if events.len() > 0 {
        let front = events.drop_last();
        let last = events.last();
        lemma_after_events_split(m, front, last);
        assert(events =~= front.push(last));
        let before = after_server_events(m, front);
        lemma_server_collects_chunks(m, front, e);
        let n: int = events.len() - 1;
        assert(is_chunk_from(events[n], e, file_chunks(data, size)[n].0, file_chunks(data, size)[n].1));
        assert(received_from(after_server_event(before, last), e) == data);
        assert(received_from(after_server_event(before, last), e) == received_from(before, e) + file_chunks(data, size)[n].1);
        assert(after_server_events(m, front).file_len == m.file_len);
        assert(server_reply(before, last)[1] == ActionModel::WriteFile(e, data));
    }
}

/// Handling a run of events and then one more is handling the longer run.
proof fn lemma_after_events_split(m: ServerModel, front: Seq<Option<ServerEvent>>, last: Option<ServerEvent>)
    ensures
        after_server_events(m, front.push(last)) == after_server_event(after_server_events(m, front), last),
    decreases front.len(),
{
    if front.len() == 0 {
        assert(front.push(last).drop_first() =~= Seq::<Option<ServerEvent>>::empty());
        assert(front.push(last)[0] == last);
        assert(after_server_events(after_server_event(m, last), Seq::empty()) == after_server_event(m, last));
    } else {
        assert(front.push(last).drop_first() =~= front.drop_first().push(last));
        assert(front.push(last)[0] == front[0]);
        lemma_after_events_split(after_server_event(m, front[0]), front.drop_first(), last);
    }
}

/// What one event does to the server: a chunk `n` from `e` is answered first
/// by an acknowledgement of `n` itself sent to `e`; its bytes are appended to
/// what `e` sent before (nothing for a client not heard from), and every other
/// client keeps its bytes; the server stores `e`'s bytes, as its second and
/// last action, exactly when they reach the file's length. A connection
/// request from `e` is answered by accepting `e` and changes nothing; any
/// other event is not answered and changes nothing.
pub proof fn lemma_server_step(m: ServerModel, event: Option<ServerEvent>)
    ensures
        ({
            let next = after_server_event(m, event);
            let reply = server_reply(m, event);
            &&& next.file_len == m.file_len
            &&& match event {
                Some(ServerEvent::Packet { from, packet: TestPacket::Packet(n, d) }) => {
                    &&& 1 <= reply.len() <= 2
                    &&& reply[0] == ActionModel::Send(from, PacketModel::Ack(n))
                    &&& next.received.dom() == m.received.dom().insert(from)
                    &&& m.received.contains_key(from) ==> next.received[from] == m.received[from] + d@
                    &&& !m.received.contains_key(from) ==> next.received[from] == d@
                    &&& forall|e: Endpoint|
                        e != from && #[trigger] m.received.contains_key(e) ==> next.received[e]
                            == m.received[e]
                    &&& (reply.len() == 2 <==> next.received[from].len() >= m.file_len)
                    &&& reply.len() == 2 ==> reply[1] == ActionModel::WriteFile(from, next.received[from])
                },
                Some(ServerEvent::Packet { from, packet: TestPacket::Connect(_) }) => {
                    &&& reply == seq![ActionModel::Send(from, PacketModel::ConnectionAccepted)]
                    &&& next == m
                },
                _ => {
                    &&& reply.len() == 0
                    &&& next == m
                },
            }
        }),
{
    match event {
        Some(ServerEvent::Packet { from, packet: TestPacket::Packet(n, d) }) => {
            let next = after_server_event(m, event);
            assert(next.received.dom() =~= m.received.dom().insert(from));
            if !m.received.contains_key(from) {
                assert(Seq::<u8>::empty() + d@ =~= d@);
            }
        },
        _ => {},
    }
}

/// The server side of a transfer, without its socket.
pub struct Server {
    clients: Vec<ClientEntry>,
    file_len: usize,
}

/// The clients of the table that have heard from `e`.
pub open spec fn has_endpoint(entries: Seq<ClientEntry>, e: Endpoint) -> bool {
    exists|k: int| 0 <= k < entries.len() && entries[k].endpoint == e
}

/// No two entries of the table are for the same endpoint.
pub open spec fn distinct_endpoints(entries: Seq<ClientEntry>) -> bool {
    forall|i: int, j: int|
        0 <= i < entries.len() && 0 <= j < entries.len() && i != j ==> entries[i].endpoint
            != entries[j].endpoint
}

/// The bytes received from each endpoint of the table.
pub open spec fn table_map(entries: Seq<ClientEntry>) -> Map<Endpoint, Seq<u8>> {
    Map::new(
        |e: Endpoint| has_endpoint(entries, e),
        |e: Endpoint|
            entries[choose|k: int| 0 <= k < entries.len() && entries[k].endpoint == e].received_bytes@,
    )
}

/// In a table without repeated endpoints, the map shows each entry's bytes.
proof fn lemma_table_map_at(entries: Seq<ClientEntry>, k: int)
    requires
        distinct_endpoints(entries),
        0 <= k < entries.len(),
    ensures
        table_map(entries).contains_key(entries[k].endpoint),
        table_map(entries)[entries[k].endpoint] == entries[k].received_bytes@,
{
    let e = entries[k].endpoint;
    assert(has_endpoint(entries, e));
    let c = choose|c: int| 0 <= c < entries.len() && entries[c].endpoint == e;
    assert(c == k);
}

/// Changing the bytes of one entry changes the map at that entry's endpoint only.
proof fn lemma_table_map_update(entries: Seq<ClientEntry>, k: int, entry: ClientEntry)
    requires
        distinct_endpoints(entries),
        0 <= k < entries.len(),
        entry.endpoint == entries[k].endpoint,
    ensures
        distinct_endpoints(entries.update(k, entry)),
        table_map(entries.update(k, entry)) == table_map(entries).insert(entry.endpoint, entry.received_bytes@),
{
    let new_entries = entries.update(k, entry);
    assert forall|e: Endpoint| has_endpoint(new_entries, e) <==> has_endpoint(entries, e) by {
        if has_endpoint(entries, e) {
            let c = choose|c: int| 0 <= c < entries.len() && entries[c].endpoint == e;
            assert(new_entries[c].endpoint == e);
        }
        if has_endpoint(new_entries, e) {
            let c = choose|c: int| 0 <= c < new_entries.len() && new_entries[c].endpoint == e;
            assert(entries[c].endpoint == e);
        }
    }
    assert forall|e: Endpoint| #[trigger] has_endpoint(new_entries, e) implies table_map(new_entries)[e]
        == table_map(entries).insert(entry.endpoint, entry.received_bytes@)[e] by {
        let c = choose|c: int| 0 <= c < new_entries.len() && new_entries[c].endpoint == e;
        lemma_table_map_at(new_entries, c);
        if c != k {
            lemma_table_map_at(entries, c);
        }
    }
    assert(table_map(new_entries) =~= table_map(entries).insert(entry.endpoint, entry.received_bytes@));
}

/// Adding an entry for a new endpoint adds that endpoint to the map.
proof fn lemma_table_map_push(entries: Seq<ClientEntry>, entry: ClientEntry)
    requires
        distinct_endpoints(entries),
        !has_endpoint(entries, entry.endpoint),
    ensures
        distinct_endpoints(entries.push(entry)),
        table_map(entries.push(entry)) == table_map(entries).insert(entry.endpoint, entry.received_bytes@),
{
    let new_entries = entries.push(entry);
    assert forall|i: int, j: int|
        0 <= i < new_entries.len() && 0 <= j < new_entries.len() && i != j implies new_entries[i].endpoint
        != new_entries[j].endpoint by {
        if i == entries.len() {
            assert(entries[j].endpoint != entry.endpoint);
        } else if j == entries.len() {
            assert(entries[i].endpoint != entry.endpoint);
        }
    }
    assert forall|e: Endpoint| has_endpoint(new_entries, e) <==> (has_endpoint(entries, e) || e == entry.endpoint) by {
        if has_endpoint(entries, e) {
            let c = choose|c: int| 0 <= c < entries.len() && entries[c].endpoint == e;
            assert(new_entries[c].endpoint == e);
        }
        if has_endpoint(new_entries, e) {
            let c = choose|c: int| 0 <= c < new_entries.len() && new_entries[c].endpoint == e;
            if c < entries.len() {
                assert(entries[c].endpoint == e);
            }
        }
        if e == entry.endpoint {
            assert(new_entries[entries.len() as int].endpoint == e);
        }
    }
    assert forall|e: Endpoint| #[trigger] has_endpoint(new_entries, e) implies table_map(new_entries)[e]
        == table_map(entries).insert(entry.endpoint, entry.received_bytes@)[e] by {
        let c = choose|c: int| 0 <= c < new_entries.len() && new_entries[c].endpoint == e;
        lemma_table_map_at(new_entries, c);
        if c < entries.len() {
            lemma_table_map_at(entries, c);
        }
    }
    assert(table_map(new_entries) =~= table_map(entries).insert(entry.endpoint, entry.received_bytes@));
}

impl View for Server {
    type V = ServerModel;

    closed spec fn view(&self) -> ServerModel {
        ServerModel { received: table_map(self.clients@), file_len: self.file_len }
    }
}

impl Server {
    /// Every client appears once in the table, and knows the file's length.
    pub closed spec fn well_formed(&self) -> bool {
        &&& distinct_endpoints(self.clients@)
        &&& forall|i: int| 0 <= i < self.clients@.len() ==> #[trigger] self.clients@[i].total_bytes == self.file_len
    }

    /// The table of clients, in the order in which they were first heard from.
    pub closed spec fn entries(&self) -> Seq<ClientEntry> {
        self.clients@
    }

    /// A server that expects files of `file_len` bytes and has heard from no one.
    pub fn new(file_len: usize) -> (s: Server)
        ensures
            s.well_formed(),
            s@.received == Map::<Endpoint, Seq<u8>>::empty(),
            s@.file_len == file_len,
    {
        let s = Server { clients: Vec::new(), file_len };
        assert(s@.received =~= Map::<Endpoint, Seq<u8>>::empty());
        s
    }

    /// The length of the file that every client sends.
    pub fn file_len(&self) -> (n: usize)
        ensures
            n == self@.file_len,
    {
        self.file_len
    }

    /// The clients heard from so far, each once.
    pub fn clients(&self) -> (c: &Vec<ClientEntry>)
        requires
            self.well_formed(),
        ensures
            c@ == self.entries(),
            distinct_endpoints(c@),
            forall|e: Endpoint| has_endpoint(c@, e) <==> self@.received.contains_key(e),
            forall|k: int|
                0 <= k < c@.len() ==> {
                    &&& (#[trigger] c@[k]).received_bytes@ == self@.received[c@[k].endpoint]
                    &&& c@[k].total_bytes == self@.file_len
                },
    {
        proof {
            assert forall|k: int| 0 <= k < self.clients@.len() implies (#[trigger] self.clients@[k]).received_bytes@
                == self@.received[self.clients@[k].endpoint] by {
                lemma_table_map_at(self.clients@, k);
            }
        }
        &self.clients
    }

    /// The position of the entry for `from`, if there is one.
    fn find(&self, from: Endpoint) -> (r: Option<usize>)
        requires
            self.well_formed(),
        ensures
            r matches Some(k) ==> k < self.clients@.len() && self.clients@[k as int].endpoint == from,
            r is None ==> !has_endpoint(self.clients@, from),
    {
        let mut k: usize = 0;
        while k < self.clients.len()
            invariant
                k <= self.clients@.len(),
                forall|j: int| 0 <= j < k ==> self.clients@[j].endpoint != from,
            decreases self.clients@.len() - k,
        {
            if self.clients[k].endpoint == from {
                return Some(k);
            }
            k = k + 1;
        }
        None
    }

    /// Handles one event from the socket (`None` when nothing arrived) and
    /// says what to do about it: accept a connection request; append a chunk
    /// to what its sender has sent, acknowledge it, and store the sender's
    /// bytes once they reach the file's length.
    pub fn poll(&mut self, event: Option<ServerEvent>) -> (actions: Vec<ServerAction>)
        requires
            old(self).well_formed(),
        ensures
            final(self).well_formed(),
            final(self)@ == after_server_event(old(self)@, event),
            actions@.map_values(|a: ServerAction| a@) == server_reply(old(self)@, event),
            ({
            let next = final(self)@;
            let reply = actions@.map_values(|a: ServerAction| a@);
            &&& next.file_len == old(self)@.file_len
            &&& match event {
                Some(ServerEvent::Packet { from, packet: TestPacket::Packet(n, d) }) => {
                    &&& 1 <= reply.len() <= 2
                    &&& reply[0] == ActionModel::Send(from, PacketModel::Ack(n))
                    &&& next.received.dom() == old(self)@.received.dom().insert(from)
                    &&& old(self)@.received.contains_key(from) ==> next.received[from] == old(self)@.received[from] + d@
                    &&& !old(self)@.received.contains_key(from) ==> next.received[from] == d@
                    &&& forall|e: Endpoint|
                        e != from && #[trigger] old(self)@.received.contains_key(e) ==> next.received[e]
                            == old(self)@.received[e]
                    &&& (reply.len() == 2 <==> next.received[from].len() >= old(self)@.file_len)
                    &&& reply.len() == 2 ==> reply[1] == ActionModel::WriteFile(from, next.received[from])
                },
                Some(ServerEvent::Packet { from, packet: TestPacket::Connect(_) }) => {
                    &&& reply == seq![ActionModel::Send(from, PacketModel::ConnectionAccepted)]
                    &&& next == old(self)@
                },
                _ => {
                    &&& reply.len() == 0
                    &&& next == old(self)@
                },
            }
        }),
    {
        proof { lemma_server_step(self@, event); }
        let mut actions: Vec<ServerAction> = Vec::new();
        match event {
            Some(ServerEvent::Packet { from, packet }) => match packet {
                TestPacket::Connect(_data) => {
                    actions.push(ServerAction::Send { to: from, packet: TestPacket::ConnectionAccepted });
                },
                TestPacket::Packet(nmr, data) => {
                    let file_len: usize = self.file_len;
                    let ghost before = self.clients@;
                    let idx: usize = match self.find(from) {
                        Some(k) => k,
                        None => {
                            let entry = ClientEntry::new(from, file_len);
                            proof { lemma_table_map_push(self.clients@, entry); }
                            self.clients.push(entry);
                            self.clients.len() - 1
                        },
                    };
                    let ghost mid = self.clients@;
                    proof {
                        lemma_table_map_at(mid, idx as int);
                        if has_endpoint(before, from) {
                            let c = choose|c: int| 0 <= c < before.len() && before[c].endpoint == from;
                            lemma_table_map_at(before, c);
                        }
                        assert(mid[idx as int].received_bytes@ == received_from(self@, from)) by {
                            if !has_endpoint(before, from) {
                                assert(!table_map(before).contains_key(from));
                            }
                        }
                    }
                    let client = &mut self.clients[idx];
                    client.received_bytes.extend_from_slice(data.as_slice());
                    let endpoint = client.endpoint;
                    let complete = client.received_bytes.len() >= file_len;
                    let copy = if complete { Some(client.received_bytes.clone()) } else { None };
                    proof {
                        assert(self.clients@[idx as int].received_bytes@ =~= mid[idx as int].received_bytes@ + data@);
                        lemma_table_map_update(mid, idx as int, self.clients@[idx as int]);
                        assert(self.clients@ == mid.update(idx as int, self.clients@[idx as int]));
                        assert(self@.received =~= old(self)@.received.insert(
                            from,
                            received_from(old(self)@, from) + data@,
                        ));
                    }
                    actions.push(ServerAction::Send { to: endpoint, packet: TestPacket::Ack(nmr) });
                    if let Some(bytes) = copy {
                        assert(bytes@ =~= self.clients@[idx as int].received_bytes@);
                        actions.push(ServerAction::WriteFile { endpoint, bytes });
                    }
                },
                TestPacket::Disconnect => {},
                _ => {},
            },
            Some(ServerEvent::Connect(_addr)) => {},
            Some(ServerEvent::Timeout(_addr)) => {},
            None => {},
        }
        assert(actions@.map_values(|a: ServerAction| a@) =~= server_reply(old(self)@, event));
        actions
    }
}

} // verus!
