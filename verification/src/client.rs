use vstd::prelude::*;
use std::collections::VecDeque;
use crate::chunking::{chunk_count, chunk_bytes, file_chunks, lemma_chunk_index_bound, min};
use crate::acknowledgement_board_view::{AcknowledgementBoardView, Cell};
use crate::packet::{ConnectionState, PacketModel, TestPacket};

verus! {

/// How the socket is to deliver a packet.
#[derive(Clone, Copy, Debug, PartialEq, Eq, Structural)]
pub enum Delivery {
    /// Delivered for sure, in any order.
    ReliableUnordered,
    /// Delivered for sure and in order within the given stream.
    ReliableOrdered(Option<u8>),
}

/// A packet that the client is to send to the server.
pub struct Outgoing {
    pub delivery: Delivery,
    pub packet: TestPacket,
}

/// What the client's socket reported since the last tick.
pub enum ClientEvent {
    /// A packet arrived, already decoded.
    Packet(TestPacket),
    /// The socket saw the server for the first time.
    Connect,
    /// Anything else the socket reports (a timeout).
    Other,
}

/// The bytes with which a client greets the server: ASCII `connect`.
pub open spec fn greeting() -> Seq<u8> {
    seq![99u8, 111u8, 110u8, 110u8, 101u8, 99u8, 116u8]
}

/// What a client knows: whether it is connected, the chunks still to send
/// (number and bytes, in order), the numbers of the chunks acknowledged
/// and sent so far, in the order in which that happened, and the number of
/// the chunk handed out by the last tick whose sending is not yet confirmed.
pub struct ClientModel {
    pub state: ConnectionState,
    pub chunks: Seq<(usize, Seq<u8>)>,
    pub acked: Seq<usize>,
    pub sent: Seq<usize>,
    pub in_flight: Option<usize>,
}

/// A client after it has taken in one event from its socket.
pub open spec fn after_event(m: ClientModel, event: Option<ClientEvent>) -> ClientModel {
    match event {
        Some(ClientEvent::Packet(TestPacket::Ack(number))) => ClientModel {
            acked: m.acked.push(number).push(number),
            ..m
        },
        Some(ClientEvent::Packet(TestPacket::ConnectionAccepted)) => ClientModel {
            state: ConnectionState::Connected,
            ..m
        },
        Some(ClientEvent::Connect) => ClientModel { state: ConnectionState::Connected, ..m },
        _ => m,
    }
}

/// A client after one tick: it takes in the event, and when it is connected
/// the first chunk left leaves the queue and is in flight; otherwise no chunk is.
pub open spec fn after_tick(m: ClientModel, event: Option<ClientEvent>) -> ClientModel {
    let mid = after_event(m, event);
    if mid.state == ConnectionState::Connected && mid.chunks.len() > 0 {
        ClientModel { chunks: mid.chunks.drop_first(), in_flight: Some(mid.chunks[0].0), ..mid }
    } else {
        ClientModel { in_flight: None, ..mid }
    }
}

/// A client once the sending of what its last tick handed out has succeeded:
/// the chunk in flight, if any, joins the sent ones.
pub open spec fn after_confirm(m: ClientModel) -> ClientModel {
    match m.in_flight {
        Some(number) => ClientModel { sent: m.sent.push(number), in_flight: None, ..m },
        None => m,
    }
}

/// A client after a run of ticks whose sends all succeed, one tick per event.
pub open spec fn after_confirmed_ticks(m: ClientModel, events: Seq<Option<ClientEvent>>) -> ClientModel
    decreases events.len(),
{
    if events.len() == 0 {
        m
    } else {
        after_confirmed_ticks(after_confirm(after_tick(m, events[0])), events.drop_first())
    }
}

/// What a client sends in one tick: a greeting while it is not connected,
/// else the first chunk left, if any.
pub open spec fn tick_output(m: ClientModel, event: Option<ClientEvent>) -> Option<PacketModel> {
    let mid = after_event(m, event);
    if mid.state == ConnectionState::Disconnected {
        Some(PacketModel::Connect(greeting()))
    } else if mid.chunks.len() > 0 {
        Some(PacketModel::Packet(mid.chunks[0].0, mid.chunks[0].1))
    } else {
        None
    }
}

/// A client after a run of ticks, one per event.
pub open spec fn after_ticks(m: ClientModel, events: Seq<Option<ClientEvent>>) -> ClientModel
    decreases events.len(),
{
    if events.len() == 0 {
        m
    } else {
        after_ticks(after_tick(m, events[0]), events.drop_first())
    }
}

/// The chunks that a client sends over a run of ticks, in order.
pub open spec fn chunks_sent(m: ClientModel, events: Seq<Option<ClientEvent>>) -> Seq<(usize, Seq<u8>)>
    decreases events.len(),
{
    if events.len() == 0 {
        Seq::empty()
    } else {
        let rest = chunks_sent(after_tick(m, events[0]), events.drop_first());
        match tick_output(m, events[0]) {
            Some(PacketModel::Packet(number, data)) => seq![(number, data)] + rest,
            _ => rest,
        }
    }
}

/// Over any run of ticks, the client sends its chunks in order, each once,
/// and keeps the others: the chunks sent followed by the chunks left are the
/// chunks it started with.
pub proof fn lemma_chunks_sent_in_order(m: ClientModel, events: Seq<Option<ClientEvent>>)
    ensures
        chunks_sent(m, events) + after_ticks(m, events).chunks == m.chunks,
    decreases events.len(),
{
    if events.len() > 0 {
        let next = after_tick(m, events[0]);
        lemma_chunks_sent_in_order(next, events.drop_first());
        let mid = after_event(m, events[0]);
        assert(mid.chunks == m.chunks);
        if mid.state == ConnectionState::Connected && mid.chunks.len() > 0 {
            assert(seq![mid.chunks[0]] + mid.chunks.drop_first() =~= m.chunks);
            assert(seq![(mid.chunks[0].0, mid.chunks[0].1)] + chunks_sent(next, events.drop_first())
                + after_ticks(next, events.drop_first()).chunks =~= m.chunks);
        }
    }
}

/// Once connected, a client stays connected, and what it has recorded as
/// acknowledged or sent stays recorded, whatever events come.
pub proof fn lemma_client_progress_is_kept(m: ClientModel, events: Seq<Option<ClientEvent>>)
    ensures
        m.state == ConnectionState::Connected ==> after_ticks(m, events).state == ConnectionState::Connected,
        m.acked.is_prefix_of(after_ticks(m, events).acked),
        after_ticks(m, events).sent == m.sent,
    decreases events.len(),
{
    if events.len() > 0 {
        let next = after_tick(m, events[0]);
        lemma_client_progress_is_kept(next, events.drop_first());
        assert(m.acked.is_prefix_of(next.acked));
    }
}

/// Over a run of ticks whose sends all succeed, the client sends a prefix of
/// its chunks, in order and each once: if `k` chunks left the queue, the queue
/// is what followed them and the sent numbers grew by exactly their numbers.
pub proof fn lemma_confirmed_ticks_send_in_order(m: ClientModel, events: Seq<Option<ClientEvent>>)
    ensures
        ({
            let r = after_confirmed_ticks(m, events);
            let k = m.chunks.len() - r.chunks.len();
            &&& 0 <= k <= m.chunks.len()
            &&& r.chunks == m.chunks.skip(k)
            &&& r.sent == m.sent + m.chunks.take(k).map_values(|c: (usize, Seq<u8>)| c.0)
        }),
    decreases events.len(),
{
    if events.len() == 0 {
        assert(m.chunks.skip(0) =~= m.chunks);
        assert(m.sent + m.chunks.take(0).map_values(|c: (usize, Seq<u8>)| c.0) =~= m.sent);
    } else {
        let next = after_confirm(after_tick(m, events[0]));
        lemma_confirmed_ticks_send_in_order(next, events.drop_first());
        let r = after_confirmed_ticks(m, events);
        assert(r == after_confirmed_ticks(next, events.drop_first()));
        let mid = after_event(m, events[0]);
        let j = next.chunks.len() - r.chunks.len();
        if mid.state == ConnectionState::Connected && mid.chunks.len() > 0 {
            assert(next.chunks == m.chunks.drop_first());
            assert(next.sent == m.sent.push(m.chunks[0].0));
            assert(m.chunks.drop_first().skip(j) =~= m.chunks.skip(j + 1));
            assert(m.chunks.take(j + 1).map_values(|c: (usize, Seq<u8>)| c.0) =~= seq![m.chunks[0].0]
                + m.chunks.drop_first().take(j).map_values(|c: (usize, Seq<u8>)| c.0));
            assert(m.sent.push(m.chunks[0].0) + m.chunks.drop_first().take(j).map_values(
                |c: (usize, Seq<u8>)| c.0,
            ) =~= m.sent + m.chunks.take(j + 1).map_values(|c: (usize, Seq<u8>)| c.0));
        } else {
            assert(next.chunks == m.chunks);
            assert(next.sent == m.sent);
        }
    }
}

/// A client made by [`Client::new`] whose sends all succeed: after any run of
/// ticks, the sent numbers are `0, 1, ..., k - 1` for the `k` chunks that left
/// the queue, and the chunks still to send are the file's chunks from `k` on,
/// so their number is the file's chunk count less `k`.
pub proof fn lemma_fresh_client_sends_in_order(
    data: Seq<u8>,
    size: nat,
    m: ClientModel,
    events: Seq<Option<ClientEvent>>,
)
    requires
        size > 0,
        data.len() <= usize::MAX,
        m.chunks == file_chunks(data, size),
        m.sent == Seq::<usize>::empty(),
    ensures
        ({
            let r = after_confirmed_ticks(m, events);
            let k = chunk_count(data.len(), size) - r.chunks.len();
            &&& 0 <= k <= chunk_count(data.len(), size)
            &&& r.sent == Seq::new(k as nat, |i: int| i as usize)
            &&& r.chunks == file_chunks(data, size).skip(k)
            &&& r.chunks.len() == chunk_count(data.len(), size) - k
        }),
{
    lemma_confirmed_ticks_send_in_order(m, events);
    crate::chunking::lemma_chunks_reassemble(data, size);
    let r = after_confirmed_ticks(m, events);
    let k = chunk_count(data.len(), size) - r.chunks.len();
    assert(r.sent =~= Seq::new(k as nat, |i: int| i as usize));
}

/// Over any run of ticks, the chunks still to send are those that follow the
/// chunks sent: one fewer for every chunk that went out.
pub proof fn lemma_chunks_left(m: ClientModel, events: Seq<Option<ClientEvent>>)
    ensures
        chunks_sent(m, events).len() <= m.chunks.len(),
        after_ticks(m, events).chunks == m.chunks.skip(chunks_sent(m, events).len() as int),
        after_ticks(m, events).chunks.len() == m.chunks.len() - chunks_sent(m, events).len(),
{
    lemma_chunks_sent_in_order(m, events);
    let sent = chunks_sent(m, events);
    let left = after_ticks(m, events).chunks;
    assert((sent + left).skip(sent.len() as int) =~= left);
}

/// A client after a run of ticks, one per event, where `confirmed[i]` says
/// whether the send after tick `i` succeeded and was confirmed.
pub open spec fn after_ticks_confirming(
    m: ClientModel,
    events: Seq<Option<ClientEvent>>,
    confirmed: Seq<bool>,
) -> ClientModel
    decreases events.len(),
{
    if events.len() == 0 {
        m
    } else {
        let ticked = after_tick(m, events[0]);
        let next = if confirmed[0] { after_confirm(ticked) } else { ticked };
        after_ticks_confirming(next, events.drop_first(), confirmed.drop_first())
    }
}

/// The numbering that a client keeps while it sends: the chunks left are
/// numbered `base, base + 1, ...`; the numbers sent so far increase; and they
/// lie below the chunk in flight, which lies below `base` (or below `base`
/// itself when nothing is in flight).
pub open spec fn numbering_kept(m: ClientModel, base: int) -> bool {
    &&& forall|i: int| 0 <= i < m.chunks.len() ==> #[trigger] m.chunks[i].0 == base + i
    &&& forall|i: int, j: int| 0 <= i < j < m.sent.len() ==> m.sent[i] < m.sent[j]
    &&& m.in_flight matches Some(n) ==> n < base && forall|i: int|
        0 <= i < m.sent.len() ==> #[trigger] m.sent[i] < n
    &&& m.in_flight is None ==> forall|i: int| 0 <= i < m.sent.len() ==> #[trigger] m.sent[i] < base
}

/// Whatever sends fail, a run of ticks keeps the numbering: if `k` chunks left
/// the queue, the queue is what followed them, numbered from `base + k`, and
/// the numbers recorded as sent still increase and lie below it.
pub proof fn lemma_numbering_kept(
    m: ClientModel,
    base: int,
    events: Seq<Option<ClientEvent>>,
    confirmed: Seq<bool>,
)
    requires
        numbering_kept(m, base),
        confirmed.len() == events.len(),
    ensures
        ({
            let r = after_ticks_confirming(m, events, confirmed);
            let k = m.chunks.len() - r.chunks.len();
            &&& 0 <= k <= m.chunks.len()
            &&& r.chunks == m.chunks.skip(k)
            &&& numbering_kept(r, base + k)
        }),
    decreases events.len(),
{
    if events.len() == 0 {
        assert(m.chunks.skip(0) =~= m.chunks);
    } else {
        let ticked = after_tick(m, events[0]);
        let next = if confirmed[0] { after_confirm(ticked) } else { ticked };
        let mid = after_event(m, events[0]);
        let handed = mid.state == ConnectionState::Connected && mid.chunks.len() > 0;
        let nb = if handed { base + 1 } else { base };
        assert(numbering_kept(ticked, nb)) by {
            if handed {
                assert(ticked.chunks == m.chunks.drop_first());
                assert(m.chunks[0].0 == base);
                assert forall|i: int| 0 <= i < ticked.chunks.len() implies #[trigger] ticked.chunks[i].0
                    == nb + i by {
                    assert(m.chunks[i + 1].0 == base + i + 1);
                }
            }
        }
        assert(numbering_kept(next, nb)) by {
            if confirmed[0] {
                if let Some(n) = ticked.in_flight {
                    assert(next.sent == ticked.sent.push(n));
                    assert forall|i: int, j: int| 0 <= i < j < next.sent.len() implies next.sent[i]
                        < next.sent[j] by {
                        if j == ticked.sent.len() {
                            assert(ticked.sent[i] < n);
                        }
                    }
                    assert forall|i: int| 0 <= i < next.sent.len() implies #[trigger] next.sent[i] < nb by {
                        if i < ticked.sent.len() {
                            assert(ticked.sent[i] < n);
                        }
                    }
                }
            }
        }
        lemma_numbering_kept(next, nb, events.drop_first(), confirmed.drop_first());
        let r = after_ticks_confirming(m, events, confirmed);
        assert(r == after_ticks_confirming(next, events.drop_first(), confirmed.drop_first()));
        let j = next.chunks.len() - r.chunks.len();
        if handed {
            assert(next.chunks == m.chunks.drop_first());
            assert(m.chunks.drop_first().skip(j) =~= m.chunks.skip(j + 1));
        } else {
            assert(next.chunks == m.chunks);
        }
    }
}

/// A client made by [`Client::new`], whatever sends fail: after any run of
/// ticks, if `k` chunks left the queue, the chunks left are the file's chunks
/// from `k` on, numbered `k, k + 1, ...`, and the numbers recorded as sent
/// strictly increase and are all below `k`.
pub proof fn lemma_fresh_client_numbering(
    data: Seq<u8>,
    size: nat,
    m: ClientModel,
    events: Seq<Option<ClientEvent>>,
    confirmed: Seq<bool>,
)
    requires
        size > 0,
        data.len() <= usize::MAX,
        m.chunks == file_chunks(data, size),
        m.sent == Seq::<usize>::empty(),
        m.in_flight is None,
        confirmed.len() == events.len(),
    ensures
        ({
            let r = after_ticks_confirming(m, events, confirmed);
            let k = chunk_count(data.len(), size) - r.chunks.len();
            &&& 0 <= k <= chunk_count(data.len(), size)
            &&& r.chunks == file_chunks(data, size).skip(k)
            &&& forall|i: int| 0 <= i < r.chunks.len() ==> #[trigger] r.chunks[i].0 == k + i
            &&& forall|i: int, j: int| 0 <= i < j < r.sent.len() ==> r.sent[i] < r.sent[j]
            &&& forall|i: int| 0 <= i < r.sent.len() ==> #[trigger] r.sent[i] < k
        }),
{
    crate::chunking::lemma_chunks_reassemble(data, size);
    lemma_numbering_kept(m, 0, events, confirmed);
}

/// A connected client hands out exactly one chunk per tick, the first one
/// left, whatever event comes; over as many ticks as it has chunks, with every
/// send confirmed, it empties its queue and records exactly their numbers.
pub proof fn lemma_one_chunk_per_tick(m: ClientModel, events: Seq<Option<ClientEvent>>)
    requires
        m.state == ConnectionState::Connected,
        events.len() == m.chunks.len(),
    ensures
        m.chunks.len() > 0 ==> tick_output(m, events[0]) == Some(PacketModel::Packet(m.chunks[0].0, m.chunks[0].1))
            && after_tick(m, events[0]).chunks == m.chunks.drop_first(),
        after_confirmed_ticks(m, events).chunks.len() == 0,
        after_confirmed_ticks(m, events).sent == m.sent + m.chunks.map_values(|c: (usize, Seq<u8>)| c.0),
    decreases events.len(),
{
    if events.len() == 0 {
        assert(m.sent + m.chunks.map_values(|c: (usize, Seq<u8>)| c.0) =~= m.sent);
    } else {
        let next = after_confirm(after_tick(m, events[0]));
        assert(next.chunks == m.chunks.drop_first());
        assert(next.sent == m.sent.push(m.chunks[0].0));
        lemma_one_chunk_per_tick(next, events.drop_first());
        assert(m.sent.push(m.chunks[0].0) + m.chunks.drop_first().map_values(|c: (usize, Seq<u8>)| c.0)
            =~= m.sent + m.chunks.map_values(|c: (usize, Seq<u8>)| c.0));
    }
}

/// What one tick does to a client: an acknowledgement of `n` appends `n`
/// itself, twice, to the acknowledged numbers, and no other event touches
/// them; a connection (or its acceptance) connects the client, and no other
/// event changes its state; the sent numbers stay. Then a client that is not
/// connected sends its greeting and keeps its chunks; a connected one sends its
/// first chunk left, exactly, which leaves the queue and is in flight; with no
/// chunk left it sends nothing.
pub proof fn lemma_client_tick(m: ClientModel, event: Option<ClientEvent>)
    ensures
        ({
        let next = after_tick(m, event);
        &&& next.sent == m.sent
        &&& match event {
            Some(ClientEvent::Packet(TestPacket::Ack(n))) => next.acked == m.acked + seq![n, n],
            _ => next.acked == m.acked,
        }
        &&& match event {
            Some(ClientEvent::Packet(TestPacket::ConnectionAccepted)) => next.state == ConnectionState::Connected,
            Some(ClientEvent::Connect) => next.state == ConnectionState::Connected,
            _ => next.state == m.state,
        }
        &&& next.state == ConnectionState::Disconnected ==> {
            &&& tick_output(m, event) == Some(PacketModel::Connect(greeting()))
            &&& next.chunks == m.chunks
            &&& next.in_flight is None
        }
        &&& next.state == ConnectionState::Connected && m.chunks.len() > 0 ==> {
            &&& tick_output(m, event) == Some(PacketModel::Packet(m.chunks[0].0, m.chunks[0].1))
            &&& next.chunks == m.chunks.drop_first()
            &&& next.in_flight == Some(m.chunks[0].0)
        }
        &&& next.state == ConnectionState::Connected && m.chunks.len() == 0 ==> {
            &&& tick_output(m, event) is None
            &&& next.chunks == m.chunks
            &&& next.in_flight is None
        }
    }),
{
    match event {
        Some(ClientEvent::Packet(TestPacket::Ack(n))) => {
            assert(m.acked.push(n).push(n) =~= m.acked + seq![n, n]);
        },
        _ => {},
    }
}

/// What a packet handed out says, if there is one.
pub open spec fn out_model(out: Option<Outgoing>) -> Option<PacketModel> {
    match out {
        Some(o) => Some(o.packet@),
        None => None,
    }
}

/// Whether the client may take in this event: an acknowledgement cannot
/// arrive before the client is connected.
pub open spec fn event_allowed(m: ClientModel, event: Option<ClientEvent>) -> bool {
    !(m.state == ConnectionState::Disconnected && event matches Some(
        ClientEvent::Packet(TestPacket::Ack(_)),
    ))
}

/// The client side of a transfer, without its socket.
pub struct Client {
    client_state: ConnectionState,
    packet_chunks: VecDeque<(usize, Vec<u8>)>,
    acked_packets: Vec<usize>,
    sent_packets: Vec<usize>,
    in_flight: Option<usize>,
}

impl View for Client {
    type V = ClientModel;

    closed spec fn view(&self) -> ClientModel {
        ClientModel {
            state: self.client_state,
            chunks: self.packet_chunks@.map_values(|c: (usize, Vec<u8>)| (c.0, c.1@)),
            acked: self.acked_packets@,
            sent: self.sent_packets@,
            in_flight: self.in_flight,
        }
    }
}

impl Client {
    /// A disconnected client that is to send `to_sent` in chunks of
    /// `chunk_size` bytes, numbered from 0.
    pub fn new(to_sent: Vec<u8>, chunk_size: usize) -> (c: Client)
        requires
            chunk_size > 0,
        ensures
            c@.state == ConnectionState::Disconnected,
            c@.chunks == file_chunks(to_sent@, chunk_size as nat),
            c@.chunks.map_values(|ch: (usize, Seq<u8>)| ch.1).flatten() == to_sent@,
            forall|k: int|
                0 <= k < c@.chunks.len() ==> {
                    &&& (#[trigger] c@.chunks[k]).0 == k
                    &&& 0 < c@.chunks[k].1.len() <= chunk_size
                    &&& k + 1 < c@.chunks.len() ==> c@.chunks[k].1.len() == chunk_size
                },
            c@.acked == Seq::<usize>::empty(),
            c@.sent == Seq::<usize>::empty(),
            c@.in_flight is None,
    {
        let len: usize = to_sent.len();
        let ghost chunks_spec = file_chunks(to_sent@, chunk_size as nat);
        let mut packet_chunks: VecDeque<(usize, Vec<u8>)> = VecDeque::new();
        let mut start: usize = 0;
        let mut k: usize = 0;
        while start < len
            invariant
                len == to_sent@.len(),
                chunk_size > 0,
                chunks_spec == file_chunks(to_sent@, chunk_size as nat),
                k <= chunk_count(len as nat, chunk_size as nat),
                start == min(k * chunk_size, len as int),
                packet_chunks@.map_values(|c: (usize, Vec<u8>)| (c.0, c.1@)) =~= chunks_spec.take(k as int),
            decreases len - start,
        {
            proof {
                lemma_chunk_index_bound(len as nat, chunk_size as nat, k as nat);
                assert((k + 1) * chunk_size == k * chunk_size + chunk_size) by (nonlinear_arith);
            }
            let end: usize = if len - start <= chunk_size { len } else { start + chunk_size };
            let mut piece: Vec<u8> = Vec::new();
            let mut j: usize = start;
            while j < end
                invariant
                    start <= j <= end <= len,
                    len == to_sent@.len(),
                    piece@ =~= to_sent@.subrange(start as int, j as int),
                decreases end - j,
            {
                piece.push(to_sent[j]);
                j = j + 1;
            }
            assert(piece@ == chunk_bytes(to_sent@, chunk_size as nat, k as int));
            let ghost before = packet_chunks@;
            packet_chunks.push_back((k, piece));
            assert(packet_chunks@ == before.push((k, piece)));
            assert(chunks_spec.take(k + 1) =~= chunks_spec.take(k as int).push(chunks_spec[k as int]));
            start = end;
            k = k + 1;
        }
        proof {
            lemma_chunk_index_bound(len as nat, chunk_size as nat, k as nat);
            assert(chunks_spec.take(k as int) =~= chunks_spec);
            crate::chunking::lemma_chunks_reassemble(to_sent@, chunk_size as nat);
        }
        Client {
            client_state: ConnectionState::Disconnected,
            packet_chunks,
            acked_packets: Vec::new(),
            sent_packets: Vec::new(),
            in_flight: None,
        }
    }

    /// Takes in one event from the socket (`None` when nothing arrived), then
    /// says what to send: a greeting while the client is not connected, else
    /// the next chunk, if any is left. An acknowledgement makes its number
    /// count twice among the acknowledged ones. A chunk handed out stays in
    /// flight until [`Client::confirm_sent`] records that it was sent.
    pub fn tick(&mut self, event: Option<ClientEvent>) -> (out: Option<Outgoing>)
        requires
            event_allowed(old(self)@, event),
        ensures
            final(self)@ == after_tick(old(self)@, event),
            out is Some <==> tick_output(old(self)@, event) is Some,
            out matches Some(o) ==> {
                &&& o.packet@ == tick_output(old(self)@, event)->0
                &&& o.delivery == (if o.packet@ is Connect {
                    Delivery::ReliableUnordered
                } else {
                    Delivery::ReliableOrdered(Some(1u8))
                })
            },
            ({
            let next = final(self)@;
            &&& next.sent == old(self)@.sent
            &&& match event {
                Some(ClientEvent::Packet(TestPacket::Ack(n))) => next.acked == old(self)@.acked + seq![n, n],
                _ => next.acked == old(self)@.acked,
            }
            &&& match event {
                Some(ClientEvent::Packet(TestPacket::ConnectionAccepted)) => next.state == ConnectionState::Connected,
                Some(ClientEvent::Connect) => next.state == ConnectionState::Connected,
                _ => next.state == old(self)@.state,
            }
            &&& next.state == ConnectionState::Disconnected ==> {
                &&& out_model(out) == Some(PacketModel::Connect(greeting()))
                &&& next.chunks == old(self)@.chunks
                &&& next.in_flight is None
            }
            &&& next.state == ConnectionState::Connected && old(self)@.chunks.len() > 0 ==> {
                &&& out_model(out) == Some(PacketModel::Packet(old(self)@.chunks[0].0, old(self)@.chunks[0].1))
                &&& next.chunks == old(self)@.chunks.drop_first()
                &&& next.in_flight == Some(old(self)@.chunks[0].0)
            }
            &&& next.state == ConnectionState::Connected && old(self)@.chunks.len() == 0 ==> {
                &&& out is None
                &&& next.chunks == old(self)@.chunks
                &&& next.in_flight is None
            }
        }),
    {
        proof { lemma_client_tick(self@, event); }
        self.receive_packet(event);

        if let ConnectionState::Disconnected = self.client_state {
            self.in_flight = None;
            return Some(self.connect());
        }

        self.sent_next_chunk()
    }

    /// Handles one event from the socket.
    fn receive_packet(&mut self, event: Option<ClientEvent>)
        requires
            event_allowed(old(self)@, event),
        ensures
            final(self)@ == after_event(old(self)@, event),
    {
        if let Some(event) = event {
            match event {
                ClientEvent::Packet(packet) => match packet {
                    TestPacket::Ack(ack_nmr) => {
                        match self.client_state {
                            ConnectionState::Disconnected => {
                                // excluded by the precondition
                            },
                            ConnectionState::Connected => {
                                self.acked_packets.push(ack_nmr);
                            },
                        }
                        self.acked_packets.push(ack_nmr);
                    },
                    TestPacket::ConnectionAccepted => {
                        self.advance_state(ConnectionState::Connected);
                    },
                    _ => {},
                },
                ClientEvent::Connect => {
                    self.advance_state(ConnectionState::Connected);
                },
                _ => {},
            }
        }
    }

    /// Takes the next chunk off the queue, as a packet for the server.
    fn sent_next_chunk(&mut self) -> (out: Option<Outgoing>)
        requires
            old(self)@.state == ConnectionState::Connected,
        ensures
            old(self)@.chunks.len() == 0 ==> final(self)@ == (ClientModel { in_flight: None, ..old(self)@ })
                && out is None,
            old(self)@.chunks.len() > 0 ==> {
                &&& final(self)@ == (ClientModel {
                    chunks: old(self)@.chunks.drop_first(),
                    in_flight: Some(old(self)@.chunks[0].0),
                    ..old(self)@
                })
                &&& out matches Some(o) && o.delivery == Delivery::ReliableOrdered(Some(1u8))
                    && o.packet@ == PacketModel::Packet(old(self)@.chunks[0].0, old(self)@.chunks[0].1)
            },
    {
        let ghost before = self.packet_chunks@;
        if let Some((chunk_nmr, data)) = self.packet_chunks.pop_front() {
            assert(self.packet_chunks@.map_values(|c: (usize, Vec<u8>)| (c.0, c.1@))
                =~= before.map_values(|c: (usize, Vec<u8>)| (c.0, c.1@)).drop_first());
            self.in_flight = Some(chunk_nmr);
            Some(Outgoing {
                delivery: Delivery::ReliableOrdered(Some(1)),
                packet: TestPacket::Packet(chunk_nmr, data),
            })
        } else {
            self.in_flight = None;
            None
        }
    }

    /// The request to be let in.
    fn connect(&self) -> (out: Outgoing)
        ensures
            out.delivery == Delivery::ReliableUnordered,
            out.packet@ == PacketModel::Connect(greeting()),
    {
        let mut greeting_bytes: Vec<u8> = Vec::new();
        greeting_bytes.push(99u8);
        greeting_bytes.push(111u8);
        greeting_bytes.push(110u8);
        greeting_bytes.push(110u8);
        greeting_bytes.push(101u8);
        greeting_bytes.push(99u8);
        greeting_bytes.push(116u8);
        assert(greeting_bytes@ =~= greeting());
        Outgoing { delivery: Delivery::ReliableUnordered, packet: TestPacket::Connect(greeting_bytes) }
    }

    /// Moves the client into a new connection state.
    fn advance_state(&mut self, state: ConnectionState)
        ensures
            final(self)@ == (ClientModel { state, ..old(self)@ }),
    {
        self.client_state = state;
    }

    /// Records that what the last tick handed out was sent: the chunk in
    /// flight, if any, joins the sent ones.
    pub fn confirm_sent(&mut self)
        ensures
            final(self)@ == after_confirm(old(self)@),
            final(self)@.in_flight is None,
            final(self)@.sent == match old(self)@.in_flight {
                Some(n) => old(self)@.sent.push(n),
                None => old(self)@.sent,
            },
            final(self)@.chunks == old(self)@.chunks,
            final(self)@.acked == old(self)@.acked,
            final(self)@.state == old(self)@.state,
    {
        if let Some(chunk_nmr) = self.in_flight {
            self.sent_packets.push(chunk_nmr);
            self.in_flight = None;
        }
    }

    /// Returns the acknowledged packets.
    pub fn acked_packets(&self) -> (r: &Vec<usize>)
        ensures
            r@ == self@.acked,
    {
        &self.acked_packets
    }

    /// Returns the sent packets.
    pub fn sent_packets(&self) -> (r: &Vec<usize>)
        ensures
            r@ == self@.sent,
    {
        &self.sent_packets
    }

    /// Returns the number of chunks still to send.
    pub fn number_of_chunks(&self) -> (n: usize)
        ensures
            n == self@.chunks.len(),
    {
        self.packet_chunks.len()
    }

    /// Whether the client is connected.
    pub fn is_connected(&self) -> (r: bool)
        ensures
            r == (self@.state == ConnectionState::Connected),
    {
        match self.client_state {
            ConnectionState::Connected => true,
            ConnectionState::Disconnected => false,
        }
    }
}

/// Whether the number `i` occurs in `s`.
pub open spec fn mentions(s: Seq<usize>, i: int) -> bool {
    exists|k: int| 0 <= k < s.len() && s[k] == i
}

proof fn lemma_mentions_push(s: Seq<usize>, x: usize, i: int)
    ensures
        mentions(s.push(x), i) == (mentions(s, i) || x == i),
{
    let t = s.push(x);
    if mentions(t, i) {
        let k = choose|k: int| 0 <= k < t.len() && t[k] == i;
        if k < s.len() {
            assert(s[k] == i);
        }
    }
    if mentions(s, i) {
        let k = choose|k: int| 0 <= k < s.len() && s[k] == i;
        assert(t[k] == i);
    }
    if x == i {
        assert(t[s.len() as int] == i);
    }
}

/// The display after a refresh: acknowledged chunks show as acknowledged,
/// chunks sent and not acknowledged as pending, the other cells as before.
pub open spec fn refreshed_cells(before: Seq<Cell>, sent: Seq<usize>, acked: Seq<usize>) -> Seq<Cell> {
    Seq::new(
        before.len(),
        |i: int|
            if mentions(acked, i) {
                Cell::Acknowledged
            } else if mentions(sent, i) {
                Cell::Pending
            } else {
                before[i]
            },
    )
}

/// What a refresh shows, cell by cell: a cell whose index occurs anywhere
/// among the acknowledged numbers shows acknowledged; one that occurs only
/// among the sent numbers shows pending; any other keeps what it showed.
pub proof fn lemma_refreshed_cells(before: Seq<Cell>, sent: Seq<usize>, acked: Seq<usize>)
    ensures
        refreshed_cells(before, sent, acked).len() == before.len(),
        forall|i: int|
            0 <= i < before.len() ==> {
                &&& (exists|k: int| 0 <= k < acked.len() && acked[k] == i) ==> (
                #[trigger] refreshed_cells(before, sent, acked)[i]) == Cell::Acknowledged
                &&& (forall|k: int| 0 <= k < acked.len() ==> acked[k] != i) && (exists|k: int|
                    0 <= k < sent.len() && sent[k] == i) ==> refreshed_cells(before, sent, acked)[i]
                    == Cell::Pending
                &&& (forall|k: int| 0 <= k < acked.len() ==> acked[k] != i) && (forall|k: int|
                    0 <= k < sent.len() ==> sent[k] != i) ==> refreshed_cells(before, sent, acked)[i]
                    == before[i]
            },
{
}

/// Brings the board up to date with the client: every chunk sent is marked
/// sent, then every chunk acknowledged is marked acknowledged.
pub fn refresh_board(board: &mut AcknowledgementBoardView, client: &Client)
    requires
        old(board).well_formed(),
        forall|k: int| 0 <= k < client@.sent.len() ==> #[trigger] client@.sent[k] < old(board)@.len(),
        forall|k: int| 0 <= k < client@.acked.len() ==> #[trigger] client@.acked[k] < old(board)@.len(),
    ensures
        final(board).well_formed(),
        final(board).size() == old(board).size(),
        final(board).hidden() == old(board).hidden(),
        final(board)@ == refreshed_cells(old(board)@, client@.sent, client@.acked),
        final(board)@.len() == old(board)@.len(),
        forall|i: int|
            0 <= i < old(board)@.len() ==> {
                &&& (exists|k: int| 0 <= k < client@.acked.len() && client@.acked[k] == i) ==> (
                #[trigger] final(board)@[i]) == Cell::Acknowledged
                &&& (forall|k: int| 0 <= k < client@.acked.len() ==> client@.acked[k] != i) && (exists|k: int|
                    0 <= k < client@.sent.len() && client@.sent[k] == i) ==> final(board)@[i] == Cell::Pending
                &&& (forall|k: int| 0 <= k < client@.acked.len() ==> client@.acked[k] != i) && (forall|k: int|
                    0 <= k < client@.sent.len() ==> client@.sent[k] != i) ==> final(board)@[i] == old(board)@[i]
            },
{
    let sent = client.sent_packets();
    let acked = client.acked_packets();
    let ghost before = board@;
    assert(sent@.take(0) =~= Seq::<usize>::empty());
    assert(board@ =~= refreshed_cells(before, sent@.take(0), Seq::empty()));
    let mut k: usize = 0;
    while k < sent.len()
        invariant
            sent@ == client@.sent,
            board.well_formed(),
            board.size() == old(board).size(),
            board.hidden() == old(board).hidden(),
            before == old(board)@,
            k <= sent@.len(),
            forall|j: int| 0 <= j < sent@.len() ==> #[trigger] sent@[j] < before.len(),
            board@ == refreshed_cells(before, sent@.take(k as int), Seq::empty()),
        decreases sent@.len() - k,
    {
        board.mark_sent(sent[k]);
        proof {
            let s1 = sent@.take(k + 1);
            assert(s1 =~= sent@.take(k as int).push(sent@[k as int]));
            assert forall|i: int| 0 <= i < before.len() implies #[trigger] mentions(s1, i) == (mentions(
                sent@.take(k as int),
                i,
            ) || sent@[k as int] == i) by {
                lemma_mentions_push(sent@.take(k as int), sent@[k as int], i);
            }
            assert(board@ =~= refreshed_cells(before, s1, Seq::empty()));
        }
        k = k + 1;
    }
    assert(sent@.take(sent@.len() as int) =~= sent@);
    assert(acked@.take(0) =~= Seq::<usize>::empty());
    let mut k: usize = 0;
    while k < acked.len()
        invariant
            sent@ == client@.sent,
            acked@ == client@.acked,
            board.well_formed(),
            board.size() == old(board).size(),
            board.hidden() == old(board).hidden(),
            before == old(board)@,
            k <= acked@.len(),
            forall|j: int| 0 <= j < acked@.len() ==> #[trigger] acked@[j] < before.len(),
            board@ == refreshed_cells(before, sent@, acked@.take(k as int)),
        decreases acked@.len() - k,
    {
        board.acknowledge(acked[k]);
        proof {
            let a1 = acked@.take(k + 1);
            assert(a1 =~= acked@.take(k as int).push(acked@[k as int]));
            assert forall|i: int| 0 <= i < before.len() implies #[trigger] mentions(a1, i) == (mentions(
                acked@.take(k as int),
                i,
            ) || acked@[k as int] == i) by {
                lemma_mentions_push(acked@.take(k as int), acked@[k as int], i);
            }
            assert(board@ =~= refreshed_cells(before, sent@, a1));
        }
        k = k + 1;
    }
    assert(acked@.take(acked@.len() as int) =~= acked@);
}

} // verus!
