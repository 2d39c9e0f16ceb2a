use vstd::prelude::*;

verus! {

/// The messages that client and server exchange.
pub enum TestPacket {
    /// A client asks to be let in; the bytes are a greeting.
    Connect(Vec<u8>),
    /// A chunk of the file: its number and its bytes.
    Packet(usize, Vec<u8>),
    Disconnect,
    /// The server has received the chunk with this number.
    Ack(usize),
    /// The server has let the client in.
    ConnectionAccepted,
}

/// A value-level picture of a [`TestPacket`], with byte sequences in place of vectors.
pub enum PacketModel {
    Connect(Seq<u8>),
    Packet(usize, Seq<u8>),
    Disconnect,
    Ack(usize),
    ConnectionAccepted,
}

impl View for TestPacket {
    type V = PacketModel;

    open spec fn view(&self) -> PacketModel {
        match self {
            TestPacket::Connect(greeting) => PacketModel::Connect(greeting@),
            TestPacket::Packet(number, data) => PacketModel::Packet(*number, data@),
            TestPacket::Disconnect => PacketModel::Disconnect,
            TestPacket::Ack(number) => PacketModel::Ack(*number),
            TestPacket::ConnectionAccepted => PacketModel::ConnectionAccepted,
        }
    }
}

/// Whether a client is connected to the server.
#[derive(Clone, Copy, Debug, PartialEq, Eq, Structural, PartialOrd)]
pub enum ConnectionState {
    Disconnected,
    Connected,
}

} // verus!
