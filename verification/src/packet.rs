//! The abstract outbound packet value.
//!
//! The wire encoding is a collaborator's concern; the queue only reads and
//! writes the header fields and the payload, so the packet is modelled as a
//! plain record of those fields.

use vstd::prelude::*;

verus! {

/// Bytes a packet header occupies on the wire; `write` charges this much of
/// the window for every fragment it enqueues.
pub const HEADER_LEN: usize = 20;

/// The packet's discriminant.
#[derive(Clone, Copy, Debug, PartialEq, Eq, Structural)]
pub enum PacketType {
    /// Connection request; carries its connection id from the handshake.
    Syn,
    /// Ordinary payload-bearing packet.
    Data,
    /// Bare acknowledgement ("state") packet; never enqueued.
    State,
    /// Orderly close.
    Fin,
    /// Abortive close.
    Reset,
}

/// One outbound packet: a discriminant, the header fields the queue stamps,
/// and the payload bytes.
pub struct Packet {
    pub ty: PacketType,
    pub connection_id: u16,
    pub seq_nr: u16,
    pub ack_nr: u16,
    pub timestamp: u32,
    pub timestamp_diff: u32,
    pub wnd_size: u32,
    pub payload: Vec<u8>,
}

impl Packet {
    /// A fresh connection-request packet.
    pub fn syn() -> (p: Packet)
        ensures
            p.ty == PacketType::Syn,
            p.connection_id == 0,
            p.seq_nr == 0,
            p.ack_nr == 0,
            p.timestamp == 0,
            p.timestamp_diff == 0,
            p.wnd_size == 0,
            p.payload@ =~= Seq::<u8>::empty(),
    {
        Packet {
            ty: PacketType::Syn,
            connection_id: 0,
            seq_nr: 0,
            ack_nr: 0,
            timestamp: 0,
            timestamp_diff: 0,
            wnd_size: 0,
            payload: Vec::new(),
        }
    }

    /// A fresh bare-acknowledgement packet.
    pub fn state() -> (p: Packet)
        ensures
            p.ty == PacketType::State,
            p.connection_id == 0,
            p.seq_nr == 0,
            p.ack_nr == 0,
            p.timestamp == 0,
            p.timestamp_diff == 0,
            p.wnd_size == 0,
            p.payload@ =~= Seq::<u8>::empty(),
    {
        Packet {
            ty: PacketType::State,
            connection_id: 0,
            seq_nr: 0,
            ack_nr: 0,
            timestamp: 0,
            timestamp_diff: 0,
            wnd_size: 0,
            payload: Vec::new(),
        }
    }

    /// A payload-bearing packet holding the given bytes.
    pub fn data_from(payload: Vec<u8>) -> (p: Packet)
        ensures
            p.ty == PacketType::Data,
            p.connection_id == 0,
            p.seq_nr == 0,
            p.ack_nr == 0,
            p.timestamp == 0,
            p.timestamp_diff == 0,
            p.wnd_size == 0,
            p.payload@ == payload@,
    {
        Packet {
            ty: PacketType::Data,
            connection_id: 0,
            seq_nr: 0,
            ack_nr: 0,
            timestamp: 0,
            timestamp_diff: 0,
            wnd_size: 0,
            payload,
        }
    }

    /// A payload-bearing packet holding a copy of the given bytes.
    pub fn data(src: &[u8]) -> (p: Packet)
        ensures
            p.ty == PacketType::Data,
            p.connection_id == 0,
            p.seq_nr == 0,
            p.ack_nr == 0,
            p.timestamp == 0,
            p.timestamp_diff == 0,
            p.wnd_size == 0,
            p.payload@ == src@,
    {
        Packet::data_from(copy_bytes(src, 0, src.len()))
    }

    pub fn ty(&self) -> (r: PacketType)
        ensures
            r == self.ty,
    {
        self.ty
    }

    /// The version this implementation speaks.
    pub fn version(&self) -> (r: u8)
        ensures
            r == 1,
    {
        1
    }

    pub fn connection_id(&self) -> (r: u16)
        ensures
            r == self.connection_id,
    {
        self.connection_id
    }

    pub fn seq_nr(&self) -> (r: u16)
        ensures
            r == self.seq_nr,
    {
        self.seq_nr
    }

    pub fn ack_nr(&self) -> (r: u16)
        ensures
            r == self.ack_nr,
    {
        self.ack_nr
    }

    pub fn timestamp(&self) -> (r: u32)
        ensures
            r == self.timestamp,
    {
        self.timestamp
    }

    pub fn timestamp_diff(&self) -> (r: u32)
        ensures
            r == self.timestamp_diff,
    {
        self.timestamp_diff
    }

    pub fn wnd_size(&self) -> (r: u32)
        ensures
            r == self.wnd_size,
    {
        self.wnd_size
    }

    pub fn payload(&self) -> (r: &[u8])
        ensures
            r@ == self.payload@,
    {
        self.payload.as_slice()
    }

    pub fn set_connection_id(&mut self, v: u16)
        ensures
            *final(self) == (Packet { connection_id: v, ..*old(self) }),
    {
        self.connection_id = v;
    }

    pub fn set_seq_nr(&mut self, v: u16)
        ensures
            *final(self) == (Packet { seq_nr: v, ..*old(self) }),
    {
        self.seq_nr = v;
    }

    pub fn set_ack_nr(&mut self, v: u16)
        ensures
            *final(self) == (Packet { ack_nr: v, ..*old(self) }),
    {
        self.ack_nr = v;
    }

    pub fn set_timestamp(&mut self, v: u32)
        ensures
            *final(self) == (Packet { timestamp: v, ..*old(self) }),
    {
        self.timestamp = v;
    }

    pub fn set_timestamp_diff(&mut self, v: u32)
        ensures
            *final(self) == (Packet { timestamp_diff: v, ..*old(self) }),
    {
        self.timestamp_diff = v;
    }

    pub fn set_wnd_size(&mut self, v: u32)
        ensures
            *final(self) == (Packet { wnd_size: v, ..*old(self) }),
    {
        self.wnd_size = v;
    }
}

/// Copies `src[start..end]` into a fresh vector.
pub fn copy_bytes(src: &[u8], start: usize, end: usize) -> (v: Vec<u8>)
    requires
        start <= end <= src@.len(),
    ensures
        v@ == src@.subrange(start as int, end as int),
{
    let mut v: Vec<u8> = Vec::new();
    let mut i: usize = start;
    while i < end
        invariant
            start <= i <= end <= src@.len(),
            v@ == src@.subrange(start as int, i as int),
        decreases end - i,
    {
        v.push(src[i]);
        proof {
            assert(v@ =~= src@.subrange(start as int, i + 1 as int));
        }
        i = i + 1;
    }
    v
}

} // verus!
