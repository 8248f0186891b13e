//! The command record that the queue stores and the driver moves through its
//! states.
use vstd::prelude::*;
use crate::codec::{copy_range, fields_fit, CodecError};

verus! {

/// Where a record stands: `Queued` until transmitted, `Sent` until its
/// acknowledgement arrives, then `Resolved`. `Received` tags inbound frames.
#[derive(Clone, Copy, Debug, PartialEq, Eq, Structural)]
pub enum PacketState {
    Queued,
    Sent,
    Resolved,
    Received,
}

/// One command: a caller-visible identity, the message name, its payload, the
/// sequence index once assigned, and its state.
#[derive(Debug)]
pub struct BlotPacket {
    pub id: u128,
    pub msg: String,
    pub payload: Vec<u8>,
    pub index: Option<u8>,
    pub state: PacketState,
}

/// The mathematical value of a record.
pub struct PacketView {
    pub id: u128,
    pub msg: Seq<char>,
    pub payload: Seq<u8>,
    pub index: Option<u8>,
    pub state: PacketState,
}

impl View for BlotPacket {
    type V = PacketView;

    open spec fn view(&self) -> PacketView {
        PacketView {
            id: self.id,
            msg: self.msg@,
            payload: self.payload@,
            index: self.index,
            state: self.state,
        }
    }
}

impl PacketView {
    /// Message and payload both fit the frame layout.
    pub open spec fn wf(self) -> bool {
        fields_fit(self.msg, self.payload)
    }

    /// The same record with a new index and state.
    pub open spec fn with(self, index: Option<u8>, state: PacketState) -> PacketView {
        PacketView { index, state, ..self }
    }
}

/// Relies on `uuid::Uuid::new_v4`: a random identity, of which nothing is
/// known in advance.
#[verifier::external_body]
fn fresh_identity() -> u128 {
    uuid::Uuid::new_v4().as_u128()
}

impl BlotPacket {
    /// A new record in state `Queued` with no index, or `Oversize` where the
    /// message or the payload does not fit the frame layout.
    pub fn with_identity(id: u128, msg: String, payload: Vec<u8>) -> (r: Result<BlotPacket, CodecError>)
        ensures
            r is Err <==> !fields_fit(msg@, payload@),
            r matches Err(e) ==> e == CodecError::Oversize,
            r matches Ok(p) ==> p@ == (PacketView {
                id,
                msg: msg@,
                payload: payload@,
                index: None,
                state: PacketState::Queued,
            }),
    {
        if msg.as_str().as_bytes().len() > 255 || payload.len() > 255 {
            return Err(CodecError::Oversize);
        }
        Ok(BlotPacket { id, msg, payload, index: None, state: PacketState::Queued })
    }

    /// A new `Queued` record under a freshly drawn identity.
    pub fn queued(msg: String, payload: Vec<u8>) -> (r: Result<BlotPacket, CodecError>)
        ensures
            r is Err <==> !fields_fit(msg@, payload@),
            r matches Err(e) ==> e == CodecError::Oversize,
            r matches Ok(p) ==> p@.msg == msg@ && p@.payload == payload@ && p@.index is None
                && p@.state == PacketState::Queued,
    {
        let id = fresh_identity();
        Self::with_identity(id, msg, payload)
    }

    /// A field-by-field copy.
    pub fn duplicate(&self) -> (r: BlotPacket)
        ensures
            r@ == self@,
    {
        let payload = copy_range(self.payload.as_slice(), 0, self.payload.len());
        assert(payload@ =~= self.payload@);
        BlotPacket {
            id: self.id,
            msg: self.msg.clone(),
            payload,
            index: self.index,
            state: self.state,
        }
    }
}

} // verus!
