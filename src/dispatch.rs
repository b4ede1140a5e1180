use vstd::prelude::*;

use crate::envelope::{
    Envelope, EnvelopeError, LamportMessage, Message, MessageType, PeerIdentity, envelope_decoding,
    envelope_encoding, lemma_envelope_round_trip,
};

verus! {

/// What became of a received envelope that decoded.
#[derive(Debug)]
pub enum Dispatch {
    /// Addressed to another node: dropped, which is no fault.
    Discarded,
    /// Handed to the handler of its kind.
    Handled(Message),
}

/// Why a received envelope was not handled.
#[derive(Clone, Copy, Debug, PartialEq, Eq, Structural)]
pub enum HandlingError {
    /// The bytes are not the encoding of any envelope.
    Corrupted,
    /// The kind is known but has no handler yet.
    Unimplemented,
}

/// The outcome of receiving bytes, as a mathematical value.
pub enum Outcome {
    Corrupted,
    Discarded,
    Handled(Envelope),
    Unimplemented,
}

/// A node is an addressee of an envelope sent to it or sent to every node.
pub open spec fn is_addressee(to: Option<Seq<u8>>, self_id: Seq<u8>) -> bool {
    match to {
        None => true,
        Some(p) => p == self_id,
    }
}

/// What a node with identity `self_id` does with received bytes `b`.
pub open spec fn overlay_outcome(self_id: Seq<u8>, b: Seq<u8>) -> Outcome {
    match envelope_decoding(b) {
        None => Outcome::Corrupted,
        Some(e) => if !is_addressee(e.to, self_id) {
            Outcome::Discarded
        } else if e.kind == MessageType::LamportMessage(LamportMessage::GenericTransaction) {
            Outcome::Handled(e)
        } else {
            Outcome::Unimplemented
        },
    }
}

pub open spec fn outcome_of(r: Result<Dispatch, HandlingError>) -> Outcome {
    match r {
        Ok(Dispatch::Discarded) => Outcome::Discarded,
        Ok(Dispatch::Handled(m)) => Outcome::Handled(m@),
        Err(HandlingError::Corrupted) => Outcome::Corrupted,
        Err(HandlingError::Unimplemented) => Outcome::Unimplemented,
    }
}

/// Decodes received bytes and routes the envelope: dropped when addressed to
/// another node, otherwise handed to the handler of its kind.
pub fn handle_overlay_protocol(peer_id: &PeerIdentity, serialized_message: &[u8]) -> (r: Result<
    Dispatch,
    HandlingError,
>)
    ensures
        outcome_of(r) == overlay_outcome(peer_id@, serialized_message@),
{
    let message = match Message::from_bytes(serialized_message) {
        Ok(m) => m,
        Err(EnvelopeError::Corrupted) => {
            return Err(HandlingError::Corrupted);
        },
    };
    if let Some(to) = &message.to {
        if !to.same_as(peer_id) {
            return Ok(Dispatch::Discarded);
        }
    }
    match message.message_type {
        MessageType::LamportMessage(LamportMessage::GenericTransaction) => Ok(
            Dispatch::Handled(message),
        ),
        _ => Err(HandlingError::Unimplemented),
    }
}

/// An envelope addressed to one node is handled only by that node: every
/// other node drops it without error.
pub proof fn lemma_addressing(self_id: Seq<u8>, e: Envelope, p: Seq<u8>)
    requires
        e.to == Some(p),
    ensures
        (overlay_outcome(self_id, envelope_encoding(e)) == Outcome::Discarded) <==> p != self_id,
        p == self_id ==> overlay_outcome(self_id, envelope_encoding(e)) != Outcome::Corrupted,
{
    lemma_envelope_round_trip(e);
}

/// An envelope sent to every node reaches its handler on every node,
/// whatever the node's identity.
pub proof fn lemma_broadcast(self_id: Seq<u8>, e: Envelope)
    requires
        e.to is None,
    ensures
        overlay_outcome(self_id, envelope_encoding(e)) == (if e.kind == MessageType::LamportMessage(
            LamportMessage::GenericTransaction,
        ) {
            Outcome::Handled(e)
        } else {
            Outcome::Unimplemented
        }),
{
    lemma_envelope_round_trip(e);
}

} // verus!
