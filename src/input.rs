use vstd::prelude::*;
use vstd::string::StringSliceAdditionalSpecFns;

use crate::envelope::{Envelope, LamportMessage, Message, MessageType, PeerIdentity};

verus! {

/// `n` as `k` bytes, least significant first.
pub open spec fn le_bytes(n: nat, k: nat) -> Seq<u8>
    decreases k,
{
    if k == 0 {
        Seq::empty()
    } else {
        seq![(n % 256) as u8] + le_bytes(n / 256, (k - 1) as nat)
    }
}

/// A string in bincode's default layout: its UTF-8 length as eight
/// little-endian bytes, then its UTF-8 bytes.
pub open spec fn text_encoding(utf8: Seq<u8>) -> Seq<u8> {
    le_bytes(utf8.len(), 8) + utf8
}

/// Relies on `bincode::serialize` (default configuration: fixed-width
/// integers, little endian, no size limit): a string is written as its length
/// in bytes as a `u64`, then its UTF-8 bytes. Written into a `Vec` with no
/// limit, a string never fails to serialize.
#[verifier::external_body]
fn serialize_text(s: &str) -> (r: Option<Vec<u8>>)
    ensures
        r is Some,
        r->Some_0@ == text_encoding(s.spec_bytes()),
{
    bincode::serialize(s).ok()
}

/// The first space-separated word of the line is `A`.
pub open spec fn addresses_self(line: Seq<u8>) -> bool {
    line.len() >= 1 && line[0] == 65 && (line.len() == 1 || line[1] == 32)
}

/// The envelope built from an operator's line: a clock-family message from the
/// local node, sent to the local node itself when the line's first word is
/// `A`, else to every node.
pub open spec fn input_envelope(local: Seq<u8>, line: Seq<u8>, data: Seq<u8>) -> Envelope {
    Envelope {
        kind: MessageType::LamportMessage(LamportMessage::GenericTransaction),
        to: if addresses_self(line) {
            Some(local)
        } else {
            None
        },
        from: local,
        payload: data,
    }
}

/// Builds the envelope for an operator's line around an already serialized
/// payload.
pub fn build_input_message(local_peer_id: &PeerIdentity, line: &str, data: Vec<u8>) -> (r: Message)
    ensures
        r@ == input_envelope(local_peer_id@, line.spec_bytes(), data@),
{
    let b = line.as_bytes();
    let to_self = b.len() >= 1 && b[0] == 65 && (b.len() == 1 || b[1] == 32);
    let to = if to_self {
        Some(local_peer_id.duplicate())
    } else {
        None
    };
    Message::new(
        MessageType::LamportMessage(LamportMessage::GenericTransaction),
        to,
        local_peer_id.duplicate(),
        data,
    )
}

/// The envelope for an operator's line, carrying the serialized test text.
pub fn input_handling(local_peer_id: &PeerIdentity, line: &str) -> (r: Message)
    ensures
        r@ == input_envelope(
            local_peer_id@,
            line.spec_bytes(),
            text_encoding("Test message".spec_bytes()),
        ),
{
    let data = serialize_text("Test message").unwrap();
    build_input_message(local_peer_id, line, data)
}

} // verus!
