use vstd::prelude::*;

use crate::varint::{
    VarintRead, varint_at, varint_value, varint_encoding, read_varint, write_varint,
    lemma_encoding_is_varint, lemma_varint_at_unique,
};

verus! {

/// Messages that carry a logical clock value.
#[derive(Clone, Copy, Debug, PartialEq, Eq, Structural)]
pub enum LamportMessage {
    GenericTransaction,
    GenericTransaction2,
}

/// The kind of an envelope: a family, then a variant within it. The
/// mutual-exclusion and consensus families keep their tags (3 and 5) but have
/// no message yet, so no kind of theirs exists and bytes that carry their tags
/// do not decode.
#[derive(Clone, Copy, Debug, PartialEq, Eq, Structural)]
pub enum MessageType {
    LamportMessage(LamportMessage),
}

/// The identity of a node, as the bytes of its identifier.
#[derive(Clone, Debug, PartialEq, Eq)]
pub struct PeerIdentity {
    pub bytes: Vec<u8>,
}

impl View for PeerIdentity {
    type V = Seq<u8>;

    open spec fn view(&self) -> Seq<u8> {
        self.bytes@
    }
}

impl PeerIdentity {
    pub fn new(bytes: Vec<u8>) -> (r: Self)
        ensures
            r@ == bytes@,
    {
        PeerIdentity { bytes }
    }

    pub fn as_bytes(&self) -> (r: &[u8])
        ensures
            r@ == self@,
    {
        self.bytes.as_slice()
    }

    /// A copy of this identity.
    pub fn duplicate(&self) -> (r: Self)
        ensures
            r@ == self@,
    {
        PeerIdentity { bytes: copy_bytes(self.bytes.as_slice()) }
    }

    /// Compares two identities byte by byte.
    pub fn same_as(&self, other: &PeerIdentity) -> (r: bool)
        ensures
            r == (self@ == other@),
    {
        bytes_equal(self.bytes.as_slice(), other.bytes.as_slice())
    }
}

/// A fresh vector holding the same bytes.
pub fn copy_bytes(b: &[u8]) -> (r: Vec<u8>)
    ensures
        r@ == b@,
{
    let mut out: Vec<u8> = Vec::new();
    let mut i: usize = 0;
    while i < b.len()
        invariant
            0 <= i <= b@.len(),
            out@ == b@.subrange(0, i as int),
        decreases b@.len() - i,
    {
        out.push(b[i]);
        proof {
            assert(b@.subrange(0, i + 1) =~= b@.subrange(0, i as int).push(b@[i as int]));
        }
        i = i + 1;
    }
    assert(b@.subrange(0, b@.len() as int) =~= b@);
    out
}

/// Whether two byte strings are equal.
pub fn bytes_equal(a: &[u8], b: &[u8]) -> (r: bool)
    ensures
        r == (a@ == b@),
{
    if a.len() != b.len() {
        return false;
    }
    let mut i: usize = 0;
    while i < a.len()
        invariant
            a@.len() == b@.len(),
            0 <= i <= a@.len(),
            forall|j: int| 0 <= j < i ==> a@[j] == b@[j],
        decreases a@.len() - i,
    {
        if a[i] != b[i] {
            return false;
        }
        i = i + 1;
    }
    assert(a@ =~= b@);
    true
}

/// An envelope as a mathematical value.
pub struct Envelope {
    pub kind: MessageType,
    pub to: Option<Seq<u8>>,
    pub from: Seq<u8>,
    pub payload: Seq<u8>,
}

/// The unit of exchange: a kind, an optional recipient (none: every node), the
/// sender and an opaque payload.
#[derive(Clone, Debug, PartialEq, Eq)]
pub struct Message {
    pub message_type: MessageType,
    pub to: Option<PeerIdentity>,
    pub from: PeerIdentity,
    pub data: Vec<u8>,
}

impl View for Message {
    type V = Envelope;

    open spec fn view(&self) -> Envelope {
        Envelope {
            kind: self.message_type,
            to: match self.to {
                Some(p) => Some(p@),
                None => None,
            },
            from: self.from@,
            payload: self.data@,
        }
    }
}

/// Why bytes did not decode into an envelope.
#[derive(Clone, Copy, Debug, PartialEq, Eq, Structural)]
pub enum EnvelopeError {
    Corrupted,
}

/// The two tag bytes of a kind: family, then variant. Family tags are 0 for
/// the clock family, 3 and 5 reserved for the mutual-exclusion and consensus
/// families; any two family tags, and any two variant tags of one family,
/// differ in at least two bits.
pub open spec fn kind_encoding(k: MessageType) -> Seq<u8> {
    match k {
        MessageType::LamportMessage(LamportMessage::GenericTransaction) => seq![0u8, 0u8],
        MessageType::LamportMessage(LamportMessage::GenericTransaction2) => seq![0u8, 3u8],
    }
}

/// A byte string on the wire: its length as a varint, then its bytes.
pub open spec fn field_encoding(b: Seq<u8>) -> Seq<u8> {
    varint_encoding(b.len()) + b
}

pub open spec fn recipient_encoding(to: Option<Seq<u8>>) -> Seq<u8> {
    match to {
        None => seq![0u8],
        Some(p) => seq![1u8] + field_encoding(p),
    }
}

/// The bytes of an envelope: kind, recipient, sender, payload.
pub open spec fn envelope_encoding(e: Envelope) -> Seq<u8> {
    kind_encoding(e.kind) + recipient_encoding(e.to) + field_encoding(e.from) + field_encoding(
        e.payload,
    )
}

/// The envelope that `b` encodes, if any.
pub open spec fn envelope_decoding(b: Seq<u8>) -> Option<Envelope> {
    if exists|e: Envelope| envelope_encoding(e) == b {
        Some(choose|e: Envelope| envelope_encoding(e) == b)
    } else {
        None
    }
}

/// `f` stands in `s` at `pos`.
pub open spec fn stands_at(s: Seq<u8>, pos: int, f: Seq<u8>) -> bool {
    0 <= pos && pos + f.len() <= s.len() && s.subrange(pos, pos + f.len()) == f
}

/// Two byte strings whose encodings both stand at one place are equal.
pub proof fn lemma_field_unique(s: Seq<u8>, pos: int, a: Seq<u8>, b: Seq<u8>)
    requires
        stands_at(s, pos, field_encoding(a)),
        stands_at(s, pos, field_encoding(b)),
    ensures
        a == b,
{
    let ea = varint_encoding(a.len());
    let eb = varint_encoding(b.len());
    lemma_encoding_is_varint(a.len());
    lemma_encoding_is_varint(b.len());
    assert(s.subrange(pos, pos + ea.len()) =~= field_encoding(a).subrange(0, ea.len() as int));
    assert(s.subrange(pos, pos + eb.len()) =~= field_encoding(b).subrange(0, eb.len() as int));
    assert(field_encoding(a).subrange(0, ea.len() as int) =~= ea);
    assert(field_encoding(b).subrange(0, eb.len() as int) =~= eb);
    lemma_varint_at_unique(s, pos, pos + ea.len(), pos + eb.len());
    assert(ea == eb);
    assert(a.len() == b.len());
    let fa = field_encoding(a);
    let fb = field_encoding(b);
    assert forall|i: int| 0 <= i < a.len() implies a[i] == b[i] by {
        assert(fa[ea.len() + i] == a[i]);
        assert(fb[eb.len() + i] == b[i]);
        assert(s.subrange(pos, pos + fa.len())[ea.len() + i] == s[pos + ea.len() + i]);
        assert(s.subrange(pos, pos + fb.len())[eb.len() + i] == s[pos + eb.len() + i]);
    }
    assert(a =~= b);
}

proof fn lemma_stands_in_concat(x: Seq<u8>, f: Seq<u8>, y: Seq<u8>)
    ensures
        stands_at(x + f + y, x.len() as int, f),
{
    assert((x + f + y).subrange(x.len() as int, (x.len() + f.len()) as int) =~= f);
}

/// Distinct envelopes have distinct encodings.
pub proof fn lemma_encoding_injective(a: Envelope, b: Envelope)
    requires
        envelope_encoding(a) == envelope_encoding(b),
    ensures
        a == b,
{
    let s = envelope_encoding(a);
    assert(s[0] == kind_encoding(a.kind)[0] && s[1] == kind_encoding(a.kind)[1]);
    assert(s[0] == kind_encoding(b.kind)[0] && s[1] == kind_encoding(b.kind)[1]);
    assert(a.kind == b.kind);
    let k = kind_encoding(a.kind);
    assert(s[2] == recipient_encoding(a.to)[0]);
    assert(s[2] == recipient_encoding(b.to)[0]);
    match a.to {
        Some(p) => {
            let q = b.to->Some_0;
            lemma_stands_in_concat(k + seq![1u8], field_encoding(p), field_encoding(a.from) + field_encoding(a.payload));
            lemma_stands_in_concat(k + seq![1u8], field_encoding(q), field_encoding(b.from) + field_encoding(b.payload));
            assert(s =~= (k + seq![1u8]) + field_encoding(p) + (field_encoding(a.from) + field_encoding(a.payload)));
            assert(s =~= (k + seq![1u8]) + field_encoding(q) + (field_encoding(b.from) + field_encoding(b.payload)));
            lemma_field_unique(s, 3, p, q);
        },
        None => {},
    }
    let r = k + recipient_encoding(a.to);
    assert(recipient_encoding(a.to) == recipient_encoding(b.to));
    assert(s =~= r + field_encoding(a.from) + field_encoding(a.payload));
    assert(s =~= r + field_encoding(b.from) + field_encoding(b.payload));
    lemma_stands_in_concat(r, field_encoding(a.from), field_encoding(a.payload));
    lemma_stands_in_concat(r, field_encoding(b.from), field_encoding(b.payload));
    lemma_field_unique(s, r.len() as int, a.from, b.from);
    let r2 = r + field_encoding(a.from);
    assert(s =~= r2 + field_encoding(a.payload) + Seq::<u8>::empty());
    assert(s =~= r2 + field_encoding(b.payload) + Seq::<u8>::empty());
    lemma_stands_in_concat(r2, field_encoding(a.payload), Seq::<u8>::empty());
    lemma_stands_in_concat(r2, field_encoding(b.payload), Seq::<u8>::empty());
    lemma_field_unique(s, r2.len() as int, a.payload, b.payload);
}

/// Decoding an encoded envelope gives back that envelope.
pub proof fn lemma_envelope_round_trip(e: Envelope)
    ensures
        envelope_decoding(envelope_encoding(e)) == Some(e),
{
    let b = envelope_encoding(e);
    assert(exists|x: Envelope| envelope_encoding(x) == b);
    let c = choose|x: Envelope| envelope_encoding(x) == b;
    lemma_encoding_injective(c, e);
}

/// Where each part of an encoded envelope stands.
pub proof fn lemma_envelope_layout(e: Envelope)
    ensures
        ({
            let s = envelope_encoding(e);
            let r = (2 + recipient_encoding(e.to).len()) as int;
            let p = r + field_encoding(e.from).len() as int;
            &&& s.len() == p + field_encoding(e.payload).len()
            &&& s[0] == kind_encoding(e.kind)[0]
            &&& s[1] == kind_encoding(e.kind)[1]
            &&& s[2] == (if e.to is Some { 1u8 } else { 0u8 })
            &&& (e.to is Some ==> stands_at(s, 3, field_encoding(e.to->Some_0)))
            &&& (e.to is Some ==> r == 3 + field_encoding(e.to->Some_0).len())
            &&& (e.to is None ==> r == 3)
            &&& stands_at(s, r, field_encoding(e.from))
            &&& stands_at(s, p, field_encoding(e.payload))
        }),
{
    let s = envelope_encoding(e);
    let k = kind_encoding(e.kind);
    let rc = recipient_encoding(e.to);
    let fr = field_encoding(e.from);
    let pl = field_encoding(e.payload);
    assert(s == k + rc + fr + pl);
    if e.to is Some {
        let q = e.to->Some_0;
        assert(s =~= (k + seq![1u8]) + field_encoding(q) + (fr + pl));
        lemma_stands_in_concat(k + seq![1u8], field_encoding(q), fr + pl);
    }
    assert(s =~= (k + rc) + fr + pl);
    lemma_stands_in_concat(k + rc, fr, pl);
    assert(s =~= (k + rc + fr) + pl + Seq::<u8>::empty());
    lemma_stands_in_concat(k + rc + fr, pl, Seq::<u8>::empty());
}

/// `s` with bit `k` of byte `i` inverted.
pub open spec fn flip_bit(s: Seq<u8>, i: int, k: u8) -> Seq<u8> {
    s.update(i, s[i] ^ (1u8 << k))
}

proof fn lemma_tags_apart(x: u8, y: u8, k: u8)
    requires
        k < 8,
        x == 0 || x == 3,
        y == 0 || y == 3,
    ensures
        x ^ (1u8 << k) != y,
{
    assert(x ^ (1u8 << k) != y) by (bit_vector)
        requires
            k < 8,
            x == 0 || x == 3,
            y == 0 || y == 3,
    ;
}

/// Inverting one bit of an encoded envelope never yields an envelope of
/// another kind: the bytes either fail to decode or keep the kind.
pub proof fn lemma_bit_flip_keeps_kind(e: Envelope, i: int, k: u8)
    requires
        0 <= i < envelope_encoding(e).len(),
        k < 8,
    ensures
        match envelope_decoding(flip_bit(envelope_encoding(e), i, k)) {
            Some(d) => d.kind == e.kind,
            None => true,
        },
{
    let s = envelope_encoding(e);
    let t = flip_bit(s, i, k);
    if envelope_decoding(t) is Some {
        let d = choose|x: Envelope| envelope_encoding(x) == t;
        lemma_envelope_layout(e);
        lemma_envelope_layout(d);
        if i == 0 {
            lemma_tags_apart(s[0], t[0], k);
        } else if i == 1 {
            lemma_tags_apart(s[1], t[1], k);
        }
    }
}

/// Appends one byte string as a field.
fn write_field(out: &mut Vec<u8>, b: &[u8])
    ensures
        final(out)@ == old(out)@ + field_encoding(b@),
{
    write_varint(out, b.len() as u64);
    let ghost start = out@;
    let mut i: usize = 0;
    while i < b.len()
        invariant
            0 <= i <= b@.len(),
            out@ == start + b@.subrange(0, i as int),
            start == old(out)@ + varint_encoding(b@.len()),
        decreases b@.len() - i,
    {
        out.push(b[i]);
        proof {
            assert(b@.subrange(0, i + 1) =~= b@.subrange(0, i as int).push(b@[i as int]));
        }
        i = i + 1;
    }
    assert(b@.subrange(0, b@.len() as int) =~= b@);
    assert(out@ =~= old(out)@ + field_encoding(b@));
}

/// Reads one field that starts at `pos`.
fn read_field(buf: &[u8], pos: usize) -> (r: Option<(Vec<u8>, usize)>)
    requires
        pos <= buf@.len(),
    ensures
        match r {
            Some((v, next)) => {
                &&& next == pos + field_encoding(v@).len()
                &&& stands_at(buf@, pos as int, field_encoding(v@))
            },
            None => forall|a: Seq<u8>| !stands_at(buf@, pos as int, field_encoding(a)),
        },
{
    let room: usize = buf.len() - pos;
    let rd = read_varint(buf, pos, room as u64);
    proof {
        assert forall|a: Seq<u8>| #[trigger] stands_at(buf@, pos as int, field_encoding(a)) implies {
            let k = pos + varint_encoding(a.len()).len();
            &&& varint_at(buf@, pos as int, k)
            &&& varint_value(buf@.subrange(pos as int, k)) == a.len()
            &&& a.len() <= room
            &&& buf@[k - 1] < 128
        } by {
            let ea = varint_encoding(a.len());
            lemma_encoding_is_varint(a.len());
            assert(buf@.subrange(pos as int, pos + ea.len()) =~= field_encoding(a).subrange(0, ea.len() as int));
            assert(field_encoding(a).subrange(0, ea.len() as int) =~= ea);
            assert(ea.last() == buf@[pos + ea.len() - 1]);
        }
    }
    match rd {
        VarintRead::Value(v, next) => {
            if v > (buf.len() - next) as u64 {
                proof {
                    assert forall|a: Seq<u8>| !stands_at(buf@, pos as int, field_encoding(a)) by {
                        if stands_at(buf@, pos as int, field_encoding(a)) {
                            lemma_varint_at_unique(buf@, pos as int, next as int, pos + varint_encoding(a.len()).len());
                        }
                    }
                }
                return None;
            }
            let end: usize = next + v as usize;
            let mut out: Vec<u8> = Vec::new();
            let mut i: usize = next;
            while i < end
                invariant
                    next <= i <= end <= buf@.len(),
                    out@ == buf@.subrange(next as int, i as int),
                decreases end - i,
            {
                out.push(buf[i]);
                proof {
                    assert(buf@.subrange(next as int, i + 1) =~= buf@.subrange(next as int, i as int).push(buf@[i as int]));
                }
                i = i + 1;
            }
            proof {
                let sub = buf@.subrange(pos as int, next as int);
                crate::varint::lemma_varint_canonical(sub);
                assert(varint_encoding(out@.len()) == sub);
                assert(buf@.subrange(pos as int, end as int) =~= field_encoding(out@));
            }
            Some((out, end))
        },
        VarintRead::TooLarge => {
            proof {
                let w = choose|next: int| varint_at(buf@, pos as int, next) && varint_value(buf@.subrange(pos as int, next)) > room;
                assert forall|a: Seq<u8>| !stands_at(buf@, pos as int, field_encoding(a)) by {
                    if stands_at(buf@, pos as int, field_encoding(a)) {
                        lemma_varint_at_unique(buf@, pos as int, w, pos + varint_encoding(a.len()).len());
                    }
                }
            }
            None
        },
        VarintRead::Incomplete => None,
        VarintRead::Malformed => None,
    }
}

impl Message {
    pub fn new(message_type: MessageType, to: Option<PeerIdentity>, from: PeerIdentity, data: Vec<u8>) -> (r: Self)
        ensures
            r.message_type == message_type,
            r.to == to,
            r.from == from,
            r.data == data,
    {
        Self { message_type, to, from, data }
    }

    /// The envelope's bytes on the wire.
    pub fn as_bytes(&self) -> (r: Vec<u8>)
        ensures
            r@ == envelope_encoding(self@),
    {
        let mut out: Vec<u8> = Vec::new();
        match self.message_type {
            MessageType::LamportMessage(LamportMessage::GenericTransaction) => {
                out.push(0u8);
                out.push(0u8);
            },
            MessageType::LamportMessage(LamportMessage::GenericTransaction2) => {
                out.push(0u8);
                out.push(3u8);
            },
        }
        assert(out@ =~= kind_encoding(self@.kind));
        match &self.to {
            None => {
                out.push(0u8);
            },
            Some(p) => {
                out.push(1u8);
                write_field(&mut out, p.bytes.as_slice());
            },
        }
        assert(out@ =~= kind_encoding(self@.kind) + recipient_encoding(self@.to));
        write_field(&mut out, self.from.bytes.as_slice());
        write_field(&mut out, self.data.as_slice());
        out
    }

    /// Decodes an envelope: succeeds exactly on the encodings of envelopes.
    #[verifier::rlimit(60)]
    #[verifier::spinoff_prover]
    pub fn from_bytes(buf: &[u8]) -> (r: Result<Message, EnvelopeError>)
        ensures
            match r {
                Ok(m) => envelope_decoding(buf@) == Some(m@),
                Err(_) => envelope_decoding(buf@) is None,
            },
    {
        if buf.len() < 3 {
            proof {
                assert forall|e: Envelope| envelope_encoding(e) != buf@ by {
                    lemma_envelope_layout(e);
                }
            }
            return Err(EnvelopeError::Corrupted);
        }
        let message_type = if buf[0] == 0 && buf[1] == 0 {
            MessageType::LamportMessage(LamportMessage::GenericTransaction)
        } else if buf[0] == 0 && buf[1] == 3 {
            MessageType::LamportMessage(LamportMessage::GenericTransaction2)
        } else {
            proof {
                assert forall|e: Envelope| envelope_encoding(e) != buf@ by {
                    lemma_envelope_layout(e);
                }
            }
            return Err(EnvelopeError::Corrupted);
        };
        assert(buf@[0] == kind_encoding(message_type)[0] && buf@[1] == kind_encoding(message_type)[1]);
        let to: Option<PeerIdentity>;
        let mut pos: usize;
        if buf[2] == 0 {
            to = None;
            pos = 3;
        } else if buf[2] == 1 {
            match read_field(buf, 3) {
                Some((v, next)) => {
                    to = Some(PeerIdentity { bytes: v });
                    pos = next;
                },
                None => {
                    proof {
                        assert forall|e: Envelope| envelope_encoding(e) != buf@ by {
                            lemma_envelope_layout(e);
                        }
                    }
                    return Err(EnvelopeError::Corrupted);
                },
            }
        } else {
            proof {
                assert forall|e: Envelope| envelope_encoding(e) != buf@ by {
                    lemma_envelope_layout(e);
                }
            }
            return Err(EnvelopeError::Corrupted);
        }
        let ghost to_v: Option<Seq<u8>> = match &to { Some(p) => Some(p@), None => None };
        // Any envelope encoded as `buf` has this recipient, and its sender starts at `pos`.
        assert forall|e: Envelope| envelope_encoding(e) == buf@ implies e.to == to_v && pos == 2 + recipient_encoding(e.to).len() by {
            lemma_envelope_layout(e);
            if e.to is Some {
                lemma_field_unique(buf@, 3, e.to->Some_0, to_v->Some_0);
            }
        }
        assert(pos == 2 + recipient_encoding(to_v).len());
        let (from_bytes, pos2) = match read_field(buf, pos) {
            Some(x) => x,
            None => {
                proof {
                    assert forall|e: Envelope| envelope_encoding(e) != buf@ by {
                        lemma_envelope_layout(e);
                    }
                }
                return Err(EnvelopeError::Corrupted);
            },
        };
        assert forall|e: Envelope| envelope_encoding(e) == buf@ implies e.from == from_bytes@ by {
            lemma_envelope_layout(e);
            lemma_field_unique(buf@, pos as int, e.from, from_bytes@);
        }
        let (data, pos3) = match read_field(buf, pos2) {
            Some(x) => x,
            None => {
                proof {
                    assert forall|e: Envelope| envelope_encoding(e) != buf@ by {
                        lemma_envelope_layout(e);
                    }
                }
                return Err(EnvelopeError::Corrupted);
            },
        };
        assert forall|e: Envelope| envelope_encoding(e) == buf@ implies e.payload == data@ by {
            lemma_envelope_layout(e);
            lemma_field_unique(buf@, pos2 as int, e.payload, data@);
        }
        if pos3 != buf.len() {
            proof {
                assert forall|e: Envelope| envelope_encoding(e) != buf@ by {
                    lemma_envelope_layout(e);
                }
            }
            return Err(EnvelopeError::Corrupted);
        }
        let m = Message { message_type, to, from: PeerIdentity { bytes: from_bytes }, data };
        proof {
            let k = kind_encoding(message_type);
            let rc = recipient_encoding(to_v);
            let s = envelope_encoding(m@);
            assert(m@.to == to_v);
            assert(buf@ =~= buf@.subrange(0, 2) + buf@.subrange(2, pos as int) + buf@.subrange(pos as int, pos2 as int) + buf@.subrange(pos2 as int, pos3 as int));
            assert(buf@.subrange(0, 2) =~= k);
            if to_v is Some {
                assert(buf@.subrange(2, pos as int) =~= seq![1u8] + buf@.subrange(3, pos as int));
                assert(buf@.subrange(2, pos as int) =~= rc);
            } else {
                assert(buf@.subrange(2, pos as int) =~= rc);
            }
            assert(s == buf@);
            lemma_envelope_round_trip(m@);
        }
        Ok(m)
    }
}

} // verus!
