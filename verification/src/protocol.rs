//! The frame: the outer envelope of every datagram, which carries a message
//! identifier, an opaque payload and a checksum over both.

use crate::application::ApplicationError;
use crate::wire::{
    append_bytes, bytes_or_empty, bytes_unless_empty, copy_range, field_views, field_wf,
    fields_bytes, find_last, last_with_tag, lemma_fields_bytes_concat, lemma_fields_round_trip,
    lemma_last_with_tag_append, lemma_last_with_tag_short, number_or_zero, number_unless_zero,
    parse_fields, read_fields, write_bytes_unless_empty, write_number_unless_zero, FieldView,
};
use vstd::prelude::*;

verus! {

/// The identifier that a client gives to a request: sixteen opaque bytes.
pub type MessageID = [u8; 16];

/// The length of a message identifier.
pub const MESSAGE_ID_LEN: usize = 16;

/// The tag of the identifier: field 1, a byte string.
pub const TAG_MESSAGE_ID: u32 = 10;

/// The tag of the payload: field 2, a byte string.
pub const TAG_PAYLOAD: u32 = 18;

/// The tag of the checksum: field 3, an integer.
pub const TAG_CHECK_SUM: u32 = 24;

/// The CRC-32 (IEEE 802.3) of a byte string.
pub uninterp spec fn crc32(data: Seq<u8>) -> u32;

/// `crc32fast::hash` computes the CRC-32 of the slice it is given: a value
/// that depends on the bytes alone.
pub assume_specification[ crc32fast::hash ](buf: &[u8]) -> (r: u32)
    ensures
        r == crc32(buf@),
;

/// The CRC-32 of an identifier followed by a payload.
pub fn frame_crc(message_id: &[u8], payload: &[u8]) -> (r: u32)
    ensures
        r == crc32(message_id@ + payload@),
{
    let mut joined: Vec<u8> = Vec::new();
    append_bytes(&mut joined, message_id);
    append_bytes(&mut joined, payload);
    assert(joined@ == message_id@ + payload@);
    crc32fast::hash(joined.as_slice())
}

/// The checksum of a frame: the CRC-32 of the identifier followed by the
/// payload, widened to 64 bits.
pub fn checksum(message_id: &[u8], payload: &[u8]) -> (r: u64)
    ensures
        r == crc32(message_id@ + payload@),
{
    frame_crc(message_id, payload) as u64
}

/// A frame as it travels: identifier, payload and checksum.
#[derive(Debug)]
pub struct Msg {
    pub message_id: Vec<u8>,
    pub payload: Vec<u8>,
    pub check_sum: u64,
}

/// The mathematical value of a frame.
pub ghost struct MsgView {
    pub message_id: Seq<u8>,
    pub payload: Seq<u8>,
    pub check_sum: u64,
}

impl View for Msg {
    type V = MsgView;

    open spec fn view(&self) -> MsgView {
        MsgView { message_id: self.message_id@, payload: self.payload@, check_sum: self.check_sum }
    }
}

/// The frame that carries `payload` under `message_id`, with the checksum
/// that belongs to them.
pub open spec fn frame_of(message_id: Seq<u8>, payload: Seq<u8>) -> MsgView {
    MsgView { message_id, payload, check_sum: crc32(message_id + payload) as u64 }
}

/// The fields that a frame puts on the wire, in the order of their numbers.
/// An empty byte string and a checksum of 0 are left out.
pub open spec fn msg_fields(m: MsgView) -> Seq<FieldView> {
    bytes_unless_empty(TAG_MESSAGE_ID, m.message_id) + bytes_unless_empty(TAG_PAYLOAD, m.payload)
        + number_unless_zero(TAG_CHECK_SUM, m.check_sum)
}

/// The bytes of a frame on the wire.
pub open spec fn msg_bytes(m: MsgView) -> Seq<u8> {
    fields_bytes(msg_fields(m))
}

/// The frame that a run of fields stands for: of each known field the last
/// occurrence counts, a field that does not occur is empty or 0, and fields
/// with other tags are passed over.
pub open spec fn msg_of_fields(fields: Seq<FieldView>) -> MsgView {
    MsgView {
        message_id: bytes_or_empty(last_with_tag(fields, TAG_MESSAGE_ID)),
        payload: bytes_or_empty(last_with_tag(fields, TAG_PAYLOAD)),
        check_sum: number_or_zero(last_with_tag(fields, TAG_CHECK_SUM)),
    }
}

/// The verdict on a frame whose fields were read, given the CRC-32 of its
/// identifier and payload: a frame whose identifier has not sixteen bytes is
/// badly framed; else the checksum must be the CRC-32, widened to 64 bits.
pub open spec fn frame_check(m: MsgView, crc: u32) -> Result<MsgView, ApplicationError> {
    if m.message_id.len() != MESSAGE_ID_LEN {
        Err(ApplicationError::InvalidFraming)
    } else if m.check_sum != crc as u64 {
        Err(ApplicationError::InvalidChecksum)
    } else {
        Ok(m)
    }
}

/// What decoding a datagram yields. The bytes must be a well-formed message
/// whose identifier has sixteen bytes, else the framing is invalid; the
/// checksum must be the one that belongs to identifier and payload.
pub open spec fn decode_frame(bytes: Seq<u8>) -> Result<MsgView, ApplicationError> {
    match parse_fields(bytes) {
        None => Err(ApplicationError::InvalidFraming),
        Some(fields) => {
            let m = msg_of_fields(fields);
            frame_check(m, crc32(m.message_id + m.payload))
        },
    }
}

/// Whether a frame can be written: each byte string is short enough for its
/// length prefix.
pub open spec fn msg_encodable(m: MsgView) -> bool {
    m.message_id.len() <= u32::MAX && m.payload.len() <= u32::MAX
}

impl Msg {
    /// The frame that carries `payload` under `message_id` with `crc`,
    /// widened to 64 bits, as its checksum.
    pub fn sealed(message_id: MessageID, payload: Vec<u8>, crc: u32) -> (r: Msg)
        ensures
            r@ == (MsgView { message_id: message_id@, payload: payload@, check_sum: crc as u64 }),
    {
        let id: Vec<u8> = copy_range(message_id.as_slice(), 0, MESSAGE_ID_LEN);
        assert(id@ == message_id@);
        Msg { message_id: id, payload, check_sum: crc as u64 }
    }

    /// Reads the fields of a frame from a datagram, without checking them:
    /// `None` when the datagram is no well-formed message.
    pub fn parse(bytes: &[u8]) -> (r: Option<Msg>)
        ensures
            match parse_fields(bytes@) {
                Some(fields) => r is Some && r->0@ == msg_of_fields(fields),
                None => r is None,
            },
    {
        let fields = match read_fields(bytes) {
            Some(fields) => fields,
            None => { return None; },
        };
        let message_id: Vec<u8> = match find_last(&fields, TAG_MESSAGE_ID) {
            Some(i) => copy_range(fields[i].bytes.as_slice(), 0, fields[i].bytes.len()),
            None => Vec::new(),
        };
        let payload: Vec<u8> = match find_last(&fields, TAG_PAYLOAD) {
            Some(i) => copy_range(fields[i].bytes.as_slice(), 0, fields[i].bytes.len()),
            None => Vec::new(),
        };
        let check_sum: u64 = match find_last(&fields, TAG_CHECK_SUM) {
            Some(i) => fields[i].number,
            None => 0,
        };
        let msg = Msg { message_id, payload, check_sum };
        proof {
            let m = msg_of_fields(field_views(fields@));
            assert(msg@.message_id =~= m.message_id);
            assert(msg@.payload =~= m.payload);
        }
        Some(msg)
    }

    /// Checks a frame whose fields were read against the CRC-32 of its
    /// identifier and payload, and hands it back when it is valid.
    pub fn checked(self, crc: u32) -> (r: Result<Msg, ApplicationError>)
        ensures
            match frame_check(self@, crc) {
                Ok(_) => r == Ok::<Msg, ApplicationError>(self),
                Err(e) => r == Err::<Msg, ApplicationError>(e),
            },
    {
        if self.message_id.len() != MESSAGE_ID_LEN {
            Err(ApplicationError::InvalidFraming)
        } else if self.check_sum != crc as u64 {
            Err(ApplicationError::InvalidChecksum)
        } else {
            Ok(self)
        }
    }
}

/// Building, writing and reading frames.
pub trait Protocol: Sized {
    /// Whether the value can be written.
    spec fn encodable(&self) -> bool;

    /// Wraps a payload into a frame under the given identifier.
    fn from_request(message_id: MessageID, payload: Vec<u8>) -> (r: Self)
        requires
            payload@.len() <= u32::MAX,
        ensures
            r.encodable(),
    ;

    /// The bytes of the frame on the wire.
    fn to_bytes(&self) -> (r: Vec<u8>)
        requires
            self.encodable(),
    ;

    /// Reads a frame from a datagram and checks it.
    fn from_bytes(bytes: &[u8]) -> (r: Result<Self, ApplicationError>);
}

impl Protocol for Msg {
    open spec fn encodable(&self) -> bool {
        msg_encodable(self@)
    }

    fn from_request(message_id: MessageID, payload: Vec<u8>) -> (r: Msg)
        ensures
            r@ == frame_of(message_id@, payload@),
    {
        let crc: u32 = frame_crc(message_id.as_slice(), payload.as_slice());
        Msg::sealed(message_id, payload, crc)
    }

    fn to_bytes(&self) -> (r: Vec<u8>)
        ensures
            r@ == msg_bytes(self@),
    {
        let mut out: Vec<u8> = Vec::new();
        write_bytes_unless_empty(&mut out, TAG_MESSAGE_ID, self.message_id.as_slice());
        write_bytes_unless_empty(&mut out, TAG_PAYLOAD, self.payload.as_slice());
        write_number_unless_zero(&mut out, TAG_CHECK_SUM, self.check_sum);
        proof {
            let a = bytes_unless_empty(TAG_MESSAGE_ID, self@.message_id);
            let b = bytes_unless_empty(TAG_PAYLOAD, self@.payload);
            let c = number_unless_zero(TAG_CHECK_SUM, self@.check_sum);
            lemma_fields_bytes_concat(a, b);
            lemma_fields_bytes_concat(a + b, c);
            assert(out@ == Seq::<u8>::empty() + fields_bytes(a) + fields_bytes(b) + fields_bytes(
                c,
            ));
            assert(Seq::<u8>::empty() + fields_bytes(a) == fields_bytes(a));
        }
        out
    }

    fn from_bytes(bytes: &[u8]) -> (r: Result<Msg, ApplicationError>)
        ensures
            match decode_frame(bytes@) {
                Ok(m) => r is Ok && r->Ok_0@ == m,
                Err(e) => r == Err::<Msg, ApplicationError>(e),
            },
    {
        let msg = match Msg::parse(bytes) {
            Some(msg) => msg,
            None => { return Err(ApplicationError::InvalidFraming); },
        };
        let crc: u32 = frame_crc(msg.message_id.as_slice(), msg.payload.as_slice());
        msg.checked(crc)
    }
}

/// Every field that an encodable frame puts on the wire can stand there, and
/// the fields give the frame back.
pub proof fn lemma_msg_fields(m: MsgView)
    requires
        msg_encodable(m),
    ensures
        forall|i: int| 0 <= i < msg_fields(m).len() ==> field_wf(
            #[trigger] msg_fields(m)[i],
        ),
        msg_of_fields(msg_fields(m)) == m,
{
    let a = bytes_unless_empty(TAG_MESSAGE_ID, m.message_id);
    let b = bytes_unless_empty(TAG_PAYLOAD, m.payload);
    let c = number_unless_zero(TAG_CHECK_SUM, m.check_sum);
    lemma_last_with_tag_short(a);
    lemma_last_with_tag_append(a, b);
    lemma_last_with_tag_append(a + b, c);
    let back = msg_of_fields(msg_fields(m));
    assert(back.message_id =~= m.message_id);
    assert(back.payload =~= m.payload);
}

/// Reading undoes writing: the bytes of an encodable frame parse to the
/// fields of a frame with the same identifier, payload and checksum.
pub proof fn lemma_msg_round_trip(m: MsgView)
    requires
        msg_encodable(m),
    ensures
        parse_fields(msg_bytes(m)) == Some(msg_fields(m)),
        msg_of_fields(msg_fields(m)) == m,
{
    lemma_msg_fields(m);
    lemma_fields_round_trip(msg_fields(m));
}

/// Checksum detection, as far as it is certain: whatever decodes as a frame
/// has an identifier of sixteen bytes and carries the CRC-32 of identifier
/// and payload as its checksum, and a well-formed frame that carries another
/// checksum is reported as such.
pub proof fn lemma_decoded_frames_are_checked(bytes: Seq<u8>)
    ensures
        match decode_frame(bytes) {
            Ok(m) => m.message_id.len() == MESSAGE_ID_LEN && m.check_sum == crc32(
                m.message_id + m.payload,
            ),
            Err(e) => e == ApplicationError::InvalidFraming || e
                == ApplicationError::InvalidChecksum,
        },
        parse_fields(bytes) is Some ==> {
            let m = msg_of_fields(parse_fields(bytes)->0);
            m.message_id.len() == MESSAGE_ID_LEN && m.check_sum != crc32(m.message_id + m.payload)
                ==> decode_frame(bytes) == Err::<MsgView, ApplicationError>(
                ApplicationError::InvalidChecksum,
            )
        },
{
}

/// Round-trip framing: decoding the bytes of the frame built from an
/// identifier of sixteen bytes and a payload gives that identifier and that
/// payload back, with the CRC-32 of the two as the checksum.
pub proof fn lemma_frame_round_trip(message_id: Seq<u8>, payload: Seq<u8>)
    requires
        message_id.len() == MESSAGE_ID_LEN,
        payload.len() <= u32::MAX,
    ensures
        decode_frame(msg_bytes(frame_of(message_id, payload))) == Ok::<MsgView, ApplicationError>(
            MsgView { message_id, payload, check_sum: crc32(message_id + payload) as u64 },
        ),
{
    lemma_msg_round_trip(frame_of(message_id, payload));
}

/// The number that a byte string stands for when it is read as one
/// big-endian number.
pub open spec fn id_key(id: Seq<u8>) -> nat
    decreases id.len(),
{
    if id.len() == 0 {
        0
    } else {
        id_key(id.drop_last()) * 256 + id.last() as nat
    }
}

/// One more than the largest number that `n` bytes can stand for.
pub open spec fn key_cap(n: nat) -> nat
    decreases n,
{
    if n == 0 {
        1
    } else {
        256 * key_cap((n - 1) as nat)
    }
}

/// The number of a byte string is below the cap of its length.
pub proof fn lemma_id_key_bound(id: Seq<u8>)
    ensures
        id_key(id) < key_cap(id.len()),
    decreases id.len(),
{
    if id.len() > 0 {
        lemma_id_key_bound(id.drop_last());
    }
}

/// Byte strings of one length that stand for the same number are the same:
/// no two identifiers share a key.
pub proof fn lemma_id_key_injective(a: Seq<u8>, b: Seq<u8>)
    requires
        a.len() == b.len(),
        id_key(a) == id_key(b),
    ensures
        a == b,
    decreases a.len(),
{
    if a.len() > 0 {
        lemma_id_key_injective(a.drop_last(), b.drop_last());
        assert(a =~= a.drop_last().push(a.last()));
        assert(b =~= b.drop_last().push(b.last()));
    } else {
        assert(a =~= b);
    }
}

/// The key under which an identifier is remembered: its sixteen bytes read
/// as one big-endian number.
pub fn message_key(id: &MessageID) -> (r: u128)
    ensures
        r == id_key(id@),
{
    let mut acc: u128 = 0;
    let mut i: usize = 0;
    proof {
        reveal_with_fuel(key_cap, 17);
        assert(id@.take(0) =~= Seq::<u8>::empty());
    }
    while i < MESSAGE_ID_LEN
        invariant
            i <= MESSAGE_ID_LEN,
            id@.len() == MESSAGE_ID_LEN,
            acc == id_key(id@.take(i as int)),
            acc < key_cap(i as nat),
        decreases MESSAGE_ID_LEN - i,
    {
        proof {
            reveal_with_fuel(key_cap, 17);
            assert(id@.take(i + 1).drop_last() =~= id@.take(i as int));
            assert(id@.take(i + 1).last() == id@[i as int]);
            lemma_id_key_bound(id@.take(i + 1));
        }
        acc = acc * 256 + id[i] as u128;
        i += 1;
    }
    proof {
        assert(id@.take(MESSAGE_ID_LEN as int) =~= id@);
    }
    acc
}

} // verus!
