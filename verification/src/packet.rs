//! Packets and their framing: one tag byte, then the payload of the variant.
//! A key is one length byte and that many bytes; a value is encoded as values are.

use crate::error::{Error, ErrorKind};
use crate::key::Key;
use crate::value::{
    decode as decode_value, lemma_decode_encoding as lemma_value_round_trip,
    lemma_decode_extends as lemma_value_extends, Value, ValueView,
};
use crate::wire::write_all;
use vstd::prelude::*;
use vstd::slice::slice_subrange;

verus! {

/// What client and broker say to each other.
#[derive(Debug, Clone, PartialEq, Eq)]
pub enum Packet<TKey: Key> {
    /// A schema fragment, as a string value.
    RegisterSchema { schema: Value },
    /// Subscribe to the points that a pattern matches.
    Subscribe { id: TKey },
    /// Give a point a new value.
    Update { id: TKey, new_value: Value },
    /// List points.
    List { id: TKey },
    /// An error, as a string value.
    Error { value: Value },
    /// The request was accepted.
    Okay {},
}

/// A packet as mathematics sees it: keys as their bytes, values as their views.
pub enum PacketView {
    RegisterSchema { schema: ValueView },
    Subscribe { id: Seq<u8> },
    Update { id: Seq<u8>, new_value: ValueView },
    List { id: Seq<u8> },
    Error { value: ValueView },
    Okay,
}

impl<TKey: Key> View for Packet<TKey> {
    type V = PacketView;

    open spec fn view(&self) -> PacketView {
        match self {
            Packet::RegisterSchema { schema } => PacketView::RegisterSchema { schema: schema@ },
            Packet::Subscribe { id } => PacketView::Subscribe { id: id.bytes() },
            Packet::Update { id, new_value } => PacketView::Update {
                id: id.bytes(),
                new_value: new_value@,
            },
            Packet::List { id } => PacketView::List { id: id.bytes() },
            Packet::Error { value } => PacketView::Error { value: value@ },
            Packet::Okay {  } => PacketView::Okay,
        }
    }
}

/// A key on the wire: its length in one byte, then its bytes.
pub open spec fn key_encoding(id: Seq<u8>) -> Seq<u8> {
    seq![id.len() as u8] + id
}

impl PacketView {
    /// The tag byte of the variant.
    pub open spec fn tag(self) -> u8 {
        match self {
            PacketView::Subscribe { .. } => 1,
            PacketView::Update { .. } => 2,
            PacketView::List { .. } => 3,
            PacketView::Error { .. } => 4,
            PacketView::Okay => 5,
            PacketView::RegisterSchema { .. } => 6,
        }
    }

    /// Why the packet cannot be written, if it cannot: a key longer than 255
    /// bytes, a payload of `Error` or `RegisterSchema` that is no string, a
    /// value too long for its length prefix.
    pub open spec fn defect(self) -> Option<ErrorKind> {
        match self {
            PacketView::Subscribe { id } | PacketView::List { id } => if id.len() > 255 {
                Some(ErrorKind::KeyTooLong)
            } else {
                None
            },
            PacketView::Update { id, new_value } => if id.len() > 255 {
                Some(ErrorKind::KeyTooLong)
            } else if !new_value.wf() {
                Some(ErrorKind::ValueTooLong)
            } else {
                None
            },
            PacketView::Error { value }
            | PacketView::RegisterSchema { schema: value } => if !(value is String) {
                Some(ErrorKind::InvalidPayload)
            } else if !value.wf() {
                Some(ErrorKind::ValueTooLong)
            } else {
                None
            },
            PacketView::Okay => None,
        }
    }

    /// Whether the packet can be written.
    pub open spec fn wf(self) -> bool {
        self.defect() is None
    }

    /// The bytes that follow the tag.
    pub open spec fn payload(self) -> Seq<u8> {
        match self {
            PacketView::Subscribe { id } | PacketView::List { id } => key_encoding(id),
            PacketView::Update { id, new_value } => key_encoding(id) + new_value.encoding(),
            PacketView::Error { value }
            | PacketView::RegisterSchema { schema: value } => value.encoding(),
            PacketView::Okay => Seq::empty(),
        }
    }

    /// The whole frame: the tag, then the payload.
    pub open spec fn encoding(self) -> Seq<u8> {
        seq![self.tag()] + self.payload()
    }

    /// Whether the key of the packet, if it has one, is one that the key
    /// flavor `TKey` reads back as it is.
    pub open spec fn key_is_own<TKey: Key>(self) -> bool {
        match self {
            PacketView::Subscribe { id }
            | PacketView::List { id }
            | PacketView::Update { id, .. } => TKey::accept(id) == Ok::<Seq<u8>, ErrorKind>(id),
            _ => true,
        }
    }
}

/// What reading a key of flavor `TKey` from the front of `bytes` gives: the
/// bytes of the key and the number of bytes read, or the reason for none.
pub open spec fn decode_key<TKey: Key>(bytes: Seq<u8>) -> Result<(Seq<u8>, nat), ErrorKind> {
    if bytes.len() < 1 {
        Err(ErrorKind::ShortRead { missing: 1 })
    } else if bytes.len() < 1 + bytes[0] {
        Err(ErrorKind::ShortRead { missing: (1 + bytes[0] - bytes.len()) as u64 })
    } else {
        match TKey::accept(bytes.subrange(1, 1 + bytes[0])) {
            Ok(id) => Ok((id, (1 + bytes[0]) as nat)),
            Err(kind) => Err(kind),
        }
    }
}

/// What reading a string value from the front of `bytes` gives.
pub open spec fn decode_text(bytes: Seq<u8>) -> Result<(ValueView, nat), ErrorKind> {
    match decode_value(bytes) {
        Ok((value, used)) => if value is String {
            Ok((value, used))
        } else {
            Err(ErrorKind::InvalidPayload)
        },
        Err(kind) => Err(kind),
    }
}

/// What reading one packet with keys of flavor `TKey` from the front of
/// `bytes` gives: the packet and the number of bytes it took, or the reason
/// why there is none.
pub open spec fn decode<TKey: Key>(bytes: Seq<u8>) -> Result<(PacketView, nat), ErrorKind> {
    if bytes.len() < 1 {
        Err(ErrorKind::ShortRead { missing: 1 })
    } else {
        let tag = bytes[0];
        let rest = bytes.subrange(1, bytes.len() as int);
        if tag == 1 || tag == 3 {
            match decode_key::<TKey>(rest) {
                Ok((id, used)) => Ok(
                    (
                        if tag == 1 {
                            PacketView::Subscribe { id }
                        } else {
                            PacketView::List { id }
                        },
                        1 + used,
                    ),
                ),
                Err(kind) => Err(kind),
            }
        } else if tag == 2 {
            match decode_key::<TKey>(rest) {
                Ok((id, used)) => match decode_value(
                    rest.subrange(used as int, rest.len() as int),
                ) {
                    Ok((new_value, more)) => Ok(
                        (PacketView::Update { id, new_value }, 1 + used + more),
                    ),
                    Err(kind) => Err(kind),
                },
                Err(kind) => Err(kind),
            }
        } else if tag == 4 || tag == 6 {
            match decode_text(rest) {
                Ok((value, used)) => Ok(
                    (
                        if tag == 4 {
                            PacketView::Error { value }
                        } else {
                            PacketView::RegisterSchema { schema: value }
                        },
                        1 + used,
                    ),
                ),
                Err(kind) => Err(kind),
            }
        } else if tag == 5 {
            Ok((PacketView::Okay, 1))
        } else {
            Err(ErrorKind::UnknownPacketTag)
        }
    }
}

/// Reading what was written gives the packet back, whatever follows it,
/// where the key flavor reads the packet's key back as it is.
pub proof fn lemma_decode_encoding<TKey: Key>(packet: PacketView, rest: Seq<u8>)
    requires
        packet.wf(),
        packet.key_is_own::<TKey>(),
    ensures
        decode::<TKey>(packet.encoding() + rest) == Ok::<(PacketView, nat), ErrorKind>(
            (packet, packet.encoding().len()),
        ),
{
    let bytes = packet.encoding() + rest;
    let tail = bytes.subrange(1, bytes.len() as int);
    assert(bytes[0] == packet.tag());
    match packet {
        PacketView::Subscribe { id } | PacketView::List { id } => {
            assert(tail =~= key_encoding(id) + rest);
            assert(tail.subrange(1, 1 + tail[0]) =~= id);
        },
        PacketView::Update { id, new_value } => {
            assert(tail =~= key_encoding(id) + new_value.encoding() + rest);
            assert(tail.subrange(1, 1 + tail[0]) =~= id);
            assert(tail.subrange(1 + id.len() as int, tail.len() as int) =~= new_value.encoding()
                + rest);
            lemma_value_round_trip(new_value, rest);
        },
        PacketView::Error { value } | PacketView::RegisterSchema { schema: value } => {
            assert(tail =~= value.encoding() + rest);
            lemma_value_round_trip(value, rest);
        },
        PacketView::Okay => {},
    }
}

/// Reading goes by what has been read: a packet that was read stays the
/// packet when more bytes follow; bytes that are refused stay refused; and
/// where bytes are missing, at least one is, fewer bytes than are missing
/// leave the rest missing, and no packet ends before the missing bytes do.
/// So a reader that reads just the missing bytes never reads past the end
/// of the packet at hand.
pub proof fn lemma_decode_extends<TKey: Key>(bytes: Seq<u8>, rest: Seq<u8>)
    ensures
        match decode::<TKey>(bytes) {
            Ok(read) => decode::<TKey>(bytes + rest) == Ok::<(PacketView, nat), ErrorKind>(read),
            Err(ErrorKind::ShortRead { missing }) => {
                &&& missing >= 1
                &&& rest.len() < missing ==> decode::<TKey>(bytes + rest) == Err::<
                    (PacketView, nat),
                    ErrorKind,
                >(ErrorKind::ShortRead { missing: (missing - rest.len()) as u64 })
                &&& decode::<TKey>(bytes + rest) matches Ok((_, used)) ==> used >= bytes.len()
                    + missing
            },
            Err(kind) => decode::<TKey>(bytes + rest) == Err::<(PacketView, nat), ErrorKind>(kind),
        },
{
    let all = bytes + rest;
    if bytes.len() >= 1 {
        assert(all[0] == bytes[0]);
        let tag = bytes[0];
        let tail = bytes.subrange(1, bytes.len() as int);
        let all_tail = all.subrange(1, all.len() as int);
        assert(all_tail =~= tail + rest);
        if tag == 1 || tag == 2 || tag == 3 {
            lemma_key_extends::<TKey>(tail, rest);
            if tag == 2 {
                match decode_key::<TKey>(tail) {
                    Ok((id, used)) => {
                        let value_bytes = tail.subrange(used as int, tail.len() as int);
                        assert(all_tail.subrange(used as int, all_tail.len() as int) =~= value_bytes
                            + rest);
                        lemma_value_extends(value_bytes, rest);
                    },
                    Err(_) => {
                        match decode_key::<TKey>(all_tail) {
                            Ok((id, used)) => {
                                let value_bytes = all_tail.subrange(
                                    used as int,
                                    all_tail.len() as int,
                                );
                                lemma_value_extends(Seq::empty(), value_bytes);
                                assert(Seq::<u8>::empty() + value_bytes =~= value_bytes);
                            },
                            Err(_) => {},
                        }
                    },
                }
            }
        } else if tag == 4 || tag == 6 {
            lemma_value_extends(tail, rest);
        }
    } else if all.len() >= 1 {
    }
}

/// Reading a key goes by what has been read, as reading a packet does.
pub proof fn lemma_key_extends<TKey: Key>(bytes: Seq<u8>, rest: Seq<u8>)
    ensures
        match decode_key::<TKey>(bytes) {
            Ok(read) => decode_key::<TKey>(bytes + rest) == Ok::<(Seq<u8>, nat), ErrorKind>(read),
            Err(ErrorKind::ShortRead { missing }) => {
                &&& missing >= 1
                &&& rest.len() < missing ==> decode_key::<TKey>(bytes + rest) == Err::<
                    (Seq<u8>, nat),
                    ErrorKind,
                >(ErrorKind::ShortRead { missing: (missing - rest.len()) as u64 })
                &&& decode_key::<TKey>(bytes + rest) matches Ok((_, used)) ==> used >= bytes.len()
                    + missing
            },
            Err(kind) => decode_key::<TKey>(bytes + rest) == Err::<(Seq<u8>, nat), ErrorKind>(kind),
        },
{
    let all = bytes + rest;
    if bytes.len() >= 1 {
        assert(all[0] == bytes[0]);
        if bytes.len() >= 1 + bytes[0] {
            assert(all.subrange(1, 1 + all[0]) =~= bytes.subrange(1, 1 + bytes[0]));
            TKey::lemma_refusal_is_final(bytes.subrange(1, 1 + bytes[0]));
        }
    }
}

impl<TKey: Key> Packet<TKey> {
    /// Whether the keys of the packet are well formed.
    pub open spec fn keys_wf(&self) -> bool {
        match self {
            Packet::Subscribe { id } | Packet::List { id } | Packet::Update { id, .. } => id.wf(),
            _ => true,
        }
    }

    /// Reading what was written gives the packet back: for every packet
    /// with well-formed keys that can be written, and whatever follows it.
    pub proof fn lemma_round_trip(&self, rest: Seq<u8>)
        requires
            self.keys_wf(),
            self@.wf(),
        ensures
            decode::<TKey>(self@.encoding() + rest) == Ok::<(PacketView, nat), ErrorKind>(
                (self@, self@.encoding().len()),
            ),
    {
        match self {
            Packet::Subscribe { id } | Packet::List { id } | Packet::Update { id, .. } => {
                id.lemma_accepts_own_bytes();
            },
            _ => {},
        }
        lemma_decode_encoding::<TKey>(self@, rest);
    }

    /// The tag byte of the packet's variant.
    pub fn tag(&self) -> (tag: u8)
        ensures
            tag == self@.tag(),
    {
        match self {
            Packet::Subscribe { .. } => 1,
            Packet::Update { .. } => 2,
            Packet::List { .. } => 3,
            Packet::Error { .. } => 4,
            Packet::Okay {  } => 5,
            Packet::RegisterSchema { .. } => 6,
        }
    }

    /// Appends the frame of the packet to `target`. A packet that cannot be
    /// written is refused with the error that `defect` names, and `target`
    /// is left as it was.
    pub fn write_to(&self, target: &mut Vec<u8>) -> (done: Result<(), Error>)
        ensures
            match done {
                Ok(()) => self@.wf() && final(target)@ == old(target)@ + self@.encoding(),
                Err(e) => self@.defect() == Some(e.kind) && e.is_of(e.kind) && final(target)@
                    == old(target)@,
            },
    {
        let mut frame: Vec<u8> = Vec::new();
        frame.push(self.tag());
        match self {
            Packet::Subscribe { id } | Packet::List { id } => {
                write_key(&mut frame, id)?;
            },
            Packet::Update { id, new_value } => {
                write_key(&mut frame, id)?;
                new_value.write_to(&mut frame)?;
            },
            Packet::Error { value } | Packet::RegisterSchema { schema: value } => {
                match value {
                    Value::String(_) => {
                        value.write_to(&mut frame)?;
                    },
                    _ => {
                        return Err(Error::of(ErrorKind::InvalidPayload));
                    },
                }
            },
            Packet::Okay {  } => {},
        }
        assert(frame@ =~= self@.encoding());
        write_all(target, frame.as_slice());
        Ok(())
    }

    /// Reads one packet from the front of `source`: the packet and the
    /// number of bytes it took, or the error that `decode` names.
    pub fn read_from(source: &[u8]) -> (read: Result<(Self, usize), Error>)
        ensures
            match read {
                Ok((packet, used)) => decode::<TKey>(source@) == Ok::<(PacketView, nat), ErrorKind>(
                    (packet@, used as nat),
                ) && packet.keys_wf(),
                Err(e) => decode::<TKey>(source@) == Err::<(PacketView, nat), ErrorKind>(e.kind)
                    && e.is_of(e.kind),
            },
    {
        let len = source.len();
        if len < 1 {
            return Err(Error::of(ErrorKind::ShortRead { missing: 1 }));
        }
        let tag = source[0];
        let rest = slice_subrange(source, 1, len);
        if tag == 1 || tag == 3 {
            let (id, used) = read_key::<TKey>(rest)?;
            if tag == 1 {
                Ok((Packet::Subscribe { id }, 1 + used))
            } else {
                Ok((Packet::List { id }, 1 + used))
            }
        } else if tag == 2 {
            let (id, used) = read_key::<TKey>(rest)?;
            let (new_value, more) = Value::read_from(slice_subrange(rest, used, rest.len()))?;
            Ok((Packet::Update { id, new_value }, 1 + used + more))
        } else if tag == 4 || tag == 6 {
            let (value, used) = Value::read_from(rest)?;
            match value {
                Value::String(_) => {},
                _ => {
                    return Err(Error::of(ErrorKind::InvalidPayload));
                },
            }
            if tag == 4 {
                Ok((Packet::Error { value }, 1 + used))
            } else {
                Ok((Packet::RegisterSchema { schema: value }, 1 + used))
            }
        } else if tag == 5 {
            Ok((Packet::Okay {  }, 1))
        } else {
            Err(Error::of(ErrorKind::UnknownPacketTag))
        }
    }
}

impl<TKey: Key> From<&Packet<TKey>> for u8 {
    /// The tag byte of the packet's variant.
    fn from(value: &Packet<TKey>) -> (tag: u8) {
        value.tag()
    }
}

impl<TKey: Key> vstd::std_specs::convert::FromSpecImpl<&Packet<TKey>> for u8 {
    open spec fn obeys_from_spec() -> bool {
        true
    }

    open spec fn from_spec(value: &Packet<TKey>) -> u8 {
        value@.tag()
    }
}

/// Appends a key to `target`: its length in one byte, then its bytes. A key
/// longer than 255 bytes is refused, and `target` is left as it was.
pub fn write_key<TKey: Key>(target: &mut Vec<u8>, key: &TKey) -> (done: Result<(), Error>)
    ensures
        match done {
            Ok(()) => key.bytes().len() <= 255 && final(target)@ == old(target)@ + key_encoding(
                key.bytes(),
            ),
            Err(e) => key.bytes().len() > 255 && e.is_of(ErrorKind::KeyTooLong) && final(target)@
                == old(target)@,
        },
{
    let data = key.as_slice();
    if data.len() > 255 {
        return Err(Error::of(ErrorKind::KeyTooLong));
    }
    target.push(data.len() as u8);
    write_all(target, data);
    assert(final(target)@ =~= old(target)@ + key_encoding(key.bytes()));
    Ok(())
}

/// Reads a key from the front of `source`: the key and the number of bytes
/// it took, or the error that `decode_key` names.
pub fn read_key<TKey: Key>(source: &[u8]) -> (read: Result<(TKey, usize), Error>)
    ensures
        match read {
            Ok((key, used)) => decode_key::<TKey>(source@) == Ok::<(Seq<u8>, nat), ErrorKind>(
                (key.bytes(), used as nat),
            ) && key.wf() && used <= source@.len(),
            Err(e) => decode_key::<TKey>(source@) == Err::<(Seq<u8>, nat), ErrorKind>(e.kind)
                && e.is_of(e.kind),
        },
{
    let data = read_len_raw(source)?;
    let key = TKey::from_slice(data)?;
    Ok((key, 1 + data.len()))
}

/// Reads a length byte and that many bytes from the front of `source`.
pub fn read_len_raw(source: &[u8]) -> (read: Result<&[u8], Error>)
    ensures
        match read {
            Ok(data) => source@.len() >= 1 && data@.len() == source@[0] && source@.len() >= 1
                + data@.len() && data@ == source@.subrange(1, 1 + source@[0]),
            Err(e) => e.is_of(e.kind) && if source@.len() < 1 {
                e.kind == (ErrorKind::ShortRead { missing: 1 })
            } else {
                source@.len() < 1 + source@[0] && e.kind == (ErrorKind::ShortRead {
                    missing: (1 + source@[0] - source@.len()) as u64,
                })
            },
        },
{
    if source.len() < 1 {
        return Err(Error::of(ErrorKind::ShortRead { missing: 1 }));
    }
    let len = source[0] as usize;
    if source.len() < 1 + len {
        return Err(Error::of(ErrorKind::ShortRead { missing: (1 + len - source.len()) as u64 }));
    }
    Ok(slice_subrange(source, 1, 1 + len))
}

} // verus!
