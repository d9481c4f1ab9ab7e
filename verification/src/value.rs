//! Values and their tagged binary encoding: one tag byte, then the payload,
//! integers big-endian, blobs and strings behind a 32-bit length.

use crate::error::{Error, ErrorKind};
use crate::text::string_from_utf8;
use crate::wire::{
    be_bytes, be_value, lemma_be_bytes_len, lemma_be_bytes_of_value, lemma_be_value_bound,
    bits_signed, lemma_be_value_of_bytes, lemma_span_values, read_be, signed_bits, span, to_signed,
    to_unsigned, write_all, write_be,
};
use vstd::prelude::*;
use vstd::slice::{slice_subrange, slice_to_vec};
use vstd::string::*;
use vstd::utf8::*;

verus! {

/// A value of a point. The two floating-point variants hold the IEEE-754 bit
/// pattern of the number, which is what the wire carries.
#[derive(Debug, Clone, PartialEq, Eq)]
pub enum Value {
    Boolean(bool),
    Blob(Vec<u8>),
    String(String),
    U8(u8),
    I8(i8),
    U16(u16),
    I16(i16),
    U32(u32),
    I32(i32),
    U64(u64),
    I64(i64),
    F32(u32),
    F64(u64),
}

/// A value as mathematics sees it: blobs as byte sequences, strings as
/// character sequences.
pub enum ValueView {
    Boolean(bool),
    Blob(Seq<u8>),
    String(Seq<char>),
    U8(u8),
    I8(i8),
    U16(u16),
    I16(i16),
    U32(u32),
    I32(i32),
    U64(u64),
    I64(i64),
    F32(u32),
    F64(u64),
}

impl View for Value {
    type V = ValueView;

    open spec fn view(&self) -> ValueView {
        match self {
            Value::Boolean(v) => ValueView::Boolean(*v),
            Value::Blob(v) => ValueView::Blob(v@),
            Value::String(v) => ValueView::String(v@),
            Value::U8(v) => ValueView::U8(*v),
            Value::I8(v) => ValueView::I8(*v),
            Value::U16(v) => ValueView::U16(*v),
            Value::I16(v) => ValueView::I16(*v),
            Value::U32(v) => ValueView::U32(*v),
            Value::I32(v) => ValueView::I32(*v),
            Value::U64(v) => ValueView::U64(*v),
            Value::I64(v) => ValueView::I64(*v),
            Value::F32(v) => ValueView::F32(*v),
            Value::F64(v) => ValueView::F64(*v),
        }
    }
}

impl ValueView {
    /// The tag byte of the variant.
    pub open spec fn tag(self) -> u8 {
        match self {
            ValueView::Boolean(_) => 1,
            ValueView::Blob(_) => 2,
            ValueView::String(_) => 3,
            ValueView::U8(_) => 4,
            ValueView::I8(_) => 5,
            ValueView::U16(_) => 6,
            ValueView::I16(_) => 7,
            ValueView::U32(_) => 8,
            ValueView::I32(_) => 9,
            ValueView::U64(_) => 10,
            ValueView::I64(_) => 11,
            ValueView::F32(_) => 12,
            ValueView::F64(_) => 13,
        }
    }

    /// Whether the value can be written: a blob or a string must be short
    /// enough for its 32-bit length prefix.
    pub open spec fn wf(self) -> bool {
        match self {
            ValueView::Blob(data) => data.len() < span(4),
            ValueView::String(text) => encode_utf8(text).len() < span(4),
            _ => true,
        }
    }

    /// The bytes that follow the tag.
    pub open spec fn payload(self) -> Seq<u8> {
        match self {
            ValueView::Boolean(v) => seq![if v { 1u8 } else { 0u8 }],
            ValueView::Blob(data) => be_bytes(data.len(), 4) + data,
            ValueView::String(text) => be_bytes(encode_utf8(text).len(), 4) + encode_utf8(text),
            ValueView::U8(v) => be_bytes(v as nat, 1),
            ValueView::I8(v) => be_bytes(to_unsigned(v as int, 1), 1),
            ValueView::U16(v) => be_bytes(v as nat, 2),
            ValueView::I16(v) => be_bytes(to_unsigned(v as int, 2), 2),
            ValueView::U32(v) => be_bytes(v as nat, 4),
            ValueView::I32(v) => be_bytes(to_unsigned(v as int, 4), 4),
            ValueView::U64(v) => be_bytes(v as nat, 8),
            ValueView::I64(v) => be_bytes(to_unsigned(v as int, 8), 8),
            ValueView::F32(v) => be_bytes(v as nat, 4),
            ValueView::F64(v) => be_bytes(v as nat, 8),
        }
    }

    /// The whole encoding: the tag, then the payload.
    pub open spec fn encoding(self) -> Seq<u8> {
        seq![self.tag()] + self.payload()
    }
}

impl Value {
    /// The tag byte of the value's variant.
    pub fn tag(&self) -> (tag: u8)
        ensures
            tag == self@.tag(),
    {
        match self {
            Value::Boolean(_) => 1,
            Value::Blob(_) => 2,
            Value::String(_) => 3,
            Value::U8(_) => 4,
            Value::I8(_) => 5,
            Value::U16(_) => 6,
            Value::I16(_) => 7,
            Value::U32(_) => 8,
            Value::I32(_) => 9,
            Value::U64(_) => 10,
            Value::I64(_) => 11,
            Value::F32(_) => 12,
            Value::F64(_) => 13,
        }
    }

    /// A copy of the value.
    pub fn duplicate(&self) -> (copy: Value)
        ensures
            copy@ == self@,
    {
        match self {
            Value::Boolean(v) => Value::Boolean(*v),
            Value::Blob(v) => Value::Blob(slice_to_vec(v.as_slice())),
            Value::String(v) => Value::String(v.clone()),
            Value::U8(v) => Value::U8(*v),
            Value::I8(v) => Value::I8(*v),
            Value::U16(v) => Value::U16(*v),
            Value::I16(v) => Value::I16(*v),
            Value::U32(v) => Value::U32(*v),
            Value::I32(v) => Value::I32(*v),
            Value::U64(v) => Value::U64(*v),
            Value::I64(v) => Value::I64(*v),
            Value::F32(v) => Value::F32(*v),
            Value::F64(v) => Value::F64(*v),
        }
    }

    /// Appends the encoding of the value to `target`. A blob or string too
    /// long for its length prefix is refused, and `target` is left as it was.
    pub fn write_to(&self, target: &mut Vec<u8>) -> (done: Result<(), Error>)
        ensures
            self@.wf() ==> done is Ok && final(target)@ == old(target)@ + self@.encoding(),
            !self@.wf() ==> done is Err && done->Err_0.is_of(ErrorKind::ValueTooLong),
            !self@.wf() ==> final(target)@ == old(target)@,
    {
        proof {
            lemma_span_values();
        }
        match self {
            Value::Blob(data) => {
                if data.len() > 0xffff_ffff {
                    return Err(Error::of(ErrorKind::ValueTooLong));
                }
                target.push(2);
                write_be(target, data.len() as u64, 4);
                write_all(target, data.as_slice());
            },
            Value::String(text) => {
                let data = text.as_str().as_bytes();
                if data.len() > 0xffff_ffff {
                    return Err(Error::of(ErrorKind::ValueTooLong));
                }
                target.push(3);
                write_be(target, data.len() as u64, 4);
                write_all(target, data);
            },
            Value::Boolean(v) => {
                target.push(1);
                target.push(if *v { 1 } else { 0 });
            },
            Value::U8(v) => {
                target.push(4);
                write_be(target, *v as u64, 1);
            },
            Value::I8(v) => {
                target.push(5);
                write_be(target, signed_bits(*v as i64, 1), 1);
            },
            Value::U16(v) => {
                target.push(6);
                write_be(target, *v as u64, 2);
            },
            Value::I16(v) => {
                target.push(7);
                write_be(target, signed_bits(*v as i64, 2), 2);
            },
            Value::U32(v) => {
                target.push(8);
                write_be(target, *v as u64, 4);
            },
            Value::I32(v) => {
                target.push(9);
                write_be(target, signed_bits(*v as i64, 4), 4);
            },
            Value::U64(v) => {
                target.push(10);
                write_be(target, *v, 8);
            },
            Value::I64(v) => {
                target.push(11);
                write_be(target, signed_bits(*v, 8), 8);
            },
            Value::F32(v) => {
                target.push(12);
                write_be(target, *v as u64, 4);
            },
            Value::F64(v) => {
                target.push(13);
                write_be(target, *v, 8);
            },
        }
        assert(target@ =~= old(target)@ + self@.encoding());
        Ok(())
    }

    /// Reads one value from the front of `source`: the value and the number
    /// of bytes it took, or the error that `decode` names.
    pub fn read_from(source: &[u8]) -> (read: Result<(Value, usize), Error>)
        ensures
            match read {
                Ok((value, used)) => decode(source@) == Ok::<(ValueView, nat), ErrorKind>(
                    (value@, used as nat),
                ),
                Err(e) => decode(source@) == Err::<(ValueView, nat), ErrorKind>(e.kind) && e.is_of(
                    e.kind,
                ),
            },
    {
        proof {
            lemma_span_values();
        }
        let len = source.len();
        if len < 1 {
            return Err(Error::of(ErrorKind::ShortRead { missing: 1 }));
        }
        let tag = source[0];
        if tag == 2 || tag == 3 {
            if len < 5 {
                return Err(Error::of(ErrorKind::ShortRead { missing: (5 - len) as u64 }));
            }
            let size = read_be(source, 1, 4);
            proof {
                lemma_be_value_bound(source@.subrange(1, 5));
            }
            if (len as u64) < 5 + size {
                return Err(
                    Error::of(ErrorKind::ShortRead { missing: 5 + size - len as u64 }),
                );
            }
            let end = 5 + size as usize;
            let data = slice_to_vec(slice_subrange(source, 5, end));
            if tag == 2 {
                Ok((Value::Blob(data), end))
            } else {
                match string_from_utf8(data) {
                    Some(text) => Ok((Value::String(text), end)),
                    None => Err(Error::of(ErrorKind::InvalidUtf8)),
                }
            }
        } else {
            let width: u8 = if tag == 1 || tag == 4 || tag == 5 {
                1
            } else if tag == 6 || tag == 7 {
                2
            } else if tag == 8 || tag == 9 || tag == 12 {
                4
            } else if tag == 10 || tag == 11 || tag == 13 {
                8
            } else {
                return Err(Error::of(ErrorKind::UnknownValueTag));
            };
            if len < 1 + width as usize {
                return Err(
                    Error::of(ErrorKind::ShortRead { missing: (1 + width as usize - len) as u64 }),
                );
            }
            let bits = read_be(source, 1, width);
            proof {
                lemma_be_value_bound(source@.subrange(1, 1 + width));
            }
            let end = 1 + width as usize;
            if tag == 1 {
                if bits == 0 {
                    Ok((Value::Boolean(false), end))
                } else if bits == 1 {
                    Ok((Value::Boolean(true), end))
                } else {
                    Err(Error::of(ErrorKind::InvalidBoolean))
                }
            } else if tag == 4 {
                Ok((Value::U8(bits as u8), end))
            } else if tag == 5 {
                Ok((Value::I8(bits_signed(bits, 1) as i8), end))
            } else if tag == 6 {
                Ok((Value::U16(bits as u16), end))
            } else if tag == 7 {
                Ok((Value::I16(bits_signed(bits, 2) as i16), end))
            } else if tag == 8 {
                Ok((Value::U32(bits as u32), end))
            } else if tag == 9 {
                Ok((Value::I32(bits_signed(bits, 4) as i32), end))
            } else if tag == 10 {
                Ok((Value::U64(bits), end))
            } else if tag == 11 {
                Ok((Value::I64(bits_signed(bits, 8)), end))
            } else if tag == 12 {
                Ok((Value::F32(bits as u32), end))
            } else {
                Ok((Value::F64(bits), end))
            }
        }
    }
}

impl From<&Value> for u8 {
    /// The tag byte of the value's variant.
    fn from(value: &Value) -> (tag: u8) {
        value.tag()
    }
}

impl vstd::std_specs::convert::FromSpecImpl<&Value> for u8 {
    open spec fn obeys_from_spec() -> bool {
        true
    }

    open spec fn from_spec(value: &Value) -> u8 {
        value@.tag()
    }
}

impl From<Value> for u8 {
    /// The tag byte of the value's variant.
    fn from(value: Value) -> (tag: u8) {
        value.tag()
    }
}

impl vstd::std_specs::convert::FromSpecImpl<Value> for u8 {
    open spec fn obeys_from_spec() -> bool {
        true
    }

    open spec fn from_spec(value: Value) -> u8 {
        value@.tag()
    }
}

/// The payload width of a tag whose payload has a fixed width; `None` for the
/// two length-prefixed tags and for unknown tags.
pub open spec fn fixed_width(tag: u8) -> Option<nat> {
    if tag == 1 || tag == 4 || tag == 5 {
        Some(1)
    } else if tag == 6 || tag == 7 {
        Some(2)
    } else if tag == 8 || tag == 9 || tag == 12 {
        Some(4)
    } else if tag == 10 || tag == 11 || tag == 13 {
        Some(8)
    } else {
        None
    }
}

/// The value that a fixed-width payload holds under the given tag.
pub open spec fn decode_fixed(tag: u8, payload: Seq<u8>) -> Result<ValueView, ErrorKind> {
    let bits = be_value(payload);
    if tag == 1 {
        if bits == 0 {
            Ok(ValueView::Boolean(false))
        } else if bits == 1 {
            Ok(ValueView::Boolean(true))
        } else {
            Err(ErrorKind::InvalidBoolean)
        }
    } else if tag == 4 {
        Ok(ValueView::U8(bits as u8))
    } else if tag == 5 {
        Ok(ValueView::I8(to_signed(bits, 1) as i8))
    } else if tag == 6 {
        Ok(ValueView::U16(bits as u16))
    } else if tag == 7 {
        Ok(ValueView::I16(to_signed(bits, 2) as i16))
    } else if tag == 8 {
        Ok(ValueView::U32(bits as u32))
    } else if tag == 9 {
        Ok(ValueView::I32(to_signed(bits, 4) as i32))
    } else if tag == 10 {
        Ok(ValueView::U64(bits as u64))
    } else if tag == 11 {
        Ok(ValueView::I64(to_signed(bits, 8) as i64))
    } else if tag == 12 {
        Ok(ValueView::F32(bits as u32))
    } else {
        Ok(ValueView::F64(bits as u64))
    }
}

/// What reading one value from the front of `bytes` gives: the value and the
/// number of bytes it took, or the reason why there is none.
pub open spec fn decode(bytes: Seq<u8>) -> Result<(ValueView, nat), ErrorKind> {
    if bytes.len() < 1 {
        Err(ErrorKind::ShortRead { missing: 1 })
    } else if bytes[0] == 2 || bytes[0] == 3 {
        if bytes.len() < 5 {
            Err(ErrorKind::ShortRead { missing: (5 - bytes.len()) as u64 })
        } else {
            let len = be_value(bytes.subrange(1, 5));
            if bytes.len() < 5 + len {
                Err(ErrorKind::ShortRead { missing: (5 + len - bytes.len()) as u64 })
            } else {
                let data = bytes.subrange(5, 5 + len as int);
                if bytes[0] == 2 {
                    Ok((ValueView::Blob(data), 5 + len))
                } else if valid_utf8(data) {
                    Ok((ValueView::String(decode_utf8(data)), 5 + len))
                } else {
                    Err(ErrorKind::InvalidUtf8)
                }
            }
        }
    } else {
        match fixed_width(bytes[0]) {
            None => Err(ErrorKind::UnknownValueTag),
            Some(width) => if bytes.len() < 1 + width {
                Err(ErrorKind::ShortRead { missing: (1 + width - bytes.len()) as u64 })
            } else {
                match decode_fixed(bytes[0], bytes.subrange(1, 1 + width as int)) {
                    Ok(value) => Ok((value, 1 + width)),
                    Err(kind) => Err(kind),
                }
            },
        }
    }
}

/// Reading what was written gives the value back, whatever follows it.
pub proof fn lemma_decode_encoding(value: ValueView, rest: Seq<u8>)
    requires
        value.wf(),
    ensures
        decode(value.encoding() + rest) == Ok::<(ValueView, nat), ErrorKind>(
            (value, value.encoding().len()),
        ),
{
    let bytes = value.encoding() + rest;
    let payload = value.payload();
    lemma_span_values();
    assert(bytes[0] == value.tag());
    match value {
        ValueView::Blob(data) => {
            lemma_be_bytes_len(data.len(), 4);
            lemma_be_value_of_bytes(data.len(), 4);
            assert(bytes.subrange(1, 5) =~= be_bytes(data.len(), 4));
            assert(bytes.subrange(5, 5 + data.len() as int) =~= data);
        },
        ValueView::String(text) => {
            let data = encode_utf8(text);
            lemma_be_bytes_len(data.len(), 4);
            lemma_be_value_of_bytes(data.len(), 4);
            assert(bytes.subrange(1, 5) =~= be_bytes(data.len(), 4));
            assert(bytes.subrange(5, 5 + data.len() as int) =~= data);
            encode_utf8_valid_utf8(text);
            encode_utf8_decode_utf8(text);
        },
        ValueView::Boolean(v) => {
            let one = seq![if v { 1u8 } else { 0u8 }];
            assert(bytes.subrange(1, 2) =~= one);
            assert(one.drop_last() =~= Seq::<u8>::empty());
            reveal_with_fuel(be_value, 2);
        },
        _ => {
            let width = fixed_width(value.tag())->0;
            let bits: nat = match value {
                ValueView::U8(v) => v as nat,
                ValueView::I8(v) => to_unsigned(v as int, 1),
                ValueView::U16(v) => v as nat,
                ValueView::I16(v) => to_unsigned(v as int, 2),
                ValueView::U32(v) => v as nat,
                ValueView::I32(v) => to_unsigned(v as int, 4),
                ValueView::U64(v) => v as nat,
                ValueView::I64(v) => to_unsigned(v as int, 8),
                ValueView::F32(v) => v as nat,
                _ => value->F64_0 as nat,
            };
            assert(payload == be_bytes(bits, width));
            lemma_be_bytes_len(bits, width);
            lemma_be_value_of_bytes(bits, width);
            assert(bytes.subrange(1, 1 + width as int) =~= payload);
        },
    }
}

/// A value that was read is written as the very bytes it was read from.
pub proof fn lemma_encoding_of_decoded(bytes: Seq<u8>)
    requires
        decode(bytes) is Ok,
    ensures
        decode(bytes)->Ok_0.0.wf(),
        decode(bytes)->Ok_0.1 <= bytes.len(),
        decode(bytes)->Ok_0.0.encoding() == bytes.subrange(0, decode(bytes)->Ok_0.1 as int),
{
    let (value, used) = decode(bytes)->Ok_0;
    lemma_span_values();
    if bytes[0] == 2 || bytes[0] == 3 {
        let prefix = bytes.subrange(1, 5);
        let len = be_value(prefix);
        let data = bytes.subrange(5, 5 + len as int);
        lemma_be_value_bound(prefix);
        lemma_be_bytes_of_value(prefix);
        if bytes[0] == 3 {
            decode_utf8_encode_utf8(data);
        }
        assert(value.encoding() =~= bytes.subrange(0, used as int));
    } else {
        let width = fixed_width(bytes[0])->0;
        let payload = bytes.subrange(1, 1 + width as int);
        let bits = be_value(payload);
        lemma_be_value_bound(payload);
        lemma_be_bytes_of_value(payload);
        assert(value.payload() == payload);
        assert(value.encoding() =~= bytes.subrange(0, used as int));
    }
}

/// Reading goes by what has been read: a value that was read stays the
/// value when more bytes follow; bytes that are refused stay refused; and
/// where bytes are missing, at least one is, fewer bytes than are
/// missing leave the rest missing, and no value ends before the missing
/// bytes do.
pub proof fn lemma_decode_extends(bytes: Seq<u8>, rest: Seq<u8>)
    ensures
        match decode(bytes) {
            Ok(read) => decode(bytes + rest) == Ok::<(ValueView, nat), ErrorKind>(read),
            Err(ErrorKind::ShortRead { missing }) => {
                &&& missing >= 1
                &&& rest.len() < missing ==> decode(bytes + rest) == Err::<
                    (ValueView, nat),
                    ErrorKind,
                >(ErrorKind::ShortRead { missing: (missing - rest.len()) as u64 })
                &&& decode(bytes + rest) matches Ok((_, used)) ==> used >= bytes.len() + missing
            },
            Err(kind) => decode(bytes + rest) == Err::<(ValueView, nat), ErrorKind>(kind),
        },
{
    let all = bytes + rest;
    lemma_span_values();
    if bytes.len() >= 1 {
        assert(all[0] == bytes[0]);
        if bytes[0] == 2 || bytes[0] == 3 {
            if bytes.len() >= 5 {
                assert(all.subrange(1, 5) =~= bytes.subrange(1, 5));
                let len = be_value(bytes.subrange(1, 5));
                lemma_be_value_bound(bytes.subrange(1, 5));
                if bytes.len() >= 5 + len {
                    assert(all.subrange(5, 5 + len as int) =~= bytes.subrange(5, 5 + len as int));
                }
            } else if all.len() >= 5 {
                lemma_be_value_bound(all.subrange(1, 5));
            }
        } else {
            match fixed_width(bytes[0]) {
                None => {},
                Some(width) => {
                    if bytes.len() >= 1 + width {
                        assert(all.subrange(1, 1 + width as int) =~= bytes.subrange(
                            1,
                            1 + width as int,
                        ));
                    }
                },
            }
        }
    } else if all.len() >= 1 {
        if all[0] == 2 || all[0] == 3 {
            if all.len() >= 5 {
                lemma_be_value_bound(all.subrange(1, 5));
            }
        }
    }
}

} // verus!
