//! The value codec of the control protocol.
//!
//! Every value begins with a two-byte big-endian type tag. Lengths and
//! counts are four bytes, big-endian.

use vstd::prelude::*;
use vstd::slice::slice_subrange;
use vstd::utf8::*;
use crate::byteio::{
    append_bytes, be_bytes_u16, be_bytes_u32, be_bytes_u64, be_u16, be_u32, be_u64, copy_bytes,
    read_u16_be, read_u32_be, read_u64_be, u16_to_be, u32_to_be, u64_to_be,
};
use crate::vorbis::string_from_utf8;

verus! {

pub const TYPE_ARRAY: u16 = 0x0000;

pub const TYPE_BLOB: u16 = 0x0002;

pub const TYPE_STRUCT: u16 = 0x0005;

pub const TYPE_VOID: u16 = 0x0080;

pub const TYPE_U16: u16 = 0x0081;

pub const TYPE_U32: u16 = 0x0082;

pub const TYPE_U64: u16 = 0x0083;

pub const TYPE_STRING: u16 = 0x0084;

pub const TYPE_RESULT_OK: u16 = 0x0085;

pub const TYPE_RESULT_ERR: u16 = 0x0086;

pub const TYPE_TUPLE: u16 = 0x0087;

/// Why bytes could not be read as a value, or a value not written.
#[derive(Debug, Clone, Copy, PartialEq, Eq, Structural)]
pub enum ProtoError {
    /// The bytes end before the value does.
    Truncated,
    /// The type tag is not the one of the value asked for.
    UnexpectedType,
    /// A tuple has not the number of elements asked for.
    UnexpectedLength,
    /// A string is not UTF-8.
    InvalidString,
    /// The type tag is none of the codec's.
    UnknownType,
    /// A struct lacks a field that it must have.
    MissingField,
    /// A number stands for no value of the type asked for.
    BadValue,
    /// A length does not fit the 32 bits that the codec has for it.
    TooLong,
}

/// A place in a byte buffer to read on from.
pub struct Cursor<'a> {
    buf: &'a [u8],
    pos: usize,
}

impl<'a> Cursor<'a> {
    /// The bytes not read yet.
    pub closed spec fn rest(&self) -> Seq<u8> {
        self.buf@.skip(self.pos as int)
    }

    /// The place lies within the buffer.
    pub closed spec fn wf(&self) -> bool {
        self.pos <= self.buf@.len()
    }

    /// A cursor at the start of `buf`.
    pub fn new(buf: &'a [u8]) -> (cur: Cursor<'a>)
        ensures
            cur.wf(),
            cur.rest() == buf@,
    {
        assert(buf@.skip(0) =~= buf@);
        Cursor { buf, pos: 0 }
    }

    /// How many bytes are not read yet.
    pub fn remaining(&self) -> (n: usize)
        requires
            self.wf(),
        ensures
            n == self.rest().len(),
    {
        self.buf.len() - self.pos
    }

    /// Takes the next `n` bytes.
    pub fn take(&mut self, n: usize) -> (r: Result<&'a [u8], ProtoError>)
        requires
            old(self).wf(),
        ensures
            final(self).wf(),
            match r {
                Ok(bytes) => n <= old(self).rest().len() && bytes@ == old(self).rest().take(
                    n as int,
                ) && final(self).rest() == old(self).rest().skip(n as int),
                Err(e) => e == ProtoError::Truncated && n > old(self).rest().len() && final(self).rest() == old(self).rest(),
            },
    {
        if self.buf.len() - self.pos < n {
            return Err(ProtoError::Truncated);
        }
        let bytes = slice_subrange(self.buf, self.pos, self.pos + n);
        proof {
            assert(bytes@ =~= self.rest().take(n as int));
            assert(self.buf@.skip(self.pos + n) =~= self.rest().skip(n as int));
        }
        self.pos = self.pos + n;
        Ok(bytes)
    }
}

/// A value that can be written to the wire.
pub trait Serialize {
    /// The bytes that stand for the value.
    spec fn wire(&self) -> Seq<u8>;

    /// Every length in the value fits the 32 bits that the codec has for it.
    spec fn writable(&self) -> bool;

    /// Appends the bytes that stand for the value to `buf`.
    fn write(&self, buf: &mut Vec<u8>) -> (r: Result<(), ProtoError>)
        ensures
            match r {
                Ok(_) => self.writable() && final(buf)@ == old(buf)@ + self.wire(),
                Err(e) => !self.writable() && e == ProtoError::TooLong,
            },
    ;
}

/// A value that can be read from the wire.
pub trait Deserialize: Sized {
    /// What a value holds, as plain values.
    type Model;

    /// What this value holds.
    spec fn model(&self) -> Self::Model;

    /// The value that `s` begins with and the number of bytes it takes, or
    /// why `s` begins with none.
    spec fn parse(s: Seq<u8>) -> Result<(Self::Model, nat), ProtoError>;

    /// Reads a value at the cursor and moves the cursor behind it.
    fn read(buf: &mut Cursor) -> (r: Result<Self, ProtoError>)
        requires
            old(buf).wf(),
        ensures
            final(buf).wf(),
            match r {
                Ok(value) => match Self::parse(old(buf).rest()) {
                    Ok((model, n)) => value.model() == model && n <= old(buf).rest().len()
                        && final(buf).rest() == old(buf).rest().skip(n as int),
                    Err(_) => false,
                },
                Err(e) => Self::parse(old(buf).rest()) == Err::<(Self::Model, nat), ProtoError>(e),
            },
    ;
}

/// The type tag at the start of `s`.
pub open spec fn tag_spec(s: Seq<u8>) -> Result<u16, ProtoError> {
    if s.len() < 2 {
        Err(ProtoError::Truncated)
    } else {
        Ok(be_u16(s.take(2)))
    }
}

/// The number in the four bytes of `s` from `at`.
pub open spec fn count_spec(s: Seq<u8>, at: int) -> Result<u32, ProtoError> {
    if s.len() < at + 4 {
        Err(ProtoError::Truncated)
    } else {
        Ok(be_u32(s.subrange(at, at + 4)))
    }
}

/// Reads a type tag.
pub fn read_tag(buf: &mut Cursor) -> (r: Result<u16, ProtoError>)
    requires
        old(buf).wf(),
    ensures
        final(buf).wf(),
        r == tag_spec(old(buf).rest()),
        r is Ok ==> final(buf).rest() == old(buf).rest().skip(2),
{
    let bytes = buf.take(2)?;
    Ok(read_u16_be(bytes))
}

/// Reads a length or a count.
pub fn read_count(buf: &mut Cursor) -> (r: Result<u32, ProtoError>)
    requires
        old(buf).wf(),
    ensures
        final(buf).wf(),
        r == count_spec(old(buf).rest(), 0),
        r is Ok ==> final(buf).rest() == old(buf).rest().skip(4),
{
    let bytes = buf.take(4)?;
    proof {
        assert(old(buf).rest().subrange(0, 4) =~= old(buf).rest().take(4));
    }
    Ok(read_u32_be(bytes))
}

/// Reads a type tag and checks that it is `type_id`.
pub fn expect_type(buf: &mut Cursor, type_id: u16) -> (r: Result<(), ProtoError>)
    requires
        old(buf).wf(),
    ensures
        final(buf).wf(),
        match r {
            Ok(_) => tag_spec(old(buf).rest()) == Ok::<u16, ProtoError>(type_id) && final(buf).rest() == old(buf).rest().skip(2),
            Err(e) => match tag_spec(old(buf).rest()) {
                Ok(tag) => tag != type_id && e == ProtoError::UnexpectedType,
                Err(x) => e == x,
            },
        },
{
    let got = read_tag(buf)?;
    if got != type_id {
        return Err(ProtoError::UnexpectedType);
    }
    Ok(())
}

/// Appends a type tag.
pub fn write_tag(buf: &mut Vec<u8>, type_id: u16)
    ensures
        final(buf)@ == old(buf)@ + be_bytes_u16(type_id),
{
    let tag = u16_to_be(type_id);
    append_bytes(buf, tag.as_slice());
}

/// Appends a length or a count.
pub fn write_count(buf: &mut Vec<u8>, n: u32)
    ensures
        final(buf)@ == old(buf)@ + be_bytes_u32(n),
{
    let bytes = u32_to_be(n);
    append_bytes(buf, bytes.as_slice());
}

/// Reads a type tag, checks that it is `type_id`, and reads the length or
/// count behind it.
pub fn read_header(buf: &mut Cursor, type_id: u16) -> (r: Result<u32, ProtoError>)
    requires
        old(buf).wf(),
    ensures
        final(buf).wf(),
        r == header_spec(old(buf).rest(), type_id),
        r is Ok ==> old(buf).rest().len() >= 6 && final(buf).rest() == old(buf).rest().skip(6),
{
    expect_type(buf, type_id)?;
    let ghost rest = old(buf).rest();
    let n = read_count(buf)?;
    proof {
        assert(rest.skip(2).subrange(0, 4) =~= rest.subrange(2, 6));
        assert(rest.skip(2).skip(4) =~= rest.skip(6));
    }
    Ok(n)
}

/// The length or count behind the type tag `type_id` at the start of `s`.
pub open spec fn header_spec(s: Seq<u8>, type_id: u16) -> Result<u32, ProtoError> {
    match tag_spec(s) {
        Err(e) => Err(e),
        Ok(tag) => if tag != type_id {
            Err(ProtoError::UnexpectedType)
        } else {
            count_spec(s, 2)
        },
    }
}

/// The `n` bytes behind the six bytes of tag and length.
pub open spec fn payload_spec(s: Seq<u8>, n: u32) -> Result<Seq<u8>, ProtoError> {
    if s.len() < 6 + n {
        Err(ProtoError::Truncated)
    } else {
        Ok(s.subrange(6, 6 + n))
    }
}

/// Reads the `n` bytes of a blob or string, behind its tag and length.
fn read_payload<'a>(buf: &mut Cursor<'a>, n: u32, Ghost(whole): Ghost<Seq<u8>>) -> (r: Result<
    &'a [u8],
    ProtoError,
>)
    requires
        old(buf).wf(),
        whole.len() >= 6,
        old(buf).rest() == whole.skip(6),
    ensures
        final(buf).wf(),
        match r {
            Ok(bytes) => payload_spec(whole, n) == Ok::<Seq<u8>, ProtoError>(bytes@) && final(buf).rest() == whole.skip(6 + n),
            Err(e) => payload_spec(whole, n) == Err::<Seq<u8>, ProtoError>(e),
        },
{
    let bytes = buf.take(n as usize)?;
    proof {
        assert(whole.skip(6).take(n as int) =~= whole.subrange(6, 6 + n));
        assert(whole.skip(6).skip(n as int) =~= whole.skip(6 + n));
    }
    Ok(bytes)
}

impl Serialize for () {
    open spec fn wire(&self) -> Seq<u8> {
        be_bytes_u16(TYPE_VOID)
    }

    open spec fn writable(&self) -> bool {
        true
    }

    fn write(&self, buf: &mut Vec<u8>) -> (r: Result<(), ProtoError>) {
        write_tag(buf, TYPE_VOID);
        Ok(())
    }
}

impl Deserialize for () {
    type Model = ();

    open spec fn model(&self) -> () {
        ()
    }

    open spec fn parse(s: Seq<u8>) -> Result<((), nat), ProtoError> {
        match tag_spec(s) {
            Err(e) => Err(e),
            Ok(tag) => if tag != TYPE_VOID {
                Err(ProtoError::UnexpectedType)
            } else {
                Ok(((), 2nat))
            },
        }
    }

    fn read(buf: &mut Cursor) -> (r: Result<Self, ProtoError>) {
        expect_type(buf, TYPE_VOID)?;
        Ok(())
    }
}

impl Serialize for u16 {
    open spec fn wire(&self) -> Seq<u8> {
        be_bytes_u16(TYPE_U16) + be_bytes_u16(*self)
    }

    open spec fn writable(&self) -> bool {
        true
    }

    fn write(&self, buf: &mut Vec<u8>) -> (r: Result<(), ProtoError>) {
        write_tag(buf, TYPE_U16);
        write_tag(buf, *self);
        assert(buf@ =~= old(buf)@ + self.wire());
        Ok(())
    }
}

impl Deserialize for u16 {
    type Model = u16;

    open spec fn model(&self) -> u16 {
        *self
    }

    open spec fn parse(s: Seq<u8>) -> Result<(u16, nat), ProtoError> {
        match tag_spec(s) {
            Err(e) => Err(e),
            Ok(tag) => if tag != TYPE_U16 {
                Err(ProtoError::UnexpectedType)
            } else if s.len() < 4 {
                Err(ProtoError::Truncated)
            } else {
                Ok((be_u16(s.subrange(2, 4)), 4nat))
            },
        }
    }

    fn read(buf: &mut Cursor) -> (r: Result<Self, ProtoError>) {
        expect_type(buf, TYPE_U16)?;
        let ghost rest = old(buf).rest();
        let bytes = buf.take(2)?;
        proof {
            assert(rest.skip(2).take(2) =~= rest.subrange(2, 4));
            assert(rest.skip(2).skip(2) =~= rest.skip(4));
        }
        Ok(read_u16_be(bytes))
    }
}

impl Serialize for u32 {
    open spec fn wire(&self) -> Seq<u8> {
        be_bytes_u16(TYPE_U32) + be_bytes_u32(*self)
    }

    open spec fn writable(&self) -> bool {
        true
    }

    fn write(&self, buf: &mut Vec<u8>) -> (r: Result<(), ProtoError>) {
        write_tag(buf, TYPE_U32);
        write_count(buf, *self);
        assert(buf@ =~= old(buf)@ + self.wire());
        Ok(())
    }
}

impl Deserialize for u32 {
    type Model = u32;

    open spec fn model(&self) -> u32 {
        *self
    }

    open spec fn parse(s: Seq<u8>) -> Result<(u32, nat), ProtoError> {
        match header_spec(s, TYPE_U32) {
            Err(e) => Err(e),
            Ok(n) => Ok((n, 6nat)),
        }
    }

    fn read(buf: &mut Cursor) -> (r: Result<Self, ProtoError>) {
        read_header(buf, TYPE_U32)
    }
}

impl Serialize for u64 {
    open spec fn wire(&self) -> Seq<u8> {
        be_bytes_u16(TYPE_U64) + be_bytes_u64(*self)
    }

    open spec fn writable(&self) -> bool {
        true
    }

    fn write(&self, buf: &mut Vec<u8>) -> (r: Result<(), ProtoError>) {
        write_tag(buf, TYPE_U64);
        let bytes = u64_to_be(*self);
        append_bytes(buf, bytes.as_slice());
        assert(buf@ =~= old(buf)@ + self.wire());
        Ok(())
    }
}

impl Deserialize for u64 {
    type Model = u64;

    open spec fn model(&self) -> u64 {
        *self
    }

    open spec fn parse(s: Seq<u8>) -> Result<(u64, nat), ProtoError> {
        match tag_spec(s) {
            Err(e) => Err(e),
            Ok(tag) => if tag != TYPE_U64 {
                Err(ProtoError::UnexpectedType)
            } else if s.len() < 10 {
                Err(ProtoError::Truncated)
            } else {
                Ok((be_u64(s.subrange(2, 10)), 10nat))
            },
        }
    }

    fn read(buf: &mut Cursor) -> (r: Result<Self, ProtoError>) {
        expect_type(buf, TYPE_U64)?;
        let ghost rest = old(buf).rest();
        let bytes = buf.take(8)?;
        proof {
            assert(rest.skip(2).take(8) =~= rest.subrange(2, 10));
            assert(rest.skip(2).skip(8) =~= rest.skip(10));
        }
        Ok(read_u64_be(bytes))
    }
}

/// The bytes that stand for a blob.
pub open spec fn blob_wire(bytes: Seq<u8>) -> Seq<u8> {
    be_bytes_u16(TYPE_BLOB) + be_bytes_u32(bytes.len() as u32) + bytes
}

/// The bytes that stand for a string.
pub open spec fn string_wire(text: Seq<char>) -> Seq<u8> {
    be_bytes_u16(TYPE_STRING) + be_bytes_u32(encode_utf8(text).len() as u32) + encode_utf8(text)
}

/// The string that `s` begins with and the number of bytes it takes.
#[verifier::opaque]
pub open spec fn string_parse(s: Seq<u8>) -> Result<(Seq<char>, nat), ProtoError> {
    match header_spec(s, TYPE_STRING) {
        Err(e) => Err(e),
        Ok(n) => match payload_spec(s, n) {
            Err(e) => Err(e),
            Ok(bytes) => if !valid_utf8(bytes) {
                Err(ProtoError::InvalidString)
            } else {
                Ok((decode_utf8(bytes), (6 + n) as nat))
            },
        },
    }
}

/// Appends the bytes that stand for a blob.
pub fn write_blob(bytes: &[u8], buf: &mut Vec<u8>) -> (r: Result<(), ProtoError>)
    ensures
        match r {
            Ok(_) => bytes@.len() <= u32::MAX && final(buf)@ == old(buf)@ + blob_wire(bytes@),
            Err(e) => bytes@.len() > u32::MAX && e == ProtoError::TooLong,
        },
{
    if bytes.len() > 0xFFFF_FFFF {
        return Err(ProtoError::TooLong);
    }
    write_tag(buf, TYPE_BLOB);
    write_count(buf, bytes.len() as u32);
    append_bytes(buf, bytes);
    assert(buf@ =~= old(buf)@ + blob_wire(bytes@));
    Ok(())
}

/// Appends the bytes that stand for a string.
pub fn write_str(text: &str, buf: &mut Vec<u8>) -> (r: Result<(), ProtoError>)
    ensures
        match r {
            Ok(_) => encode_utf8(text@).len() <= u32::MAX && final(buf)@ == old(buf)@
                + string_wire(text@),
            Err(e) => encode_utf8(text@).len() > u32::MAX && e == ProtoError::TooLong,
        },
{
    let bytes = text.as_bytes();
    if bytes.len() > 0xFFFF_FFFF {
        return Err(ProtoError::TooLong);
    }
    write_tag(buf, TYPE_STRING);
    write_count(buf, bytes.len() as u32);
    append_bytes(buf, bytes);
    assert(buf@ =~= old(buf)@ + string_wire(text@));
    Ok(())
}

impl Serialize for Vec<u8> {
    open spec fn wire(&self) -> Seq<u8> {
        blob_wire(self@)
    }

    open spec fn writable(&self) -> bool {
        self@.len() <= u32::MAX
    }

    fn write(&self, buf: &mut Vec<u8>) -> (r: Result<(), ProtoError>) {
        write_blob(self.as_slice(), buf)
    }
}

impl Deserialize for Vec<u8> {
    type Model = Seq<u8>;

    open spec fn model(&self) -> Seq<u8> {
        self@
    }

    open spec fn parse(s: Seq<u8>) -> Result<(Seq<u8>, nat), ProtoError> {
        match header_spec(s, TYPE_BLOB) {
            Err(e) => Err(e),
            Ok(n) => match payload_spec(s, n) {
                Err(e) => Err(e),
                Ok(bytes) => Ok((bytes, (6 + n) as nat)),
            },
        }
    }

    fn read(buf: &mut Cursor) -> (r: Result<Self, ProtoError>) {
        let n = read_header(buf, TYPE_BLOB)?;
        let bytes = read_payload(buf, n, Ghost(old(buf).rest()))?;
        Ok(copy_bytes(bytes))
    }
}

impl Serialize for String {
    open spec fn wire(&self) -> Seq<u8> {
        string_wire(self@)
    }

    open spec fn writable(&self) -> bool {
        encode_utf8(self@).len() <= u32::MAX
    }

    fn write(&self, buf: &mut Vec<u8>) -> (r: Result<(), ProtoError>) {
        write_str(self.as_str(), buf)
    }
}

impl Deserialize for String {
    type Model = Seq<char>;

    open spec fn model(&self) -> Seq<char> {
        self@
    }

    open spec fn parse(s: Seq<u8>) -> Result<(Seq<char>, nat), ProtoError> {
        string_parse(s)
    }

    fn read(buf: &mut Cursor) -> (r: Result<Self, ProtoError>) {
        proof {
            reveal(string_parse);
        }
        let n = read_header(buf, TYPE_STRING)?;
        let bytes = read_payload(buf, n, Ghost(old(buf).rest()))?;
        match string_from_utf8(copy_bytes(bytes)) {
            Some(text) => Ok(text),
            None => Err(ProtoError::InvalidString),
        }
    }
}

impl Serialize for (String, String) {
    open spec fn wire(&self) -> Seq<u8> {
        be_bytes_u16(TYPE_TUPLE) + be_bytes_u32(2) + string_wire(self.0@) + string_wire(self.1@)
    }

    open spec fn writable(&self) -> bool {
        encode_utf8(self.0@).len() <= u32::MAX && encode_utf8(self.1@).len() <= u32::MAX
    }

    fn write(&self, buf: &mut Vec<u8>) -> (r: Result<(), ProtoError>) {
        if self.0.as_str().as_bytes().len() > 0xFFFF_FFFF || self.1.as_str().as_bytes().len()
            > 0xFFFF_FFFF {
            return Err(ProtoError::TooLong);
        }
        write_tag(buf, TYPE_TUPLE);
        write_count(buf, 2);
        let _ = write_str(self.0.as_str(), buf);
        let _ = write_str(self.1.as_str(), buf);
        assert(buf@ =~= old(buf)@ + self.wire());
        Ok(())
    }
}

impl Deserialize for (String, String) {
    type Model = (Seq<char>, Seq<char>);

    open spec fn model(&self) -> (Seq<char>, Seq<char>) {
        (self.0@, self.1@)
    }

    open spec fn parse(s: Seq<u8>) -> Result<((Seq<char>, Seq<char>), nat), ProtoError> {
        match header_spec(s, TYPE_TUPLE) {
            Err(e) => Err(e),
            Ok(n) => if n != 2 {
                Err(ProtoError::UnexpectedLength)
            } else {
                match string_parse(s.skip(6)) {
                    Err(e) => Err(e),
                    Ok((left, a)) => if 6 + a > s.len() {
                        Err(ProtoError::Truncated)
                    } else {
                        match string_parse(s.skip((6 + a) as int)) {
                            Err(e) => Err(e),
                            Ok((right, b)) => Ok(((left, right), 6 + a + b)),
                        }
                    },
                }
            },
        }
    }

    fn read(buf: &mut Cursor) -> (r: Result<Self, ProtoError>) {
        let ghost rest = old(buf).rest();
        let n = read_header(buf, TYPE_TUPLE)?;
        if n != 2 {
            return Err(ProtoError::UnexpectedLength);
        }
        let left = String::read(buf)?;
        let ghost a = string_parse(rest.skip(6))->Ok_0.1;
        proof {
            assert(rest.skip(6).skip(a as int) =~= rest.skip((6 + a) as int));
        }
        let right = String::read(buf)?;
        proof {
            let b = string_parse(rest.skip((6 + a) as int))->Ok_0.1;
            assert(rest.skip((6 + a) as int).skip(b as int) =~= rest.skip((6 + a + b) as int));
        }
        Ok((left, right))
    }
}

impl<V: Serialize, E: Serialize> Serialize for Result<V, E> {
    open spec fn wire(&self) -> Seq<u8> {
        match self {
            Ok(value) => be_bytes_u16(TYPE_RESULT_OK) + value.wire(),
            Err(error) => be_bytes_u16(TYPE_RESULT_ERR) + error.wire(),
        }
    }

    open spec fn writable(&self) -> bool {
        match self {
            Ok(value) => value.writable(),
            Err(error) => error.writable(),
        }
    }

    fn write(&self, buf: &mut Vec<u8>) -> (r: Result<(), ProtoError>) {
        let mut out: Vec<u8> = Vec::new();
        match self {
            Ok(value) => {
                write_tag(&mut out, TYPE_RESULT_OK);
                value.write(&mut out)?;
            },
            Err(error) => {
                write_tag(&mut out, TYPE_RESULT_ERR);
                error.write(&mut out)?;
            },
        }
        assert(out@ =~= self.wire());
        append_bytes(buf, out.as_slice());
        Ok(())
    }
}

impl<V: Deserialize, E: Deserialize> Deserialize for Result<V, E> {
    type Model = Result<V::Model, E::Model>;

    open spec fn model(&self) -> Result<V::Model, E::Model> {
        match self {
            Ok(value) => Ok(value.model()),
            Err(error) => Err(error.model()),
        }
    }

    open spec fn parse(s: Seq<u8>) -> Result<(Result<V::Model, E::Model>, nat), ProtoError> {
        match tag_spec(s) {
            Err(e) => Err(e),
            Ok(tag) => if tag == TYPE_RESULT_OK {
                match V::parse(s.skip(2)) {
                    Err(e) => Err(e),
                    Ok((value, n)) => Ok((Ok(value), 2 + n)),
                }
            } else if tag == TYPE_RESULT_ERR {
                match E::parse(s.skip(2)) {
                    Err(e) => Err(e),
                    Ok((error, n)) => Ok((Err(error), 2 + n)),
                }
            } else {
                Err(ProtoError::UnexpectedType)
            },
        }
    }

    fn read(buf: &mut Cursor) -> (r: Result<Self, ProtoError>) {
        let ghost rest = old(buf).rest();
        let tag = read_tag(buf)?;
        if tag == TYPE_RESULT_OK {
            let value = V::read(buf)?;
            proof {
                let n = V::parse(rest.skip(2))->Ok_0.1;
                assert(rest.skip(2).skip(n as int) =~= rest.skip((2 + n) as int));
            }
            Ok(Ok(value))
        } else if tag == TYPE_RESULT_ERR {
            let error = E::read(buf)?;
            proof {
                let n = E::parse(rest.skip(2))->Ok_0.1;
                assert(rest.skip(2).skip(n as int) =~= rest.skip((2 + n) as int));
            }
            Ok(Err(error))
        } else {
            Err(ProtoError::UnexpectedType)
        }
    }
}

/// The bytes that stand for the values of a list, one behind the other.
pub open spec fn items_wire<T: Serialize>(items: Seq<T>) -> Seq<u8>
    decreases items.len(),
{
    if items.len() == 0 {
        Seq::<u8>::empty()
    } else {
        items_wire(items.drop_last()) + items.last().wire()
    }
}

impl<T: Serialize> Serialize for Vec<T> {
    open spec fn wire(&self) -> Seq<u8> {
        be_bytes_u16(TYPE_ARRAY) + be_bytes_u32(self@.len() as u32) + items_wire(self@)
    }

    open spec fn writable(&self) -> bool {
        self@.len() <= u32::MAX && forall|i: int| 0 <= i < self@.len() ==> (
        #[trigger] self@[i]).writable()
    }

    fn write(&self, buf: &mut Vec<u8>) -> (r: Result<(), ProtoError>) {
        if self.len() > 0xFFFF_FFFF {
            return Err(ProtoError::TooLong);
        }
        let mut out: Vec<u8> = Vec::new();
        write_tag(&mut out, TYPE_ARRAY);
        write_count(&mut out, self.len() as u32);
        let ghost head = out@;
        let mut i: usize = 0;
        assert(self@.take(0) =~= Seq::<T>::empty());
        assert(head + items_wire(self@.take(0)) =~= head);
        while i < self.len()
            invariant
                i <= self@.len(),
                out@ == head + items_wire(self@.take(i as int)),
                forall|j: int| 0 <= j < i ==> (#[trigger] self@[j]).writable(),
            decreases self@.len() - i,
        {
            proof {
                assert(self@.take(i + 1).drop_last() =~= self@.take(i as int));
                assert(self@.take(i + 1).last() == self@[i as int]);
            }
            self[i].write(&mut out)?;
            assert(out@ =~= head + items_wire(self@.take(i + 1)));
            i = i + 1;
        }
        assert(self@.take(i as int) =~= self@);
        assert(out@ =~= self.wire());
        append_bytes(buf, out.as_slice());
        Ok(())
    }
}

/// The first `count` values read one behind the other from offset `start`
/// of `s`, and the offset behind the last.
#[verifier::opaque]
pub open spec fn parse_items<T: Deserialize>(s: Seq<u8>, start: nat, count: nat) -> Result<
    (Seq<T::Model>, nat),
    ProtoError,
>
    decreases count,
{
    if count == 0 {
        Ok((Seq::<T::Model>::empty(), start))
    } else {
        match parse_items::<T>(s, start, (count - 1) as nat) {
            Err(e) => Err(e),
            Ok((items, at)) => if at > s.len() {
                Err(ProtoError::Truncated)
            } else {
                match T::parse(s.skip(at as int)) {
                    Err(e) => Err(e),
                    Ok((item, n)) => Ok((items.push(item), at + n)),
                }
            },
        }
    }
}

/// An error among the first values is the error of the whole list.
pub proof fn lemma_items_error<T: Deserialize>(s: Seq<u8>, start: nat, k: nat, count: nat)
    requires
        k <= count,
        parse_items::<T>(s, start, k) is Err,
    ensures
        parse_items::<T>(s, start, count) == parse_items::<T>(s, start, k),
    decreases count,
{
    reveal(parse_items);
    if k < count {
        lemma_items_error::<T>(s, start, k, (count - 1) as nat);
    }
}

/// The models of a list of values.
pub open spec fn items_model<T: Deserialize>(items: Seq<T>) -> Seq<T::Model> {
    Seq::new(items.len(), |i: int| items[i].model())
}

/// Reads `count` values one behind the other.
pub fn read_items<T: Deserialize>(buf: &mut Cursor, count: u32, Ghost(whole): Ghost<Seq<u8>>) -> (r:
    Result<Vec<T>, ProtoError>)
    requires
        old(buf).wf(),
        whole.len() >= 6,
        old(buf).rest() == whole.skip(6),
    ensures
        final(buf).wf(),
        match r {
            Ok(items) => match parse_items::<T>(whole, 6, count as nat) {
                Ok((models, end)) => items_model(items@) == models && end <= whole.len() && final(buf).rest() == whole.skip(end as int),
                Err(_) => false,
            },
            Err(e) => parse_items::<T>(whole, 6, count as nat) == Err::<
                (Seq<T::Model>, nat),
                ProtoError,
            >(e),
        },
{
    let mut out: Vec<T> = Vec::new();
    let mut i: u32 = 0;
    let ghost mut at: nat = 6;
    proof {
        reveal(parse_items);
    }
    assert(items_model(out@) =~= Seq::<T::Model>::empty());
    while i < count
        invariant
            buf.wf(),
            i <= count,
            at <= whole.len(),
            buf.rest() == whole.skip(at as int),
            parse_items::<T>(whole, 6, i as nat) == Ok::<(Seq<T::Model>, nat), ProtoError>(
                (items_model(out@), at),
            ),
        decreases count - i,
    {
        let ghost before = out@;
        proof {
            reveal(parse_items);
        }
        match T::read(buf) {
            Ok(item) => {
                out.push(item);
                proof {
                    let n = T::parse(whole.skip(at as int))->Ok_0.1;
                    assert(whole.skip(at as int).skip(n as int) =~= whole.skip((at + n) as int));
                    assert(items_model(out@) =~= items_model(before).push(item.model()));
                    at = at + n;
                }
            },
            Err(e) => {
                proof {
                    assert(parse_items::<T>(whole, 6, (i + 1) as nat) is Err);
                    lemma_items_error::<T>(whole, 6, (i + 1) as nat, count as nat);
                }
                return Err(e);
            },
        }
        i = i + 1;
    }
    Ok(out)
}

impl<T: Deserialize> Deserialize for Vec<T> {
    type Model = Seq<T::Model>;

    open spec fn model(&self) -> Seq<T::Model> {
        items_model(self@)
    }

    open spec fn parse(s: Seq<u8>) -> Result<(Seq<T::Model>, nat), ProtoError> {
        match header_spec(s, TYPE_ARRAY) {
            Err(e) => Err(e),
            Ok(n) => parse_items::<T>(s, 6, n as nat),
        }
    }

    fn read(buf: &mut Cursor) -> (r: Result<Self, ProtoError>) {
        let count = read_header(buf, TYPE_ARRAY)?;
        read_items::<T>(buf, count, Ghost(old(buf).rest()))
    }
}

/// Reads a value of the type asked for.
pub fn deserialize<T: Deserialize>(buf: &mut Cursor) -> (r: Result<T, ProtoError>)
    requires
        old(buf).wf(),
    ensures
        final(buf).wf(),
        match r {
            Ok(value) => match T::parse(old(buf).rest()) {
                Ok((model, n)) => value.model() == model && n <= old(buf).rest().len() && final(buf).rest() == old(buf).rest().skip(n as int),
                Err(_) => false,
            },
            Err(e) => T::parse(old(buf).rest()) == Err::<(T::Model, nat), ProtoError>(e),
        },
{
    T::read(buf)
}

/// The bytes that stand for a value.
pub fn serialize<T: Serialize>(item: &T) -> (r: Result<Vec<u8>, ProtoError>)
    ensures
        match r {
            Ok(bytes) => item.writable() && bytes@ == item.wire(),
            Err(e) => !item.writable() && e == ProtoError::TooLong,
        },
{
    let mut buf: Vec<u8> = Vec::new();
    item.write(&mut buf)?;
    assert(buf@ =~= item.wire());
    Ok(buf)
}

} // verus!

verus! {

/// The number of bytes that the value at the start of `s` takes, whatever
/// its type.
#[verifier::opaque]
pub open spec fn skip_spec(s: Seq<u8>) -> Result<nat, ProtoError>
    decreases s.len(), 0nat,
{
    match tag_spec(s) {
        Err(e) => Err(e),
        Ok(tag) => if tag == TYPE_ARRAY || tag == TYPE_TUPLE || tag == TYPE_STRUCT {
            match count_spec(s, 2) {
                Err(e) => Err(e),
                Ok(n) => match skip_many(
                    s.skip(6),
                    if tag == TYPE_STRUCT {
                        2 * (n as nat)
                    } else {
                        n as nat
                    },
                ) {
                    Err(e) => Err(e),
                    Ok(k) => Ok(6 + k),
                },
            }
        } else if tag == TYPE_BLOB || tag == TYPE_STRING {
            match count_spec(s, 2) {
                Err(e) => Err(e),
                Ok(n) => match payload_spec(s, n) {
                    Err(e) => Err(e),
                    Ok(_) => Ok((6 + n) as nat),
                },
            }
        } else if tag == TYPE_VOID {
            Ok(2nat)
        } else if tag == TYPE_U16 {
            if s.len() < 4 {
                Err(ProtoError::Truncated)
            } else {
                Ok(4nat)
            }
        } else if tag == TYPE_U32 {
            if s.len() < 6 {
                Err(ProtoError::Truncated)
            } else {
                Ok(6nat)
            }
        } else if tag == TYPE_U64 {
            if s.len() < 10 {
                Err(ProtoError::Truncated)
            } else {
                Ok(10nat)
            }
        } else if tag == TYPE_RESULT_OK || tag == TYPE_RESULT_ERR {
            match skip_spec(s.skip(2)) {
                Err(e) => Err(e),
                Ok(k) => Ok(2 + k),
            }
        } else {
            Err(ProtoError::UnknownType)
        },
    }
}

/// The number of bytes that the first `count` values of `s` take.
#[verifier::opaque]
pub open spec fn skip_many(s: Seq<u8>, count: nat) -> Result<nat, ProtoError>
    decreases s.len(), count + 1,
{
    if count == 0 {
        Ok(0nat)
    } else {
        match skip_spec(s) {
            Err(e) => Err(e),
            Ok(k) => if 0 < k <= s.len() {
                match skip_many(s.skip(k as int), (count - 1) as nat) {
                    Err(e) => Err(e),
                    Ok(m) => Ok(k + m),
                }
            } else {
                Err(ProtoError::Truncated)
            },
        }
    }
}

/// A value takes at least its type tag and at most what is there.
pub proof fn lemma_skip_bounds(s: Seq<u8>)
    ensures
        skip_spec(s) is Ok ==> 2 <= skip_spec(s)->Ok_0 <= s.len(),
    decreases s.len(), 0nat,
{
    reveal(skip_spec);
    reveal(skip_many);
    if skip_spec(s) is Ok {
        let tag = tag_spec(s)->Ok_0;
        if tag == TYPE_ARRAY || tag == TYPE_TUPLE || tag == TYPE_STRUCT {
            let n = count_spec(s, 2)->Ok_0;
            lemma_skip_many_bounds(
                s.skip(6),
                if tag == TYPE_STRUCT {
                    2 * (n as nat)
                } else {
                    n as nat
                },
            );
        } else if tag == TYPE_RESULT_OK || tag == TYPE_RESULT_ERR {
            lemma_skip_bounds(s.skip(2));
        }
    }
}

/// Values take no more than what is there.
pub proof fn lemma_skip_many_bounds(s: Seq<u8>, count: nat)
    ensures
        skip_many(s, count) is Ok ==> skip_many(s, count)->Ok_0 <= s.len(),
    decreases s.len(), count + 1,
{
    reveal(skip_spec);
    reveal(skip_many);
    if count > 0 && skip_many(s, count) is Ok {
        lemma_skip_bounds(s);
        let k = skip_spec(s)->Ok_0;
        lemma_skip_many_bounds(s.skip(k as int), (count - 1) as nat);
    }
}

/// Passes over `len` bytes.
pub fn null_read(buf: &mut Cursor, len: u64) -> (r: Result<(), ProtoError>)
    requires
        old(buf).wf(),
    ensures
        final(buf).wf(),
        match r {
            Ok(_) => len <= old(buf).rest().len() && final(buf).rest() == old(buf).rest().skip(
                len as int,
            ),
            Err(e) => e == ProtoError::Truncated && len > old(buf).rest().len(),
        },
{
    if len > buf.remaining() as u64 {
        return Err(ProtoError::Truncated);
    }
    let _ = buf.take(len as usize)?;
    Ok(())
}

/// Passes over the value at the cursor, whatever its type.
pub fn skip_entity(buf: &mut Cursor) -> (r: Result<(), ProtoError>)
    requires
        old(buf).wf(),
    ensures
        final(buf).wf(),
        match r {
            Ok(_) => match skip_spec(old(buf).rest()) {
                Ok(n) => n <= old(buf).rest().len() && final(buf).rest() == old(buf).rest().skip(
                    n as int,
                ),
                Err(_) => false,
            },
            Err(e) => skip_spec(old(buf).rest()) == Err::<nat, ProtoError>(e),
        },
    decreases old(buf).rest().len(),
{
    let ghost whole = old(buf).rest();
    proof {
        reveal(skip_spec);
        reveal(skip_many);
    }
    let type_id = read_tag(buf)?;
    if type_id == TYPE_ARRAY || type_id == TYPE_TUPLE || type_id == TYPE_STRUCT {
        let length = read_count(buf)?;
        proof {
            assert(whole.skip(2).subrange(0, 4) =~= whole.subrange(2, 6));
            assert(whole.skip(2).skip(4) =~= whole.skip(6));
        }
        let count: u64 = if type_id == TYPE_STRUCT {
            2 * (length as u64)
        } else {
            length as u64
        };
        let ghost body = whole.skip(6);
        let ghost mut done: nat = 0;
        let mut i: u64 = 0;
        proof {
            assert(body.skip(0) =~= body);
        }
        while i < count
            invariant
                buf.wf(),
                i <= count,
                whole.len() >= 6,
                whole == old(buf).rest(),
                tag_spec(whole) == Ok::<u16, ProtoError>(type_id),
                type_id == TYPE_ARRAY || type_id == TYPE_TUPLE || type_id == TYPE_STRUCT,
                count_spec(whole, 2) == Ok::<u32, ProtoError>(length),
                count == if type_id == TYPE_STRUCT {
                    2 * (length as nat)
                } else {
                    length as nat
                },
                body == whole.skip(6),
                done <= body.len(),
                buf.rest() == body.skip(done as int),
                skip_many(body, count as nat) == match skip_many(
                    body.skip(done as int),
                    (count - i) as nat,
                ) {
                    Ok(m) => Ok::<nat, ProtoError>(done + m),
                    Err(e) => Err::<nat, ProtoError>(e),
                },
            decreases count - i,
        {
            proof {
                reveal(skip_spec);
                reveal(skip_many);
                lemma_skip_bounds(body.skip(done as int));
            }
            skip_entity(buf)?;
            proof {
                let k = skip_spec(body.skip(done as int))->Ok_0;
                assert(body.skip(done as int).skip(k as int) =~= body.skip((done + k) as int));
                done = done + k;
            }
            i = i + 1;
        }
        proof {
            assert(body.skip(done as int) =~= whole.skip((6 + done) as int));
        }
        Ok(())
    } else if type_id == TYPE_BLOB || type_id == TYPE_STRING {
        let length = read_count(buf)?;
        proof {
            assert(whole.skip(2).subrange(0, 4) =~= whole.subrange(2, 6));
            assert(whole.skip(2).skip(4) =~= whole.skip(6));
        }
        null_read(buf, length as u64)?;
        proof {
            assert(whole.skip(6).skip(length as int) =~= whole.skip(6 + length));
        }
        Ok(())
    } else if type_id == TYPE_VOID {
        Ok(())
    } else if type_id == TYPE_U16 {
        null_read(buf, 2)?;
        proof {
            assert(whole.skip(2).skip(2) =~= whole.skip(4));
        }
        Ok(())
    } else if type_id == TYPE_U32 {
        null_read(buf, 4)?;
        proof {
            assert(whole.skip(2).skip(4) =~= whole.skip(6));
        }
        Ok(())
    } else if type_id == TYPE_U64 {
        null_read(buf, 8)?;
        proof {
            assert(whole.skip(2).skip(8) =~= whole.skip(10));
        }
        Ok(())
    } else if type_id == TYPE_RESULT_OK || type_id == TYPE_RESULT_ERR {
        skip_entity(buf)?;
        proof {
            let k = skip_spec(whole.skip(2))->Ok_0;
            assert(whole.skip(2).skip(k as int) =~= whole.skip((2 + k) as int));
        }
        Ok(())
    } else {
        Err(ProtoError::UnknownType)
    }
}

/// The number of bytes that a struct field of no interest takes: its name
/// and its value.
pub open spec fn unknown_field(s: Seq<u8>) -> Result<nat, ProtoError> {
    match string_parse(s) {
        Err(e) => Err(e),
        Ok((_, a)) => if a > s.len() {
            Err(ProtoError::Truncated)
        } else {
            match skip_spec(s.skip(a as int)) {
                Err(e) => Err(e),
                Ok(b) => Ok(a + b),
            }
        },
    }
}

/// The offset behind the first `count` struct fields of `s` from `start`.
pub open spec fn unknown_fields(s: Seq<u8>, start: nat, count: nat) -> Result<nat, ProtoError>
    decreases count,
{
    if count == 0 {
        Ok(start)
    } else {
        match unknown_fields(s, start, (count - 1) as nat) {
            Err(e) => Err(e),
            Ok(at) => if at > s.len() {
                Err(ProtoError::Truncated)
            } else {
                match unknown_field(s.skip(at as int)) {
                    Err(e) => Err(e),
                    Ok(n) => Ok(at + n),
                }
            },
        }
    }
}

/// An error among the first fields is the error of all.
pub proof fn lemma_unknown_fields_error(s: Seq<u8>, start: nat, k: nat, count: nat)
    requires
        k <= count,
        unknown_fields(s, start, k) is Err,
    ensures
        unknown_fields(s, start, count) == unknown_fields(s, start, k),
    decreases count,
{
    if k < count {
        lemma_unknown_fields_error(s, start, k, (count - 1) as nat);
    }
}

/// The number of bytes that the struct at the start of `s` takes, if
/// nothing is wanted of its fields.
pub open spec fn empty_struct_spec(s: Seq<u8>) -> Result<nat, ProtoError> {
    match header_spec(s, TYPE_STRUCT) {
        Err(e) => Err(e),
        Ok(n) => unknown_fields(s, 6, n as nat),
    }
}

/// The bytes that stand for a struct without fields.
pub open spec fn empty_struct_wire() -> Seq<u8> {
    be_bytes_u16(TYPE_STRUCT) + be_bytes_u32(0)
}

/// Appends a struct without fields.
pub fn write_empty_struct(buf: &mut Vec<u8>) -> (r: Result<(), ProtoError>)
    ensures
        r is Ok,
        final(buf)@ == old(buf)@ + empty_struct_wire(),
{
    write_tag(buf, TYPE_STRUCT);
    write_count(buf, 0);
    assert(buf@ =~= old(buf)@ + empty_struct_wire());
    Ok(())
}

/// Reads a struct of which no field is wanted: passes over its fields.
pub fn read_empty_struct(buf: &mut Cursor) -> (r: Result<(), ProtoError>)
    requires
        old(buf).wf(),
    ensures
        final(buf).wf(),
        match r {
            Ok(_) => match empty_struct_spec(old(buf).rest()) {
                Ok(n) => n <= old(buf).rest().len() && final(buf).rest() == old(buf).rest().skip(
                    n as int,
                ),
                Err(_) => false,
            },
            Err(e) => empty_struct_spec(old(buf).rest()) == Err::<nat, ProtoError>(e),
        },
{
    let ghost whole = old(buf).rest();
    let field_count = read_header(buf, TYPE_STRUCT)?;
    let ghost mut at: nat = 6;
    let mut i: u32 = 0;
    while i < field_count
        invariant
            buf.wf(),
            i <= field_count,
            whole == old(buf).rest(),
            header_spec(whole, TYPE_STRUCT) == Ok::<u32, ProtoError>(field_count),
            at <= whole.len(),
            buf.rest() == whole.skip(at as int),
            unknown_fields(whole, 6, i as nat) == Ok::<nat, ProtoError>(at),
        decreases field_count - i,
    {
        let ghost field = whole.skip(at as int);
        match String::read(buf) {
            Ok(_) => {},
            Err(e) => {
                proof {
                    assert(unknown_fields(whole, 6, (i + 1) as nat) is Err);
                    lemma_unknown_fields_error(whole, 6, (i + 1) as nat, field_count as nat);
                }
                return Err(e);
            },
        }
        match skip_entity(buf) {
            Ok(_) => {},
            Err(e) => {
                proof {
                    assert(unknown_fields(whole, 6, (i + 1) as nat) is Err);
                    lemma_unknown_fields_error(whole, 6, (i + 1) as nat, field_count as nat);
                }
                return Err(e);
            },
        }
        proof {
            let a = string_parse(field)->Ok_0.1;
            let b = skip_spec(field.skip(a as int))->Ok_0;
            assert(field.skip(a as int).skip(b as int) =~= whole.skip((at + a + b) as int));
            at = at + a + b;
        }
        i = i + 1;
    }
    Ok(())
}

} // verus!

verus! {

/// A value that reads back as it was written.
pub trait RoundTrip: Serialize + Deserialize {
    /// The bytes that stand for a value, with whatever bytes behind them,
    /// read back as that value and as no more than those bytes; and
    /// passing over the value passes over those bytes and no more.
    proof fn lemma_round_trip(&self, rest: Seq<u8>)
        requires
            self.writable(),
        ensures
            Self::parse(self.wire() + rest) == Ok::<(Self::Model, nat), ProtoError>(
                (self.model(), self.wire().len()),
            ),
            skip_spec(self.wire() + rest) == Ok::<nat, ProtoError>(self.wire().len()),
    ;
}

/// A type tag is read back as it was written.
pub proof fn lemma_tag(tag: u16, rest: Seq<u8>)
    ensures
        tag_spec(be_bytes_u16(tag) + rest) == Ok::<u16, ProtoError>(tag),
        (be_bytes_u16(tag) + rest).skip(2) == rest,
        (be_bytes_u16(tag) + rest).len() == 2 + rest.len(),
{
    let s = be_bytes_u16(tag) + rest;
    crate::byteio::lemma_decode_encode_u32(tag, 0);
    assert(s.take(2) =~= be_bytes_u16(tag));
    assert(s.skip(2) =~= rest);
}

/// A type tag and a length or count are read back as they were written.
pub proof fn lemma_header(tag: u16, n: u32, rest: Seq<u8>)
    ensures
        tag_spec(be_bytes_u16(tag) + be_bytes_u32(n) + rest) == Ok::<u16, ProtoError>(tag),
        count_spec(be_bytes_u16(tag) + be_bytes_u32(n) + rest, 2) == Ok::<u32, ProtoError>(n),
        header_spec(be_bytes_u16(tag) + be_bytes_u32(n) + rest, tag) == Ok::<u32, ProtoError>(n),
        (be_bytes_u16(tag) + be_bytes_u32(n) + rest).skip(6) == rest,
        (be_bytes_u16(tag) + be_bytes_u32(n) + rest).len() == 6 + rest.len(),
{
    let s = be_bytes_u16(tag) + be_bytes_u32(n) + rest;
    crate::byteio::lemma_decode_encode_u32(tag, n);
    assert(s.take(2) =~= be_bytes_u16(tag));
    assert(s.subrange(2, 6) =~= be_bytes_u32(n));
    assert(s.skip(6) =~= rest);
}

/// A string reads back as it was written.
pub proof fn lemma_string_round_trip(text: Seq<char>, rest: Seq<u8>)
    requires
        encode_utf8(text).len() <= u32::MAX,
    ensures
        string_parse(string_wire(text) + rest) == Ok::<(Seq<char>, nat), ProtoError>(
            (text, string_wire(text).len()),
        ),
        skip_spec(string_wire(text) + rest) == Ok::<nat, ProtoError>(string_wire(text).len()),
        string_wire(text).len() == 6 + encode_utf8(text).len(),
        (string_wire(text) + rest).skip(string_wire(text).len() as int) == rest,
{
    reveal(string_parse);
    reveal(skip_spec);
    let bytes = encode_utf8(text);
    let n = bytes.len() as u32;
    let s = string_wire(text) + rest;
    assert(s =~= be_bytes_u16(TYPE_STRING) + be_bytes_u32(n) + (bytes + rest));
    lemma_header(TYPE_STRING, n, bytes + rest);
    assert(s.subrange(6, 6 + n) =~= bytes);
    encode_utf8_valid_utf8(text);
    encode_utf8_decode_utf8(text);
    assert(s.skip(string_wire(text).len() as int) =~= rest);
}

/// A blob reads back as it was written.
pub proof fn lemma_blob_round_trip(bytes: Seq<u8>, rest: Seq<u8>)
    requires
        bytes.len() <= u32::MAX,
    ensures
        Vec::<u8>::parse(blob_wire(bytes) + rest) == Ok::<(Seq<u8>, nat), ProtoError>(
            (bytes, blob_wire(bytes).len()),
        ),
        skip_spec(blob_wire(bytes) + rest) == Ok::<nat, ProtoError>(blob_wire(bytes).len()),
        blob_wire(bytes).len() == 6 + bytes.len(),
        (blob_wire(bytes) + rest).skip(blob_wire(bytes).len() as int) == rest,
{
    reveal(skip_spec);
    let n = bytes.len() as u32;
    let s = blob_wire(bytes) + rest;
    assert(s =~= be_bytes_u16(TYPE_BLOB) + be_bytes_u32(n) + (bytes + rest));
    lemma_header(TYPE_BLOB, n, bytes + rest);
    assert(s.subrange(6, 6 + n) =~= bytes);
    assert(s.skip(blob_wire(bytes).len() as int) =~= rest);
}

impl RoundTrip for () {
    proof fn lemma_round_trip(&self, rest: Seq<u8>) {
        reveal(skip_spec);
        lemma_tag(TYPE_VOID, rest);
    }
}

impl RoundTrip for u16 {
    proof fn lemma_round_trip(&self, rest: Seq<u8>) {
        reveal(skip_spec);
        let s = self.wire() + rest;
        assert(s =~= be_bytes_u16(TYPE_U16) + (be_bytes_u16(*self) + rest));
        lemma_tag(TYPE_U16, be_bytes_u16(*self) + rest);
        crate::byteio::lemma_decode_encode_u32(*self, 0);
        assert(s.subrange(2, 4) =~= be_bytes_u16(*self));
    }
}

impl RoundTrip for u32 {
    proof fn lemma_round_trip(&self, rest: Seq<u8>) {
        reveal(skip_spec);
        lemma_header(TYPE_U32, *self, rest);
    }
}

impl RoundTrip for u64 {
    proof fn lemma_round_trip(&self, rest: Seq<u8>) {
        reveal(skip_spec);
        let s = self.wire() + rest;
        assert(s =~= be_bytes_u16(TYPE_U64) + (be_bytes_u64(*self) + rest));
        lemma_tag(TYPE_U64, be_bytes_u64(*self) + rest);
        crate::byteio::lemma_decode_encode_u64(*self);
        assert(s.subrange(2, 10) =~= be_bytes_u64(*self));
    }
}

impl RoundTrip for Vec<u8> {
    proof fn lemma_round_trip(&self, rest: Seq<u8>) {
        lemma_blob_round_trip(self@, rest);
    }
}

impl RoundTrip for String {
    proof fn lemma_round_trip(&self, rest: Seq<u8>) {
        lemma_string_round_trip(self@, rest);
    }
}

impl RoundTrip for (String, String) {
    proof fn lemma_round_trip(&self, rest: Seq<u8>) {
        reveal(skip_spec);
        reveal(skip_many);
        let left = string_wire(self.0@);
        let right = string_wire(self.1@);
        let s = self.wire() + rest;
        assert(s =~= be_bytes_u16(TYPE_TUPLE) + be_bytes_u32(2) + (left + (right + rest)));
        lemma_header(TYPE_TUPLE, 2, left + (right + rest));
        lemma_string_round_trip(self.0@, right + rest);
        lemma_string_round_trip(self.1@, rest);
        assert(s.skip(6) =~= left + (right + rest));
        assert(s.skip((6 + left.len()) as int) =~= right + rest);
        assert((left + (right + rest)).skip(left.len() as int) =~= right + rest);
        assert((right + rest).skip(right.len() as int) =~= rest);
        let body = s.skip(6);
        assert(skip_many(rest, 0) == Ok::<nat, ProtoError>(0nat));
        assert(skip_many(right + rest, 1) == Ok::<nat, ProtoError>(right.len()));
        assert(skip_many(body, 2) == Ok::<nat, ProtoError>(left.len() + right.len()));
    }
}

impl<V: RoundTrip, E: RoundTrip> RoundTrip for Result<V, E> {
    proof fn lemma_round_trip(&self, rest: Seq<u8>) {
        reveal(skip_spec);
        match self {
            Ok(value) => {
                let s = self.wire() + rest;
                assert(s =~= be_bytes_u16(TYPE_RESULT_OK) + (value.wire() + rest));
                lemma_tag(TYPE_RESULT_OK, value.wire() + rest);
                value.lemma_round_trip(rest);
            },
            Err(error) => {
                let s = self.wire() + rest;
                assert(s =~= be_bytes_u16(TYPE_RESULT_ERR) + (error.wire() + rest));
                lemma_tag(TYPE_RESULT_ERR, error.wire() + rest);
                error.lemma_round_trip(rest);
            },
        }
    }
}

/// The bytes of two lists, one behind the other.
pub proof fn lemma_items_wire_concat<T: Serialize>(a: Seq<T>, b: Seq<T>)
    ensures
        items_wire(a + b) == items_wire(a) + items_wire(b),
    decreases b.len(),
{
    if b.len() == 0 {
        assert(a + b =~= a);
        assert(items_wire(a) + items_wire(b) =~= items_wire(a));
    } else {
        lemma_items_wire_concat(a, b.drop_last());
        assert((a + b).drop_last() =~= a + b.drop_last());
        assert((a + b).last() == b.last());
        assert(items_wire(a + b) =~= items_wire(a) + items_wire(b));
    }
}

/// The bytes of a list begin with the bytes of its first value.
pub proof fn lemma_items_wire_first<T: Serialize>(items: Seq<T>)
    requires
        items.len() > 0,
    ensures
        items_wire(items) == items[0].wire() + items_wire(items.drop_first()),
{
    let first = seq![items[0]];
    assert(items =~= first + items.drop_first());
    lemma_items_wire_concat(first, items.drop_first());
    assert(first.drop_last() =~= Seq::<T>::empty());
    assert(first.last() == items[0]);
    assert(items_wire(first.drop_last()) =~= Seq::<u8>::empty());
    assert(items_wire(first) =~= items[0].wire());
}

/// The values of a list read back one behind the other.
pub proof fn lemma_items_round_trip<T: RoundTrip>(
    head: Seq<u8>,
    items: Seq<T>,
    rest: Seq<u8>,
    k: nat,
)
    requires
        head.len() == 6,
        k <= items.len(),
        forall|i: int| 0 <= i < items.len() ==> (#[trigger] items[i]).writable(),
    ensures
        parse_items::<T>(head + items_wire(items) + rest, 6, k) == Ok::<
            (Seq<T::Model>, nat),
            ProtoError,
        >((items_model(items.take(k as int)), 6 + items_wire(items.take(k as int)).len())),
    decreases k,
{
    reveal(parse_items);
    let s = head + items_wire(items) + rest;
    if k == 0 {
        assert(items_model(items.take(0)) =~= Seq::<T::Model>::empty());
        assert(items_wire(items.take(0)) =~= Seq::<u8>::empty());
    } else {
        lemma_items_round_trip::<T>(head, items, rest, (k - 1) as nat);
        let done = items.take(k - 1);
        let at = 6 + items_wire(done).len();
        let item = items[k - 1];
        let tail = items.skip(k as int);
        assert(items =~= done + (seq![item] + tail));
        lemma_items_wire_concat(done, seq![item] + tail);
        lemma_items_wire_first(seq![item] + tail);
        assert((seq![item] + tail).drop_first() =~= tail);
        assert(s.skip(at as int) =~= item.wire() + (items_wire(tail) + rest));
        item.lemma_round_trip(items_wire(tail) + rest);
        assert(items.take(k as int) =~= done.push(item));
        assert(items.take(k as int).drop_last() =~= done);
        assert(items_model(items.take(k as int)) =~= items_model(done).push(item.model()));
    }
}

/// Passing over the values of a list passes over their bytes.
pub proof fn lemma_items_skip<T: RoundTrip>(items: Seq<T>, rest: Seq<u8>)
    requires
        forall|i: int| 0 <= i < items.len() ==> (#[trigger] items[i]).writable(),
    ensures
        skip_many(items_wire(items) + rest, items.len()) == Ok::<nat, ProtoError>(
            items_wire(items).len(),
        ),
    decreases items.len(),
{
    reveal(skip_spec);
    reveal(skip_many);
    if items.len() == 0 {
        assert(items_wire(items) =~= Seq::<u8>::empty());
    } else {
        let tail = items.drop_first();
        lemma_items_wire_first(items);
        assert forall|i: int| 0 <= i < tail.len() implies (#[trigger] tail[i]).writable() by {
            assert(tail[i] == items[i + 1]);
        }
        lemma_items_skip::<T>(tail, rest);
        let s = items_wire(items) + rest;
        assert(s =~= items[0].wire() + (items_wire(tail) + rest));
        items[0].lemma_round_trip(items_wire(tail) + rest);
        lemma_skip_bounds(s);
        assert(s.skip(items[0].wire().len() as int) =~= items_wire(tail) + rest);
        assert(tail.len() == items.len() - 1);
        assert(skip_spec(s) == Ok::<nat, ProtoError>(items[0].wire().len()));

        assert(skip_many(s, items.len()) == Ok::<nat, ProtoError>(
            items[0].wire().len() + items_wire(tail).len(),
        ));
    }
}

impl<T: RoundTrip> RoundTrip for Vec<T> {
    proof fn lemma_round_trip(&self, rest: Seq<u8>) {
        reveal(skip_spec);
        reveal(skip_many);
        let head = be_bytes_u16(TYPE_ARRAY) + be_bytes_u32(self@.len() as u32);
        let s = self.wire() + rest;
        assert(s =~= head + (items_wire(self@) + rest));
        assert(s =~= head + items_wire(self@) + rest);
        lemma_header(TYPE_ARRAY, self@.len() as u32, items_wire(self@) + rest);
        lemma_items_round_trip::<T>(head, self@, rest, self@.len());
        assert(self@.take(self@.len() as int) =~= self@);
        lemma_items_skip::<T>(self@, rest);
        assert(s.skip(6) == items_wire(self@) + rest);
        assert(head.len() == 6);
        assert(self.wire().len() == 6 + items_wire(self@).len());
    }
}

} // verus!
