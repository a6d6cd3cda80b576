//! Named Binary Tag, Java Edition: big-endian, strings in modified UTF-8.
use vstd::prelude::*;
use crate::mutf8::modified_utf8_of;
pub use crate::mutf8::{decode_modified_utf8, modified_utf8};

verus! {

/// Why an NBT document could not be written or read.
#[derive(Debug, Clone, Copy, PartialEq, Eq, Structural)]
pub enum NbtError {
    /// A string whose modified UTF-8 takes more than 65535 bytes.
    StringTooLong,
    /// An array or list with more than `i32::MAX` elements.
    ArrayTooLong,
    /// Bytes that are not modified UTF-8.
    InvalidUtf8,
    /// The input ends inside a tag.
    Truncated,
    /// The root tag is not a compound.
    RootNotCompound,
    /// Compounds and lists nested deeper than the reader follows.
    TooDeep,
    /// An array or list length below zero.
    NegativeLength,
    /// A tag type byte no tag has.
    UnknownTag(u8),
    /// Bytes that are not a gzip stream.
    NotGzip,
}

pub const TAG_END: u8 = 0;
pub const TAG_BYTE: u8 = 1;
pub const TAG_SHORT: u8 = 2;
pub const TAG_INT: u8 = 3;
pub const TAG_LONG: u8 = 4;
pub const TAG_FLOAT: u8 = 5;
pub const TAG_DOUBLE: u8 = 6;
pub const TAG_BYTE_ARRAY: u8 = 7;
pub const TAG_STRING: u8 = 8;
pub const TAG_LIST: u8 = 9;
pub const TAG_COMPOUND: u8 = 10;
pub const TAG_INT_ARRAY: u8 = 11;
pub const TAG_LONG_ARRAY: u8 = 12;

// ── Byte layout ──────────────────────────────────────────────────────────

pub open spec fn be16(v: u16) -> Seq<u8> {
    seq![(v >> 8u16) as u8, (v & 0xffu16) as u8]
}

pub open spec fn be32(v: u32) -> Seq<u8> {
    seq![
        (v >> 24u32) as u8,
        ((v >> 16u32) & 0xffu32) as u8,
        ((v >> 8u32) & 0xffu32) as u8,
        (v & 0xffu32) as u8,
    ]
}

pub open spec fn be64(v: u64) -> Seq<u8> {
    seq![
        (v >> 56u64) as u8,
        ((v >> 48u64) & 0xffu64) as u8,
        ((v >> 40u64) & 0xffu64) as u8,
        ((v >> 32u64) & 0xffu64) as u8,
        ((v >> 24u64) & 0xffu64) as u8,
        ((v >> 16u64) & 0xffu64) as u8,
        ((v >> 8u64) & 0xffu64) as u8,
        (v & 0xffu64) as u8,
    ]
}

/// Every value big-endian, one after another.
pub open spec fn be32_all(v: Seq<i32>) -> Seq<u8>
    decreases v.len(),
{
    if v.len() == 0 {
        seq![]
    } else {
        be32_all(v.drop_last()) + be32(v.last() as u32)
    }
}

pub open spec fn be64_all(v: Seq<u64>) -> Seq<u8>
    decreases v.len(),
{
    if v.len() == 0 {
        seq![]
    } else {
        be64_all(v.drop_last()) + be64(v.last())
    }
}

/// Whether a string's modified UTF-8 fits NBT's 16-bit length prefix.
pub open spec fn string_fits(s: Seq<char>) -> bool {
    modified_utf8_of(s).len() <= 0xffff
}

/// A string payload: u16 byte length, then modified UTF-8.
pub open spec fn nbt_string(s: Seq<char>) -> Seq<u8> {
    be16(modified_utf8_of(s).len() as u16) + modified_utf8_of(s)
}

/// A named tag's header: its type byte, then its name.
pub open spec fn header(tag: u8, name: Seq<char>) -> Seq<u8> {
    seq![tag] + nbt_string(name)
}

/// What writing a named tag leaves after `before`: the header and `payload`
/// when the name fits, else only the type byte and an error.
pub open spec fn named_written(
    before: Seq<u8>,
    after: Seq<u8>,
    res: Result<(), NbtError>,
    tag: u8,
    name: Seq<char>,
    payload: Seq<u8>,
) -> bool {
    &&& (res is Ok <==> string_fits(name))
    &&& res is Ok ==> after == before + header(tag, name) + payload
    &&& res is Err ==> res == Err::<(), NbtError>(NbtError::StringTooLong) && after == before.push(
        tag,
    )
}

/// Short strings always fit the length prefix.
pub proof fn lemma_short_string_fits(s: Seq<char>)
    requires
        s.len() <= 10922,
    ensures
        string_fits(s),
{
    crate::mutf8::lemma_encoded_len(s);
}

// ── Whole tags ───────────────────────────────────────────────────────────

/// The opening of a named compound.
pub open spec fn compound_start(name: Seq<char>) -> Seq<u8> {
    header(TAG_COMPOUND, name)
}

/// The byte closing a compound.
pub open spec fn end_tag() -> Seq<u8> {
    seq![TAG_END]
}

pub open spec fn short_tag(name: Seq<char>, v: i16) -> Seq<u8> {
    header(TAG_SHORT, name) + be16(v as u16)
}

pub open spec fn int_tag(name: Seq<char>, v: i32) -> Seq<u8> {
    header(TAG_INT, name) + be32(v as u32)
}

pub open spec fn long_tag(name: Seq<char>, v: i64) -> Seq<u8> {
    header(TAG_LONG, name) + be64(v as u64)
}

pub open spec fn string_tag(name: Seq<char>, v: Seq<char>) -> Seq<u8> {
    header(TAG_STRING, name) + nbt_string(v)
}

pub open spec fn byte_array_tag(name: Seq<char>, v: Seq<u8>) -> Seq<u8> {
    header(TAG_BYTE_ARRAY, name) + be32(v.len() as u32) + v
}

pub open spec fn int_array_tag(name: Seq<char>, v: Seq<i32>) -> Seq<u8> {
    header(TAG_INT_ARRAY, name) + be32(v.len() as u32) + be32_all(v)
}

pub open spec fn long_array_tag(name: Seq<char>, v: Seq<u64>) -> Seq<u8> {
    header(TAG_LONG_ARRAY, name) + be32(v.len() as u32) + be64_all(v)
}

/// A list's header: its name, element type (`TAG_END` when empty) and length.
pub open spec fn list_start(name: Seq<char>, element: u8, len: nat) -> Seq<u8> {
    header(TAG_LIST, name) + seq![
        if len == 0 {
            TAG_END
        } else {
            element
        },
    ] + be32(len as u32)
}

// ── Writer ───────────────────────────────────────────────────────────────

fn push_be16(out: &mut Vec<u8>, v: u16)
    ensures
        final(out)@ == old(out)@ + be16(v),
{
    out.push((v >> 8) as u8);
    out.push((v & 0xff) as u8);
    assert(final(out)@ == old(out)@ + be16(v));
}

fn push_be32(out: &mut Vec<u8>, v: u32)
    ensures
        final(out)@ == old(out)@ + be32(v),
{
    out.push((v >> 24) as u8);
    out.push(((v >> 16) & 0xff) as u8);
    out.push(((v >> 8) & 0xff) as u8);
    out.push((v & 0xff) as u8);
    assert(final(out)@ == old(out)@ + be32(v));
}

fn push_be64(out: &mut Vec<u8>, v: u64)
    ensures
        final(out)@ == old(out)@ + be64(v),
{
    out.push((v >> 56) as u8);
    out.push(((v >> 48) & 0xff) as u8);
    out.push(((v >> 40) & 0xff) as u8);
    out.push(((v >> 32) & 0xff) as u8);
    out.push(((v >> 24) & 0xff) as u8);
    out.push(((v >> 16) & 0xff) as u8);
    out.push(((v >> 8) & 0xff) as u8);
    out.push((v & 0xff) as u8);
    assert(final(out)@ == old(out)@ + be64(v));
}

/// Append every byte of `bytes`.
pub fn push_all(out: &mut Vec<u8>, bytes: &[u8])
    ensures
        final(out)@ == old(out)@ + bytes@,
{
    let mut i: usize = 0;
    while i < bytes.len()
        invariant
            i <= bytes.len(),
            out@ == old(out)@ + bytes@.take(i as int),
        decreases bytes.len() - i,
    {
        out.push(bytes[i]);
        i += 1;
        assert(bytes@.take(i as int) == bytes@.take(i - 1).push(bytes@[i - 1]));
    }
    assert(bytes@.take(bytes.len() as int) == bytes@);
}

/// Streaming NBT writer into a byte buffer. Compound and list structure is
/// the caller's to balance: every `begin_compound` needs an `end`, and a
/// list's elements must match the type and count its header declared.
pub struct NbtWriter {
    out: Vec<u8>,
}

impl View for NbtWriter {
    type V = Seq<u8>;

    closed spec fn view(&self) -> Seq<u8> {
        self.out@
    }
}

impl NbtWriter {
    /// A writer appending to `out`.
    pub fn new(out: Vec<u8>) -> (res: Self)
        ensures
            res@ == out@,
    {
        NbtWriter { out }
    }

    /// Everything written, after what the buffer held to begin with.
    pub fn into_inner(self) -> (res: Vec<u8>)
        ensures
            res@ == self@,
    {
        self.out
    }

    /// A string payload: u16 byte length, then modified UTF-8. Nothing is
    /// written when it is too long.
    fn raw_string(&mut self, s: &str) -> (res: Result<(), NbtError>)
        ensures
            res is Ok <==> string_fits(s@),
            res is Ok ==> final(self)@ == old(self)@ + nbt_string(s@),
            res is Err ==> res == Err::<(), NbtError>(NbtError::StringTooLong) && final(self)@
                == old(self)@,
    {
        let bytes = modified_utf8(s);
        if bytes.len() > 0xffff {
            return Err(NbtError::StringTooLong);
        }
        push_be16(&mut self.out, bytes.len() as u16);
        push_all(&mut self.out, bytes.as_slice());
        Ok(())
    }

    fn header(&mut self, tag: u8, name: &str) -> (res: Result<(), NbtError>)
        ensures
            named_written(old(self)@, final(self)@, res, tag, name@, seq![]),
    {
        self.out.push(tag);
        let r = self.raw_string(name);
        assert(old(self)@ + header(tag, name@) + seq![] == old(self)@.push(tag) + nbt_string(
            name@,
        ));
        r
    }

    /// A length prefix: the count as a big-endian i32.
    fn len_prefix(&mut self, len: usize) -> (res: Result<(), NbtError>)
        ensures
            res is Ok <==> len <= i32::MAX,
            res is Ok ==> final(self)@ == old(self)@ + be32(len as u32),
            res is Err ==> res == Err::<(), NbtError>(NbtError::ArrayTooLong) && final(self)@
                == old(self)@,
    {
        if len > i32::MAX as usize {
            return Err(NbtError::ArrayTooLong);
        }
        push_be32(&mut self.out, len as u32);
        Ok(())
    }

    /// Open a named compound (the root compound has an empty name).
    pub fn begin_compound(&mut self, name: &str) -> (res: Result<(), NbtError>)
        ensures
            named_written(old(self)@, final(self)@, res, TAG_COMPOUND, name@, seq![]),
    {
        self.header(TAG_COMPOUND, name)
    }

    /// Close the innermost open compound, or one compound element of a list.
    pub fn end(&mut self) -> (res: Result<(), NbtError>)
        ensures
            res is Ok,
            final(self)@ == old(self)@.push(TAG_END),
    {
        self.out.push(TAG_END);
        Ok(())
    }

    pub fn byte(&mut self, name: &str, v: i8) -> (res: Result<(), NbtError>)
        ensures
            named_written(old(self)@, final(self)@, res, TAG_BYTE, name@, seq![v as u8]),
    {
        let r = self.header(TAG_BYTE, name);
        if r.is_err() {
            return r;
        }
        self.out.push(v as u8);
        Ok(())
    }

    pub fn short(&mut self, name: &str, v: i16) -> (res: Result<(), NbtError>)
        ensures
            named_written(old(self)@, final(self)@, res, TAG_SHORT, name@, be16(v as u16)),
    {
        let r = self.header(TAG_SHORT, name);
        if r.is_err() {
            return r;
        }
        push_be16(&mut self.out, v as u16);
        Ok(())
    }

    pub fn int32(&mut self, name: &str, v: i32) -> (res: Result<(), NbtError>)
        ensures
            named_written(old(self)@, final(self)@, res, TAG_INT, name@, be32(v as u32)),
    {
        let r = self.header(TAG_INT, name);
        if r.is_err() {
            return r;
        }
        push_be32(&mut self.out, v as u32);
        Ok(())
    }

    pub fn long(&mut self, name: &str, v: i64) -> (res: Result<(), NbtError>)
        ensures
            named_written(old(self)@, final(self)@, res, TAG_LONG, name@, be64(v as u64)),
    {
        let r = self.header(TAG_LONG, name);
        if r.is_err() {
            return r;
        }
        push_be64(&mut self.out, v as u64);
        Ok(())
    }

    /// A named string. When the name fits but the value does not, the header
    /// stays written and the error is returned.
    pub fn string(&mut self, name: &str, v: &str) -> (res: Result<(), NbtError>)
        ensures
            res is Ok <==> string_fits(name@) && string_fits(v@),
            res is Ok ==> final(self)@ == old(self)@ + header(TAG_STRING, name@) + nbt_string(
                v@,
            ),
            !string_fits(name@) ==> res == Err::<(), NbtError>(NbtError::StringTooLong)
                && final(self)@ == old(self)@.push(TAG_STRING),
            string_fits(name@) && !string_fits(v@) ==> res == Err::<(), NbtError>(
                NbtError::StringTooLong,
            ) && final(self)@ == old(self)@ + header(TAG_STRING, name@),
    {
        let r = self.header(TAG_STRING, name);
        if r.is_err() {
            return r;
        }
        self.raw_string(v)
    }

    pub fn byte_array(&mut self, name: &str, v: &[u8]) -> (res: Result<(), NbtError>)
        ensures
            res is Ok <==> string_fits(name@) && v@.len() <= i32::MAX,
            res is Ok ==> final(self)@ == old(self)@ + header(TAG_BYTE_ARRAY, name@) + be32(
                v@.len() as u32,
            ) + v@,
            !string_fits(name@) ==> res == Err::<(), NbtError>(NbtError::StringTooLong)
                && final(self)@ == old(self)@.push(TAG_BYTE_ARRAY),
            string_fits(name@) && v@.len() > i32::MAX ==> res == Err::<(), NbtError>(
                NbtError::ArrayTooLong,
            ) && final(self)@ == old(self)@ + header(TAG_BYTE_ARRAY, name@),
    {
        let r = self.header(TAG_BYTE_ARRAY, name);
        if r.is_err() {
            return r;
        }
        let r = self.len_prefix(v.len());
        if r.is_err() {
            return r;
        }
        push_all(&mut self.out, v);
        Ok(())
    }

    pub fn int_array(&mut self, name: &str, v: &[i32]) -> (res: Result<(), NbtError>)
        ensures
            res is Ok <==> string_fits(name@) && v@.len() <= i32::MAX,
            res is Ok ==> final(self)@ == old(self)@ + header(TAG_INT_ARRAY, name@) + be32(
                v@.len() as u32,
            ) + be32_all(v@),
            !string_fits(name@) ==> res == Err::<(), NbtError>(NbtError::StringTooLong)
                && final(self)@ == old(self)@.push(TAG_INT_ARRAY),
            string_fits(name@) && v@.len() > i32::MAX ==> res == Err::<(), NbtError>(
                NbtError::ArrayTooLong,
            ) && final(self)@ == old(self)@ + header(TAG_INT_ARRAY, name@),
    {
        let r = self.header(TAG_INT_ARRAY, name);
        if r.is_err() {
            return r;
        }
        let r = self.len_prefix(v.len());
        if r.is_err() {
            return r;
        }
        let ghost start = self.out@;
        let mut i: usize = 0;
        while i < v.len()
            invariant
                i <= v.len(),
                self.out@ == start + be32_all(v@.take(i as int)),
            decreases v.len() - i,
        {
            push_be32(&mut self.out, v[i] as u32);
            i += 1;
            assert(v@.take(i as int).drop_last() == v@.take(i - 1));
        }
        assert(v@.take(v.len() as int) == v@);
        Ok(())
    }

    /// A long array given as raw 64-bit words: bit-packed block states are
    /// built unsigned, and NBT stores the same bits as signed.
    pub fn long_array(&mut self, name: &str, v: &[u64]) -> (res: Result<(), NbtError>)
        ensures
            res is Ok <==> string_fits(name@) && v@.len() <= i32::MAX,
            res is Ok ==> final(self)@ == old(self)@ + header(TAG_LONG_ARRAY, name@) + be32(
                v@.len() as u32,
            ) + be64_all(v@),
            !string_fits(name@) ==> res == Err::<(), NbtError>(NbtError::StringTooLong)
                && final(self)@ == old(self)@.push(TAG_LONG_ARRAY),
            string_fits(name@) && v@.len() > i32::MAX ==> res == Err::<(), NbtError>(
                NbtError::ArrayTooLong,
            ) && final(self)@ == old(self)@ + header(TAG_LONG_ARRAY, name@),
    {
        let r = self.header(TAG_LONG_ARRAY, name);
        if r.is_err() {
            return r;
        }
        let r = self.len_prefix(v.len());
        if r.is_err() {
            return r;
        }
        let ghost start = self.out@;
        let mut i: usize = 0;
        while i < v.len()
            invariant
                i <= v.len(),
                self.out@ == start + be64_all(v@.take(i as int)),
            decreases v.len() - i,
        {
            push_be64(&mut self.out, v[i]);
            i += 1;
            assert(v@.take(i as int).drop_last() == v@.take(i - 1));
        }
        assert(v@.take(v.len() as int) == v@);
        Ok(())
    }

    /// Open a list of `len` elements of type `element`. An empty list
    /// declares `TAG_END` as its element type, as is conventional.
    pub fn begin_list(&mut self, name: &str, element: u8, len: usize) -> (res: Result<
        (),
        NbtError,
    >)
        ensures
            res is Ok <==> string_fits(name@) && len <= i32::MAX,
            res is Ok ==> final(self)@ == old(self)@ + header(TAG_LIST, name@) + seq![
                if len == 0 {
                    TAG_END
                } else {
                    element
                },
            ] + be32(len as u32),
            !string_fits(name@) ==> res == Err::<(), NbtError>(NbtError::StringTooLong)
                && final(self)@ == old(self)@.push(TAG_LIST),
            string_fits(name@) && len > i32::MAX ==> res == Err::<(), NbtError>(
                NbtError::ArrayTooLong,
            ) && final(self)@ == (old(self)@ + header(TAG_LIST, name@)).push(element),
    {
        let r = self.header(TAG_LIST, name);
        if r.is_err() {
            return r;
        }
        let element = if len == 0 {
            TAG_END
        } else {
            element
        };
        self.out.push(element);
        self.len_prefix(len)
    }

    /// One element of a list of ints.
    pub fn list_int(&mut self, v: i32) -> (res: Result<(), NbtError>)
        ensures
            res is Ok,
            final(self)@ == old(self)@ + be32(v as u32),
    {
        push_be32(&mut self.out, v as u32);
        Ok(())
    }

    /// One element of a list of strings.
    pub fn list_string(&mut self, v: &str) -> (res: Result<(), NbtError>)
        ensures
            res is Ok <==> string_fits(v@),
            res is Ok ==> final(self)@ == old(self)@ + nbt_string(v@),
            res is Err ==> res == Err::<(), NbtError>(NbtError::StringTooLong) && final(self)@
                == old(self)@,
    {
        self.raw_string(v)
    }
}

} // verus!
