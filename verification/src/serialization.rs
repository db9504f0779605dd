use crate::error::NetError;
use crate::le::{
    le_bytes, le_value, lemma_le_roundtrip, lemma_le_value_bound, lemma_pow256_values,
    lemma_signed_from_bound, lemma_signed_roundtrip, read_le, signed_from, unsigned_rep, write_le,
};
use crate::stream::{ByteReader, ByteWriter};
use vstd::prelude::*;
use vstd::slice::slice_to_vec;
use vstd::utf8::{decode_utf8, encode_utf8, encode_utf8_decode_utf8, encode_utf8_valid_utf8, valid_utf8};

verus! {

/// The direction of a `serialize` call: take a value's bytes from a reader,
/// or put them into a writer.
pub enum ReadWrite {
    READ { reader: ByteReader },
    WRITE { writer: ByteWriter },
}

/// What a `ReadWrite` holds, as plain sequences.
pub enum StreamView {
    /// All bytes received so far, and how many of them were consumed.
    Reading { data: Seq<u8>, pos: nat },
    /// All bytes written and not yet taken away.
    Writing { written: Seq<u8> },
}

impl StreamView {
    /// A reader has not consumed more bytes than it received.
    pub open spec fn wf(self) -> bool {
        match self {
            StreamView::Reading { data, pos } => pos <= data.len(),
            StreamView::Writing { .. } => true,
        }
    }

    /// The bytes that a read would see next.
    pub open spec fn remaining(self) -> Seq<u8> {
        match self {
            StreamView::Reading { data, pos } => data.skip(pos as int),
            StreamView::Writing { .. } => Seq::empty(),
        }
    }
}

impl View for ReadWrite {
    type V = StreamView;

    open spec fn view(&self) -> StreamView {
        match self {
            ReadWrite::READ { reader } => StreamView::Reading { data: reader.data(), pos: reader.pos() },
            ReadWrite::WRITE { writer } => StreamView::Writing { written: writer.data() },
        }
    }
}

impl ReadWrite {
    /// A reading direction over the given bytes.
    pub fn reading(data: Vec<u8>) -> (r: Self)
        ensures
            r@ == (StreamView::Reading { data: data@, pos: 0 }),
    {
        ReadWrite::READ { reader: ByteReader::new(data) }
    }

    /// A writing direction with nothing written yet.
    pub fn writing() -> (r: Self)
        ensures
            r@ == (StreamView::Writing { written: Seq::empty() }),
    {
        ReadWrite::WRITE { writer: ByteWriter::new() }
    }

    pub fn is_write(&self) -> (b: bool)
        ensures
            b <==> self@ is Writing,
    {
        match self {
            ReadWrite::READ { .. } => false,
            ReadWrite::WRITE { .. } => true,
        }
    }

    /// Hands over the bytes written so far, leaving none behind; a reading
    /// direction has none to hand over.
    pub fn flush(&mut self) -> (r: Vec<u8>)
        ensures
            match old(self)@ {
                StreamView::Writing { written } => {
                    &&& r@ == written
                    &&& final(self)@ == (StreamView::Writing { written: Seq::empty() })
                },
                StreamView::Reading { .. } => r@ == Seq::<u8>::empty() && final(self)@ == old(self)@,
            },
    {
        match self {
            ReadWrite::WRITE { writer } => writer.take_written(),
            ReadWrite::READ { .. } => Vec::new(),
        }
    }

    /// Adds bytes that arrived to a reading direction; a writing direction is left as it is.
    pub fn receive(&mut self, bytes: &[u8])
        requires
            old(self)@.wf(),
        ensures
            final(self)@.wf(),
            match old(self)@ {
                StreamView::Reading { data, pos } => final(self)@ == (StreamView::Reading {
                    data: data + bytes@,
                    pos,
                }),
                StreamView::Writing { .. } => final(self)@ == old(self)@,
            },
    {
        match self {
            ReadWrite::READ { reader } => reader.feed(bytes),
            ReadWrite::WRITE { .. } => {},
        }
    }

    /// Drops the bytes that a reading direction has consumed; the bytes still
    /// to be read stay. A writing direction is left as it is.
    pub fn discard_consumed(&mut self)
        requires
            old(self)@.wf(),
        ensures
            final(self)@.wf(),
            match old(self)@ {
                StreamView::Reading { data, pos } => final(self)@ == (StreamView::Reading {
                    data: data.skip(pos as int),
                    pos: 0,
                }),
                StreamView::Writing { .. } => final(self)@ == old(self)@,
            },
    {
        match self {
            ReadWrite::READ { reader } => reader.discard_consumed(),
            ReadWrite::WRITE { .. } => {},
        }
    }

    pub(crate) fn write_byte(&mut self, b: u8)
        requires
            old(self)@ is Writing,
        ensures
            final(self)@ == (StreamView::Writing { written: old(self)@->written.push(b) }),
    {
        match self {
            ReadWrite::WRITE { writer } => writer.write_byte(b),
            ReadWrite::READ { .. } => {},
        }
    }

    pub(crate) fn read_bytes(&mut self, n: usize) -> (r: Result<Vec<u8>, NetError>)
        requires
            old(self)@ is Reading,
            old(self)@.wf(),
        ensures
            final(self)@.wf(),
            final(self)@ is Reading,
            final(self)@->data == old(self)@->data,
            n <= old(self)@.remaining().len() ==> {
                &&& r matches Ok(b)
                &&& b@ == old(self)@.remaining().take(n as int)
                &&& final(self)@->pos == old(self)@->pos + n
            },
            n > old(self)@.remaining().len() ==> {
                &&& r == Err::<Vec<u8>, NetError>(NetError::UnexpectedEof)
                &&& final(self)@->pos == old(self)@->data.len()
            },
    {
        match self {
            ReadWrite::READ { reader } => {
                let ghost d = reader.data();
                let ghost p = reader.pos();
                let r = reader.read_exact(n);
                proof {
                    if p + n <= d.len() {
                        assert(d.skip(p as int).take(n as int) =~= d.subrange(p as int, p + n));
                    }
                }
                r
            },
            ReadWrite::WRITE { .. } => Err(NetError::UnexpectedEof),
        }
    }

    /// How many bytes a reading direction has consumed.
    pub fn position(&self) -> (p: usize)
        ensures
            self@ is Reading ==> p == self@->pos,
    {
        match self {
            ReadWrite::READ { reader } => reader.position(),
            ReadWrite::WRITE { .. } => 0,
        }
    }

    /// Steps a reading direction back to an earlier position, so that the
    /// bytes after it are read again.
    pub fn rewind(&mut self, p: usize)
        requires
            old(self)@ is Reading,
            old(self)@.wf(),
            p <= old(self)@->pos,
        ensures
            final(self)@ == (StreamView::Reading { data: old(self)@->data, pos: p as nat }),
    {
        match self {
            ReadWrite::READ { reader } => reader.rewind(p),
            ReadWrite::WRITE { .. } => {},
        }
    }
}

/// What reading a value from a byte sequence gives.
pub enum ParseResult<V> {
    /// The value, and how many bytes it took.
    Parsed(V, nat),
    /// The bytes end before the value does.
    Incomplete,
    /// The bytes do not form a value; the reading stops after the given
    /// number of bytes.
    Invalid(nat),
}

/// What one `serialize` call does, given the value's bytes, what reading the
/// remaining bytes gives and what a failed read leaves in the value. In a
/// writing direction it appends the value's bytes and leaves the value as it
/// was. In a reading direction it consumes the bytes of one value and takes
/// that value; where the bytes end too early it consumes all of them and
/// fails with `UnexpectedEof`; where they do not form a value it consumes
/// them up to where the reading stops and fails with `InvalidData`. Gives
/// the new value, the new direction and the result.
pub open spec fn serialize_step<V>(
    encoded: Seq<u8>,
    parsed: ParseResult<V>,
    value: V,
    failed: V,
    dir: StreamView,
) -> (V, StreamView, Result<(), NetError>) {
    match dir {
        StreamView::Writing { written } => (
            value,
            StreamView::Writing { written: written + encoded },
            Ok(()),
        ),
        StreamView::Reading { data, pos } => match parsed {
            ParseResult::Parsed(v, n) => (v, StreamView::Reading { data, pos: pos + n }, Ok(())),
            ParseResult::Incomplete => (
                failed,
                StreamView::Reading { data, pos: data.len() },
                Err(NetError::UnexpectedEof),
            ),
            ParseResult::Invalid(n) => (
                failed,
                StreamView::Reading { data, pos: pos + n },
                Err(NetError::InvalidData),
            ),
        },
    }
}

/// What `serialize` does, where what a failed read leaves in the value is
/// not given by the value itself: `serialize_step` with the value that is
/// there afterwards, and `failure_holds` of that value where the read fails.
pub open spec fn serialize_post<V>(
    encoded: Seq<u8>,
    parsed: ParseResult<V>,
    failure_holds: bool,
    old_value: V,
    new_value: V,
    old_dir: StreamView,
    new_dir: StreamView,
    r: Result<(), NetError>,
) -> bool {
    &&& new_dir.wf()
    &&& (new_value, new_dir, r) == serialize_step(encoded, parsed, old_value, new_value, old_dir)
    &&& (old_dir is Reading && !(parsed is Parsed) ==> failure_holds)
}

/// What `serialize` does to a value of type `T` whose view is `v`, where a
/// failed read leaves `failed` in it.
pub open spec fn transfer<T: Serializable>(
    v: <T as DeepView>::V,
    failed: <T as DeepView>::V,
    dir: StreamView,
) -> (<T as DeepView>::V, StreamView, Result<(), NetError>) {
    serialize_step(T::spec_encode(v), T::spec_parse(dir.remaining()), v, failed, dir)
}

/// A value that can be written as bytes and read back from them.
///
/// Integers are intentionally not serializable when their width depends on
/// the platform (`isize`, `usize`). Slices are written and read with
/// `serialize_slice`: what reading into a slice gives depends on the slice's
/// length as well as on the bytes, while this trait states what a read gives
/// from the bytes alone.
pub trait Serializable: DeepView + Sized {
    /// The bytes that writing a value with this view appends.
    spec fn spec_encode(v: <Self as DeepView>::V) -> Seq<u8>;

    /// What reading a value from `bytes` gives.
    spec fn spec_parse(bytes: Seq<u8>) -> ParseResult<<Self as DeepView>::V>;

    /// The values whose bytes read back as the same value.
    spec fn spec_encodable(v: <Self as DeepView>::V) -> bool;

    /// Whether a read from `bytes` that fails can leave `new` in a value
    /// that held `old`.
    spec fn spec_read_failure(
        old: <Self as DeepView>::V,
        new: <Self as DeepView>::V,
        bytes: Seq<u8>,
    ) -> bool;

    /// Reading back what was written gives the value written, whatever follows it.
    proof fn lemma_parse_encode(v: <Self as DeepView>::V, rest: Seq<u8>)
        requires
            Self::spec_encodable(v),
        ensures
            Self::spec_parse(Self::spec_encode(v) + rest) == ParseResult::Parsed(
                v,
                Self::spec_encode(v).len(),
            ),
    ;

    /// Writes this value to, or reads it from, `direction`.
    fn serialize(&mut self, direction: &mut ReadWrite) -> (r: Result<(), NetError>)
        requires
            old(direction)@.wf(),
        ensures
            serialize_post(
                Self::spec_encode(old(self).deep_view()),
                Self::spec_parse(old(direction)@.remaining()),
                Self::spec_read_failure(
                    old(self).deep_view(),
                    final(self).deep_view(),
                    old(direction)@.remaining(),
                ),
                old(self).deep_view(),
                final(self).deep_view(),
                old(direction)@,
                final(direction)@,
                r,
            ),
    ;
}

impl Serializable for u8 {
    open spec fn spec_encode(v: u8) -> Seq<u8> {
        seq![v]
    }

    open spec fn spec_parse(bytes: Seq<u8>) -> ParseResult<u8> {
        if bytes.len() < 1 {
            ParseResult::Incomplete
        } else {
            ParseResult::Parsed(bytes[0], 1)
        }
    }

    open spec fn spec_encodable(v: u8) -> bool {
        true
    }

    open spec fn spec_read_failure(old: u8, new: u8, bytes: Seq<u8>) -> bool {
        new == old
    }

    proof fn lemma_parse_encode(v: u8, rest: Seq<u8>) {
    }

    fn serialize(&mut self, direction: &mut ReadWrite) -> (r: Result<(), NetError>) {
        if direction.is_write() {
            let ghost before = direction@->written;
            direction.write_byte(*self);
            assert(before.push(*self) =~= before + Self::spec_encode(*self));
            Ok(())
        } else {
            match direction.read_bytes(1) {
                Ok(buf) => {
                    *self = buf[0];
                    Ok(())
                },
                Err(e) => Err(e),
            }
        }
    }
}

impl Serializable for bool {
    open spec fn spec_encode(v: bool) -> Seq<u8> {
        seq![if v { 1u8 } else { 0u8 }]
    }

    open spec fn spec_parse(bytes: Seq<u8>) -> ParseResult<bool> {
        match u8::spec_parse(bytes) {
            ParseResult::Parsed(b, n) => ParseResult::Parsed(b != 0, n),
            ParseResult::Incomplete => ParseResult::Incomplete,
            ParseResult::Invalid(n) => ParseResult::Invalid(n),
        }
    }

    open spec fn spec_encodable(v: bool) -> bool {
        true
    }

    open spec fn spec_read_failure(old: bool, new: bool, bytes: Seq<u8>) -> bool {
        new == old
    }

    proof fn lemma_parse_encode(v: bool, rest: Seq<u8>) {
    }

    fn serialize(&mut self, direction: &mut ReadWrite) -> (r: Result<(), NetError>) {
        let mut tmp: u8 = 0;
        let write = direction.is_write();
        if write {
            tmp = if *self { 1 } else { 0 };
        }
        match tmp.serialize(direction) {
            Ok(()) => {},
            Err(e) => return Err(e),
        }
        if !write {
            *self = tmp != 0;
        }
        Ok(())
    }
}

impl Serializable for u16 {
    open spec fn spec_encode(v: u16) -> Seq<u8> {
        le_bytes(v as nat, 2)
    }

    open spec fn spec_parse(bytes: Seq<u8>) -> ParseResult<u16> {
        if bytes.len() < 2 {
            ParseResult::Incomplete
        } else {
            ParseResult::Parsed(le_value(bytes.take(2)) as u16, 2)
        }
    }

    open spec fn spec_encodable(v: u16) -> bool {
        true
    }

    open spec fn spec_read_failure(old: u16, new: u16, bytes: Seq<u8>) -> bool {
        new == old
    }

    proof fn lemma_parse_encode(v: u16, rest: Seq<u8>) {
        lemma_pow256_values();
        lemma_le_roundtrip(v as nat, 2);
        assert((le_bytes(v as nat, 2) + rest).take(2) =~= le_bytes(v as nat, 2));
    }

    fn serialize(&mut self, direction: &mut ReadWrite) -> (r: Result<(), NetError>) {
        proof {
            lemma_pow256_values();
        }
        if direction.is_write() {
            write_le(direction, *self as u128, 2);
            Ok(())
        } else {
            match read_le(direction, 2) {
                Ok(u) => {
                    proof {
                        lemma_le_value_bound(old(direction)@.remaining().take(2));
                    }
                    *self = u as u16;
                    Ok(())
                },
                Err(e) => Err(e),
            }
        }
    }
}

impl Serializable for u32 {
    open spec fn spec_encode(v: u32) -> Seq<u8> {
        le_bytes(v as nat, 4)
    }

    open spec fn spec_parse(bytes: Seq<u8>) -> ParseResult<u32> {
        if bytes.len() < 4 {
            ParseResult::Incomplete
        } else {
            ParseResult::Parsed(le_value(bytes.take(4)) as u32, 4)
        }
    }

    open spec fn spec_encodable(v: u32) -> bool {
        true
    }

    open spec fn spec_read_failure(old: u32, new: u32, bytes: Seq<u8>) -> bool {
        new == old
    }

    proof fn lemma_parse_encode(v: u32, rest: Seq<u8>) {
        lemma_pow256_values();
        lemma_le_roundtrip(v as nat, 4);
        assert((le_bytes(v as nat, 4) + rest).take(4) =~= le_bytes(v as nat, 4));
    }

    fn serialize(&mut self, direction: &mut ReadWrite) -> (r: Result<(), NetError>) {
        proof {
            lemma_pow256_values();
        }
        if direction.is_write() {
            write_le(direction, *self as u128, 4);
            Ok(())
        } else {
            match read_le(direction, 4) {
                Ok(u) => {
                    proof {
                        lemma_le_value_bound(old(direction)@.remaining().take(4));
                    }
                    *self = u as u32;
                    Ok(())
                },
                Err(e) => Err(e),
            }
        }
    }
}

impl Serializable for u64 {
    open spec fn spec_encode(v: u64) -> Seq<u8> {
        le_bytes(v as nat, 8)
    }

    open spec fn spec_parse(bytes: Seq<u8>) -> ParseResult<u64> {
        if bytes.len() < 8 {
            ParseResult::Incomplete
        } else {
            ParseResult::Parsed(le_value(bytes.take(8)) as u64, 8)
        }
    }

    open spec fn spec_encodable(v: u64) -> bool {
        true
    }

    open spec fn spec_read_failure(old: u64, new: u64, bytes: Seq<u8>) -> bool {
        new == old
    }

    proof fn lemma_parse_encode(v: u64, rest: Seq<u8>) {
        lemma_pow256_values();
        lemma_le_roundtrip(v as nat, 8);
        assert((le_bytes(v as nat, 8) + rest).take(8) =~= le_bytes(v as nat, 8));
    }

    fn serialize(&mut self, direction: &mut ReadWrite) -> (r: Result<(), NetError>) {
        proof {
            lemma_pow256_values();
        }
        if direction.is_write() {
            write_le(direction, *self as u128, 8);
            Ok(())
        } else {
            match read_le(direction, 8) {
                Ok(u) => {
                    proof {
                        lemma_le_value_bound(old(direction)@.remaining().take(8));
                    }
                    *self = u as u64;
                    Ok(())
                },
                Err(e) => Err(e),
            }
        }
    }
}

impl Serializable for u128 {
    open spec fn spec_encode(v: u128) -> Seq<u8> {
        le_bytes(v as nat, 16)
    }

    open spec fn spec_parse(bytes: Seq<u8>) -> ParseResult<u128> {
        if bytes.len() < 16 {
            ParseResult::Incomplete
        } else {
            ParseResult::Parsed(le_value(bytes.take(16)) as u128, 16)
        }
    }

    open spec fn spec_encodable(v: u128) -> bool {
        true
    }

    open spec fn spec_read_failure(old: u128, new: u128, bytes: Seq<u8>) -> bool {
        new == old
    }

    proof fn lemma_parse_encode(v: u128, rest: Seq<u8>) {
        lemma_pow256_values();
        lemma_le_roundtrip(v as nat, 16);
        assert((le_bytes(v as nat, 16) + rest).take(16) =~= le_bytes(v as nat, 16));
    }

    fn serialize(&mut self, direction: &mut ReadWrite) -> (r: Result<(), NetError>) {
        proof {
            lemma_pow256_values();
        }
        if direction.is_write() {
            write_le(direction, *self, 16);
            Ok(())
        } else {
            match read_le(direction, 16) {
                Ok(u) => {
                    proof {
                        lemma_le_value_bound(old(direction)@.remaining().take(16));
                    }
                    *self = u;
                    Ok(())
                },
                Err(e) => Err(e),
            }
        }
    }
}

impl Serializable for i8 {
    open spec fn spec_encode(v: i8) -> Seq<u8> {
        le_bytes(unsigned_rep(v as int, 1), 1)
    }

    open spec fn spec_parse(bytes: Seq<u8>) -> ParseResult<i8> {
        if bytes.len() < 1 {
            ParseResult::Incomplete
        } else {
            ParseResult::Parsed(signed_from(le_value(bytes.take(1)), 1) as i8, 1)
        }
    }

    open spec fn spec_encodable(v: i8) -> bool {
        true
    }

    open spec fn spec_read_failure(old: i8, new: i8, bytes: Seq<u8>) -> bool {
        new == old
    }

    proof fn lemma_parse_encode(v: i8, rest: Seq<u8>) {
        lemma_pow256_values();
        lemma_signed_roundtrip(v as int, 1);
        lemma_le_roundtrip(unsigned_rep(v as int, 1), 1);
        assert((Self::spec_encode(v) + rest).take(1) =~= Self::spec_encode(v));
    }

    fn serialize(&mut self, direction: &mut ReadWrite) -> (r: Result<(), NetError>) {
        proof {
            lemma_pow256_values();
        }
        if direction.is_write() {
            proof {
                lemma_signed_roundtrip(*self as int, 1);
            }
            let rep: u128 = if *self >= 0 {
                *self as u128
            } else {
                (*self as i128 + 0x100) as u128
            };
            write_le(direction, rep, 1);
            Ok(())
        } else {
            match read_le(direction, 1) {
                Ok(u) => {
                    proof {
                        lemma_le_value_bound(old(direction)@.remaining().take(1));
                        lemma_signed_from_bound(u as nat, 1);
                    }
                    let v: i128 = if u >= 0x80 {
                        u as i128 - 0x100
                    } else {
                        u as i128
                    };
                    *self = v as i8;
                    Ok(())
                },
                Err(e) => Err(e),
            }
        }
    }
}

impl Serializable for i16 {
    open spec fn spec_encode(v: i16) -> Seq<u8> {
        le_bytes(unsigned_rep(v as int, 2), 2)
    }

    open spec fn spec_parse(bytes: Seq<u8>) -> ParseResult<i16> {
        if bytes.len() < 2 {
            ParseResult::Incomplete
        } else {
            ParseResult::Parsed(signed_from(le_value(bytes.take(2)), 2) as i16, 2)
        }
    }

    open spec fn spec_encodable(v: i16) -> bool {
        true
    }

    open spec fn spec_read_failure(old: i16, new: i16, bytes: Seq<u8>) -> bool {
        new == old
    }

    proof fn lemma_parse_encode(v: i16, rest: Seq<u8>) {
        lemma_pow256_values();
        lemma_signed_roundtrip(v as int, 2);
        lemma_le_roundtrip(unsigned_rep(v as int, 2), 2);
        assert((Self::spec_encode(v) + rest).take(2) =~= Self::spec_encode(v));
    }

    fn serialize(&mut self, direction: &mut ReadWrite) -> (r: Result<(), NetError>) {
        proof {
            lemma_pow256_values();
        }
        if direction.is_write() {
            proof {
                lemma_signed_roundtrip(*self as int, 2);
            }
            let rep: u128 = if *self >= 0 {
                *self as u128
            } else {
                (*self as i128 + 0x1_0000) as u128
            };
            write_le(direction, rep, 2);
            Ok(())
        } else {
            match read_le(direction, 2) {
                Ok(u) => {
                    proof {
                        lemma_le_value_bound(old(direction)@.remaining().take(2));
                        lemma_signed_from_bound(u as nat, 2);
                    }
                    let v: i128 = if u >= 0x8000 {
                        u as i128 - 0x1_0000
                    } else {
                        u as i128
                    };
                    *self = v as i16;
                    Ok(())
                },
                Err(e) => Err(e),
            }
        }
    }
}

impl Serializable for i32 {
    open spec fn spec_encode(v: i32) -> Seq<u8> {
        le_bytes(unsigned_rep(v as int, 4), 4)
    }

    open spec fn spec_parse(bytes: Seq<u8>) -> ParseResult<i32> {
        if bytes.len() < 4 {
            ParseResult::Incomplete
        } else {
            ParseResult::Parsed(signed_from(le_value(bytes.take(4)), 4) as i32, 4)
        }
    }

    open spec fn spec_encodable(v: i32) -> bool {
        true
    }

    open spec fn spec_read_failure(old: i32, new: i32, bytes: Seq<u8>) -> bool {
        new == old
    }

    proof fn lemma_parse_encode(v: i32, rest: Seq<u8>) {
        lemma_pow256_values();
        lemma_signed_roundtrip(v as int, 4);
        lemma_le_roundtrip(unsigned_rep(v as int, 4), 4);
        assert((Self::spec_encode(v) + rest).take(4) =~= Self::spec_encode(v));
    }

    fn serialize(&mut self, direction: &mut ReadWrite) -> (r: Result<(), NetError>) {
        proof {
            lemma_pow256_values();
        }
        if direction.is_write() {
            proof {
                lemma_signed_roundtrip(*self as int, 4);
            }
            let rep: u128 = if *self >= 0 {
                *self as u128
            } else {
                (*self as i128 + 0x1_0000_0000) as u128
            };
            write_le(direction, rep, 4);
            Ok(())
        } else {
            match read_le(direction, 4) {
                Ok(u) => {
                    proof {
                        lemma_le_value_bound(old(direction)@.remaining().take(4));
                        lemma_signed_from_bound(u as nat, 4);
                    }
                    let v: i128 = if u >= 0x8000_0000 {
                        u as i128 - 0x1_0000_0000
                    } else {
                        u as i128
                    };
                    *self = v as i32;
                    Ok(())
                },
                Err(e) => Err(e),
            }
        }
    }
}

impl Serializable for i64 {
    open spec fn spec_encode(v: i64) -> Seq<u8> {
        le_bytes(unsigned_rep(v as int, 8), 8)
    }

    open spec fn spec_parse(bytes: Seq<u8>) -> ParseResult<i64> {
        if bytes.len() < 8 {
            ParseResult::Incomplete
        } else {
            ParseResult::Parsed(signed_from(le_value(bytes.take(8)), 8) as i64, 8)
        }
    }

    open spec fn spec_encodable(v: i64) -> bool {
        true
    }

    open spec fn spec_read_failure(old: i64, new: i64, bytes: Seq<u8>) -> bool {
        new == old
    }

    proof fn lemma_parse_encode(v: i64, rest: Seq<u8>) {
        lemma_pow256_values();
        lemma_signed_roundtrip(v as int, 8);
        lemma_le_roundtrip(unsigned_rep(v as int, 8), 8);
        assert((Self::spec_encode(v) + rest).take(8) =~= Self::spec_encode(v));
    }

    fn serialize(&mut self, direction: &mut ReadWrite) -> (r: Result<(), NetError>) {
        proof {
            lemma_pow256_values();
        }
        if direction.is_write() {
            proof {
                lemma_signed_roundtrip(*self as int, 8);
            }
            let rep: u128 = if *self >= 0 {
                *self as u128
            } else {
                (*self as i128 + 0x1_0000_0000_0000_0000) as u128
            };
            write_le(direction, rep, 8);
            Ok(())
        } else {
            match read_le(direction, 8) {
                Ok(u) => {
                    proof {
                        lemma_le_value_bound(old(direction)@.remaining().take(8));
                        lemma_signed_from_bound(u as nat, 8);
                    }
                    let v: i128 = if u >= 0x8000_0000_0000_0000 {
                        u as i128 - 0x1_0000_0000_0000_0000
                    } else {
                        u as i128
                    };
                    *self = v as i64;
                    Ok(())
                },
                Err(e) => Err(e),
            }
        }
    }
}

impl Serializable for i128 {
    open spec fn spec_encode(v: i128) -> Seq<u8> {
        le_bytes(unsigned_rep(v as int, 16), 16)
    }

    open spec fn spec_parse(bytes: Seq<u8>) -> ParseResult<i128> {
        if bytes.len() < 16 {
            ParseResult::Incomplete
        } else {
            ParseResult::Parsed(signed_from(le_value(bytes.take(16)), 16) as i128, 16)
        }
    }

    open spec fn spec_encodable(v: i128) -> bool {
        true
    }

    open spec fn spec_read_failure(old: i128, new: i128, bytes: Seq<u8>) -> bool {
        new == old
    }

    proof fn lemma_parse_encode(v: i128, rest: Seq<u8>) {
        lemma_pow256_values();
        lemma_signed_roundtrip(v as int, 16);
        lemma_le_roundtrip(unsigned_rep(v as int, 16), 16);
        assert((Self::spec_encode(v) + rest).take(16) =~= Self::spec_encode(v));
    }

    fn serialize(&mut self, direction: &mut ReadWrite) -> (r: Result<(), NetError>) {
        proof {
            lemma_pow256_values();
        }
        if direction.is_write() {
            proof {
                lemma_signed_roundtrip(*self as int, 16);
            }
            let rep: u128 = if *self >= 0 {
                *self as u128
            } else {
                ((*self + i128::MAX) + 1) as u128 + 0x8000_0000_0000_0000_0000_0000_0000_0000
            };
            write_le(direction, rep, 16);
            Ok(())
        } else {
            match read_le(direction, 16) {
                Ok(u) => {
                    proof {
                        lemma_le_value_bound(old(direction)@.remaining().take(16));
                        lemma_signed_from_bound(u as nat, 16);
                    }
                    let v: i128 = if u >= 0x8000_0000_0000_0000_0000_0000_0000_0000 {
                        (u - 0x8000_0000_0000_0000_0000_0000_0000_0000) as i128 - i128::MAX - 1
                    } else {
                        u as i128
                    };
                    *self = v;
                    Ok(())
                },
                Err(e) => Err(e),
            }
        }
    }
}

/// The bytes of the values `vs`, one after the other.
pub open spec fn encode_all<T: Serializable>(vs: Seq<<T as DeepView>::V>) -> Seq<u8>
    decreases vs.len(),
{
    if vs.len() == 0 {
        Seq::empty()
    } else {
        encode_all::<T>(vs.drop_last()) + T::spec_encode(vs.last())
    }
}

/// Reading `n` values one after the other from `bytes`; a failure stops the
/// reading (an invalid value after all the bytes read up to its end).
pub open spec fn parse_all<T: Serializable>(bytes: Seq<u8>, n: nat) -> ParseResult<
    Seq<<T as DeepView>::V>,
>
    decreases n,
{
    if n == 0 {
        ParseResult::Parsed(Seq::empty(), 0)
    } else {
        match parse_all::<T>(bytes, (n - 1) as nat) {
            ParseResult::Parsed(vs, m) => match T::spec_parse(bytes.skip(m as int)) {
                ParseResult::Parsed(v, k) => ParseResult::Parsed(vs.push(v), m + k),
                ParseResult::Incomplete => ParseResult::Incomplete,
                ParseResult::Invalid(k) => ParseResult::Invalid(m + k),
            },
            ParseResult::Incomplete => ParseResult::Incomplete,
            ParseResult::Invalid(k) => ParseResult::Invalid(k),
        }
    }
}

/// Where reading `n` values from `bytes` fails: the position of the value
/// whose reading fails.
pub open spec fn failed_index<T: Serializable>(bytes: Seq<u8>, n: nat) -> nat
    decreases n,
{
    if n == 0 {
        0
    } else if parse_all::<T>(bytes, (n - 1) as nat) is Parsed {
        (n - 1) as nat
    } else {
        failed_index::<T>(bytes, (n - 1) as nat)
    }
}

/// Reading back values written one after the other gives them all.
pub proof fn lemma_parse_all_encode_all<T: Serializable>(
    vs: Seq<<T as DeepView>::V>,
    rest: Seq<u8>,
)
    requires
        forall|i: int| 0 <= i < vs.len() ==> T::spec_encodable(#[trigger] vs[i]),
    ensures
        parse_all::<T>(encode_all::<T>(vs) + rest, vs.len()) == ParseResult::Parsed(
            vs,
            encode_all::<T>(vs).len(),
        ),
    decreases vs.len(),
{
    if vs.len() > 0 {
        let init = vs.drop_last();
        let last = vs.last();
        let tail = T::spec_encode(last) + rest;
        let bytes = encode_all::<T>(vs) + rest;
        let m = encode_all::<T>(init).len();
        assert(T::spec_encodable(vs[vs.len() - 1]));
        assert forall|i: int| 0 <= i < init.len() implies T::spec_encodable(#[trigger] init[i]) by {
            assert(init[i] == vs[i]);
        }
        lemma_parse_all_encode_all::<T>(init, tail);
        assert(bytes =~= encode_all::<T>(init) + tail);
        assert(parse_all::<T>(bytes, init.len()) == ParseResult::Parsed(init, m));
        assert(bytes.skip(m as int) =~= tail);
        T::lemma_parse_encode(last, rest);
        assert(init.push(last) =~= vs);
        assert(parse_all::<T>(bytes, vs.len()) == ParseResult::Parsed(
            init.push(last),
            m + T::spec_encode(last).len(),
        ));
    } else {
        assert(vs =~= Seq::<<T as DeepView>::V>::empty());
    }
}

/// Once reading some of the values fails, reading more of them fails in the
/// same way, and at the same value.
pub proof fn lemma_parse_all_failure_persists<T: Serializable>(bytes: Seq<u8>, i: nat, n: nat)
    requires
        i <= n,
        i > 0,
        !(parse_all::<T>(bytes, i) is Parsed),
        parse_all::<T>(bytes, (i - 1) as nat) is Parsed,
    ensures
        parse_all::<T>(bytes, n) == parse_all::<T>(bytes, i),
        failed_index::<T>(bytes, n) == i - 1,
    decreases n,
{
    if n > i {
        lemma_parse_all_failure_persists::<T>(bytes, i, (n - 1) as nat);
    }
}

/// What a failed read of the values `old`, one after the other, leaves: the
/// values before the one that failed are those read, the failed one is what a
/// failed read leaves in it, and the later ones are as they were.
pub open spec fn slice_read_failure<T: Serializable>(
    old: Seq<<T as DeepView>::V>,
    new: Seq<<T as DeepView>::V>,
    bytes: Seq<u8>,
) -> bool {
    let i = failed_index::<T>(bytes, old.len());
    match parse_all::<T>(bytes, i) {
        ParseResult::Parsed(vs, m) => {
            &&& new.len() == old.len()
            &&& forall|j: int| 0 <= j < i ==> new[j] == vs[j]
            &&& i < old.len() ==> T::spec_read_failure(old[i as int], new[i as int], bytes.skip(m as int))
            &&& forall|j: int| i < j < old.len() ==> new[j] == old[j]
        },
        _ => true,
    }
}

/// Writes the values of `items` to, or reads them from, `direction`, one
/// after the other and with no length before them; a read fills the items in
/// place and stops at the first failure.
pub fn serialize_slice<T: Serializable>(items: &mut [T], direction: &mut ReadWrite) -> (r: Result<
    (),
    NetError,
>)
    requires
        old(direction)@.wf(),
    ensures
        serialize_post(
            encode_all::<T>(old(items).deep_view()),
            parse_all::<T>(old(direction)@.remaining(), old(items)@.len()),
            slice_read_failure::<T>(
                old(items).deep_view(),
                final(items).deep_view(),
                old(direction)@.remaining(),
            ),
            old(items).deep_view(),
            final(items).deep_view(),
            old(direction)@,
            final(direction)@,
            r,
        ),
{
    let n = items.len();
    if direction.is_write() {
        let ghost start = direction@->written;
        let ghost view0 = items.deep_view();
        let mut i: usize = 0;
        assert(view0.take(0) =~= Seq::<<T as DeepView>::V>::empty());
        while i < n
            invariant
                i <= n,
                n == items@.len(),
                items.deep_view() == view0,
                direction@ == (StreamView::Writing {
                    written: start + encode_all::<T>(view0.take(i as int)),
                }),
            decreases n - i,
        {
            let ghost before = direction@->written;
            let ghost before_items = items@;
            assert(view0[i as int] == before_items[i as int].deep_view());
            let item = &mut items[i];
            match item.serialize(direction) {
                Ok(()) => {},
                Err(e) => return Err(e),
            }
            assert(direction@->written == before + T::spec_encode(view0[i as int]));
            assert(view0.take(i + 1).drop_last() =~= view0.take(i as int));
            assert(encode_all::<T>(view0.take(i + 1)) == encode_all::<T>(view0.take(i as int))
                + T::spec_encode(view0[i as int]));
            assert(direction@->written =~= start + encode_all::<T>(view0.take(i + 1)));
            assert(items.deep_view() =~= view0) by {
                assert forall|j: int| 0 <= j < view0.len() implies items.deep_view()[j] == view0[j] by {
                    assert(items@[j].deep_view() == before_items[j].deep_view());
                }
            }
            i = i + 1;
        }
        assert(view0.take(i as int) =~= view0);
        Ok(())
    } else {
        let ghost body = direction@.remaining();
        let ghost data = direction@->data;
        let ghost start = direction@->pos;
        let ghost old_view = items.deep_view();
        let mut i: usize = 0;
        assert(items.deep_view().take(0) =~= Seq::<<T as DeepView>::V>::empty());
        while i < n
            invariant
                i <= n,
                n == items@.len(),
                body == old(direction)@.remaining(),
                body == data.skip(start as int),
                old(direction)@ == (StreamView::Reading { data, pos: start }),
                old_view == old(items).deep_view(),
                old_view.len() == n,
                start <= data.len(),
                direction@.wf(),
                direction@ is Reading,
                direction@->data == data,
                direction@->pos >= start,
                parse_all::<T>(body, i as nat) == ParseResult::Parsed(
                    items.deep_view().take(i as int),
                    (direction@->pos - start) as nat,
                ),
                forall|j: int| i <= j < n ==> #[trigger] items.deep_view()[j] == old_view[j],
            decreases n - i,
        {
            let ghost consumed = (direction@->pos - start) as nat;
            let ghost before_items = items@;
            let ghost before = items.deep_view();
            let ghost dir_before = direction@;
            assert(direction@.remaining() =~= body.skip(consumed as int));
            let item = &mut items[i];
            let res = item.serialize(direction);
            let ghost after = items.deep_view();
            assert(T::spec_parse(dir_before.remaining()) is Parsed || T::spec_read_failure(
                before[i as int],
                after[i as int],
                body.skip(consumed as int),
            ));
            assert forall|j: int| 0 <= j < n && j != i implies #[trigger] after[j] == before[j] by {
                assert(items@[j] == before_items[j]);
            }
            match res {
                Ok(()) => {},
                Err(e) => {
                    proof {
                        lemma_parse_all_failure_persists::<T>(body, (i + 1) as nat, n as nat);
                        assert(before.take(i as int) =~= after.take(i as int));
                        assert(failed_index::<T>(body, n as nat) == i);
                        assert(slice_read_failure::<T>(old_view, after, body));
                        match T::spec_parse(body.skip(consumed as int)) {
                            ParseResult::Incomplete => {
                                assert(parse_all::<T>(body, (i + 1) as nat) is Incomplete);
                            },
                            ParseResult::Invalid(k) => {
                                assert(parse_all::<T>(body, (i + 1) as nat) == ParseResult::<Seq<<T as DeepView>::V>>::Invalid(consumed + k));
                                assert(direction@ == StreamView::Reading { data, pos: start + consumed + k });
                            },
                            ParseResult::Parsed(_, _) => {},
                        }
                    }
                    return Err(e);
                },
            }
            assert(after.take(i + 1) =~= before.take(i as int).push(after[i as int]));
            i = i + 1;
        }
        assert(items.deep_view().take(n as int) =~= items.deep_view());
        Ok(())
    }
}

/// Where reading `n` values fails, it fails at a value before the `n`-th,
/// after reading all the values before that one.
pub proof fn lemma_failed_index_bound<T: Serializable>(bytes: Seq<u8>, n: nat)
    requires
        !(parse_all::<T>(bytes, n) is Parsed),
    ensures
        failed_index::<T>(bytes, n) < n,
        parse_all::<T>(bytes, failed_index::<T>(bytes, n)) is Parsed,
    decreases n,
{
    if n > 0 && !(parse_all::<T>(bytes, (n - 1) as nat) is Parsed) {
        lemma_failed_index_bound::<T>(bytes, (n - 1) as nat);
    }
}

/// What a failed read of a vector leaves: where the length could not be
/// read, the vector as it was; otherwise a vector of the length read, whose
/// elements before the one that failed are the values read, whose failed
/// element is what a failed read leaves in it, and whose later elements are
/// the old ones (those beyond the old length hold default values).
pub open spec fn vec_read_failure<T: Serializable>(
    old: Seq<<T as DeepView>::V>,
    new: Seq<<T as DeepView>::V>,
    bytes: Seq<u8>,
) -> bool {
    if bytes.len() < 4 {
        new == old
    } else {
        let n = le_value(bytes.take(4));
        let body = bytes.skip(4);
        let i = failed_index::<T>(body, n);
        match parse_all::<T>(body, i) {
            ParseResult::Parsed(vs, m) => {
                &&& new.len() == n
                &&& forall|j: int| 0 <= j < i ==> new[j] == vs[j]
                &&& i < old.len() ==> T::spec_read_failure(old[i as int], new[i as int], body.skip(m as int))
                &&& forall|j: int| i < j < n && j < old.len() ==> new[j] == old[j]
            },
            _ => true,
        }
    }
}

/// A vector goes over the wire as its length (a `u32`; a longer vector's
/// length is cut to its lowest 32 bits) followed by its elements. Reading
/// resizes the vector to the length read (new elements take their default
/// value) and reads the elements in place, one after the other.
impl<T: Serializable + Default> Serializable for Vec<T> {
    open spec fn spec_encode(vs: Seq<<T as DeepView>::V>) -> Seq<u8> {
        le_bytes((vs.len() as u32) as nat, 4) + encode_all::<T>(vs)
    }

    open spec fn spec_parse(bytes: Seq<u8>) -> ParseResult<Seq<<T as DeepView>::V>> {
        if bytes.len() < 4 {
            ParseResult::Incomplete
        } else {
            match parse_all::<T>(bytes.skip(4), le_value(bytes.take(4))) {
                ParseResult::Parsed(vs, m) => ParseResult::Parsed(vs, 4 + m),
                ParseResult::Incomplete => ParseResult::Incomplete,
                ParseResult::Invalid(m) => ParseResult::Invalid(4 + m),
            }
        }
    }

    open spec fn spec_encodable(vs: Seq<<T as DeepView>::V>) -> bool {
        &&& vs.len() <= u32::MAX
        &&& forall|i: int| 0 <= i < vs.len() ==> T::spec_encodable(#[trigger] vs[i])
    }

    open spec fn spec_read_failure(
        old: Seq<<T as DeepView>::V>,
        new: Seq<<T as DeepView>::V>,
        bytes: Seq<u8>,
    ) -> bool {
        vec_read_failure::<T>(old, new, bytes)
    }

    proof fn lemma_parse_encode(vs: Seq<<T as DeepView>::V>, rest: Seq<u8>) {
        lemma_pow256_values();
        let n = (vs.len() as u32) as nat;
        assert(n == vs.len());
        lemma_le_roundtrip(n, 4);
        lemma_parse_all_encode_all::<T>(vs, rest);
        let bytes = Self::spec_encode(vs) + rest;
        assert(bytes.take(4) =~= le_bytes(n, 4));
        assert(bytes.skip(4) =~= encode_all::<T>(vs) + rest);
    }

    fn serialize(&mut self, direction: &mut ReadWrite) -> (r: Result<(), NetError>) {
        if direction.is_write() {
            let ghost start = direction@->written;
            let ghost view0 = self.deep_view();
            let mut length: u32 = self.len() as u32;
            match length.serialize(direction) {
                Ok(()) => {},
                Err(e) => return Err(e),
            }
            let r = serialize_slice(self.as_mut_slice(), direction);
            assert(self.deep_view() =~= view0);
            assert(direction@->written =~= start + Self::spec_encode(view0));
            r
        } else {
            let ghost rem = direction@.remaining();
            let ghost data = direction@->data;
            let ghost start = direction@->pos;
            let ghost old_view = self.deep_view();
            let mut length: u32 = 0;
            match length.serialize(direction) {
                Ok(()) => {},
                Err(e) => return Err(e),
            }
            proof {
                lemma_pow256_values();
                lemma_le_value_bound(rem.take(4));
            }
            let n = length as usize;
            self.truncate(n);
            while self.len() < n
                invariant
                    n == length,
                    self@.len() <= n,
                    forall|j: int| 0 <= j < self@.len() && j < old_view.len() ==> #[trigger] self@[j].deep_view() == old_view[j],
                    self@.len() >= if old_view.len() < n { old_view.len() } else { n as nat },
                decreases n - self@.len(),
            {
                self.push(T::default());
            }
            let ghost resized = self.deep_view();
            let ghost body = rem.skip(4);
            assert(direction@.remaining() =~= body);
            let r = serialize_slice(self.as_mut_slice(), direction);
            let ghost after = self.deep_view();
            proof {
                assert(resized.len() == n);
                if r is Err {
                    assert(!(parse_all::<T>(body, n as nat) is Parsed));
                    lemma_failed_index_bound::<T>(body, n as nat);
                    assert(slice_read_failure::<T>(resized, after, body));
                    assert(forall|j: int| 0 <= j < n && j < old_view.len() ==> resized[j] == old_view[j]);
                    assert(vec_read_failure::<T>(old_view, after, rem));
                }
            }
            r
        }
    }
}

/// Reading `n` single bytes takes the first `n` bytes, if there are that many.
pub proof fn lemma_parse_all_bytes(bytes: Seq<u8>, n: nat)
    ensures
        n <= bytes.len() ==> parse_all::<u8>(bytes, n) == ParseResult::Parsed(bytes.take(n as int), n),
        n > bytes.len() ==> parse_all::<u8>(bytes, n) == ParseResult::<Seq<u8>>::Incomplete,
    decreases n,
{
    if n > 0 {
        lemma_parse_all_bytes(bytes, (n - 1) as nat);
        if n <= bytes.len() {
            assert(bytes.take(n - 1).push(bytes.skip(n - 1)[0]) =~= bytes.take(n as int));
        } else if n - 1 <= bytes.len() {
            assert(bytes.skip(n - 1).len() == 0);
        }
    } else {
        assert(bytes.take(0) =~= Seq::<u8>::empty());
    }
}

/// Writing single bytes one after the other writes exactly those bytes.
pub proof fn lemma_encode_all_bytes(bytes: Seq<u8>)
    ensures
        encode_all::<u8>(bytes) == bytes,
    decreases bytes.len(),
{
    if bytes.len() > 0 {
        lemma_encode_all_bytes(bytes.drop_last());
        assert(bytes.drop_last() + seq![bytes.last()] =~= bytes);
    } else {
        assert(bytes =~= Seq::<u8>::empty());
    }
}

/// The bytes of `s` in UTF-8, as `String::from_utf8` reads them: `Some`
/// exactly when the bytes are valid UTF-8, and then the characters that they
/// encode. The standard library documents that `String::from_utf8` fails when
/// the bytes are not UTF-8 and otherwise moves them into the string unchanged.
#[verifier::external_body]
fn string_from_utf8(bytes: Vec<u8>) -> (r: Option<String>)
    ensures
        r is Some <==> valid_utf8(bytes@),
        r matches Some(s) ==> s@ == decode_utf8(bytes@),
{
    String::from_utf8(bytes).ok()
}

/// A string goes over the wire as its UTF-8 bytes, in the same way as a
/// vector of bytes: their number (a `u32`), then the bytes. Reading fails
/// with `InvalidData`, after consuming the bytes, where they are not UTF-8.
impl Serializable for String {
    open spec fn spec_encode(s: Seq<char>) -> Seq<u8> {
        let b = encode_utf8(s);
        le_bytes((b.len() as u32) as nat, 4) + b
    }

    open spec fn spec_parse(bytes: Seq<u8>) -> ParseResult<Seq<char>> {
        if bytes.len() < 4 {
            ParseResult::Incomplete
        } else {
            let n = le_value(bytes.take(4));
            if bytes.len() < 4 + n {
                ParseResult::Incomplete
            } else {
                let b = bytes.subrange(4, (4 + n) as int);
                if valid_utf8(b) {
                    ParseResult::Parsed(decode_utf8(b), 4 + n)
                } else {
                    ParseResult::Invalid(4 + n)
                }
            }
        }
    }

    open spec fn spec_encodable(s: Seq<char>) -> bool {
        encode_utf8(s).len() <= u32::MAX
    }

    open spec fn spec_read_failure(old: Seq<char>, new: Seq<char>, bytes: Seq<u8>) -> bool {
        new == old
    }

    proof fn lemma_parse_encode(s: Seq<char>, rest: Seq<u8>) {
        lemma_pow256_values();
        let b = encode_utf8(s);
        let n = (b.len() as u32) as nat;
        assert(n == b.len());
        lemma_le_roundtrip(n, 4);
        let bytes = Self::spec_encode(s) + rest;
        assert(bytes.take(4) =~= le_bytes(n, 4));
        assert(bytes.subrange(4, (4 + n) as int) =~= b);
        encode_utf8_valid_utf8(s);
        encode_utf8_decode_utf8(s);
    }

    fn serialize(&mut self, direction: &mut ReadWrite) -> (r: Result<(), NetError>) {
        if direction.is_write() {
            let mut vec: Vec<u8> = slice_to_vec(self.as_str().as_bytes());
            let ghost b = encode_utf8(self@);
            assert(vec.deep_view() =~= b);
            let r = vec.serialize(direction);
            proof {
                lemma_encode_all_bytes(b);
            }
            r
        } else {
            let ghost rem = direction@.remaining();
            let mut vec: Vec<u8> = Vec::new();
            proof {
                lemma_pow256_values();
                if rem.len() >= 4 {
                    lemma_parse_all_bytes(rem.skip(4), le_value(rem.take(4)));
                    if 4 + le_value(rem.take(4)) <= rem.len() {
                        assert(rem.skip(4).take(le_value(rem.take(4)) as int) =~= rem.subrange(
                            4,
                            (4 + le_value(rem.take(4))) as int,
                        ));
                    }
                }
            }
            match vec.serialize(direction) {
                Ok(()) => {},
                Err(e) => return Err(e),
            }
            let ghost b = vec.deep_view();
            assert(vec@ =~= b);
            match string_from_utf8(vec) {
                Some(string) => {
                    *self = string;
                    Ok(())
                },
                None => Err(NetError::InvalidData),
            }
        }
    }
}

/// An optional value goes over the wire as a `bool` (whether a value is
/// present) followed, when it is, by the value.
impl<T: Serializable + Default> Serializable for Option<T> {
    open spec fn spec_encode(o: Option<<T as DeepView>::V>) -> Seq<u8> {
        match o {
            Some(v) => seq![1u8] + T::spec_encode(v),
            None => seq![0u8],
        }
    }

    open spec fn spec_parse(bytes: Seq<u8>) -> ParseResult<Option<<T as DeepView>::V>> {
        if bytes.len() < 1 {
            ParseResult::Incomplete
        } else if bytes[0] != 0 {
            match T::spec_parse(bytes.skip(1)) {
                ParseResult::Parsed(v, n) => ParseResult::Parsed(Some(v), 1 + n),
                ParseResult::Incomplete => ParseResult::Incomplete,
                ParseResult::Invalid(n) => ParseResult::Invalid(1 + n),
            }
        } else {
            ParseResult::Parsed(None, 1)
        }
    }

    open spec fn spec_encodable(o: Option<<T as DeepView>::V>) -> bool {
        match o {
            Some(v) => T::spec_encodable(v),
            None => true,
        }
    }

    open spec fn spec_read_failure(
        old: Option<<T as DeepView>::V>,
        new: Option<<T as DeepView>::V>,
        bytes: Seq<u8>,
    ) -> bool {
        new == old
    }

    proof fn lemma_parse_encode(o: Option<<T as DeepView>::V>, rest: Seq<u8>) {
        if let Some(v) = o {
            T::lemma_parse_encode(v, rest);
            assert((Self::spec_encode(o) + rest).skip(1) =~= T::spec_encode(v) + rest);
        }
    }

    fn serialize(&mut self, direction: &mut ReadWrite) -> (r: Result<(), NetError>) {
        if direction.is_write() {
            let ghost start = direction@->written;
            match self {
                Some(obj) => {
                    let mut tag = true;
                    match tag.serialize(direction) {
                        Ok(()) => {},
                        Err(e) => return Err(e),
                    }
                    let r = obj.serialize(direction);
                    assert(direction@->written =~= start + (seq![1u8] + T::spec_encode(
                        obj.deep_view(),
                    )));
                    r
                },
                None => {
                    let mut tag = false;
                    tag.serialize(direction)
                },
            }
        } else {
            let ghost rem = direction@.remaining();
            let mut is_some = false;
            match is_some.serialize(direction) {
                Ok(()) => {},
                Err(e) => return Err(e),
            }
            if is_some {
                let mut obj: T = T::default();
                assert(direction@.remaining() =~= rem.skip(1));
                match obj.serialize(direction) {
                    Ok(()) => {},
                    Err(e) => return Err(e),
                }
                *self = Some(obj);
            } else {
                *self = None;
            }
            Ok(())
        }
    }
}

/// A value with a name and an age, for checking that composite values go
/// over the wire and back intact.
pub struct Test {
    pub name: String,
    pub age: i32,
}

impl DeepView for Test {
    type V = (Seq<char>, i32);

    open spec fn deep_view(&self) -> (Seq<char>, i32) {
        (self.name@, self.age)
    }
}

/// What a failed read of a `Test` leaves in one that held `old`: the name
/// read, where the name could be read (the age then failed), else `old`.
pub open spec fn test_read_failure_value(old: (Seq<char>, i32), bytes: Seq<u8>) -> (
    Seq<char>,
    i32,
) {
    match String::spec_parse(bytes) {
        ParseResult::Parsed(name, _) => (name, old.1),
        _ => old,
    }
}

/// A `Test` goes over the wire as its fields in order: the name, then the
/// age; reading reads them into the fields in the same order.
impl Serializable for Test {
    open spec fn spec_encode(v: (Seq<char>, i32)) -> Seq<u8> {
        String::spec_encode(v.0) + i32::spec_encode(v.1)
    }

    open spec fn spec_parse(bytes: Seq<u8>) -> ParseResult<(Seq<char>, i32)> {
        match String::spec_parse(bytes) {
            ParseResult::Parsed(name, n) => match i32::spec_parse(bytes.skip(n as int)) {
                ParseResult::Parsed(age, m) => ParseResult::Parsed((name, age), n + m),
                ParseResult::Incomplete => ParseResult::Incomplete,
                ParseResult::Invalid(m) => ParseResult::Invalid(n + m),
            },
            ParseResult::Incomplete => ParseResult::Incomplete,
            ParseResult::Invalid(n) => ParseResult::Invalid(n),
        }
    }

    open spec fn spec_encodable(v: (Seq<char>, i32)) -> bool {
        String::spec_encodable(v.0)
    }

    open spec fn spec_read_failure(
        old: (Seq<char>, i32),
        new: (Seq<char>, i32),
        bytes: Seq<u8>,
    ) -> bool {
        new == test_read_failure_value(old, bytes)
    }

    proof fn lemma_parse_encode(v: (Seq<char>, i32), rest: Seq<u8>) {
        let tail = i32::spec_encode(v.1) + rest;
        String::lemma_parse_encode(v.0, tail);
        i32::lemma_parse_encode(v.1, rest);
        let bytes = Self::spec_encode(v) + rest;
        assert(bytes =~= String::spec_encode(v.0) + tail);
        assert(bytes.skip(String::spec_encode(v.0).len() as int) =~= tail);
    }

    fn serialize(&mut self, direction: &mut ReadWrite) -> (r: Result<(), NetError>) {
        let ghost start = direction@;
        let ghost rem = direction@.remaining();
        match self.name.serialize(direction) {
            Ok(()) => {},
            Err(e) => return Err(e),
        }
        proof {
            if start is Reading {
                assert(direction@.remaining() =~= rem.skip((direction@->pos - start->pos) as int));
            }
        }
        let r = self.age.serialize(direction);
        proof {
            if start is Writing {
                assert(direction@->written =~= start->written + Self::spec_encode(old(self).deep_view()));
            }
        }
        r
    }
}

/// Law: what a writing `serialize` appends, a reading `serialize` takes back.
/// The value comes back and exactly its bytes are consumed, whatever bytes
/// come before and after them and whatever value is read into; writing
/// itself succeeds and leaves the value as it was.
pub proof fn lemma_write_then_read<T: Serializable>(
    v: <T as DeepView>::V,
    written: Seq<u8>,
    into: <T as DeepView>::V,
    before: Seq<u8>,
    rest: Seq<u8>,
)
    requires
        T::spec_encodable(v),
    ensures
        ({
            let bytes = T::spec_encode(v);
            let data = before + bytes + rest;
            let reading = StreamView::Reading { data, pos: before.len() };
            &&& serialize_step(bytes, T::spec_parse(Seq::empty()), v, v, StreamView::Writing {
                written,
            }) == (v, StreamView::Writing { written: written + bytes }, Ok::<(), NetError>(()))
            &&& serialize_step(bytes, T::spec_parse(reading.remaining()), into, into, reading) == (
                v,
                StreamView::Reading { data, pos: before.len() + bytes.len() },
                Ok::<(), NetError>(()),
            )
        }),
{
    let bytes = T::spec_encode(v);
    let data = before + bytes + rest;
    assert(data.skip(before.len() as int) =~= bytes + rest);
    T::lemma_parse_encode(v, rest);
}

} // verus!
