//! Laws of the wire format of composite values, each stated through the
//! formats of its parts: flags are `bool`s, lengths are `u32`s, and the parts
//! follow one another in order.
use crate::le::{lemma_le_roundtrip, lemma_pow256_values};
use crate::serialization::{encode_all, ParseResult, Serializable, Test};
use vstd::prelude::*;
use vstd::utf8::{decode_utf8, encode_utf8, valid_utf8};

verus! {

/// Law: a `bool` travels as the byte 1 where it is true and 0 where it is
/// false; reading takes one byte, and any byte but 0 reads as true.
pub proof fn lemma_bool_bytes(b: bool, bytes: Seq<u8>)
    ensures
        bool::spec_encode(b) == u8::spec_encode(
            if b {
                1u8
            } else {
                0u8
            },
        ),
        bytes.len() == 0 ==> bool::spec_parse(bytes) is Incomplete,
        bytes.len() > 0 ==> bool::spec_parse(bytes) == ParseResult::Parsed(bytes[0] != 0, 1),
{
}

/// Law: a string travels as the number of its UTF-8 bytes, written as a
/// `u32`, followed by those bytes. Reading a length `n` and `n` bytes gives
/// the string that the bytes encode, or fails as invalid after them where
/// they are not UTF-8.
pub proof fn lemma_string_bytes(s: Seq<char>, n: u32, b: Seq<u8>, rest: Seq<u8>)
    ensures
        String::spec_encode(s) == u32::spec_encode(encode_utf8(s).len() as u32) + encode_utf8(s),
        b.len() == n ==> String::spec_parse(u32::spec_encode(n) + b + rest) == if valid_utf8(b) {
            ParseResult::Parsed(decode_utf8(b), (4 + n) as nat)
        } else {
            ParseResult::Invalid((4 + n) as nat)
        },
{
    if b.len() == n {
        lemma_pow256_values();
        lemma_le_roundtrip(n as nat, 4);
        let bytes = u32::spec_encode(n) + b + rest;
        assert(bytes.take(4) =~= u32::spec_encode(n));
        assert(bytes.subrange(4, 4 + n) =~= b);
    }
}

/// Law: a vector travels as its length, written as a `u32`, followed by its
/// elements one after the other, the first first; the elements of two
/// vectors one after the other are those of the first and then those of the
/// second.
pub proof fn lemma_vec_bytes<T: Serializable + Default>(
    vs: Seq<<T as DeepView>::V>,
    ws: Seq<<T as DeepView>::V>,
    v: <T as DeepView>::V,
)
    ensures
        <Vec<T> as Serializable>::spec_encode(vs) == u32::spec_encode(vs.len() as u32)
            + encode_all::<T>(vs),
        encode_all::<T>(Seq::empty()) == Seq::<u8>::empty(),
        encode_all::<T>(seq![v]) == T::spec_encode(v),
        encode_all::<T>(vs + ws) == encode_all::<T>(vs) + encode_all::<T>(ws),
    decreases ws.len(),
{
    assert(seq![v].drop_last() =~= Seq::<<T as DeepView>::V>::empty());
    assert(Seq::<u8>::empty() + T::spec_encode(v) =~= T::spec_encode(v));
    if ws.len() == 0 {
        assert(vs + ws =~= vs);
        assert(encode_all::<T>(vs) + Seq::<u8>::empty() =~= encode_all::<T>(vs));
    } else {
        lemma_vec_bytes::<T>(vs, ws.drop_last(), v);
        assert((vs + ws).drop_last() =~= vs + ws.drop_last());
        assert((vs + ws).last() == ws.last());
        assert(encode_all::<T>(vs) + encode_all::<T>(ws.drop_last()) + T::spec_encode(ws.last())
            =~= encode_all::<T>(vs) + (encode_all::<T>(ws.drop_last()) + T::spec_encode(
            ws.last(),
        )));
    }
}

/// Law: an option travels as a `bool` flag, true for a value and false for
/// none, followed by the value where there is one. Reading a false flag gives
/// none; reading a true flag goes on to read a value.
pub proof fn lemma_option_bytes<T: Serializable + Default>(
    v: <T as DeepView>::V,
    flag: bool,
    rest: Seq<u8>,
)
    ensures
        <Option<T> as Serializable>::spec_encode(Some(v)) == bool::spec_encode(true)
            + T::spec_encode(v),
        <Option<T> as Serializable>::spec_encode(None) == bool::spec_encode(false),
        !flag ==> <Option<T> as Serializable>::spec_parse(bool::spec_encode(flag) + rest)
            == ParseResult::<Option<<T as DeepView>::V>>::Parsed(None, 1),
        flag ==> <Option<T> as Serializable>::spec_parse(bool::spec_encode(flag) + rest)
            == match T::spec_parse(rest) {
            ParseResult::Parsed(x, n) => ParseResult::Parsed(Some(x), 1 + n),
            ParseResult::Incomplete => ParseResult::Incomplete,
            ParseResult::Invalid(n) => ParseResult::Invalid(1 + n),
        },
{
    assert((bool::spec_encode(flag) + rest).skip(1) =~= rest);
}

/// Law: a `Test` travels as its name and then its age, in the order of its
/// fields.
pub proof fn lemma_test_bytes(v: (Seq<char>, i32))
    ensures
        Test::spec_encode(v) == String::spec_encode(v.0) + i32::spec_encode(v.1),
{
}

} // verus!
