//! Laws of the integer encodings: each fixed-width integer travels as its
//! bytes, least significant first (two's complement for signed integers),
//! stated by arithmetic on the value itself.
use crate::le::{
    le_value, lemma_le_bytes_index, lemma_le_bytes_len, lemma_le_bytes_of_value,
    lemma_le_value_bound, lemma_pow256_values, lemma_signed_from_bound,
    lemma_signed_le_bytes_index, lemma_signed_roundtrip, lemma_unsigned_rep_of_signed, pow256,
    unsigned_rep,
};
use crate::serialization::{ParseResult, Serializable};
use vstd::prelude::*;

verus! {

/// Law: a `u8` is written as its 1 byte, least significant first: byte
/// `k` is the value divided by 256 to the power `k` (rounding down), modulo
/// 256. Reading takes 1 byte back to the value that is written as
/// them, and reports missing bytes where fewer are left.
pub proof fn lemma_u8_bytes(v: u8, bytes: Seq<u8>)
    ensures
        u8::spec_encode(v).len() == 1,
        forall|k: int|
            0 <= k < 1 ==> #[trigger] u8::spec_encode(v)[k] as int == (v as int / pow256(
                k as nat,
            ) as int) % 256,
        bytes.len() < 1 ==> u8::spec_parse(bytes) is Incomplete,
        bytes.len() >= 1 ==> (u8::spec_parse(bytes) matches ParseResult::Parsed(x, m) && m
            == 1 && u8::spec_encode(x) == bytes.take(1)),
{
    lemma_pow256_values();
    assert forall|k: int| 0 <= k < 1 implies #[trigger] u8::spec_encode(v)[k] as int == (v as int
        / pow256(k as nat) as int) % 256 by {
        assert(k == 0);
        assert(pow256(0) == 1);
        assert(v as int / 1 == v as int);
        vstd::arithmetic::div_mod::lemma_small_mod(v as nat, 256);
    }
    if bytes.len() >= 1 {
        assert(seq![bytes[0]] =~= bytes.take(1));
    }
}

/// Law: a `u16` is written as its 2 bytes, least significant first: byte
/// `k` is the value divided by 256 to the power `k` (rounding down), modulo
/// 256. Reading takes 2 bytes back to the value that is written as
/// them, and reports missing bytes where fewer are left.
pub proof fn lemma_u16_bytes(v: u16, bytes: Seq<u8>)
    ensures
        u16::spec_encode(v).len() == 2,
        forall|k: int|
            0 <= k < 2 ==> #[trigger] u16::spec_encode(v)[k] as int == (v as int / pow256(
                k as nat,
            ) as int) % 256,
        bytes.len() < 2 ==> u16::spec_parse(bytes) is Incomplete,
        bytes.len() >= 2 ==> (u16::spec_parse(bytes) matches ParseResult::Parsed(x, m) && m
            == 2 && u16::spec_encode(x) == bytes.take(2)),
{
    lemma_pow256_values();
    lemma_le_bytes_len(v as nat, 2);
    assert forall|k: int| 0 <= k < 2 implies #[trigger] u16::spec_encode(v)[k] as int == (v as int
        / pow256(k as nat) as int) % 256 by {
        lemma_le_bytes_index(v as nat, 2, k as nat);
    }
    if bytes.len() >= 2 {
        let b = bytes.take(2);
        lemma_le_value_bound(b);
        lemma_le_bytes_of_value(b);
    }
}

/// Law: a `u32` is written as its 4 bytes, least significant first: byte
/// `k` is the value divided by 256 to the power `k` (rounding down), modulo
/// 256. Reading takes 4 bytes back to the value that is written as
/// them, and reports missing bytes where fewer are left.
pub proof fn lemma_u32_bytes(v: u32, bytes: Seq<u8>)
    ensures
        u32::spec_encode(v).len() == 4,
        forall|k: int|
            0 <= k < 4 ==> #[trigger] u32::spec_encode(v)[k] as int == (v as int / pow256(
                k as nat,
            ) as int) % 256,
        bytes.len() < 4 ==> u32::spec_parse(bytes) is Incomplete,
        bytes.len() >= 4 ==> (u32::spec_parse(bytes) matches ParseResult::Parsed(x, m) && m
            == 4 && u32::spec_encode(x) == bytes.take(4)),
{
    lemma_pow256_values();
    lemma_le_bytes_len(v as nat, 4);
    assert forall|k: int| 0 <= k < 4 implies #[trigger] u32::spec_encode(v)[k] as int == (v as int
        / pow256(k as nat) as int) % 256 by {
        lemma_le_bytes_index(v as nat, 4, k as nat);
    }
    if bytes.len() >= 4 {
        let b = bytes.take(4);
        lemma_le_value_bound(b);
        lemma_le_bytes_of_value(b);
    }
}

/// Law: a `u64` is written as its 8 bytes, least significant first: byte
/// `k` is the value divided by 256 to the power `k` (rounding down), modulo
/// 256. Reading takes 8 bytes back to the value that is written as
/// them, and reports missing bytes where fewer are left.
pub proof fn lemma_u64_bytes(v: u64, bytes: Seq<u8>)
    ensures
        u64::spec_encode(v).len() == 8,
        forall|k: int|
            0 <= k < 8 ==> #[trigger] u64::spec_encode(v)[k] as int == (v as int / pow256(
                k as nat,
            ) as int) % 256,
        bytes.len() < 8 ==> u64::spec_parse(bytes) is Incomplete,
        bytes.len() >= 8 ==> (u64::spec_parse(bytes) matches ParseResult::Parsed(x, m) && m
            == 8 && u64::spec_encode(x) == bytes.take(8)),
{
    lemma_pow256_values();
    lemma_le_bytes_len(v as nat, 8);
    assert forall|k: int| 0 <= k < 8 implies #[trigger] u64::spec_encode(v)[k] as int == (v as int
        / pow256(k as nat) as int) % 256 by {
        lemma_le_bytes_index(v as nat, 8, k as nat);
    }
    if bytes.len() >= 8 {
        let b = bytes.take(8);
        lemma_le_value_bound(b);
        lemma_le_bytes_of_value(b);
    }
}

/// Law: a `u128` is written as its 16 bytes, least significant first: byte
/// `k` is the value divided by 256 to the power `k` (rounding down), modulo
/// 256. Reading takes 16 bytes back to the value that is written as
/// them, and reports missing bytes where fewer are left.
pub proof fn lemma_u128_bytes(v: u128, bytes: Seq<u8>)
    ensures
        u128::spec_encode(v).len() == 16,
        forall|k: int|
            0 <= k < 16 ==> #[trigger] u128::spec_encode(v)[k] as int == (v as int / pow256(
                k as nat,
            ) as int) % 256,
        bytes.len() < 16 ==> u128::spec_parse(bytes) is Incomplete,
        bytes.len() >= 16 ==> (u128::spec_parse(bytes) matches ParseResult::Parsed(x, m) && m
            == 16 && u128::spec_encode(x) == bytes.take(16)),
{
    lemma_pow256_values();
    lemma_le_bytes_len(v as nat, 16);
    assert forall|k: int| 0 <= k < 16 implies #[trigger] u128::spec_encode(v)[k] as int == (v as int
        / pow256(k as nat) as int) % 256 by {
        lemma_le_bytes_index(v as nat, 16, k as nat);
    }
    if bytes.len() >= 16 {
        let b = bytes.take(16);
        lemma_le_value_bound(b);
        lemma_le_bytes_of_value(b);
    }
}

/// Law: a `i8` is written as its 1 byte, least significant first: byte
/// `k` is the value divided by 256 to the power `k` (rounding down), modulo
/// 256 (two's complement for negative values). Reading takes 1 byte back to the value that is written as
/// them, and reports missing bytes where fewer are left.
pub proof fn lemma_i8_bytes(v: i8, bytes: Seq<u8>)
    ensures
        i8::spec_encode(v).len() == 1,
        forall|k: int|
            0 <= k < 1 ==> #[trigger] i8::spec_encode(v)[k] as int == (v as int / pow256(
                k as nat,
            ) as int) % 256,
        bytes.len() < 1 ==> i8::spec_parse(bytes) is Incomplete,
        bytes.len() >= 1 ==> (i8::spec_parse(bytes) matches ParseResult::Parsed(x, m) && m
            == 1 && i8::spec_encode(x) == bytes.take(1)),
{
    lemma_pow256_values();
    lemma_signed_roundtrip(v as int, 1);
    lemma_le_bytes_len(unsigned_rep(v as int, 1), 1);
    assert forall|k: int| 0 <= k < 1 implies #[trigger] i8::spec_encode(v)[k] as int == (v as int
        / pow256(k as nat) as int) % 256 by {
        lemma_signed_le_bytes_index(v as int, 1, k as nat);
    }
    if bytes.len() >= 1 {
        let b = bytes.take(1);
        lemma_le_value_bound(b);
        lemma_signed_from_bound(le_value(b), 1);
        lemma_unsigned_rep_of_signed(le_value(b), 1);
        lemma_le_bytes_of_value(b);
    }
}

/// Law: a `i16` is written as its 2 bytes, least significant first: byte
/// `k` is the value divided by 256 to the power `k` (rounding down), modulo
/// 256 (two's complement for negative values). Reading takes 2 bytes back to the value that is written as
/// them, and reports missing bytes where fewer are left.
pub proof fn lemma_i16_bytes(v: i16, bytes: Seq<u8>)
    ensures
        i16::spec_encode(v).len() == 2,
        forall|k: int|
            0 <= k < 2 ==> #[trigger] i16::spec_encode(v)[k] as int == (v as int / pow256(
                k as nat,
            ) as int) % 256,
        bytes.len() < 2 ==> i16::spec_parse(bytes) is Incomplete,
        bytes.len() >= 2 ==> (i16::spec_parse(bytes) matches ParseResult::Parsed(x, m) && m
            == 2 && i16::spec_encode(x) == bytes.take(2)),
{
    lemma_pow256_values();
    lemma_signed_roundtrip(v as int, 2);
    lemma_le_bytes_len(unsigned_rep(v as int, 2), 2);
    assert forall|k: int| 0 <= k < 2 implies #[trigger] i16::spec_encode(v)[k] as int == (v as int
        / pow256(k as nat) as int) % 256 by {
        lemma_signed_le_bytes_index(v as int, 2, k as nat);
    }
    if bytes.len() >= 2 {
        let b = bytes.take(2);
        lemma_le_value_bound(b);
        lemma_signed_from_bound(le_value(b), 2);
        lemma_unsigned_rep_of_signed(le_value(b), 2);
        lemma_le_bytes_of_value(b);
    }
}

/// Law: a `i32` is written as its 4 bytes, least significant first: byte
/// `k` is the value divided by 256 to the power `k` (rounding down), modulo
/// 256 (two's complement for negative values). Reading takes 4 bytes back to the value that is written as
/// them, and reports missing bytes where fewer are left.
pub proof fn lemma_i32_bytes(v: i32, bytes: Seq<u8>)
    ensures
        i32::spec_encode(v).len() == 4,
        forall|k: int|
            0 <= k < 4 ==> #[trigger] i32::spec_encode(v)[k] as int == (v as int / pow256(
                k as nat,
            ) as int) % 256,
        bytes.len() < 4 ==> i32::spec_parse(bytes) is Incomplete,
        bytes.len() >= 4 ==> (i32::spec_parse(bytes) matches ParseResult::Parsed(x, m) && m
            == 4 && i32::spec_encode(x) == bytes.take(4)),
{
    lemma_pow256_values();
    lemma_signed_roundtrip(v as int, 4);
    lemma_le_bytes_len(unsigned_rep(v as int, 4), 4);
    assert forall|k: int| 0 <= k < 4 implies #[trigger] i32::spec_encode(v)[k] as int == (v as int
        / pow256(k as nat) as int) % 256 by {
        lemma_signed_le_bytes_index(v as int, 4, k as nat);
    }
    if bytes.len() >= 4 {
        let b = bytes.take(4);
        lemma_le_value_bound(b);
        lemma_signed_from_bound(le_value(b), 4);
        lemma_unsigned_rep_of_signed(le_value(b), 4);
        lemma_le_bytes_of_value(b);
    }
}

/// Law: a `i64` is written as its 8 bytes, least significant first: byte
/// `k` is the value divided by 256 to the power `k` (rounding down), modulo
/// 256 (two's complement for negative values). Reading takes 8 bytes back to the value that is written as
/// them, and reports missing bytes where fewer are left.
pub proof fn lemma_i64_bytes(v: i64, bytes: Seq<u8>)
    ensures
        i64::spec_encode(v).len() == 8,
        forall|k: int|
            0 <= k < 8 ==> #[trigger] i64::spec_encode(v)[k] as int == (v as int / pow256(
                k as nat,
            ) as int) % 256,
        bytes.len() < 8 ==> i64::spec_parse(bytes) is Incomplete,
        bytes.len() >= 8 ==> (i64::spec_parse(bytes) matches ParseResult::Parsed(x, m) && m
            == 8 && i64::spec_encode(x) == bytes.take(8)),
{
    lemma_pow256_values();
    lemma_signed_roundtrip(v as int, 8);
    lemma_le_bytes_len(unsigned_rep(v as int, 8), 8);
    assert forall|k: int| 0 <= k < 8 implies #[trigger] i64::spec_encode(v)[k] as int == (v as int
        / pow256(k as nat) as int) % 256 by {
        lemma_signed_le_bytes_index(v as int, 8, k as nat);
    }
    if bytes.len() >= 8 {
        let b = bytes.take(8);
        lemma_le_value_bound(b);
        lemma_signed_from_bound(le_value(b), 8);
        lemma_unsigned_rep_of_signed(le_value(b), 8);
        lemma_le_bytes_of_value(b);
    }
}

/// Law: a `i128` is written as its 16 bytes, least significant first: byte
/// `k` is the value divided by 256 to the power `k` (rounding down), modulo
/// 256 (two's complement for negative values). Reading takes 16 bytes back to the value that is written as
/// them, and reports missing bytes where fewer are left.
pub proof fn lemma_i128_bytes(v: i128, bytes: Seq<u8>)
    ensures
        i128::spec_encode(v).len() == 16,
        forall|k: int|
            0 <= k < 16 ==> #[trigger] i128::spec_encode(v)[k] as int == (v as int / pow256(
                k as nat,
            ) as int) % 256,
        bytes.len() < 16 ==> i128::spec_parse(bytes) is Incomplete,
        bytes.len() >= 16 ==> (i128::spec_parse(bytes) matches ParseResult::Parsed(x, m) && m
            == 16 && i128::spec_encode(x) == bytes.take(16)),
{
    lemma_pow256_values();
    lemma_signed_roundtrip(v as int, 16);
    lemma_le_bytes_len(unsigned_rep(v as int, 16), 16);
    assert forall|k: int| 0 <= k < 16 implies #[trigger] i128::spec_encode(v)[k] as int == (v as int
        / pow256(k as nat) as int) % 256 by {
        lemma_signed_le_bytes_index(v as int, 16, k as nat);
    }
    if bytes.len() >= 16 {
        let b = bytes.take(16);
        lemma_le_value_bound(b);
        lemma_signed_from_bound(le_value(b), 16);
        lemma_unsigned_rep_of_signed(le_value(b), 16);
        lemma_le_bytes_of_value(b);
    }
}

} // verus!
