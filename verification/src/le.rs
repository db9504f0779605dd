//! Little-endian byte order for integers of a fixed width.
use crate::error::NetError;
use crate::serialization::{ReadWrite, StreamView};
use vstd::prelude::*;

verus! {

/// 256 to the power `w`: how many values fit in `w` bytes.
pub open spec fn pow256(w: nat) -> nat
    decreases w,
{
    if w == 0 {
        1
    } else {
        256 * pow256((w - 1) as nat)
    }
}

/// The `w` lowest bytes of `x`, least significant first.
pub open spec fn le_bytes(x: nat, w: nat) -> Seq<u8>
    decreases w,
{
    if w == 0 {
        Seq::empty()
    } else {
        seq![(x % 256) as u8] + le_bytes(x / 256, (w - 1) as nat)
    }
}

/// The number whose bytes, least significant first, are `b`.
pub open spec fn le_value(b: Seq<u8>) -> nat
    decreases b.len(),
{
    if b.len() == 0 {
        0
    } else {
        b[0] as nat + 256 * le_value(b.drop_first())
    }
}

/// The two's-complement pattern of `v` in `w` bytes, as an unsigned number.
pub open spec fn unsigned_rep(v: int, w: nat) -> nat {
    (v % (pow256(w) as int)) as nat
}

/// The signed number whose two's-complement pattern in `w` bytes is `u`.
pub open spec fn signed_from(u: nat, w: nat) -> int {
    if u >= pow256(w) / 2 {
        u - pow256(w)
    } else {
        u as int
    }
}

/// The powers of 256 for the widths of the integer types.
pub proof fn lemma_pow256_values()
    ensures
        pow256(1) == 0x100,
        pow256(2) == 0x1_0000,
        pow256(4) == 0x1_0000_0000,
        pow256(8) == 0x1_0000_0000_0000_0000,
        pow256(16) == 0x1_0000_0000_0000_0000_0000_0000_0000_0000,
{
    reveal_with_fuel(pow256, 17);
}

/// Wider numbers have more room.
pub proof fn lemma_pow256_monotonic(a: nat, b: nat)
    requires
        a <= b,
    ensures
        1 <= pow256(a) <= pow256(b),
    decreases b,
{
    if b > a {
        lemma_pow256_monotonic(a, (b - 1) as nat);
    } else if b > 0 {
        lemma_pow256_monotonic(0, (b - 1) as nat);
    }
}

/// A number written in `w` bytes takes `w` bytes.
pub proof fn lemma_le_bytes_len(x: nat, w: nat)
    ensures
        le_bytes(x, w).len() == w,
    decreases w,
{
    if w > 0 {
        lemma_le_bytes_len(x / 256, (w - 1) as nat);
    }
}

/// Reading back the bytes of a number that fits gives the number.
pub proof fn lemma_le_roundtrip(x: nat, w: nat)
    requires
        x < pow256(w),
    ensures
        le_value(le_bytes(x, w)) == x,
        le_bytes(x, w).len() == w,
    decreases w,
{
    lemma_le_bytes_len(x, w);
    if w > 0 {
        let rest = le_bytes(x / 256, (w - 1) as nat);
        assert(x / 256 < pow256((w - 1) as nat));
        lemma_le_roundtrip(x / 256, (w - 1) as nat);
        assert(le_bytes(x, w).drop_first() =~= rest);
    }
}

/// A number read from `b.len()` bytes fits in that many bytes.
pub proof fn lemma_le_value_bound(b: Seq<u8>)
    ensures
        le_value(b) < pow256(b.len()),
    decreases b.len(),
{
    if b.len() > 0 {
        lemma_le_value_bound(b.drop_first());
    }
}

/// A signed number that fits in `w` bytes survives the trip through its
/// two's-complement pattern.
pub proof fn lemma_signed_roundtrip(v: int, w: nat)
    requires
        w > 0,
        -((pow256(w) / 2) as int) <= v < pow256(w) / 2,
    ensures
        unsigned_rep(v, w) < pow256(w),
        v >= 0 ==> unsigned_rep(v, w) == v,
        v < 0 ==> unsigned_rep(v, w) == v + pow256(w),
        signed_from(unsigned_rep(v, w), w) == v,
{
    let p = pow256(w);
    lemma_pow256_monotonic(1, w);
    assert(pow256(1) == 256) by {
        reveal_with_fuel(pow256, 2);
    }
    if v >= 0 {
        vstd::arithmetic::div_mod::lemma_small_mod(v as nat, p);
    } else {
        vstd::arithmetic::div_mod::lemma_mod_add_multiples_vanish(v, p as int);
        vstd::arithmetic::div_mod::lemma_small_mod((p + v) as nat, p);
    }
}

/// A number read from `w` bytes as a signed number lies in the signed range of `w` bytes.
pub proof fn lemma_signed_from_bound(u: nat, w: nat)
    requires
        w > 0,
        u < pow256(w),
    ensures
        -((pow256(w) / 2) as int) <= signed_from(u, w) < pow256(w) / 2,
{
    assert(pow256(w) == 256 * pow256((w - 1) as nat));
}

/// Powers of 256 multiply as their exponents add.
pub proof fn lemma_pow256_add(a: nat, b: nat)
    ensures
        pow256(a + b) == pow256(a) * pow256(b),
    decreases a,
{
    if a > 0 {
        lemma_pow256_add((a - 1) as nat, b);
        assert(pow256(a + b) == 256 * pow256(((a - 1) + b) as nat));
        assert(pow256(a) == 256 * pow256((a - 1) as nat));
        vstd::arithmetic::mul::lemma_mul_is_associative(
            256,
            pow256((a - 1) as nat) as int,
            pow256(b) as int,
        );
    } else {
        assert(pow256(0) == 1);
        assert(a + b == b);
    }
}

/// Byte `k` of the `w` lowest bytes of `x` is `x` divided by 256^k, modulo 256.
pub proof fn lemma_le_bytes_index(x: nat, w: nat, k: nat)
    requires
        k < w,
    ensures
        le_bytes(x, w).len() == w,
        le_bytes(x, w)[k as int] as int == (x as int / pow256(k) as int) % 256,
    decreases w,
{
    lemma_le_bytes_len(x, w);
    if k == 0 {
        assert(pow256(0) == 1);
    } else {
        lemma_le_bytes_len(x / 256, (w - 1) as nat);
        assert(le_bytes(x, w)[k as int] == le_bytes(x / 256, (w - 1) as nat)[k - 1]);
        lemma_le_bytes_index(x / 256, (w - 1) as nat, (k - 1) as nat);
        lemma_pow256_monotonic(0, (k - 1) as nat);
        vstd::arithmetic::div_mod::lemma_div_denominator(
            x as int,
            256,
            pow256((k - 1) as nat) as int,
        );
        assert(pow256(k) == 256 * pow256((k - 1) as nat));
    }
}

/// Byte `k` of the two's-complement pattern of `v` in `w` bytes is `v`
/// divided by 256^k (rounding down), modulo 256.
pub proof fn lemma_signed_le_bytes_index(v: int, w: nat, k: nat)
    requires
        w > 0,
        -((pow256(w) / 2) as int) <= v < pow256(w) / 2,
        k < w,
    ensures
        le_bytes(unsigned_rep(v, w), w).len() == w,
        le_bytes(unsigned_rep(v, w), w)[k as int] as int == (v / pow256(k) as int) % 256,
{
    lemma_signed_roundtrip(v, w);
    lemma_le_bytes_index(unsigned_rep(v, w), w, k);
    if v < 0 {
        let d = pow256(k);
        let j = pow256((w - k) as nat);
        lemma_pow256_add(k, (w - k) as nat);
        lemma_pow256_monotonic(0, k);
        assert(k + (w - k) == w);
        vstd::arithmetic::div_mod::lemma_hoist_over_denominator(v, j as int, d);
        vstd::arithmetic::mul::lemma_mul_is_commutative(j as int, d as int);
        assert(j == 256 * pow256((w - k - 1) as nat));
        vstd::arithmetic::div_mod::lemma_mod_multiples_vanish(
            pow256((w - k - 1) as nat) as int,
            v / d as int,
            256,
        );
    }
}

/// The bytes of the number that bytes `b` hold are `b` again.
pub proof fn lemma_le_bytes_of_value(b: Seq<u8>)
    ensures
        le_bytes(le_value(b), b.len()) == b,
    decreases b.len(),
{
    if b.len() == 0 {
        assert(le_bytes(0, 0) =~= b);
    } else {
        let r = b.drop_first();
        lemma_le_bytes_of_value(r);
        let x = le_value(r);
        vstd::arithmetic::div_mod::lemma_div_multiples_vanish_fancy(x as int, b[0] as int, 256);
        vstd::arithmetic::div_mod::lemma_mod_multiples_vanish(x as int, b[0] as int, 256);
        assert(le_value(b) == 256 * x + b[0]);
        assert(le_value(b) / 256 == x);
        assert(le_value(b) % 256 == b[0]);
        assert(le_bytes(le_value(b), b.len()) =~= b);
    }
}

/// The two's-complement pattern of the signed number read from `u` is `u`.
pub proof fn lemma_unsigned_rep_of_signed(u: nat, w: nat)
    requires
        w > 0,
        u < pow256(w),
    ensures
        unsigned_rep(signed_from(u, w), w) == u,
{
    let p = pow256(w) as int;
    if u >= pow256(w) / 2 {
        vstd::arithmetic::div_mod::lemma_mod_add_multiples_vanish(u - p, p);
    }
    vstd::arithmetic::div_mod::lemma_small_mod(u, p as nat);
}

/// Writes the `w` lowest bytes of `value`, least significant first.
pub(crate) fn write_le(direction: &mut ReadWrite, value: u128, w: usize)
    requires
        old(direction)@ is Writing,
        w <= 16,
        value < pow256(w as nat),
    ensures
        final(direction)@ == (StreamView::Writing {
            written: old(direction)@->written + le_bytes(value as nat, w as nat),
        }),
{
    let mut x: u128 = value;
    let mut i: usize = 0;
    while i < w
        invariant
            i <= w,
            direction@ is Writing,
            direction@->written + le_bytes(x as nat, (w - i) as nat) == old(direction)@->written
                + le_bytes(value as nat, w as nat),
        decreases w - i,
    {
        let ghost before = direction@->written;
        direction.write_byte((x % 256) as u8);
        assert(le_bytes(x as nat, (w - i) as nat) == seq![(x % 256) as u8] + le_bytes(
            (x / 256) as nat,
            (w - i - 1) as nat,
        ));
        assert(before + le_bytes(x as nat, (w - i) as nat) =~= before.push((x % 256) as u8)
            + le_bytes((x / 256) as nat, (w - i - 1) as nat));
        x = x / 256;
        i = i + 1;
    }
    assert(direction@->written + le_bytes(x as nat, 0) =~= direction@->written);
}

/// Reads `w` bytes and the number they hold, least significant first; where
/// fewer than `w` bytes are left, consumes them all and fails.
pub(crate) fn read_le(direction: &mut ReadWrite, w: usize) -> (r: Result<u128, NetError>)
    requires
        old(direction)@ is Reading,
        old(direction)@.wf(),
        w <= 16,
    ensures
        final(direction)@.wf(),
        final(direction)@ is Reading,
        final(direction)@->data == old(direction)@->data,
        w <= old(direction)@.remaining().len() ==> {
            &&& r matches Ok(u)
            &&& u == le_value(old(direction)@.remaining().take(w as int))
            &&& final(direction)@->pos == old(direction)@->pos + w
        },
        w > old(direction)@.remaining().len() ==> {
            &&& r == Err::<u128, NetError>(NetError::UnexpectedEof)
            &&& final(direction)@->pos == old(direction)@->data.len()
        },
{
    let bytes = match direction.read_bytes(w) {
        Ok(b) => b,
        Err(e) => return Err(e),
    };
    proof {
        lemma_pow256_values();
        lemma_pow256_monotonic(w as nat, 16);
    }
    let mut u: u128 = 0;
    let mut i: usize = w;
    assert(bytes@.subrange(w as int, w as int) =~= Seq::<u8>::empty());
    while i > 0
        invariant
            i <= w,
            w <= 16,
            bytes@.len() == w,
            u == le_value(bytes@.subrange(i as int, w as int)),
            pow256(w as nat) <= pow256(16),
            pow256(16) == 0x1_0000_0000_0000_0000_0000_0000_0000_0000,
        decreases i,
    {
        i = i - 1;
        let ghost tail = bytes@.subrange(i + 1, w as int);
        let ghost s = bytes@.subrange(i as int, w as int);
        assert(s.drop_first() =~= tail);
        proof {
            lemma_le_value_bound(tail);
            lemma_pow256_monotonic((w - i) as nat, w as nat);
        }
        assert(u * 256 + bytes@[i as int] < pow256((w - i) as nat));
        u = u * 256 + bytes[i] as u128;
    }
    assert(bytes@.subrange(0, w as int) =~= bytes@);
    Ok(u)
}

} // verus!
