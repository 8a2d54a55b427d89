//! Tile ID based on Hilbert curve (compliant with PMTiles): the id of a
//! tile at zoom `z` is the count of all tiles at lower zooms plus the
//! tile's position on the zoom level's Hilbert curve.

use vstd::prelude::*;

use vstd::arithmetic::div_mod::lemma_div_by_multiple;
use vstd::arithmetic::div_mod::lemma_div_is_ordered;
use vstd::arithmetic::power2::lemma2_to64;
use vstd::arithmetic::power2::lemma2_to64_rest;
use vstd::arithmetic::power2::lemma_pow2_adds;
use vstd::arithmetic::power2::lemma_pow2_strictly_increases;
use vstd::arithmetic::power2::pow2;
use vstd::bits::lemma_u64_pow2_no_overflow;
use vstd::bits::lemma_u64_shl_is_mul;

verus! {

/// The largest valid Hilbert tile id: the last tile of zoom level 31.
pub const MAX_HILBERT_ID: u64 = 6148914691236517204;

/// 32-bit wrapping subtraction, as the rotation step uses it.
pub open spec fn wsub32(a: u32, b: u32) -> u32 {
    vstd::wrapping::u32_specs::wrapping_sub(a, b)
}

/// One Hilbert rotation/reflection step on the coordinates accumulated
/// so far (both below `n`, the current quadrant size).
pub open spec fn rotate_s(n: u32, x: u32, y: u32, rx: u32, ry: u32) -> (u32, u32) {
    if ry == 0 {
        if rx != 0 {
            (wsub32((n - 1) as u32, y), wsub32((n - 1) as u32, x))
        } else {
            (y, x)
        }
    } else {
        (x, y)
    }
}

/// The coordinate fold of [`hilbert_to_zxy`]: one bit plane per step,
/// from plane `a` up to plane `z`.
pub open spec fn h2xy_rec(pos: u64, z: u32, a: u32, x: u32, y: u32) -> (u32, u32)
    decreases z - a,
{
    if a >= z {
        (x, y)
    } else {
        let s = 1u32 << a;
        let rx = s & ((pos as u32) >> 1);
        let ry = s & ((pos as u32) ^ rx);
        let xy = rotate_s(s, x, y, rx, ry);
        h2xy_rec(pos >> 1, z, (a + 1) as u32, (xy.0 + rx) as u32, (xy.1 + ry) as u32)
    }
}

/// The zoom level a Hilbert id belongs to: read off the position of the
/// highest set bit of `3 * id + 1`.
pub open spec fn hilbert_z(id: u64) -> int {
    (63 - vstd::std_specs::bits::u64_leading_zeros((3 * id + 1) as u64)) / 2
}

/// The first id of zoom level `z`: the number of tiles at all lower
/// zooms, `(4^z - 1) / 3`.
pub open spec fn hilbert_acc(z: int) -> int
    recommends
        z >= 0,
{
    (pow2((2 * z) as nat) - 1) / 3
}

/// The accumulator fold of [`zxy_to_hilbert`]: one bit plane per step,
/// from plane `a` down to plane 0.
pub open spec fn z2h_rec(x: u32, y: u32, a: int, acc: int) -> int
    decreases a + 1,
{
    if a < 0 {
        acc
    } else {
        let s = 1u32 << (a as u32);
        let rx = s & x;
        let ry = s & y;
        let xy = rotate_s(s, x, y, rx, ry);
        z2h_rec(xy.0, xy.1, a - 1, acc + ((((3 * rx) as u32) ^ ry) as int) * pow2(a as nat))
    }
}

/// What [`zxy_to_hilbert`] computes for a tile at zoom `z`.
pub open spec fn zxy_to_hilbert_s(z: u8, x: u32, y: u32) -> int {
    z2h_rec(x, y, z - 1, hilbert_acc(z as int))
}

/// A single-bit mask keeps at most that bit.
proof fn lemma_single_bit_mask(a: u32, q: u32)
    requires
        a < 32,
    ensures
        ((1u32 << a) & q) == 0 || ((1u32 << a) & q) == (1u32 << a),
        1u32 << a >= 1,
{
    assert((((1u32 << a) & q) == 0 || ((1u32 << a) & q) == (1u32 << a)) && 1u32 << a >= 1)
        by (bit_vector)
        requires
            a < 32u32,
    ;
}

/// Left shifts of 1 are monotone in the shift amount.
proof fn lemma_shl1_le(a: u32, b: u32)
    requires
        a <= b < 32,
    ensures
        (1u32 << a) <= (1u32 << b),
{
    assert((1u32 << a) <= (1u32 << b)) by (bit_vector)
        requires
            a <= b < 32u32,
    ;
}

/// A word with bit `k` set is at least `2^k`.
proof fn lemma_bit_set_lower_bound(w: u64, k: u64)
    requires
        k < 64,
        (w >> k) & 1u64 != 0,
    ensures
        w >= (1u64 << k),
{
    assert(w >= (1u64 << k)) by (bit_vector)
        requires
            k < 64u64,
            (w >> k) & 1u64 != 0u64,
    ;
}

/// Left shifts of 1 are monotone in the shift amount (64-bit).
proof fn lemma_shl1_le64(a: u64, b: u64)
    requires
        a <= b < 64,
    ensures
        (1u64 << a) <= (1u64 << b),
{
    assert((1u64 << a) <= (1u64 << b)) by (bit_vector)
        requires
            a <= b < 64u64,
    ;
}

/// Adds a Hilbert rotation step's result bounds: coordinates below the
/// quadrant size stay below it.
proof fn lemma_rotate_bound(n: u32, x: u32, y: u32, rx: u32, ry: u32)
    requires
        n >= 1,
        x < n,
        y < n,
    ensures
        rotate_s(n, x, y, rx, ry).0 < n,
        rotate_s(n, x, y, rx, ry).1 < n,
{
}

/// Hilbert rotation step.
fn rotate(n: u32, x: u32, y: u32, rx: u32, ry: u32) -> (r: (u32, u32))
    requires
        n >= 1,
    ensures
        r == rotate_s(n, x, y, rx, ry),
{
    if ry == 0 {
        if rx != 0 {
            let x2 = (n - 1).wrapping_sub(x);
            let y2 = (n - 1).wrapping_sub(y);
            (y2, x2)
        } else {
            (y, x)
        }
    } else {
        (x, y)
    }
}

/// Converts a Hilbert tile id to tile coordinates `(z, x, y)`.
#[verifier::loop_isolation(false)]
pub fn hilbert_to_zxy(id: u64) -> (r: (u8, u32, u32))
    requires
        id <= MAX_HILBERT_ID,
    ensures
        r.0 as int == hilbert_z(id),
        hilbert_acc(hilbert_z(id)) <= id,
        ({
            let z = hilbert_z(id);
            (r.1, r.2) == h2xy_rec((id - hilbert_acc(z)) as u64, z as u32, 0, 0, 0)
        }),
{
    let w = 3 * id + 1;
    let lz = w.leading_zeros();
    proof {
        vstd::std_specs::bits::axiom_u64_leading_zeros(w);
        assert(w != 0);
        assert(lz <= 63);
    }
    let z8 = ((64 - lz - 1) / 2) as u8;
    let zz = z8 as u32;
    proof {
        assert(zz <= 31);
        assert(2 * zz < 64);
        lemma_u64_pow2_no_overflow((2 * zz) as nat);
        lemma_u64_shl_is_mul(1u64, (2 * zz) as u64);
        assert((1u64 << (2 * zz) as u64) == pow2((2 * zz) as nat));
    }
    let acc = ((1u64 << (2 * zz)) - 1) / 3;
    proof {
        // the highest set bit of w sits at plane 63 - lz >= 2 * zz,
        // so w >= 2^(2 * zz) and the zoom's base id is at most id
        let k = (63 - lz) as u64;
        assert((w >> k) & 1u64 != 0);
        lemma_bit_set_lower_bound(w, k);
        lemma_shl1_le64((2 * zz) as u64, k);
        assert(w >= pow2((2 * zz) as nat));
        lemma_div_is_ordered(pow2((2 * zz) as nat) - 1, w - 1, 3);
        lemma_div_by_multiple(id as int, 3);
        assert((w - 1) as int / 3 == id);
        assert(acc as int == hilbert_acc(zz as int));
        assert(acc <= id);
        assert(zz as int == hilbert_z(id));
    }
    let mut pos = id - acc;
    let ghost pos0 = pos;
    let mut x: u32 = 0;
    let mut y: u32 = 0;
    let mut a: u32 = 0;
    proof {
        assert(1u32 << 0u32 == 1) by (bit_vector);
    }
    while a < zz
        invariant
            a <= zz,
            x < (1u32 << a),
            y < (1u32 << a),
            h2xy_rec(pos0, zz, 0, 0, 0) == h2xy_rec(pos, zz, a, x, y),
        decreases zz - a,
    {
        let s = 1u32 << a;
        proof {
            lemma_single_bit_mask(a, #[verifier::truncate] (pos as u32) >> 1);
            lemma_single_bit_mask(a, (#[verifier::truncate] (pos as u32)) ^ (s & (
            #[verifier::truncate] (pos as u32) >> 1)));
            lemma_shl1_le(a, 30);
            assert(1u32 << 30u32 == 0x4000_0000) by (bit_vector);
        }
        let rx = s & (#[verifier::truncate] (pos as u32) >> 1);
        let ry = s & ((#[verifier::truncate] (pos as u32)) ^ rx);
        let rot = rotate(s, x, y, rx, ry);
        proof {
            lemma_rotate_bound(s, x, y, rx, ry);
            assert((1u32 << (a + 1) as u32) == 2 * (1u32 << a)) by (bit_vector)
                requires
                    a < 31u32,
            ;
        }
        pos = pos >> 1;
        x = rot.0 + rx;
        y = rot.1 + ry;
        a = a + 1;
    }
    (z8, x, y)
}

/// Converts tile coordinates `(z, x, y)` to the tile's Hilbert id.
#[verifier::loop_isolation(false)]
pub fn zxy_to_hilbert(z: u8, x: u32, y: u32) -> (r: u64)
    requires
        z <= 31,
    ensures
        r as int == zxy_to_hilbert_s(z, x, y),
{
    proof {
        assert(2 * (z as u32) < 64);
        lemma_u64_pow2_no_overflow((2 * z) as nat);
        lemma_u64_shl_is_mul(1u64, (2 * z) as u64);
        lemma2_to64();
        lemma2_to64_rest();
        if ((2 * z) as nat) < 62 {
            lemma_pow2_strictly_increases((2 * z) as nat, 62);
        }
    }
    let mut acc: u64 = ((1u64 << ((z as u32) * 2)) - 1) / 3;
    proof {
        assert(acc as int == hilbert_acc(z as int));
        assert(pow2((2 * z) as nat) <= pow2(62));
    }
    let mut xx = x;
    let mut yy = y;
    let mut a: u32 = z as u32;
    while a > 0
        invariant
            a <= z,
            z2h_rec(xx, yy, a as int - 1, acc as int) == zxy_to_hilbert_s(z, x, y),
            acc as int <= hilbert_acc(z as int) + pow2((2 * z) as nat) - pow2((2 * a) as nat),
        decreases a,
    {
        a = a - 1;
        let s = 1u32 << a;
        proof {
            lemma_single_bit_mask(a, xx);
            lemma_single_bit_mask(a, yy);
            lemma_shl1_le(a, 30);
            assert(1u32 << 30u32 == 0x4000_0000) by (bit_vector);
        }
        let rx = s & xx;
        let ry = s & yy;
        let t = (3 * rx) ^ ry;
        proof {
            assert(((3 * (s & xx)) as u32 ^ (s & yy)) <= 3 * s) by (bit_vector)
                requires
                    s == 1u32 << a,
                    a < 31u32,
            ;
            // 2^a * 2^a == 2^(2a), and similar plane arithmetic
            lemma_pow2_adds(a as nat, a as nat);
            lemma_pow2_adds((2 * a) as nat, 2);
            lemma_u64_pow2_no_overflow(a as nat);
            vstd::bits::lemma_u32_shl_is_mul(1u32, a);
            assert(s == pow2(a as nat));
            assert((t as int) * pow2(a as nat) <= (3 * pow2(a as nat)) * pow2(a as nat)) by {
                vstd::arithmetic::mul::lemma_mul_inequality(
                    t as int,
                    3 * (pow2(a as nat) as int),
                    pow2(a as nat) as int,
                );
            }
            assert((3 * pow2(a as nat)) * pow2(a as nat) == 3 * pow2((2 * a) as nat)) by {
                vstd::arithmetic::mul::lemma_mul_is_associative(
                    3,
                    pow2(a as nat) as int,
                    pow2(a as nat) as int,
                );
            }
            if ((2 * a) as nat) < 62 {
                lemma_pow2_strictly_increases((2 * a) as nat, 62);
            }
            lemma_u64_shl_is_mul(t as u64, a as u64);
        }
        let term = (t as u64) << a;
        let rot = rotate(s, xx, yy, rx, ry);
        xx = rot.0;
        yy = rot.1;
        proof {
            assert(z2h_rec(xx, yy, a as int - 1, (acc + term) as int) == zxy_to_hilbert_s(
                z,
                x,
                y,
            ));
        }
        acc = acc + term;
    }
    acc
}

} // verus!
