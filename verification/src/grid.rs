//! Arithmetic of cubes that are halved level by level: side lengths, octant
//! numbers, and the sub-cube of a given depth that holds a coordinate.

use vstd::arithmetic::div_mod::lemma_basic_div;
use vstd::arithmetic::div_mod::lemma_div_by_self;
use vstd::arithmetic::div_mod::lemma_div_multiples_vanish;
use vstd::arithmetic::div_mod::lemma_div_pos_is_pos;
use vstd::arithmetic::div_mod::lemma_fundamental_div_mod;
use vstd::arithmetic::div_mod::lemma_fundamental_div_mod_converse_div;
use vstd::arithmetic::div_mod::lemma_fundamental_div_mod_converse_mod;
use vstd::arithmetic::div_mod::lemma_mod_bound;
use vstd::arithmetic::div_mod::lemma_mod_mod;
use vstd::arithmetic::div_mod::lemma_mod_multiples_basic;
use vstd::arithmetic::div_mod::lemma_multiply_divide_lt;
use vstd::arithmetic::div_mod::lemma_small_mod;
use vstd::arithmetic::mul::lemma_mul_is_commutative;
use vstd::arithmetic::power::lemma_pow_multiplies;
use vstd::arithmetic::power::lemma_pow_positive;
use vstd::arithmetic::power::pow;
use vstd::arithmetic::power2::lemma2_to64;
use vstd::arithmetic::power2::lemma_pow2;
use vstd::arithmetic::power2::lemma_pow2_adds;
use vstd::arithmetic::power2::lemma_pow2_pos;
use vstd::arithmetic::power2::lemma_pow2_unfold;
use vstd::arithmetic::power2::pow2;
use vstd::bits::lemma_u32_pow2_no_overflow;
use vstd::bits::lemma_u32_shl_is_mul;
use vstd::prelude::*;

verus! {

/// A cube of side `size` can be halved `depth` times in a row: `size` is a
/// positive multiple of `2^depth`.
pub open spec fn splits(size: nat, depth: nat) -> bool {
    size > 0 && size % pow2(depth) == 0
}

/// The number, 0 to 7, of the octant of a cube of side `size` in which the
/// cell `(x, y, z)` lies. Bit 0 is set when `x` is in the upper half, bit 1
/// when `y` is, bit 2 when `z` is. Coordinates count modulo `size`.
pub open spec fn octant(x: nat, y: nat, z: nat, size: nat) -> int {
    let half = size / 2;
    (if x % size >= half { 1int } else { 0int })
        + (if y % size >= half { 2int } else { 0int })
        + (if z % size >= half { 4int } else { 0int })
}

/// Along one axis of a cube of side `size` cut into `2^depth` slabs of equal
/// width, the number of the slab that holds coordinate `x` (modulo `size`).
pub open spec fn slab(x: nat, size: nat, depth: nat) -> nat {
    (x % size) / (size / pow2(depth))
}

/// The cells `(x, y, z)` and `(u, v, w)` lie in the same sub-cube among the
/// `8^depth` equal sub-cubes of a cube of side `size`.
pub open spec fn same_block(
    x: nat,
    y: nat,
    z: nat,
    u: nat,
    v: nat,
    w: nat,
    size: nat,
    depth: nat,
) -> bool {
    &&& slab(x, size, depth) == slab(u, size, depth)
    &&& slab(y, size, depth) == slab(v, size, depth)
    &&& slab(z, size, depth) == slab(w, size, depth)
}

/// The place of the cell `(x, y, z)` among the `8^depth` sub-cubes of depth
/// `depth` of a cube of side `size`, in the order that goes through the
/// octants by their numbers and through each octant in the same way. All
/// the cells of one sub-cube have its place.
pub open spec fn rank(x: nat, y: nat, z: nat, size: nat, depth: nat) -> int
    decreases depth,
{
    if depth == 0 {
        0
    } else {
        let half = size / 2;
        let below = (depth - 1) as nat;
        octant(x, y, z, size) * pow(8, below) + rank(x % half, y % half, z % half, half, below)
    }
}

/// The cell at the low corner of the sub-cube that has the place `place`
/// among the `8^depth` sub-cubes of depth `depth` of a cube of side `size`.
pub open spec fn corner(place: int, size: nat, depth: nat) -> (nat, nat, nat)
    decreases depth,
{
    if depth == 0 {
        (0, 0, 0)
    } else {
        let half = size / 2;
        let below = (depth - 1) as nat;
        let i = place / pow(8, below);
        let (x, y, z) = corner(place % pow(8, below), half, below);
        (
            if i % 2 == 1 {
                x + half
            } else {
                x
            },
            if (i / 2) % 2 == 1 {
                y + half
            } else {
                y
            },
            if i / 4 == 1 {
                z + half
            } else {
                z
            },
        )
    }
}

/// The side length `2^depth` of a cube that is `depth` halvings above a
/// unit cell.
pub fn side_length(depth: u32) -> (size: u32)
    requires
        depth < 32,
    ensures
        size == pow2(depth as nat),
{
    proof {
        lemma_u32_pow2_no_overflow(depth as nat);
        lemma_u32_shl_is_mul(1u32, depth);
    }
    1u32 << depth
}

/// The octant number of the cell `(x, y, z)` in a cube of side `size`.
pub fn octant_index(x: u32, y: u32, z: u32, size: u32) -> (index: usize)
    requires
        size > 0,
    ensures
        index == octant(x as nat, y as nat, z as nat, size as nat),
        index < 8,
{
    let half = size / 2;
    let mut index: usize = 0;
    if x % size >= half {
        index += 1;
    }
    if y % size >= half {
        index += 2;
    }
    if z % size >= half {
        index += 4;
    }
    index
}

/// A cube of depth `depth` has `8^depth = 2^(3 * depth)` unit cells.
pub proof fn lemma_cell_count(depth: nat)
    ensures
        pow(8, depth) == pow2(3 * depth),
{
    lemma2_to64();
    lemma_pow2(3);
    lemma_pow_multiplies(2, 3, depth);
    lemma_pow2(3 * depth);
}

/// A cube that splits `depth > 0` times has an even side of at least 2, its
/// half splits once less, and both end at sub-cubes of the same side.
pub proof fn lemma_splits_halves(size: nat, depth: nat)
    requires
        depth > 0,
        splits(size, depth),
    ensures
        size >= 2,
        size % 2 == 0,
        splits(size / 2, (depth - 1) as nat),
        (size / 2) / pow2((depth - 1) as nat) == size / pow2(depth),
{
    let count = pow2((depth - 1) as nat) as int;
    let width = (size / pow2(depth)) as int;
    lemma_block_side(size, depth);
    lemma_pow2_pos((depth - 1) as nat);
    lemma_pow2_unfold(depth);
    assert(size == 2 * (count * width)) by (nonlinear_arith)
        requires
            size == (2 * count) * width,
    ;
    lemma_mul_is_commutative(count, width);
    lemma_mod_multiples_basic(width, count);
    lemma_div_multiples_vanish(width, count);
}

/// A cube of twice the side of one that splits `depth` times splits once
/// more.
pub proof fn lemma_splits_doubles(half: nat, depth: nat)
    requires
        splits(half, depth),
    ensures
        splits(2 * half, depth + 1),
{
    let count = pow2(depth) as int;
    let width = (half / pow2(depth)) as int;
    lemma_block_side(half, depth);
    lemma_pow2_pos(depth);
    lemma_pow2_unfold(depth + 1);
    assert(2 * half == width * (2 * count)) by (nonlinear_arith)
        requires
            count * width == half,
    ;
    lemma_mod_multiples_basic(width, 2 * count);
}

/// The `2^depth` sub-cubes along an axis of a cube that splits `depth`
/// times have a positive side, and together make up the side of the cube.
pub proof fn lemma_block_side(size: nat, depth: nat)
    requires
        splits(size, depth),
    ensures
        size / pow2(depth) > 0,
        pow2(depth) * (size / pow2(depth)) == size,
{
    let count = pow2(depth) as int;
    let width = (size / pow2(depth)) as int;
    lemma_pow2_pos(depth);
    lemma_fundamental_div_mod(size as int, count);
    assert(width > 0) by (nonlinear_arith)
        requires
            count > 0,
            count * width > 0,
    ;
}

/// A coordinate taken modulo the side of a cube and then modulo the side of
/// its sub-cubes is the coordinate modulo the side of the sub-cubes.
pub proof fn lemma_mod_width(x: nat, size: nat, depth: nat)
    requires
        splits(size, depth),
    ensures
        (x % size) % (size / pow2(depth)) == x % (size / pow2(depth)),
{
    let count = pow2(depth) as int;
    let width = (size / pow2(depth)) as int;
    lemma_pow2_pos(depth);
    lemma_block_side(size, depth);
    lemma_mul_is_commutative(count, width);
    lemma_mod_mod(x as int, width, count);
}

/// A cube of side `2^levels` splits `depth` times for every `depth` up to
/// `levels`, down to sub-cubes of side `2^(levels - depth)`.
pub proof fn lemma_pow2_splits(levels: nat, depth: nat)
    requires
        depth <= levels,
    ensures
        splits(pow2(levels), depth),
        pow2(levels) / pow2(depth) == pow2((levels - depth) as nat),
{
    let rest = (levels - depth) as nat;
    lemma_pow2_pos(levels);
    lemma_pow2_pos(depth);
    lemma_pow2_adds(depth, rest);
    lemma_mul_is_commutative(pow2(depth) as int, pow2(rest) as int);
    lemma_mod_multiples_basic(pow2(rest) as int, pow2(depth) as int);
    lemma_div_multiples_vanish(pow2(rest) as int, pow2(depth) as int);
}

/// Reducing a coordinate modulo the half side drops the upper half's
/// offset and nothing else.
pub proof fn lemma_mod_half(x: nat, size: nat)
    requires
        size >= 2,
        size % 2 == 0,
    ensures
        (x % size) % (size / 2) == x % (size / 2),
        x % size < size / 2 ==> x % (size / 2) == x % size,
        x % size >= size / 2 ==> x % (size / 2) == x % size - size / 2,
{
    let half = (size / 2) as int;
    lemma_mod_mod(x as int, half, 2);
    assert(half * 2 == size);
    let a = (x % size) as int;
    if a < half {
        lemma_small_mod(a as nat, half as nat);
    } else {
        lemma_fundamental_div_mod_converse_mod(a, half, 1, a - half);
    }
}

/// The slab of a coordinate at `depth > 0` is its slab within its half at
/// one depth less, counted after the `2^(depth - 1)` slabs of the lower
/// half where the coordinate is in the upper one.
pub proof fn lemma_slab_step(x: nat, size: nat, depth: nat)
    requires
        depth > 0,
        splits(size, depth),
    ensures
        0 <= slab(x % (size / 2), size / 2, (depth - 1) as nat) < pow2((depth - 1) as nat),
        slab(x, size, depth) == slab(x % (size / 2), size / 2, (depth - 1) as nat) + (if x % size
            >= size / 2 {
            pow2((depth - 1) as nat)
        } else {
            0
        }),
{
    let half = (size / 2) as int;
    let count = pow2((depth - 1) as nat) as int;
    let width = (size / pow2(depth)) as int;
    let a = (x % size) as int;
    let r = (x % (size / 2)) as int;
    lemma_splits_halves(size, depth);
    lemma_mod_half(x, size);
    lemma_block_side(size / 2, (depth - 1) as nat);
    lemma_small_mod(r as nat, half as nat);
    lemma_mul_is_commutative(count, width);
    lemma_multiply_divide_lt(r, width, count);
    lemma_div_pos_is_pos(r, width);
    if a >= half {
        lemma_fundamental_div_mod(r, width);
        let q = r / width;
        assert(a == (q + count) * width + r % width) by (nonlinear_arith)
            requires
                a == r + count * width,
                r == width * q + r % width,
        ;
        lemma_fundamental_div_mod_converse_div(a, width, q + count, r % width);
    }
}

/// At depth 0 the whole cube is the one sub-cube, and holds every cell.
pub proof fn lemma_same_block_whole(x: nat, y: nat, z: nat, u: nat, v: nat, w: nat, size: nat)
    requires
        size > 0,
    ensures
        same_block(x, y, z, u, v, w, size, 0),
{
    lemma2_to64();
    lemma_slab_whole(x, size);
    lemma_slab_whole(y, size);
    lemma_slab_whole(z, size);
    lemma_slab_whole(u, size);
    lemma_slab_whole(v, size);
    lemma_slab_whole(w, size);
}

/// At depth 0 an axis has the one slab 0.
proof fn lemma_slab_whole(x: nat, size: nat)
    requires
        size > 0,
    ensures
        slab(x, size, 0) == 0,
{
    lemma2_to64();
    lemma_mod_bound(x as int, size as int);
    lemma_basic_div((x % size) as int, size as int);
}

/// In a cube of side `2^depth` the sub-cubes of depth `depth` are the unit
/// cells: two cells inside the cube share one exactly when they are the
/// same cell.
pub proof fn lemma_same_block_unit(x: nat, y: nat, z: nat, u: nat, v: nat, w: nat, depth: nat)
    requires
        x < pow2(depth),
        y < pow2(depth),
        z < pow2(depth),
        u < pow2(depth),
        v < pow2(depth),
        w < pow2(depth),
    ensures
        same_block(x, y, z, u, v, w, pow2(depth), depth) <==> x == u && y == v && z == w,
{
    let side = pow2(depth);
    lemma_div_by_self(side as int);
    lemma_small_mod(x, side);
    lemma_small_mod(y, side);
    lemma_small_mod(z, side);
    lemma_small_mod(u, side);
    lemma_small_mod(v, side);
    lemma_small_mod(w, side);
}

/// Two cells share a sub-cube of depth `depth > 0` exactly when they share
/// an octant and, within it, a sub-cube of one depth less.
pub proof fn lemma_same_block_step(
    x: nat,
    y: nat,
    z: nat,
    u: nat,
    v: nat,
    w: nat,
    size: nat,
    depth: nat,
)
    requires
        depth > 0,
        splits(size, depth),
    ensures
        same_block(x, y, z, u, v, w, size, depth) <==> (octant(x, y, z, size) == octant(
            u,
            v,
            w,
            size,
        ) && same_block(
            x % (size / 2),
            y % (size / 2),
            z % (size / 2),
            u % (size / 2),
            v % (size / 2),
            w % (size / 2),
            size / 2,
            (depth - 1) as nat,
        )),
{
    let half = size / 2;
    lemma_slab_pair(x, u, size, depth);
    lemma_slab_pair(y, v, size, depth);
    lemma_slab_pair(z, w, size, depth);
    assert(octant(x, y, z, size) == octant(u, v, w, size) <==> ((x % size >= half) == (u % size
        >= half) && (y % size >= half) == (v % size >= half) && (z % size >= half) == (w % size
        >= half)));
}

/// Along one axis, two coordinates share a slab of depth `depth > 0` exactly
/// when they share a half and, within it, a slab of one depth less.
proof fn lemma_slab_pair(x: nat, u: nat, size: nat, depth: nat)
    requires
        depth > 0,
        splits(size, depth),
    ensures
        slab(x, size, depth) == slab(u, size, depth) <==> ((x % size >= size / 2) == (u % size
            >= size / 2) && slab(x % (size / 2), size / 2, (depth - 1) as nat) == slab(
            u % (size / 2),
            size / 2,
            (depth - 1) as nat,
        )),
{
    lemma_slab_step(x, size, depth);
    lemma_slab_step(u, size, depth);
}

/// A place among `8^depth` sub-cubes is one of `0` to `8^depth - 1`.
pub proof fn lemma_rank_bound(x: nat, y: nat, z: nat, size: nat, depth: nat)
    requires
        splits(size, depth),
    ensures
        0 <= rank(x, y, z, size, depth) < pow(8, depth),
    decreases depth,
{
    reveal(pow);
    if depth > 0 {
        let half = size / 2;
        let below = (depth - 1) as nat;
        let i = octant(x, y, z, size);
        let step = pow(8, below);
        lemma_splits_halves(size, depth);
        lemma_rank_bound(x % half, y % half, z % half, half, below);
        assert(0 <= i * step <= 7 * step) by (nonlinear_arith)
            requires
                0 <= i <= 7,
                step > 0,
        ;
    }
}

/// Two cells have the same place at a depth exactly when they lie in the
/// same sub-cube of that depth.
pub proof fn lemma_rank_same_block(
    x: nat,
    y: nat,
    z: nat,
    u: nat,
    v: nat,
    w: nat,
    size: nat,
    depth: nat,
)
    requires
        splits(size, depth),
    ensures
        rank(x, y, z, size, depth) == rank(u, v, w, size, depth) <==> same_block(
            x,
            y,
            z,
            u,
            v,
            w,
            size,
            depth,
        ),
    decreases depth,
{
    if depth == 0 {
        lemma_same_block_whole(x, y, z, u, v, w, size);
    } else {
        let half = size / 2;
        let below = (depth - 1) as nat;
        let step = pow(8, below);
        let i = octant(x, y, z, size);
        let j = octant(u, v, w, size);
        let p = rank(x % half, y % half, z % half, half, below);
        let q = rank(u % half, v % half, w % half, half, below);
        lemma_splits_halves(size, depth);
        lemma_same_block_step(x, y, z, u, v, w, size, depth);
        lemma_rank_same_block(
            x % half,
            y % half,
            z % half,
            u % half,
            v % half,
            w % half,
            half,
            below,
        );
        lemma_rank_bound(x % half, y % half, z % half, half, below);
        lemma_rank_bound(u % half, v % half, w % half, half, below);
        assert(i * step + p == j * step + q <==> i == j && p == q) by (nonlinear_arith)
            requires
                0 <= p < step,
                0 <= q < step,
        ;
    }
}

/// Every place below `8^depth` is the place of a cell of the cube: the low
/// corner of the sub-cube with that place.
pub proof fn lemma_corner_rank(place: int, size: nat, depth: nat)
    requires
        splits(size, depth),
        0 <= place < pow(8, depth),
    ensures
        corner(place, size, depth).0 < size,
        corner(place, size, depth).1 < size,
        corner(place, size, depth).2 < size,
        rank(
            corner(place, size, depth).0,
            corner(place, size, depth).1,
            corner(place, size, depth).2,
            size,
            depth,
        ) == place,
    decreases depth,
{
    reveal(pow);
    if depth > 0 {
        let half = size / 2;
        let below = (depth - 1) as nat;
        let step = pow(8, below);
        let i = place / step;
        let rest = place % step;
        let (a, b, c) = corner(rest, half, below);
        let (x, y, z) = corner(place, size, depth);
        lemma_splits_halves(size, depth);
        lemma_pow_positive(8, below);
        lemma_fundamental_div_mod(place, step);
        lemma_mod_bound(place, step);
        lemma_div_pos_is_pos(place, step);
        lemma_multiply_divide_lt(place, step, 8);
        lemma_corner_rank(rest, half, below);
        lemma_small_mod(x, size);
        lemma_small_mod(y, size);
        lemma_small_mod(z, size);
        lemma_mod_half(x, size);
        lemma_mod_half(y, size);
        lemma_mod_half(z, size);
        assert(octant(x, y, z, size) == i);
        assert(x % half == a && y % half == b && z % half == c);
        assert(rank(x, y, z, size, depth) == i * step + rank(a, b, c, half, below));
        assert(i * step == step * i) by (nonlinear_arith);
    }
}

} // verus!
