//! Integer core of the terrain noise: floored division for lattice cells and
//! the hash that picks the gradient at each lattice point.
//!
//! The gradients themselves (an angle taken from the hash) and the smooth
//! interpolation between them are floating point and are computed by the
//! caller from the hashes produced here.
use vstd::prelude::*;
use vstd::arithmetic::div_mod::{
    lemma_div_is_ordered_by_denominator,
    lemma_fundamental_div_mod,
    lemma_fundamental_div_mod_converse,
};
use vstd::wrapping::u32_specs;

verus! {

/// Absolute value.
pub open spec fn abs(x: int) -> int {
    if x >= 0 {
        x
    } else {
        -x
    }
}

/// The value of `b as i32` (two's complement reinterpretation).
pub open spec fn i32_of(b: u32) -> int {
    if b <= 0x7fff_ffff {
        b as int
    } else {
        b - 0x1_0000_0000
    }
}

/// Integer division rounding toward zero (Rust's `/` on signed integers).
pub open spec fn trunc_div(a: int, d: int) -> int {
    if (a >= 0) == (d > 0) {
        abs(a) / abs(d)
    } else {
        -(abs(a) / abs(d))
    }
}

/// Remainder of the division rounding toward zero (Rust's `%` on signed
/// integers): it has the sign of the dividend.
pub open spec fn trunc_rem(a: int, d: int) -> int {
    if a >= 0 {
        abs(a) % abs(d)
    } else {
        -(abs(a) % abs(d))
    }
}

/// `floor_div(a, b)`: the truncated quotient of `a` by `b as i32`, lowered by
/// one when the remainder is negative.
pub open spec fn spec_floor_div(a: int, b: u32) -> int {
    let d = i32_of(b);
    if trunc_rem(a, d) < 0 {
        trunc_div(a, d) - 1
    } else {
        trunc_div(a, d)
    }
}

/// `floor_mod(a, b)`: the truncated remainder of `a` by `b as i32`, raised by
/// `b as i32` when it is negative.
pub open spec fn spec_floor_mod(a: int, b: u32) -> int {
    let d = i32_of(b);
    if trunc_rem(a, d) < 0 {
        trunc_rem(a, d) + d
    } else {
        trunc_rem(a, d)
    }
}

/// Quotient and remainder of `a / (b as i32)` and `a % (b as i32)`.
fn truncating_parts(a: i32, b: u32) -> (r: (i64, i64))
    requires
        b != 0,
    ensures
        r.0 == trunc_div(a as int, i32_of(b)),
        r.1 == trunc_rem(a as int, i32_of(b)),
        -0x8000_0000 <= r.0 <= 0x8000_0000,
        -0x8000_0000 < r.1 < 0x8000_0000,
        abs(r.1 as int) < abs(i32_of(b)),
        abs(r.0 as int) <= abs(a as int),
        r.1 != 0 ==> abs(r.0 as int) <= 0x4000_0000,
        r.0 == 0x8000_0000 ==> a == i32::MIN && b == u32::MAX,
{
    proof {
        let na = abs(a as int);
        let nd = abs(i32_of(b));
        lemma_div_is_ordered_by_denominator(na, 1, nd);
        if nd >= 2 {
            lemma_div_is_ordered_by_denominator(na, 2, nd);
        }
        assert(na % 1 == 0);
        assert(na / 1 == na);
    }
    let wrapped = b as i32;
    assert(b > 0x7fff_ffffu32 ==> wrapped == b - 0x1_0000_0000) by (bit_vector)
        requires
            wrapped == b as i32,
    ;
    assert(b <= 0x7fff_ffffu32 ==> wrapped == b) by (bit_vector)
        requires
            wrapped == b as i32,
    ;
    let ai = a as i64;
    let di = wrapped as i64;
    if di > 0 {
        (ai / di, ai % di)
    } else {
        let nd = -di;
        (-(ai / nd), ai % nd)
    }
}

/// Division of `a` by `b` rounding toward negative infinity, for the lattice
/// cell that holds coordinate `a` when cells are `b` wide.
pub fn floor_div(a: i32, b: u32) -> (r: i32)
    requires
        b != 0,
        !(a == i32::MIN && b == u32::MAX),
    ensures
        r == spec_floor_div(a as int, b),
{
    let (d, r) = truncating_parts(a, b);
    if r < 0 {
        (d - 1) as i32
    } else {
        d as i32
    }
}

/// Remainder of `a` by `b` that is never negative for positive `b`: the
/// offset of coordinate `a` inside its lattice cell.
pub fn floor_mod(a: i32, b: u32) -> (r: i32)
    requires
        b != 0,
        !(a == i32::MIN && b == u32::MAX),
        i32_of(b) < 0 ==> trunc_rem(a as int, i32_of(b)) >= 0 || trunc_rem(a as int, i32_of(b))
            + i32_of(b) >= i32::MIN,
    ensures
        r == spec_floor_mod(a as int, b),
{
    let (_, r) = truncating_parts(a, b);
    let wrapped = b as i32;
    assert(b > 0x7fff_ffffu32 ==> wrapped == b - 0x1_0000_0000) by (bit_vector)
        requires
            wrapped == b as i32,
    ;
    assert(b <= 0x7fff_ffffu32 ==> wrapped == b) by (bit_vector)
        requires
            wrapped == b as i32,
    ;
    if r < 0 {
        (r + wrapped as i64) as i32
    } else {
        r as i32
    }
}

/// For a positive cell width, `floor_div` and `floor_mod` are the floored
/// quotient and remainder: every coordinate is its cell times the width plus
/// an offset in `0..b`.
pub proof fn lemma_floor_div_mod(a: int, b: u32)
    requires
        0 < b <= i32::MAX,
    ensures
        spec_floor_div(a, b) == a / (b as int),
        spec_floor_mod(a, b) == a % (b as int),
        a == spec_floor_div(a, b) * b + spec_floor_mod(a, b),
        0 <= spec_floor_mod(a, b) < b,
{
    let q = trunc_div(a, b as int);
    let r = trunc_rem(a, b as int);
    if a >= 0 {
        lemma_fundamental_div_mod(a, b as int);
        lemma_fundamental_div_mod_converse(a, b as int, q, r);
    } else {
        let na = -a;
        lemma_fundamental_div_mod(na, b as int);
        if r < 0 {
            assert(a == (q - 1) * b + (r + b)) by (nonlinear_arith)
                requires
                    na == (na / (b as int)) * b + na % (b as int),
                    q == -(na / (b as int)),
                    r == -(na % (b as int)),
                    a == -na,
            ;
            lemma_fundamental_div_mod_converse(a, b as int, q - 1, r + b);
        } else {
            assert(a == q * b + r) by (nonlinear_arith)
                requires
                    na == (na / (b as int)) * b + na % (b as int),
                    q == -(na / (b as int)),
                    r == -(na % (b as int)),
                    a == -na,
            ;
            lemma_fundamental_div_mod_converse(a, b as int, q, r);
        }
    }
}

/// The hash of lattice point `(x, y)` under `seed` from which the gradient
/// at that point is derived.
#[verifier::opaque]
pub open spec fn spec_lattice_hash(x: i32, y: i32, seed: u32) -> u32 {
    let h1 = u32_specs::wrapping_mul(u32_specs::wrapping_add(seed, x as u32), 0x85ebca6b);
    let h2 = u32_specs::wrapping_mul(u32_specs::wrapping_add(h1, y as u32), 0xc2b2ae35);
    let h3 = h2 ^ (h2 >> 16u32);
    u32_specs::wrapping_mul(h3, 0x85ebca6b)
}

/// Hash of a lattice point (the integer part of picking a random gradient).
pub fn lattice_hash(x: i32, y: i32, seed: u32) -> (r: u32)
    ensures
        r == spec_lattice_hash(x, y, seed),
{
    reveal(spec_lattice_hash);
    let mut h = seed.wrapping_add(x as u32).wrapping_mul(0x85ebca6b);
    h = h.wrapping_add(y as u32).wrapping_mul(0xc2b2ae35);
    h ^= h >> 16;
    h = h.wrapping_mul(0x85ebca6b);
    h
}

/// An `i32` taken as a `u32` is its two's complement.
proof fn lemma_i32_as_u32(x: i32)
    ensures
        (x as u32) as int == (if x < 0 { x + 0x1_0000_0000 } else { x as int }),
{
    assert(x < 0 ==> (x as u32) as u64 == (x as i64 + 0x1_0000_0000i64) as u64) by (bit_vector);
    assert(x >= 0 ==> (x as u32) as u64 == x as u64) by (bit_vector);
}

/// Wrapping addition is addition modulo 2^32.
proof fn lemma_wrapping_add_mod(a: u32, b: u32)
    ensures
        u32_specs::wrapping_add(a, b) as int == (a + b) % 0x1_0000_0000,
{
}

/// Wrapping multiplication is multiplication modulo 2^32.
proof fn lemma_wrapping_mul_mod(a: u32, b: u32)
    ensures
        u32_specs::wrapping_mul(a, b) as int == (a * b) % 0x1_0000_0000,
{
}

/// The hash reads the column `x`, as its two's complement, only through
/// its sum with the seed modulo 2^32: two columns and seeds with the same
/// sum give the same hash on every row. (So a column and its mirror image
/// `-x` hash as two different columns do.)
pub proof fn lemma_lattice_hash_column_and_seed(x1: i32, seed1: u32, x2: i32, seed2: u32, y: i32)
    requires
        (seed1 + x1 - seed2 - x2) % 0x1_0000_0000 == 0,
    ensures
        spec_lattice_hash(x1, y, seed1) == spec_lattice_hash(x2, y, seed2),
{
    reveal(spec_lattice_hash);
    lemma_i32_as_u32(x1);
    lemma_i32_as_u32(x2);
    lemma_wrapping_add_mod(seed1, x1 as u32);
    lemma_wrapping_add_mod(seed2, x2 as u32);
    let m: int = 0x1_0000_0000;
    let a1: int = seed1 + (x1 as u32) as int;
    let a2: int = seed2 + (x2 as u32) as int;
    assert((a1 - a2) % m == 0) by {
        assert(a1 - a2 == (seed1 + x1 - seed2 - x2) + m * ((if x1 < 0 { 1int } else { 0int }) - (if x2 < 0 {
            1int
        } else {
            0int
        })));
        vstd::arithmetic::div_mod::lemma_mod_multiples_vanish(
            (if x1 < 0 { 1int } else { 0int }) - (if x2 < 0 { 1int } else { 0int }),
            seed1 + x1 - seed2 - x2,
            m,
        );
    }
    assert(a1 % m == a2 % m) by {
        vstd::arithmetic::div_mod::lemma_fundamental_div_mod(a1 - a2, m);
        vstd::arithmetic::div_mod::lemma_mod_multiples_vanish((a1 - a2) / m, a2, m);
    }
    assert(u32_specs::wrapping_add(seed1, x1 as u32) == u32_specs::wrapping_add(seed2, x2 as u32));
}

/// The value the hash mixes once the row is added: the column stage
/// `0x85ebca6b * (seed + x)` plus `y`, modulo 2^32 (both coordinates taken
/// as their two's complement).
proof fn lemma_row_stage(x: i32, y: i32, seed: u32)
    ensures
        u32_specs::wrapping_add(
            u32_specs::wrapping_mul(u32_specs::wrapping_add(seed, x as u32), 0x85ebca6b),
            y as u32,
        ) as int == (0x85ebca6b * (seed + x) + y) % 0x1_0000_0000,
{
    let m: int = 0x1_0000_0000;
    let c: int = 0x85ebca6b;
    lemma_i32_as_u32(x);
    lemma_i32_as_u32(y);
    let w = u32_specs::wrapping_add(seed, x as u32);
    lemma_wrapping_add_mod(seed, x as u32);
    let h = u32_specs::wrapping_mul(w, 0x85ebca6b);
    lemma_wrapping_mul_mod(w, 0x85ebca6b);
    lemma_wrapping_add_mod(h, y as u32);
    let t: int = c * (seed + x) + y;
    let k: int = if x < 0 { 1 } else { 0 };
    let j: int = if y < 0 { 1 } else { 0 };
    assert(w as int == (seed + x + m * k) % m);
    vstd::arithmetic::div_mod::lemma_mod_multiples_vanish(k, seed + x, m);
    vstd::arithmetic::div_mod::lemma_mul_mod_noop_right(c, seed + x, m);
    assert(h as int == (c * (seed + x)) % m);
    vstd::arithmetic::div_mod::lemma_add_mod_noop(c * (seed + x), y + m * j, m);
    vstd::arithmetic::div_mod::lemma_mod_multiples_vanish(j, c * (seed + x) + y, m);
    vstd::arithmetic::div_mod::lemma_mod_twice(c * (seed + x), m);
    vstd::arithmetic::div_mod::lemma_add_mod_noop(h as int, y + m * j, m);
    assert(c * (seed + x) + (y + m * j) == m * j + t);
    assert(h + (y as u32) as int == h + (y + m * j));
}

/// Multiplying by `c` modulo 2^32 is undone by multiplying by `inv`, an
/// inverse of `c` modulo 2^32.
proof fn lemma_mul_undone(a: int, c: int, inv: int)
    requires
        0 <= a < 0x1_0000_0000,
        (c * inv) % 0x1_0000_0000 == 1,
    ensures
        ((a * c) % 0x1_0000_0000 * inv) % 0x1_0000_0000 == a,
{
    let m: int = 0x1_0000_0000;
    vstd::arithmetic::div_mod::lemma_mul_mod_noop_left(a * c, inv, m);
    vstd::arithmetic::mul::lemma_mul_is_associative(a, c, inv);
    vstd::arithmetic::div_mod::lemma_mul_mod_noop_right(a, c * inv, m);
    vstd::arithmetic::div_mod::lemma_small_mod(a as nat, m as nat);
}

/// The hash reads the row `y`, as its two's complement, only through its
/// sum modulo 2^32 with the column stage `0x85ebca6b * (seed + x)`, and
/// every later stage is one to one: two lattice points get the same hash
/// exactly when those sums agree. (So mirror images `-x` or `-y` hash as
/// two different columns or rows do.)
pub proof fn lemma_lattice_hash_collisions(x1: i32, y1: i32, seed1: u32, x2: i32, y2: i32, seed2: u32)
    ensures
        spec_lattice_hash(x1, y1, seed1) == spec_lattice_hash(x2, y2, seed2) <==> (0x85ebca6b * (seed1
            + x1) + y1 - 0x85ebca6b * (seed2 + x2) - y2) % 0x1_0000_0000 == 0,
{
    reveal(spec_lattice_hash);
    let m: int = 0x1_0000_0000;
    let t1: int = 0x85ebca6b * (seed1 + x1) + y1;
    let t2: int = 0x85ebca6b * (seed2 + x2) + y2;
    lemma_row_stage(x1, y1, seed1);
    lemma_row_stage(x2, y2, seed2);
    vstd::arithmetic::div_mod::lemma_mod_equivalence(t1, t2, m);
    let v1 = u32_specs::wrapping_add(
        u32_specs::wrapping_mul(u32_specs::wrapping_add(seed1, x1 as u32), 0x85ebca6b),
        y1 as u32,
    );
    let v2 = u32_specs::wrapping_add(
        u32_specs::wrapping_mul(u32_specs::wrapping_add(seed2, x2 as u32), 0x85ebca6b),
        y2 as u32,
    );
    assert(v1 == v2 <==> t1 % m == t2 % m);
    let a1 = u32_specs::wrapping_mul(v1, 0xc2b2ae35);
    let a2 = u32_specs::wrapping_mul(v2, 0xc2b2ae35);
    let b1 = a1 ^ (a1 >> 16u32);
    let b2 = a2 ^ (a2 >> 16u32);
    let r1 = u32_specs::wrapping_mul(b1, 0x85ebca6b);
    let r2 = u32_specs::wrapping_mul(b2, 0x85ebca6b);
    assert(spec_lattice_hash(x1, y1, seed1) == r1);
    assert(spec_lattice_hash(x2, y2, seed2) == r2);
    if r1 == r2 {
        lemma_wrapping_mul_mod(b1, 0x85ebca6b);
        lemma_wrapping_mul_mod(b2, 0x85ebca6b);
        assert((0x85ebca6b * 0xa5cb9243int) % m == 1);
        lemma_mul_undone(b1 as int, 0x85ebca6b, 0xa5cb9243);
        lemma_mul_undone(b2 as int, 0x85ebca6b, 0xa5cb9243);
        assert(b1 == b2);
        assert(a1 == a2) by (bit_vector)
            requires
                a1 ^ (a1 >> 16u32) == a2 ^ (a2 >> 16u32),
        ;
        lemma_wrapping_mul_mod(v1, 0xc2b2ae35);
        lemma_wrapping_mul_mod(v2, 0xc2b2ae35);
        assert((0xc2b2ae35 * 0x7ed1b41dint) % m == 1);
        lemma_mul_undone(v1 as int, 0xc2b2ae35, 0x7ed1b41d);
        lemma_mul_undone(v2 as int, 0xc2b2ae35, 0x7ed1b41d);
        assert(v1 == v2);
    }
}

/// The hash reads the row `y` only through its sum modulo 2^32 with the
/// column stage: two points whose sums agree get the same hash.
pub proof fn lemma_lattice_hash_row(x1: i32, y1: i32, seed1: u32, x2: i32, y2: i32, seed2: u32)
    requires
        (0x85ebca6b * (seed1 + x1) + y1 - 0x85ebca6b * (seed2 + x2) - y2) % 0x1_0000_0000 == 0,
    ensures
        spec_lattice_hash(x1, y1, seed1) == spec_lattice_hash(x2, y2, seed2),
{
    lemma_lattice_hash_collisions(x1, y1, seed1, x2, y2, seed2);
}

/// The hash computed stage by stage from given intermediate values.
proof fn lemma_lattice_hash_stages(x: i32, y: i32, seed: u32, h1: u32, h2: u32, h3: u32, r: u32)
    requires
        h1 as int == ((seed + (if x < 0 { x + 0x1_0000_0000 } else { x as int })) % 0x1_0000_0000
            * 0x85ebca6b) % 0x1_0000_0000,
        h2 as int == ((h1 + (if y < 0 { y + 0x1_0000_0000 } else { y as int })) % 0x1_0000_0000
            * 0xc2b2ae35) % 0x1_0000_0000,
        h3 == h2 ^ (h2 >> 16u32),
        r as int == (h3 * 0x85ebca6b) % 0x1_0000_0000,
    ensures
        spec_lattice_hash(x, y, seed) == r,
{
    reveal(spec_lattice_hash);
    lemma_i32_as_u32(x);
    lemma_i32_as_u32(y);
    lemma_wrapping_add_mod(seed, x as u32);
    let w = u32_specs::wrapping_add(seed, x as u32);
    lemma_wrapping_mul_mod(w, 0x85ebca6b);
    lemma_wrapping_add_mod(h1, y as u32);
    let w2 = u32_specs::wrapping_add(h1, y as u32);
    lemma_wrapping_mul_mod(w2, 0xc2b2ae35);
    lemma_wrapping_mul_mod(h3, 0x85ebca6b);
}

/// The hash of a few points next to the origin: mirror images across an
/// axis hash differently.
pub proof fn lemma_lattice_hash_values()
    ensures
        spec_lattice_hash(-1i32, 0, 42) == 3909643553u32,
        spec_lattice_hash(1, 0, 42) == 1340846675u32,
        spec_lattice_hash(0, -1i32, 42) == 83872556u32,
        spec_lattice_hash(0, 1, 42) == 2077546368u32,
{
    assert(2577201215u32 ^ (2577201215u32 >> 16u32) == 2577162659u32) by (bit_vector);
    lemma_lattice_hash_stages(-1i32, 0, 42, 1925409571, 2577201215, 2577162659, 3909643553);
    assert(1026833549u32 ^ (1026833549u32 >> 16u32) == 1026818489u32) by (bit_vector);
    lemma_lattice_hash_stages(1, 0, 42, 2124087289, 1026833549, 1026818489, 1340846675);
    assert(2830494769u32 ^ (2830494769u32 >> 16u32) == 2830451844u32) by (bit_vector);
    lemma_lattice_hash_stages(0, -1i32, 42, 4172232078, 2830494769, 2830451844, 83872556);
    assert(773539995u32 ^ (773539995u32 >> 16u32) == 773547648u32) by (bit_vector);
    lemma_lattice_hash_stages(0, 1, 42, 4172232078, 773539995, 773547648, 2077546368);
}

/// Parameters of one chunk's noise lattice.
#[derive(PartialEq, Eq, Structural, Debug, Clone, Copy)]
pub struct PerlinNoiseParams {
    pub seed: u32,
    pub chunk_x: i32,
    pub chunk_y: i32,
    pub gradient_spacing: u32,
    pub chunk_width: u32,
}

/// Number of lattice cells across a chunk.
#[verifier::opaque]
pub open spec fn grid_cells(p: PerlinNoiseParams) -> int {
    trunc_div(i32_of(p.chunk_width), i32_of(p.gradient_spacing))
}

/// Number of lattice points along each side of a chunk's lattice.
pub open spec fn grad_size(p: PerlinNoiseParams) -> int {
    grid_cells(p) + 2
}

/// The world lattice coordinate of point `i` of a chunk whose first point
/// sits at `chunk * grid_cells(p)`.
pub open spec fn world_lattice(p: PerlinNoiseParams, chunk: i32, i: int) -> int {
    i + chunk * grid_cells(p)
}

/// The hash of lattice point `(i, j)` of the chunk.
pub open spec fn lattice_point_hash(p: PerlinNoiseParams, i: int, j: int) -> u32 {
    spec_lattice_hash(
        world_lattice(p, p.chunk_x, i) as i32,
        world_lattice(p, p.chunk_y, j) as i32,
        p.seed,
    )
}

/// The inputs on which building a chunk's lattice neither divides by zero,
/// overflows an `i32`, nor asks for a negative number of points.
pub open spec fn lattice_params_ok(p: PerlinNoiseParams) -> bool {
    &&& p.gradient_spacing != 0
    &&& !(p.chunk_width == 0x8000_0000 && p.gradient_spacing == u32::MAX)
    &&& 0 <= grad_size(p) <= i32::MAX
    &&& i32::MIN <= p.chunk_x * grid_cells(p) <= i32::MAX
    &&& i32::MIN <= p.chunk_y * grid_cells(p) <= i32::MAX
    &&& i32::MIN <= world_lattice(p, p.chunk_x, grad_size(p)) <= i32::MAX
    &&& i32::MIN <= world_lattice(p, p.chunk_y, grad_size(p)) <= i32::MAX
}

/// Whether a chunk's lattice can be built from `params`: the test that a
/// caller makes before `LatticeHashes::new`.
pub fn lattice_params_fit(params: PerlinNoiseParams) -> (r: bool)
    ensures
        r == lattice_params_ok(params),
{
    if params.gradient_spacing == 0 {
        return false;
    }
    if params.chunk_width == 0x8000_0000 && params.gradient_spacing == u32::MAX {
        return false;
    }
    let (cells, _) = truncating_parts(params.chunk_width as i32, params.gradient_spacing);
    proof {
        let w = params.chunk_width;
        let wi = w as i32;
        assert(w > 0x7fff_ffffu32 ==> wi == w - 0x1_0000_0000) by (bit_vector)
            requires
                wi == w as i32,
        ;
        assert(w <= 0x7fff_ffffu32 ==> wi == w) by (bit_vector)
            requires
                wi == w as i32,
        ;
    }
    assert(cells == grid_cells(params)) by {
        reveal(grid_cells);
    }
    assert(cells < 0x8000_0000);
    let size: i64 = cells + 2;
    let cx: i64 = params.chunk_x as i64;
    let cy: i64 = params.chunk_y as i64;
    assert(-0x4000_0000_0000_0000 <= cx * cells <= 0x4000_0000_0000_0000) by (nonlinear_arith)
        requires
            -0x8000_0000 <= cx < 0x8000_0000,
            -0x8000_0000 <= cells < 0x8000_0000,
    ;
    assert(-0x4000_0000_0000_0000 <= cy * cells <= 0x4000_0000_0000_0000) by (nonlinear_arith)
        requires
            -0x8000_0000 <= cy < 0x8000_0000,
            -0x8000_0000 <= cells < 0x8000_0000,
    ;
    let ox: i64 = cx * cells;
    let oy: i64 = cy * cells;
    let lo: i64 = i32::MIN as i64;
    let hi: i64 = i32::MAX as i64;
    0 <= size && size <= hi && lo <= ox && ox <= hi && lo <= oy && oy <= hi && lo <= ox + size
        && ox + size <= hi && lo <= oy + size && oy + size <= hi
}

/// The hashes of a chunk's noise lattice; the gradient at each point is
/// derived from its hash.
pub struct LatticeHashes {
    hashes: Vec<Vec<u32>>,
    gradient_spacing: u32,
}

impl LatticeHashes {
    /// The hash grid, indexed by x then y.
    pub closed spec fn grid(&self) -> Seq<Seq<u32>> {
        self.hashes@.map_values(|row: Vec<u32>| row@)
    }

    /// The width of a lattice cell.
    pub closed spec fn spacing(&self) -> u32 {
        self.gradient_spacing
    }

    /// The lattice of the chunk described by `params`: a square of
    /// `grad_size` points, point `(i, j)` holding the hash of its world
    /// lattice coordinate.
    pub fn new(params: PerlinNoiseParams) -> (r: Self)
        requires
            lattice_params_ok(params),
        ensures
            r.spacing() == params.gradient_spacing,
            r.grid().len() == grad_size(params),
            forall|i: int|
                0 <= i < grad_size(params) ==> #[trigger] r.grid()[i].len() == grad_size(params),
            forall|i: int, j: int|
                0 <= i < grad_size(params) && 0 <= j < grad_size(params) ==> #[trigger] r.grid()[i][j]
                    == lattice_point_hash(params, i, j),
    {
        let (cells, _) = truncating_parts(params.chunk_width as i32, params.gradient_spacing);
        proof {
            let w = params.chunk_width;
            let wi = w as i32;
            assert(w > 0x7fff_ffffu32 ==> wi == w - 0x1_0000_0000) by (bit_vector)
                requires
                    wi == w as i32,
            ;
            assert(w <= 0x7fff_ffffu32 ==> wi == w) by (bit_vector)
                requires
                    wi == w as i32,
            ;
        }
        assert(cells == grid_cells(params)) by {
            reveal(grid_cells);
        }
        let cells_i32 = cells as i32;
        let size = (cells_i32 as i64 + 2) as usize;
        let offset_x: i32 = params.chunk_x * cells_i32;
        let offset_y: i32 = params.chunk_y * cells_i32;
        let mut hashes: Vec<Vec<u32>> = Vec::new();
        let mut x: usize = 0;
        while x < size
            invariant
                lattice_params_ok(params),
                size == grad_size(params),
                cells_i32 == grid_cells(params),
                offset_x == params.chunk_x * grid_cells(params),
                offset_y == params.chunk_y * grid_cells(params),
                x <= size,
                hashes@.len() == x,
                forall|i: int| 0 <= i < x ==> #[trigger] hashes@[i]@.len() == size,
                forall|i: int, j: int|
                    0 <= i < x && 0 <= j < size ==> #[trigger] hashes@[i]@[j]
                        == lattice_point_hash(params, i, j),
                size <= i32::MAX,
                i32::MIN <= offset_x + size <= i32::MAX,
                i32::MIN <= offset_y + size <= i32::MAX,
            decreases size - x,
        {
            let mut row: Vec<u32> = Vec::new();
            let mut y: usize = 0;
            while y < size
                invariant
                    lattice_params_ok(params),
                    size == grad_size(params),
                    cells_i32 == grid_cells(params),
                    offset_x == params.chunk_x * grid_cells(params),
                    offset_y == params.chunk_y * grid_cells(params),
                    x < size,
                    y <= size,
                    row@.len() == y,
                    forall|j: int| 0 <= j < y ==> #[trigger] row@[j] == lattice_point_hash(params, x as int, j),
                    size <= i32::MAX,
                i32::MIN <= offset_x + size <= i32::MAX,
                i32::MIN <= offset_y + size <= i32::MAX,
            decreases size - y,
            {
                let h = lattice_hash(x as i32 + offset_x, y as i32 + offset_y, params.seed);
                row.push(h);
                y += 1;
            }
            hashes.push(row);
            x += 1;
        }
        let r = LatticeHashes { hashes, gradient_spacing: params.gradient_spacing };
        assert forall|i: int| 0 <= i < grad_size(params) implies #[trigger] r.grid()[i].len() == grad_size(params) by {
            assert(r.grid()[i] == hashes@[i]@);
        }
        assert forall|i: int, j: int|
            0 <= i < grad_size(params) && 0 <= j < grad_size(params) implies #[trigger] r.grid()[i][j]
                == lattice_point_hash(params, i, j) by {
            assert(r.grid()[i] == hashes@[i]@);
        }
        r
    }
}

/// The lattice cell that holds a point: the hashes at its four corners and
/// the point's offset inside the cell.
#[derive(PartialEq, Eq, Structural, Debug, Clone, Copy)]
pub struct CellCorners {
    /// Hash at the cell's lower x, lower y corner.
    pub h00: u32,
    /// Hash at the upper x, lower y corner.
    pub h10: u32,
    /// Hash at the lower x, upper y corner.
    pub h01: u32,
    /// Hash at the upper x, upper y corner.
    pub h11: u32,
    /// Offset of the point inside the cell along x, in `0..spacing`.
    pub fx: i32,
    /// Offset of the point inside the cell along y.
    pub fy: i32,
}

impl LatticeHashes {
    /// The cell that holds point `(x, y)` of the chunk.
    pub fn cell(&self, x: i32, y: i32) -> (r: CellCorners)
        requires
            0 < self.spacing() <= i32::MAX,
            0 <= spec_floor_div(x as int, self.spacing()),
            0 <= spec_floor_div(y as int, self.spacing()),
            spec_floor_div(x as int, self.spacing()) + 1 < self.grid().len(),
            spec_floor_div(y as int, self.spacing()) + 1 < self.grid()[spec_floor_div(
                x as int,
                self.spacing(),
            )].len(),
            spec_floor_div(y as int, self.spacing()) + 1 < self.grid()[spec_floor_div(
                x as int,
                self.spacing(),
            ) + 1].len(),
        ensures
            ({
                let x0 = spec_floor_div(x as int, self.spacing());
                let y0 = spec_floor_div(y as int, self.spacing());
                &&& r.h00 == self.grid()[x0][y0]
                &&& r.h10 == self.grid()[x0 + 1][y0]
                &&& r.h01 == self.grid()[x0][y0 + 1]
                &&& r.h11 == self.grid()[x0 + 1][y0 + 1]
                &&& r.fx == spec_floor_mod(x as int, self.spacing())
                &&& r.fy == spec_floor_mod(y as int, self.spacing())
            }),
    {
        let x0 = floor_div(x, self.gradient_spacing) as usize;
        let y0 = floor_div(y, self.gradient_spacing) as usize;
        let x1 = x0 + 1;
        let y1 = y0 + 1;
        proof {
            lemma_floor_div_mod(x as int, self.spacing());
            lemma_floor_div_mod(y as int, self.spacing());
            assert(self.grid()[x0 as int] == self.hashes@[x0 as int]@);
            assert(self.grid()[x1 as int] == self.hashes@[x1 as int]@);
        }
        CellCorners {
            h00: self.hashes[x0][y0],
            h10: self.hashes[x1][y0],
            h01: self.hashes[x0][y1],
            h11: self.hashes[x1][y1],
            fx: floor_mod(x, self.gradient_spacing),
            fy: floor_mod(y, self.gradient_spacing),
        }
    }
}

/// Two chunks side by side along x share the lattice points on their common
/// border: point `i + grid_cells` of a chunk is point `i` of the chunk after
/// it, so the noise is continuous across chunk borders.
pub proof fn lemma_lattice_continuous_x(p: PerlinNoiseParams, i: int, j: int)
    requires
        p.chunk_x < i32::MAX,
    ensures
        lattice_point_hash(p, i + grid_cells(p), j) == lattice_point_hash(
            PerlinNoiseParams { chunk_x: (p.chunk_x + 1) as i32, ..p },
            i,
            j,
        ),
{
    let q = PerlinNoiseParams { chunk_x: (p.chunk_x + 1) as i32, ..p };
    assert(grid_cells(q) == grid_cells(p)) by {
        reveal(grid_cells);
    }
    let c = grid_cells(p);
    assert((i + c) + p.chunk_x * c == i + (p.chunk_x + 1) * c) by (nonlinear_arith);
}

/// Two chunks side by side along y share the lattice points on their common
/// border.
pub proof fn lemma_lattice_continuous_y(p: PerlinNoiseParams, i: int, j: int)
    requires
        p.chunk_y < i32::MAX,
    ensures
        lattice_point_hash(p, i, j + grid_cells(p)) == lattice_point_hash(
            PerlinNoiseParams { chunk_y: (p.chunk_y + 1) as i32, ..p },
            i,
            j,
        ),
{
    let q = PerlinNoiseParams { chunk_y: (p.chunk_y + 1) as i32, ..p };
    assert(grid_cells(q) == grid_cells(p)) by {
        reveal(grid_cells);
    }
    let c = grid_cells(p);
    assert((j + c) + p.chunk_y * c == j + (p.chunk_y + 1) * c) by (nonlinear_arith);
}

} // verus!
