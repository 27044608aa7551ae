//! Arithmetic on the Eisenstein hexagonal lattice.
//!
//! The lattice operations themselves come from the `eisenstein` crate; this
//! module states what each of them computes and adds the hexagonal ring
//! spiral that hands out fresh lattice positions.
use vstd::prelude::*;
use eisenstein::{E12, EisensteinTriple, HexDisk};

use crate::LatticePos;

verus! {

/// The largest value of an `i32`, as a mathematical integer.
pub open spec fn i32_max() -> int {
    0x7fff_ffff
}

/// Whether `x` is a value of `i32`.
pub open spec fn fits_i32(x: int) -> bool {
    -0x8000_0000 <= x <= 0x7fff_ffff
}

pub open spec fn abs(x: int) -> int {
    if x < 0 {
        -x
    } else {
        x
    }
}

/// `|a| + |b| + |a + b|`: twice the hexagonal distance of `a + b·ω` from the origin.
pub open spec fn hex_sum(a: int, b: int) -> int {
    abs(a) + abs(b) + abs(a + b)
}

/// The hexagonal distance of `a + b·ω` from the origin.
pub open spec fn hex_dist(a: int, b: int) -> int {
    hex_sum(a, b) / 2
}

/// The hexagonal distance of a lattice position from the origin.
pub open spec fn pos_dist(p: LatticePos) -> int {
    hex_dist(p.a as int, p.b as int)
}

/// Whether the lattice distance between `p` and `q` can be computed in `i32`
/// arithmetic: the coordinate differences are `i32` values and so is
/// `|da| + |db| + |da + db|`.
pub open spec fn distance_defined(p: LatticePos, q: LatticePos) -> bool {
    &&& fits_i32(p.a - q.a)
    &&& fits_i32(p.b - q.b)
    &&& hex_sum(p.a - q.a, p.b - q.b) <= i32_max()
}

/// The lattice distance between two positions.
pub open spec fn lattice_dist(p: LatticePos, q: LatticePos) -> int {
    hex_dist(p.a - q.a, p.b - q.b)
}

/// Lattice distance is symmetric, and zero from a position to itself.
pub proof fn lemma_lattice_dist_symmetric(p: LatticePos, q: LatticePos)
    ensures
        lattice_dist(p, q) == lattice_dist(q, p),
        lattice_dist(p, p) == 0,
{
}

/// The lattice position with the given coordinates.
pub open spec fn pos(a: int, b: int) -> LatticePos {
    LatticePos { a: a as i32, b: b as i32 }
}

/// Calls `eisenstein::E12::hex_distance`, which returns
/// `(|a| + |b| + |a + b|) / 2` for the Eisenstein integer `a + b·ω`.
#[verifier::external_body]
pub(crate) fn hex_distance(p: LatticePos) -> (d: u32)
    requires
        hex_sum(p.a as int, p.b as int) <= i32_max(),
    ensures
        d as int == pos_dist(p),
{
    E12::new(p.a, p.b).hex_distance()
}

/// Calls `eisenstein::E12`'s subtraction, which subtracts coordinate-wise.
#[verifier::external_body]
pub(crate) fn lattice_sub(p: LatticePos, q: LatticePos) -> (r: LatticePos)
    requires
        fits_i32(p.a - q.a),
        fits_i32(p.b - q.b),
    ensures
        r.a == p.a - q.a,
        r.b == p.b - q.b,
{
    let e = E12::new(p.a, p.b) - E12::new(q.a, q.b);
    LatticePos { a: e.a(), b: e.b() }
}

/// Calls `eisenstein::E12`'s addition, which adds coordinate-wise.
#[verifier::external_body]
pub(crate) fn lattice_add(p: LatticePos, q: LatticePos) -> (r: LatticePos)
    requires
        fits_i32(p.a + q.a),
        fits_i32(p.b + q.b),
    ensures
        r.a == p.a + q.a,
        r.b == p.b + q.b,
{
    let e = E12::new(p.a, p.b) + E12::new(q.a, q.b);
    LatticePos { a: e.a(), b: e.b() }
}

/// The lattice distance between two positions: the hexagonal distance of
/// their difference.
pub fn distance_between(p: LatticePos, q: LatticePos) -> (d: u32)
    requires
        distance_defined(p, q),
    ensures
        d as int == lattice_dist(p, q),
{
    hex_distance(lattice_sub(p, q))
}

/// The six unit directions of the lattice, in the order `eisenstein` lists them.
pub open spec fn unit_directions() -> Seq<LatticePos> {
    seq![pos(1, 0), pos(0, 1), pos(1, 1), pos(-1, 0), pos(0, -1), pos(-1, -1)]
}

/// Calls `eisenstein::E12::directions`, which returns the six units
/// `(1,0), (0,1), (1,1), (-1,0), (0,-1), (-1,-1)` in that order.
#[verifier::external_body]
pub(crate) fn directions() -> (r: Vec<LatticePos>)
    ensures
        r@ == unit_directions(),
{
    let mut r: Vec<LatticePos> = Vec::new();
    for d in E12::directions() {
        r.push(LatticePos { a: d.a(), b: d.b() });
    }
    r
}

/// The six rotations of `a + b·ω` by multiples of 60°, in `eisenstein`'s order.
pub open spec fn rotations(a: int, b: int) -> Seq<LatticePos> {
    seq![pos(a, b), pos(-b, a - b), pos(b - a, -a), pos(-a, -b), pos(b, b - a), pos(a - b, a)]
}

/// Whether every coordinate of the six rotations of `a + b·ω` is an `i32`.
pub open spec fn rotations_fit(a: int, b: int) -> bool {
    fits_i32(a - b) && fits_i32(b - a) && fits_i32(-a) && fits_i32(-b)
}

/// Calls `eisenstein::E12::d6_rotations`, which returns
/// `(a,b), (-b,a-b), (b-a,-a), (-a,-b), (b,b-a), (a-b,a)`.
#[verifier::external_body]
pub(crate) fn d6_rotations(p: LatticePos) -> (r: Vec<LatticePos>)
    requires
        rotations_fit(p.a as int, p.b as int),
    ensures
        r@ == rotations(p.a as int, p.b as int),
{
    let mut r: Vec<LatticePos> = Vec::new();
    for d in E12::new(p.a, p.b).d6_rotations() {
        r.push(LatticePos { a: d.a(), b: d.b() });
    }
    r
}

/// The square `[-r, r] × [-r, r]` of lattice coordinates, walked with the
/// first coordinate outermost.
pub open spec fn disk_grid(r: int) -> Seq<LatticePos> {
    Seq::new(((2 * r + 1) * (2 * r + 1)) as nat, |k: int| pos(k / (2 * r + 1) - r, k % (2 * r + 1) - r))
}

/// The points of the hexagonal disk of radius `r` in the order `HexDisk` walks them.
pub open spec fn disk_cells(r: int) -> Seq<LatticePos> {
    disk_grid(r).filter(within(r))
}

/// Whether a position lies within hexagonal distance `r` of the origin.
pub open spec fn within(r: int) -> spec_fn(LatticePos) -> bool {
    |p: LatticePos| pos_dist(p) <= r
}

/// Every cell of the disk of radius `r` has both coordinates within `r`.
pub proof fn lemma_disk_cell_bound(r: int, j: int)
    requires
        0 <= j < disk_cells(r).len(),
    ensures
        abs(disk_cells(r)[j].a as int) <= r,
        abs(disk_cells(r)[j].b as int) <= r,
{
    disk_grid(r).lemma_filter_pred(within(r), j);
    assert(within(r)(disk_cells(r)[j]));
}

/// The largest disk radius that the placement search asks for.
pub open spec fn max_disk_radius() -> int {
    1024
}

/// Calls `eisenstein::HexDisk::radius(r).iter()`, which walks `q` and then
/// `r` over `-radius..=radius` and yields each point within hexagonal
/// distance `radius` of the origin.
#[verifier::external_body]
pub(crate) fn hex_disk(radius: u32) -> (cells: Vec<LatticePos>)
    requires
        radius <= max_disk_radius(),
    ensures
        cells@ == disk_cells(radius as int),
{
    HexDisk::radius(radius).iter().map(|p| LatticePos { a: p.a(), b: p.b() }).collect()
}

/// Whether `(a, b, c)` is an Eisenstein triple that
/// `EisensteinTriple::all_with_max_norm(c_max)` lists.
pub open spec fn listed_triple(a: int, b: int, c: int, c_max: int) -> bool {
    &&& 0 <= b <= a
    &&& a <= c_max
    &&& a <= 46340
    &&& 0 < c <= c_max
    &&& a * a - a * b + b * b == c * c
}

/// Calls `eisenstein::EisensteinTriple::all_with_max_norm(c_max)`, which
/// lists every `(a, b, c)` with `0 <= b <= a <= min(c_max, 46340)`,
/// `0 < c <= c_max` and `a² - ab + b² = c²`, and nothing else. The contract
/// leaves the order of the list unsaid.
#[verifier::external_body]
pub(crate) fn triples_up_to(c_max: u32) -> (r: Vec<(i32, i32, u32)>)
    ensures
        forall|i: int|
            0 <= i < r@.len() ==> listed_triple(
                #[trigger] r@[i].0 as int,
                r@[i].1 as int,
                r@[i].2 as int,
                c_max as int,
            ),
        forall|a: int, b: int, c: int|
            listed_triple(a, b, c, c_max as int) ==> r@.contains((a as i32, b as i32, c as u32)),
{
    EisensteinTriple::all_with_max_norm(c_max).iter().map(|t| (t.a(), t.b(), t.c())).collect()
}

// ---------------------------------------------------------------------------
// The hexagonal ring spiral
// ---------------------------------------------------------------------------

/// `3k(k+1)`: the number of lattice points in rings `1..=k`.
pub open spec fn ring_end(k: int) -> int {
    3 * k * (k + 1)
}

/// Whether `k` is the ring of spiral index `n >= 1`: `3k(k-1) < n <= 3k(k+1)`.
pub open spec fn in_ring(n: int, k: int) -> bool {
    k >= 1 && ring_end(k - 1) < n <= ring_end(k)
}

/// The ring of spiral index `n`; ring 0 holds index 0 alone.
pub open spec fn ring(n: int) -> int {
    if n <= 0 {
        0
    } else {
        choose|k: int| in_ring(n, k)
    }
}

/// The corner-and-side walk of a ring: ring `k` starts at `(k, 0)` and walks
/// six sides of `k` points each.
pub open spec fn ring_point(k: int, side: int, p: int) -> (int, int) {
    if side == 0 {
        (k - p, p)
    } else if side == 1 {
        (-p, k)
    } else if side == 2 {
        (-k, k - p)
    } else if side == 3 {
        (-k + p, -p)
    } else if side == 4 {
        (p, -k)
    } else {
        (k, -k + p)
    }
}

/// The lattice coordinates of spiral index `n`.
pub open spec fn spiral(n: int) -> (int, int) {
    if n <= 0 {
        (0, 0)
    } else {
        let k = ring(n);
        let offset = n - ring_end(k - 1) - 1;
        ring_point(k, offset / k, offset % k)
    }
}

/// The largest spiral index whose ring fits in an `i32`.
pub open spec fn spiral_max() -> int {
    3 * 0x7fff_ffffint * 0x8000_0000int
}

proof fn lemma_ring_end_monotone(j: int, k: int)
    requires
        0 <= j <= k,
    ensures
        ring_end(j) <= ring_end(k),
{
    assert(3 * j * (j + 1) <= 3 * k * (k + 1)) by (nonlinear_arith)
        requires
            0 <= j <= k,
    ;
}

/// The ring of an index is unique.
proof fn lemma_ring_unique(n: int, k1: int, k2: int)
    requires
        in_ring(n, k1),
        in_ring(n, k2),
    ensures
        k1 == k2,
{
    if k1 < k2 {
        lemma_ring_end_monotone(k1, k2 - 1);
    } else if k2 < k1 {
        lemma_ring_end_monotone(k2, k1 - 1);
    }
}

proof fn lemma_ring_is(n: int, k: int)
    requires
        in_ring(n, k),
    ensures
        ring(n) == k,
{
    let j = ring(n);
    assert(in_ring(n, j));
    lemma_ring_unique(n, j, k);
}

/// Every spiral index from 1 on lies in some ring.
proof fn lemma_ring_exists(n: int)
    requires
        n >= 1,
    ensures
        in_ring(n, ring(n)),
    decreases n,
{
    if n == 1 {
        assert(in_ring(1, 1));
    } else {
        lemma_ring_exists(n - 1);
        let k = ring(n - 1);
        if n <= ring_end(k) {
            assert(in_ring(n, k));
        } else {
            assert(ring_end(k + 1) >= ring_end(k) + 1) by (nonlinear_arith)
                requires
                    k >= 1,
            ;
            assert(in_ring(n, k + 1));
        }
    }
}

proof fn lemma_ring_point_dist(k: int, side: int, p: int)
    requires
        k >= 1,
        0 <= side < 6,
        0 <= p < k,
    ensures
        hex_dist(ring_point(k, side, p).0, ring_point(k, side, p).1) == k,
{
}

proof fn lemma_ring_point_injective(k: int, s1: int, p1: int, s2: int, p2: int)
    requires
        k >= 1,
        0 <= s1 < 6,
        0 <= p1 < k,
        0 <= s2 < 6,
        0 <= p2 < k,
        ring_point(k, s1, p1) == ring_point(k, s2, p2),
    ensures
        s1 == s2,
        p1 == p2,
{
}

/// The offset of index `n` within its ring, split into side and step.
proof fn lemma_spiral_parts(n: int)
    requires
        n >= 1,
    ensures
        ({
            let k = ring(n);
            let offset = n - ring_end(k - 1) - 1;
            &&& k >= 1
            &&& 0 <= offset < 6 * k
            &&& 0 <= offset / k < 6
            &&& 0 <= offset % k < k
            &&& offset == k * (offset / k) + offset % k
        }),
{
    lemma_ring_exists(n);
    let k = ring(n);
    let offset = n - ring_end(k - 1) - 1;
    assert(ring_end(k) - ring_end(k - 1) == 6 * k) by (nonlinear_arith);
    assert(0 <= offset / k < 6 && 0 <= offset % k < k && offset == k * (offset / k) + offset
        % k) by (nonlinear_arith)
        requires
            k >= 1,
            0 <= offset < 6 * k,
    ;
}

/// The spiral puts index `n` at hexagonal distance `ring(n)` from the origin.
pub proof fn lemma_spiral_distance(n: int)
    requires
        n >= 0,
    ensures
        hex_dist(spiral(n).0, spiral(n).1) == ring(n),
        n >= 1 ==> ring(n) >= 1,
{
    if n >= 1 {
        lemma_spiral_parts(n);
        let k = ring(n);
        let offset = n - ring_end(k - 1) - 1;
        lemma_ring_point_dist(k, offset / k, offset % k);
    }
}

/// The spiral never hands the same position to two indices.
pub proof fn lemma_spiral_injective(n: int, m: int)
    requires
        n >= 0,
        m >= 0,
        n != m,
    ensures
        spiral(n) != spiral(m),
{
    lemma_spiral_distance(n);
    lemma_spiral_distance(m);
    if n >= 1 && m >= 1 && ring(n) == ring(m) {
        lemma_spiral_parts(n);
        lemma_spiral_parts(m);
        let k = ring(n);
        let on = n - ring_end(k - 1) - 1;
        let om = m - ring_end(k - 1) - 1;
        if spiral(n) == spiral(m) {
            lemma_ring_point_injective(k, on / k, on % k, om / k, om % k);
        }
    }
}

/// The coordinates of every spiral index up to `ring_end(bound)` lie within
/// `bound` of the origin.
pub proof fn lemma_spiral_bound(n: int, bound: int)
    requires
        0 <= n <= ring_end(bound),
        bound >= 1,
    ensures
        abs(spiral(n).0) <= bound,
        abs(spiral(n).1) <= bound,
{
    if n >= 1 {
        lemma_spiral_parts(n);
        lemma_ring_exists(n);
        let k = ring(n);
        if k > bound {
            lemma_ring_end_monotone(bound, k - 1);
        }
    }
}

/// The ring of spiral index `n`, found by bisection.
fn ring_index(n: u64) -> (k: u64)
    requires
        1 <= n <= spiral_max(),
    ensures
        in_ring(n as int, k as int),
        k <= 0x7fff_ffff,
{
    let mut lo: u64 = 0;
    let mut hi: u64 = 0x7fff_ffff;
    assert(ring_end(0x7fff_ffff) == spiral_max());
    while hi - lo > 1
        invariant
            lo < hi <= 0x7fff_ffff,
            ring_end(lo as int) < n,
            n <= ring_end(hi as int),
        decreases hi - lo,
    {
        let mid = lo + (hi - lo) / 2;
        assert(3 * mid * (mid + 1) <= 3 * 0x7fff_ffff * 0x8000_0000) by (nonlinear_arith)
            requires
                mid <= 0x7fff_ffff,
        ;
        let end = 3 * mid * (mid + 1);
        if end < n {
            lo = mid;
        } else {
            hi = mid;
        }
    }
    hi
}

/// The position that the ring spiral gives index `n`: index 0 is the
/// origin, indices `1..=6` ring 1, `7..=18` ring 2, and so on.
pub fn index_to_hex_spiral(n: u64) -> (r: LatticePos)
    requires
        n <= spiral_max(),
    ensures
        r.a == spiral(n as int).0,
        r.b == spiral(n as int).1,
{
    if n == 0 {
        return LatticePos { a: 0, b: 0 };
    }
    let k = ring_index(n);
    proof {
        lemma_ring_is(n as int, k as int);
        assert(3 * k * (k - 1) <= 3 * 0x7fff_ffff * 0x8000_0000 && 3 * k * (k - 1) == ring_end(
            k - 1,
        )) by (nonlinear_arith)
            requires
                1 <= k <= 0x7fff_ffff,
        ;
    }
    let before = 3 * k * (k - 1);
    let offset = n - before - 1;
    let side = offset / k;
    let p = offset % k;
    proof {
        assert(ring_end(k - 1) == before);
        assert(offset < 6 * k) by (nonlinear_arith)
            requires
                offset == n - before - 1,
                n <= 3 * k * (k + 1),
                before == 3 * k * (k - 1),
        ;
        assert(side < 6) by (nonlinear_arith)
            requires
                side == offset / k,
                offset < 6 * k,
                k >= 1,
        ;
    }
    let kk = k as i32;
    let pp = p as i32;
    if side == 0 {
        LatticePos { a: kk - pp, b: pp }
    } else if side == 1 {
        LatticePos { a: -pp, b: kk }
    } else if side == 2 {
        LatticePos { a: -kk, b: kk - pp }
    } else if side == 3 {
        LatticePos { a: -kk + pp, b: -pp }
    } else if side == 4 {
        LatticePos { a: pp, b: -kk }
    } else {
        LatticePos { a: kk, b: -kk + pp }
    }
}

} // verus!
