//! Navigation on the lattice: Pythagorean snap jumps, lattice-aware
//! multi-cursor placement, and finding nearby and related functions.
//!
//! A Pythagorean jump moves to the positions whose offset from the origin is
//! an Eisenstein triple `a + b·ω` with `a² - ab + b² = c²`, turned by any
//! multiple of 60°, or its negation.
use vstd::prelude::*;
use vstd::string::StrSliceExecFns;

use crate::code_graph::{is_near, keys, CodeGraph, FnKey, NodeView};
use crate::ranking::{all_rank_ok, is_top, top_ranked, Ranked};
use crate::lattice::{
    d6_rotations, directions, distance_between, distance_defined, fits_i32, i32_max, lattice_add,
    lattice_dist, listed_triple, pos, rotations, triples_up_to, unit_directions,
};
use crate::spectral_analysis::{index_in, lemma_index_in};
use crate::{FunctionId, LatticePos};

verus! {

/// The bound up to which triples are listed for a jump of size `c`: `2c`,
/// which every triple of size `c` respects, saturated at `u32::MAX`.
pub open spec fn jump_cap(c: int) -> int {
    if c <= 0x7fff_ffff {
        2 * c
    } else {
        0xffff_ffff
    }
}

/// The largest first coordinate of a triple that a jump of size `c` uses.
pub open spec fn jump_reach(c: int) -> int {
    if jump_cap(c) < 46340 {
        jump_cap(c)
    } else {
        46340
    }
}

/// Whether jumps of size `c` from `origin` stay within `i32` coordinates.
pub open spec fn jumps_fit(origin: LatticePos, c: int) -> bool {
    &&& fits_i32(origin.a + jump_reach(c))
    &&& fits_i32(origin.a - jump_reach(c))
    &&& fits_i32(origin.b + jump_reach(c))
    &&& fits_i32(origin.b - jump_reach(c))
}

/// The twelve offsets of the triple `(a, b)`: its six rotations and those
/// of its negation.
pub open spec fn triple_offsets(a: int, b: int) -> Seq<LatticePos> {
    rotations(a, b) + rotations(-a, -b)
}

/// `origin` moved by `d`.
pub open spec fn moved(origin: LatticePos, d: LatticePos) -> LatticePos {
    pos(origin.a + d.a, origin.b + d.b)
}

/// Whether `p` is a Pythagorean jump target of size `c` from `origin`.
pub open spec fn is_jump(origin: LatticePos, c: int, p: LatticePos) -> bool {
    exists|a: int, b: int, k: int|
        #![trigger listed_triple(a, b, c, jump_cap(c)), triple_offsets(a, b)[k]]
        listed_triple(a, b, c, jump_cap(c)) && 0 <= k < 12 && p == moved(origin, triple_offsets(a, b)[k])
}

/// The Eisenstein norm of `a + b·ω`: `a² - ab + b²`.
pub open spec fn norm(a: int, b: int) -> int {
    a * a - a * b + b * b
}

/// Each of the twelve offsets of a triple has the triple's norm.
proof fn lemma_offset_norm(a: int, b: int, k: int)
    requires
        0 <= b <= a <= 46340,
        0 <= k < 12,
    ensures
        norm(triple_offsets(a, b)[k].a as int, triple_offsets(a, b)[k].b as int) == norm(a, b),
{
    let d = triple_offsets(a, b)[k];
    assert(norm(-b, a - b) == norm(a, b)) by (nonlinear_arith);
    assert(norm(b - a, -a) == norm(a, b)) by (nonlinear_arith);
    assert(norm(-a, -b) == norm(a, b)) by (nonlinear_arith);
    assert(norm(b, b - a) == norm(a, b)) by (nonlinear_arith);
    assert(norm(a - b, a) == norm(a, b)) by (nonlinear_arith);
    assert(norm(a, b) == norm(a, b));
    assert(norm(-(-b), -a - -b) == norm(a, b)) by (nonlinear_arith);
    assert(norm(-b - -a, a) == norm(a, b)) by (nonlinear_arith);
    assert(norm(-(-a), -(-b)) == norm(a, b)) by (nonlinear_arith);
    assert(norm(-b, -b - -a) == norm(a, b)) by (nonlinear_arith);
    assert(norm(-a - -b, -a) == norm(a, b)) by (nonlinear_arith);
}

/// Every Pythagorean jump target of size `c` lies at Eisenstein norm `c²`
/// from the origin: the offset is an Eisenstein triple, turned or negated.
pub proof fn lemma_jump_norm(origin: LatticePos, c: int, p: LatticePos)
    requires
        jumps_fit(origin, c),
        is_jump(origin, c, p),
    ensures
        norm(p.a - origin.a, p.b - origin.b) == c * c,
{
    let (a, b, k) = choose|a: int, b: int, k: int|
        #![trigger listed_triple(a, b, c, jump_cap(c)), triple_offsets(a, b)[k]]
        listed_triple(a, b, c, jump_cap(c)) && 0 <= k < 12 && p == moved(origin, triple_offsets(a, b)[k]);
    lemma_offset_norm(a, b, k);
    let d = triple_offsets(a, b)[k];
    assert(-a <= d.a <= a && -a <= d.b <= a);
    assert(p.a == origin.a + d.a && p.b == origin.b + d.b);
}

/// Every offset is a turn of one in the sector `0 <= b <= a`: returns that
/// `(a, b)` and the index of the turn.
proof fn lemma_sector(x: int, y: int) -> (r: (int, int, int))
    ensures
        0 <= r.1 <= r.0,
        0 <= r.2 < 6,
        rotations(r.0, r.1)[r.2] == pos(x, y),
        norm(r.0, r.1) == norm(x, y),
        -r.0 <= x <= r.0,
        -r.0 <= y <= r.0,
{
    if 0 <= y <= x {
        (x, y, 0)
    } else if 0 <= x <= y {
        assert(norm(y, y - x) == norm(x, y)) by (nonlinear_arith);
        (y, y - x, 5)
    } else if y <= 0 <= x {
        assert(norm(x - y, x) == norm(x, y)) by (nonlinear_arith);
        (x - y, x, 4)
    } else if x <= 0 <= y {
        assert(norm(y - x, -x) == norm(x, y)) by (nonlinear_arith);
        (y - x, -x, 1)
    } else if y <= x {
        assert(norm(-y, x - y) == norm(x, y)) by (nonlinear_arith);
        (-y, x - y, 2)
    } else {
        assert(norm(-x, -y) == norm(x, y)) by (nonlinear_arith);
        (-x, -y, 3)
    }
}

/// No integer `s` squares to `v` when `v` lies strictly between two
/// consecutive squares.
proof fn lemma_not_square(s: int, v: int, k: int)
    requires
        0 <= k,
        k * k < v,
        v < (k + 1) * (k + 1),
    ensures
        s * s != v,
{
    if s * s == v {
        let t = if s >= 0 {
            s
        } else {
            -s
        };
        assert(t * t == v) by (nonlinear_arith)
            requires
                t == s || t == -s,
                s * s == v,
        ;
        if t <= k {
            assert(t * t <= k * k) by (nonlinear_arith)
                requires
                    0 <= t <= k,
            ;
        } else {
            assert(t * t >= (k + 1) * (k + 1)) by (nonlinear_arith)
                requires
                    t >= k + 1,
                    k >= 0,
            ;
        }
    }
}

/// No point `(a, b)` has norm `c²` when `4c² - 3a²` lies
/// strictly between `k²` and `(k + 1)²`.
proof fn lemma_far_point(a: int, b: int, c: int, k: int)
    requires
        0 <= k,
        k * k < 4 * c * c - 3 * a * a,
        4 * c * c - 3 * a * a < (k + 1) * (k + 1),
    ensures
        a * a - a * b + b * b != c * c,
{
    if a * a - a * b + b * b == c * c {
        assert((2 * b - a) * (2 * b - a) == 4 * c * c - 3 * a * a) by (nonlinear_arith)
            requires
                a * a - a * b + b * b == c * c,
        ;
        lemma_not_square(2 * b - a, 4 * c * c - 3 * a * a, k);
    }
}

/// No point `(a, b)` has norm `c²` when `3a² > 4c²`.
proof fn lemma_too_far(a: int, b: int, c: int)
    requires
        3 * a * a > 4 * c * c,
    ensures
        a * a - a * b + b * b != c * c,
{
    assert(a * a - a * b + b * b != c * c) by (nonlinear_arith)
        requires
            3 * a * a > 4 * c * c,
    {
        assert(4 * (a * a - a * b + b * b) == (2 * b - a) * (2 * b - a) + 3 * a * a);
        assert((2 * b - a) * (2 * b - a) >= 0);
    }
}

/// For `c` from 40133 to 40137, no point at norm `c²` has a
/// first coordinate from 46341 to 46346: each case is checked by the
/// squares that `4c² - 3a²` falls between.
proof fn lemma_no_point_beyond(a: int, b: int, c: int)
    requires
        46341 <= a <= 46346,
        40133 <= c <= 40137,
    ensures
        a * a - a * b + b * b != c * c,
{
    if c == 40133 {
        if a == 46341 {
            lemma_far_point(46341, b, 40133, 407);
        } else if a == 46342 {
            lemma_too_far(46342, b, 40133);
        } else if a == 46343 {
            lemma_too_far(46343, b, 40133);
        } else if a == 46344 {
            lemma_too_far(46344, b, 40133);
        } else if a == 46345 {
            lemma_too_far(46345, b, 40133);
        } else {
            lemma_too_far(46346, b, 40133);
        }
    } else if c == 40134 {
        if a == 46341 {
            lemma_far_point(46341, b, 40134, 697);
        } else if a == 46342 {
            lemma_far_point(46342, b, 40134, 457);
        } else if a == 46343 {
            lemma_too_far(46343, b, 40134);
        } else if a == 46344 {
            lemma_too_far(46344, b, 40134);
        } else if a == 46345 {
            lemma_too_far(46345, b, 40134);
        } else {
            lemma_too_far(46346, b, 40134);
        }
    } else if c == 40135 {
        if a == 46341 {
            lemma_far_point(46341, b, 40135, 898);
        } else if a == 46342 {
            lemma_far_point(46342, b, 40135, 728);
        } else if a == 46343 {
            lemma_far_point(46343, b, 40135, 501);
        } else if a == 46344 {
            lemma_too_far(46344, b, 40135);
        } else if a == 46345 {
            lemma_too_far(46345, b, 40135);
        } else {
            lemma_too_far(46346, b, 40135);
        }
    } else if c == 40136 {
        if a == 46341 {
            lemma_far_point(46341, b, 40136, 1062);
        } else if a == 46342 {
            lemma_far_point(46342, b, 40136, 922);
        } else if a == 46343 {
            lemma_far_point(46343, b, 40136, 756);
        } else if a == 46344 {
            lemma_far_point(46344, b, 40136, 543);
        } else if a == 46345 {
            lemma_far_point(46345, b, 40136, 130);
        } else {
            lemma_too_far(46346, b, 40136);
        }
    } else {
        if a == 46341 {
            lemma_far_point(46341, b, 40137, 1204);
        } else if a == 46342 {
            lemma_far_point(46342, b, 40137, 1082);
        } else if a == 46343 {
            lemma_far_point(46343, b, 40137, 945);
        } else if a == 46344 {
            lemma_far_point(46344, b, 40137, 784);
        } else if a == 46345 {
            lemma_far_point(46345, b, 40137, 581);
        } else {
            lemma_far_point(46346, b, 40137, 244);
        }
    }
}

/// For `1 <= c <= 40137`, the Pythagorean jump targets of size `c` are
/// exactly the positions at Eisenstein norm `c²` from the origin. (At
/// `c = 40138` the point `(46342, 22560)` has norm `c²` but lies beyond the
/// first coordinate 46340 at which the triple listing stops.)
pub proof fn lemma_jumps_are_norm_circle(origin: LatticePos, c: int, p: LatticePos)
    requires
        1 <= c <= 40137,
        jumps_fit(origin, c),
    ensures
        is_jump(origin, c, p) <==> norm(p.a - origin.a, p.b - origin.b) == c * c,
{
    if is_jump(origin, c, p) {
        lemma_jump_norm(origin, c, p);
    }
    let x = p.a - origin.a;
    let y = p.b - origin.b;
    if norm(x, y) == c * c {
        let (a, b, k) = lemma_sector(x, y);
        assert(3 * a * a <= 4 * c * c) by (nonlinear_arith)
            requires
                a * a - a * b + b * b == c * c,
                0 <= b <= a,
        {
            assert(4 * (a * a - a * b + b * b) == (2 * b - a) * (2 * b - a) + 3 * a * a);
        }
        assert(a <= 2 * c) by (nonlinear_arith)
            requires
                3 * a * a <= 4 * c * c,
                0 <= a,
                1 <= c,
        {
            if a > 2 * c {
                assert(a * a > 4 * c * c);
            }
        }
        if a > 46340 {
            if c <= 40132 {
                assert(false) by (nonlinear_arith)
                    requires
                        3 * a * a <= 4 * c * c,
                        a >= 46341,
                        1 <= c <= 40132,
                {
                    assert(a * a >= 46341 * 46341);
                    assert(c * c <= 40132 * 40132);
                }
            }
            if a > 46346 {
                assert(false) by (nonlinear_arith)
                    requires
                        3 * a * a <= 4 * c * c,
                        a >= 46347,
                        1 <= c <= 40137,
                {
                    assert(a * a >= 46347 * 46347);
                    assert(c * c <= 40137 * 40137);
                }
            }
            lemma_no_point_beyond(a, b, c);
        }
        assert(listed_triple(a, b, c, jump_cap(c)));
        assert(triple_offsets(a, b)[k] == rotations(a, b)[k]);
        assert(p == moved(origin, triple_offsets(a, b)[k]));
    }
}

/// Lexicographic order on lattice positions: first coordinate, then second.
pub open spec fn pos_lt(p: LatticePos, q: LatticePos) -> bool {
    p.a < q.a || (p.a == q.a && p.b < q.b)
}

/// Whether `s` is in strictly increasing lexicographic order.
pub open spec fn strictly_sorted(s: Seq<LatticePos>) -> bool {
    forall|i: int, j: int| 0 <= i < j < s.len() ==> pos_lt(#[trigger] s[i], #[trigger] s[j])
}

/// Insert `p` into the strictly sorted `v`, unless it is there already.
fn insert_sorted(v: &mut Vec<LatticePos>, p: LatticePos)
    requires
        strictly_sorted(old(v)@),
    ensures
        strictly_sorted(final(v)@),
        forall|q: LatticePos| final(v)@.contains(q) <==> (old(v)@.contains(q) || q == p),
{
    let mut i: usize = 0;
    while i < v.len() && (v[i].a < p.a || (v[i].a == p.a && v[i].b < p.b))
        invariant
            v@ == old(v)@,
            strictly_sorted(v@),
            i <= v@.len(),
            forall|k: int| 0 <= k < i ==> pos_lt(#[trigger] v@[k], p),
        decreases v@.len() - i,
    {
        i = i + 1;
    }
    if i < v.len() && v[i] == p {
        proof {
            assert(v@[i as int] == p);
        }
        return ;
    }
    let ghost v0 = v@;
    v.insert(i, p);
    proof {
        assert forall|a: int, b: int| 0 <= a < b < v@.len() implies pos_lt(#[trigger] v@[a], #[trigger] v@[b]) by {
            if b < i {
                assert(v@[a] == v0[a] && v@[b] == v0[b]);
            } else if b == i {
                assert(v@[a] == v0[a]);
            } else if a == i {
                assert(v@[b] == v0[b - 1]);
                assert(!pos_lt(v0[i as int], p));
                if b - 1 > i {
                    assert(pos_lt(v0[i as int], v0[b - 1]));
                }
            } else if a < i {
                assert(v@[a] == v0[a] && v@[b] == v0[b - 1]);
            } else {
                assert(v@[a] == v0[a - 1] && v@[b] == v0[b - 1]);
            }
        }
        assert forall|q: LatticePos| v@.contains(q) <==> (v0.contains(q) || q == p) by {
            if v@.contains(q) {
                let k = choose|k: int| 0 <= k < v@.len() && v@[k] == q;
                if k < i {
                    assert(v0[k] == q);
                } else if k > i {
                    assert(v0[k - 1] == q);
                }
            }
            if v0.contains(q) {
                let k = choose|k: int| 0 <= k < v0.len() && v0[k] == q;
                if k < i {
                    assert(v@[k] == q);
                } else {
                    assert(v@[k + 1] == q);
                }
            }
            if q == p {
                assert(v@[i as int] == p);
            }
        }
        assert(v0 == old(v)@);
        assert(forall|q: LatticePos| #[trigger] v@.contains(q) <==> (old(v)@.contains(q) || q == p));
    }
}

/// All lattice positions at Pythagorean jump size `c` from `origin`, each
/// once, in lexicographic order: the offsets of the Eisenstein triples with
/// hypotenuse `c` (both directions) added to `origin`. For `1 <= c <= 40137`
/// these are exactly the positions whose offset from `origin` has Eisenstein
/// norm `c²`; the triple listing of the lattice crate stops at a first
/// coordinate of 46340, so from `c = 40138` on some positions are not reached.
pub fn pythagorean_jumps_from(origin: LatticePos, c: u32) -> (r: Vec<LatticePos>)
    requires
        jumps_fit(origin, c as int),
    ensures
        strictly_sorted(r@),
        forall|p: LatticePos| r@.contains(p) <==> is_jump(origin, c as int, p),
        1 <= c <= 40137 ==> forall|p: LatticePos|
            #[trigger] r@.contains(p) <==> norm(p.a - origin.a, p.b - origin.b) == c * c,
{
    let cap: u32 = if c <= 0x7fff_ffff {
        2 * c
    } else {
        0xffff_ffff
    };
    let triples = triples_up_to(cap);
    let mut targets: Vec<LatticePos> = Vec::new();
    let mut t: usize = 0;
    while t < triples.len()
        invariant
            jumps_fit(origin, c as int),
            t <= triples@.len(),
            forall|i: int| 0 <= i < triples@.len() ==> listed_triple(
                #[trigger] triples@[i].0 as int,
                triples@[i].1 as int,
                triples@[i].2 as int,
                cap as int,
            ),
            cap == jump_cap(c as int),
            strictly_sorted(targets@),
            forall|q: LatticePos| #[trigger] targets@.contains(q) <==> exists|i: int, k: int|
                0 <= i < t && triples@[i].2 == c && 0 <= k < 12 && q == moved(
                    origin,
                    #[trigger] triple_offsets(triples@[i].0 as int, triples@[i].1 as int)[k],
                ),
        decreases triples@.len() - t,
    {
        let (a, b, tc) = triples[t];
        proof {
            assert(listed_triple(a as int, b as int, tc as int, cap as int));
        }
        let ghost before = targets@;
        if tc == c {
            let mut offs = d6_rotations(LatticePos { a, b });
            let mut neg = d6_rotations(LatticePos { a: -a, b: -b });
            offs.append(&mut neg);
            proof {
                assert(offs@ =~= triple_offsets(a as int, b as int));
            }
            let mut k: usize = 0;
            while k < offs.len()
                invariant
                    jumps_fit(origin, c as int),
                    listed_triple(a as int, b as int, c as int, jump_cap(c as int)),
                    offs@ == triple_offsets(a as int, b as int),
                    k <= offs@.len(),
                    strictly_sorted(targets@),
                    forall|q: LatticePos| #[trigger] targets@.contains(q) <==> (before.contains(q) || exists|k2: int|
                        0 <= k2 < k && q == moved(origin, #[trigger] offs@[k2])),
                decreases offs@.len() - k,
            {
                let d = offs[k];
                proof {
                    assert(-(a as int) <= d.a <= a && -(a as int) <= d.b <= a) by {
                        assert(offs@[k as int] == d);
                    }
                }
                let target = lattice_add(origin, d);
                proof {
                    assert(target == moved(origin, d));
                }
                insert_sorted(&mut targets, target);
                k = k + 1;
            }
        }
        proof {
            assert forall|q: LatticePos| #[trigger] targets@.contains(q) <==> exists|i: int, k: int|
                0 <= i < t + 1 && triples@[i].2 == c && 0 <= k < 12 && q == moved(
                    origin,
                    #[trigger] triple_offsets(triples@[i].0 as int, triples@[i].1 as int)[k],
                ) by {
                assert(triples@[t as int] == (a, b, tc));
                if before.contains(q) {
                    let (i, k) = choose|i: int, k: int|
                        0 <= i < t && triples@[i].2 == c && 0 <= k < 12 && q == moved(
                            origin,
                            #[trigger] triple_offsets(triples@[i].0 as int, triples@[i].1 as int)[k],
                        );
                }
                if exists|i: int, k: int|
                    0 <= i < t + 1 && triples@[i].2 == c && 0 <= k < 12 && q == moved(
                        origin,
                        #[trigger] triple_offsets(triples@[i].0 as int, triples@[i].1 as int)[k],
                    ) {
                    let (i, k) = choose|i: int, k: int|
                        0 <= i < t + 1 && triples@[i].2 == c && 0 <= k < 12 && q == moved(
                            origin,
                            #[trigger] triple_offsets(triples@[i].0 as int, triples@[i].1 as int)[k],
                        );
                    if i < t {
                        assert(before.contains(q));
                    }
                }
            }
        }
        t = t + 1;
    }
    proof {
        assert forall|p: LatticePos| targets@.contains(p) <==> is_jump(origin, c as int, p) by {
            if targets@.contains(p) {
                let (i, k) = choose|i: int, k: int|
                    0 <= i < triples@.len() && triples@[i].2 == c && 0 <= k < 12 && p == moved(
                        origin,
                        #[trigger] triple_offsets(triples@[i].0 as int, triples@[i].1 as int)[k],
                    );
                assert(listed_triple(triples@[i].0 as int, triples@[i].1 as int, c as int, jump_cap(c as int)));
            }
            if is_jump(origin, c as int, p) {
                let (a, b, k) = choose|a: int, b: int, k: int|
                    #![trigger listed_triple(a, b, c as int, jump_cap(c as int)), triple_offsets(a, b)[k]]
                    listed_triple(a, b, c as int, jump_cap(c as int)) && 0 <= k < 12 && p == moved(
                        origin,
                        triple_offsets(a, b)[k],
                    );
                assert(triples@.contains((a as i32, b as i32, c)));
                let i = choose|i: int| 0 <= i < triples@.len() && triples@[i] == (a as i32, b as i32, c);
                assert(triples@[i].0 as int == a && triples@[i].1 as int == b);
            }
        }
        if 1 <= c <= 40137 {
            assert forall|p: LatticePos| #[trigger] targets@.contains(p) <==> norm(p.a - origin.a, p.b - origin.b)
                == c * c by {
                lemma_jumps_are_norm_circle(origin, c as int, p);
            }
        }
    }
    targets
}

// ---------------------------------------------------------------------------
// Multi-cursor placement
// ---------------------------------------------------------------------------

/// `s` without repeats: each position where it first occurs.
pub open spec fn dedup(s: Seq<LatticePos>) -> Seq<LatticePos>
    decreases s.len(),
{
    if s.len() == 0 {
        s
    } else {
        let d = dedup(s.drop_last());
        if d.contains(s.last()) {
            d
        } else {
            d.push(s.last())
        }
    }
}

/// The six neighbors of `origin`, in the order of the unit directions.
pub open spec fn neighbors_of(origin: LatticePos) -> Seq<LatticePos> {
    unit_directions().map_values(|d: LatticePos| moved(origin, d))
}

/// The lattice positions for a multi-cursor at `origin`: its six neighbors
/// if `include_adjacent`, then its Pythagorean jump targets of size
/// `triple_dist` in lexicographic order, each position once, where it first
/// occurs.
pub fn multi_cursor_positions(origin: LatticePos, triple_dist: u32, include_adjacent: bool) -> (r: Vec<LatticePos>)
    requires
        jumps_fit(origin, triple_dist as int),
        fits_i32(origin.a + 1),
        fits_i32(origin.a - 1),
        fits_i32(origin.b + 1),
        fits_i32(origin.b - 1),
    ensures
        exists|jumps: Seq<LatticePos>|
            #![trigger strictly_sorted(jumps)]
            strictly_sorted(jumps) && (forall|p: LatticePos| jumps.contains(p) <==> is_jump(origin, triple_dist as int, p))
                && r@ == dedup(
                (if include_adjacent {
                    neighbors_of(origin)
                } else {
                    Seq::<LatticePos>::empty()
                }) + jumps,
            ),
{
    let mut cands: Vec<LatticePos> = Vec::new();
    if include_adjacent {
        let dirs = directions();
        let mut k: usize = 0;
        while k < dirs.len()
            invariant
                fits_i32(origin.a + 1),
                fits_i32(origin.a - 1),
                fits_i32(origin.b + 1),
                fits_i32(origin.b - 1),
                dirs@ == unit_directions(),
                k <= dirs@.len(),
                cands@ == neighbors_of(origin).take(k as int),
            decreases dirs@.len() - k,
        {
            let d = dirs[k];
            proof {
                assert(dirs@[k as int] == d);
            }
            let n = lattice_add(origin, d);
            cands.push(n);
            proof {
                assert(cands@ =~= neighbors_of(origin).take(k + 1));
            }
            k = k + 1;
        }
        proof {
            assert(cands@ =~= neighbors_of(origin));
        }
    }
    let mut jumps = pythagorean_jumps_from(origin, triple_dist);
    let ghost js = jumps@;
    let ghost c0 = cands@;
    cands.append(&mut jumps);
    let ghost all = cands@;
    proof {
        assert(c0 =~= (if include_adjacent {
            neighbors_of(origin)
        } else {
            Seq::<LatticePos>::empty()
        }));
        assert(all == c0 + js);
    }
    let mut r: Vec<LatticePos> = Vec::new();
    let mut i: usize = 0;
    while i < cands.len()
        invariant
            cands@ == all,
            i <= all.len(),
            r@ == dedup(all.take(i as int)),
        decreases all.len() - i,
    {
        let p = cands[i];
        proof {
            assert(all.take(i + 1).drop_last() =~= all.take(i as int));
            assert(all.take(i + 1).last() == p);
        }
        let mut found = false;
        let mut q: usize = 0;
        while q < r.len()
            invariant
                q <= r@.len(),
                found == exists|k: int| 0 <= k < q && r@[k] == p,
            decreases r@.len() - q,
        {
            if r[q] == p {
                found = true;
            }
            q = q + 1;
        }
        if !found {
            r.push(p);
        }
        i = i + 1;
    }
    proof {
        assert(all.take(all.len() as int) =~= all);
    }
    r
}

// ---------------------------------------------------------------------------
// Functions near a lattice position
// ---------------------------------------------------------------------------

/// Whether node `n` sits at `p`.
pub open spec fn sits_at(p: LatticePos) -> spec_fn(NodeView) -> bool {
    |n: NodeView| n.pos == p
}

/// The functions at lattice position `p`, in registration order.
pub fn functions_at(graph: &CodeGraph, p: LatticePos) -> (r: Vec<FunctionId>)
    ensures
        keys(r@) == graph.fns().filter(sits_at(p)).map_values(|n: NodeView| n.id),
{
    let ghost fns = graph.fns();
    let mut r: Vec<FunctionId> = Vec::new();
    let mut i: usize = 0;
    while i < graph.functions.len()
        invariant
            fns == graph.fns(),
            i <= fns.len(),
            keys(r@) == fns.take(i as int).filter(sits_at(p)).map_values(|n: NodeView| n.id),
        decreases fns.len() - i,
    {
        let node = &graph.functions[i];
        proof {
            assert(fns[i as int] == node@);
            assert(fns.take(i + 1) =~= fns.take(i as int).push(node@));
            fns.take(i as int).lemma_filter_push(node@, sits_at(p));
        }
        let ghost r0 = r@;
        if node.pos == p {
            r.push(node.id.clone());
            proof {
                assert(keys(r@) =~= keys(r0).push(node@.id));
            }
        }
        i = i + 1;
    }
    proof {
        assert(fns.take(fns.len() as int) =~= fns);
    }
    r
}

/// Whether the node at index `i` is the first of those nearest to `p`.
pub open spec fn first_nearest(fns: Seq<NodeView>, p: LatticePos, i: int) -> bool {
    &&& 0 <= i < fns.len()
    &&& forall|j: int| 0 <= j < fns.len() ==> lattice_dist(#[trigger] fns[j].pos, p) >= lattice_dist(fns[i].pos, p)
    &&& forall|j: int| 0 <= j < i ==> lattice_dist(#[trigger] fns[j].pos, p) > lattice_dist(fns[i].pos, p)
}

/// The function nearest to lattice position `p`, with its distance; the
/// first in registration order among equally near ones; none in an empty
/// graph.
pub fn nearest_to(graph: &CodeGraph, p: LatticePos) -> (r: Option<(FunctionId, u32)>)
    requires
        forall|i: int| 0 <= i < graph.fns().len() ==> distance_defined(#[trigger] graph.fns()[i].pos, p),
    ensures
        match r {
            None => graph.fns().len() == 0,
            Some((id, d)) => exists|i: int|
                #![trigger first_nearest(graph.fns(), p, i)]
                first_nearest(graph.fns(), p, i) && id@ == graph.fns()[i].id && d == lattice_dist(
                    graph.fns()[i].pos,
                    p,
                ),
        },
{
    let ghost fns = graph.fns();
    if graph.functions.len() == 0 {
        return None;
    }
    proof {
        assert(fns[0] == graph.functions@[0]@);
        assert(distance_defined(fns[0].pos, p));
    }
    let mut best: usize = 0;
    let mut best_d: u32 = distance_between(graph.functions[0].pos, p);
    let mut i: usize = 1;
    while i < graph.functions.len()
        invariant
            fns == graph.fns(),
            1 <= i <= fns.len(),
            forall|k: int| 0 <= k < fns.len() ==> distance_defined(#[trigger] fns[k].pos, p),
            best < i,
            best_d == lattice_dist(fns[best as int].pos, p),
            forall|j: int| 0 <= j < i ==> lattice_dist(#[trigger] fns[j].pos, p) >= best_d,
            forall|j: int| 0 <= j < best ==> lattice_dist(#[trigger] fns[j].pos, p) > best_d,
        decreases fns.len() - i,
    {
        proof {
            assert(fns[i as int] == graph.functions@[i as int]@);
            assert(distance_defined(fns[i as int].pos, p));
        }
        let d = distance_between(graph.functions[i].pos, p);
        if d < best_d {
            best = i;
            best_d = d;
        }
        i = i + 1;
    }
    proof {
        assert(fns[best as int] == graph.functions@[best as int]@);
        assert(first_nearest(fns, p, best as int));
    }
    Some((graph.functions[best].id.clone(), best_d))
}

// ---------------------------------------------------------------------------
// Related functions
// ---------------------------------------------------------------------------

/// Lexicographic order on names by their characters. Since UTF-8 keeps the
/// order of code points, this is the order in which `String`s compare.
pub open spec fn name_le(a: Seq<char>, b: Seq<char>) -> bool
    decreases a.len(),
{
    if a.len() == 0 {
        true
    } else if b.len() == 0 {
        false
    } else if a[0] != b[0] {
        a[0] < b[0]
    } else {
        name_le(a.drop_first(), b.drop_first())
    }
}

pub proof fn lemma_name_le_total(a: Seq<char>, b: Seq<char>)
    ensures
        name_le(a, b) || name_le(b, a),
    decreases a.len(),
{
    if a.len() > 0 && b.len() > 0 && a[0] == b[0] {
        lemma_name_le_total(a.drop_first(), b.drop_first());
    }
}

pub proof fn lemma_name_le_trans(a: Seq<char>, b: Seq<char>, c: Seq<char>)
    requires
        name_le(a, b),
        name_le(b, c),
    ensures
        name_le(a, c),
    decreases a.len(),
{
    if a.len() > 0 && b.len() > 0 && c.len() > 0 && a[0] == b[0] && b[0] == c[0] {
        lemma_name_le_trans(a.drop_first(), b.drop_first(), c.drop_first());
    }
}

/// Names that agree on their first `i` characters compare as what follows.
proof fn lemma_name_le_skip(a: Seq<char>, b: Seq<char>, i: int)
    requires
        0 <= i <= a.len(),
        i <= b.len(),
        forall|k: int| 0 <= k < i ==> a[k] == b[k],
    ensures
        name_le(a, b) == name_le(a.skip(i), b.skip(i)),
    decreases i,
{
    if i > 0 {
        lemma_name_le_skip(a.drop_first(), b.drop_first(), i - 1);
        assert(a.drop_first().skip(i - 1) =~= a.skip(i));
        assert(b.drop_first().skip(i - 1) =~= b.skip(i));
    } else {
        assert(a.skip(0) =~= a);
        assert(b.skip(0) =~= b);
    }
}

/// Whether name `a` sorts no later than name `b`.
pub fn names_le(a: &String, b: &String) -> (r: bool)
    ensures
        r == name_le(a@, b@),
{
    let sa = a.as_str();
    let sb = b.as_str();
    let la = sa.unicode_len();
    let lb = sb.unicode_len();
    let mut i: usize = 0;
    while i < la && i < lb && sa.get_char(i) == sb.get_char(i)
        invariant
            sa@ == a@,
            sb@ == b@,
            la == a@.len(),
            lb == b@.len(),
            i <= la,
            i <= lb,
            forall|k: int| 0 <= k < i ==> a@[k] == b@[k],
        decreases la - i,
    {
        i = i + 1;
    }
    proof {
        lemma_name_le_skip(a@, b@, i as int);
    }
    if i == la {
        true
    } else if i == lb {
        false
    } else {
        let ca = sa.get_char(i);
        let cb = sb.get_char(i);
        proof {
            assert(a@.skip(i as int)[0] == ca);
            assert(b@.skip(i as int)[0] == cb);
        }
        ca < cb
    }
}

/// A related function: its id, its lattice distance, and whether it shares
/// the module.
impl Ranked for (FunctionId, u32, bool) {
    open spec fn rank_ok(self) -> bool {
        true
    }

    /// Nearer first; at equal distance, same module first; then by name.
    open spec fn ranks_le(self, other: Self) -> bool {
        ||| self.1 < other.1
        ||| self.1 == other.1 && self.2 && !other.2
        ||| self.1 == other.1 && self.2 == other.2 && name_le(self.0.name@, other.0.name@)
    }

    fn ranks_before(&self, other: &Self) -> (b: bool) {
        if self.1 != other.1 {
            self.1 < other.1
        } else if self.2 != other.2 {
            self.2
        } else {
            names_le(&self.0.name, &other.0.name)
        }
    }

    proof fn lemma_ranks_total(a: Self, b: Self) {
        lemma_name_le_total(a.0.name@, b.0.name@);
    }

    proof fn lemma_ranks_trans(a: Self, b: Self, c: Self) {
        if a.1 == b.1 && b.1 == c.1 && a.2 == b.2 && b.2 == c.2 {
            lemma_name_le_trans(a.0.name@, b.0.name@, c.0.name@);
        }
    }
}

/// What a related-function entry denotes.
pub open spec fn related_view(t: (FunctionId, u32, bool)) -> (FnKey, u32, bool) {
    (t.0@, t.1, t.2)
}

/// The related-function entries of the functions other than `key` within
/// lattice distance `max` of `center`, in registration order.
pub open spec fn related_candidates(fns: Seq<NodeView>, key: FnKey, center: LatticePos, max: int) -> Seq<
    (FnKey, u32, bool),
> {
    fns.filter(is_near(key, center, max)).map_values(
        |n: NodeView| (n.id, lattice_dist(n.pos, center) as u32, n.id.0 == key.0),
    )
}

/// The functions related to `fn_id`: those other than it within lattice
/// distance `max_distance`, nearest first, then those of its own module,
/// then by name; at most `max_results`. None if `fn_id` is not registered.
pub fn related_functions(graph: &CodeGraph, fn_id: &FunctionId, max_distance: u32, max_results: usize) -> (r: Vec<
    (FunctionId, u32, bool),
>)
    requires
        graph.wf(),
        graph.fn_keys().contains(fn_id@) ==> forall|i: int|
            0 <= i < graph.fns().len() ==> distance_defined(#[trigger] graph.fns()[i].pos, graph.pos_of(fn_id@)),
    ensures
        !graph.fn_keys().contains(fn_id@) ==> r@.len() == 0,
        graph.fn_keys().contains(fn_id@) ==> exists|c: Seq<(FunctionId, u32, bool)>|
            #![trigger is_top(r@, c, max_results as int)]
            c.map_values(|t: (FunctionId, u32, bool)| related_view(t)) == related_candidates(
                graph.fns(),
                fn_id@,
                graph.pos_of(fn_id@),
                max_distance as int,
            ) && is_top(r@, c, max_results as int),
{
    let c = match graph.find_function(fn_id) {
        Some(c) => c,
        None => return Vec::new(),
    };
    proof {
        assert(graph.fn_keys()[c as int] == fn_id@);
        lemma_index_in(graph.fn_keys(), c as int);
    }
    let center = graph.functions[c].pos;
    let ghost fns = graph.fns();
    let ghost pred = is_near(fn_id@, center, max_distance as int);
    let mut cands: Vec<(FunctionId, u32, bool)> = Vec::new();
    let mut i: usize = 0;
    while i < graph.functions.len()
        invariant
            fns == graph.fns(),
            center == graph.pos_of(fn_id@),
            pred == is_near(fn_id@, center, max_distance as int),
            i <= fns.len(),
            forall|k: int| 0 <= k < fns.len() ==> distance_defined(#[trigger] fns[k].pos, center),
            cands@.map_values(|t: (FunctionId, u32, bool)| related_view(t)) == fns.take(i as int).filter(
                pred,
            ).map_values(|n: NodeView| (n.id, lattice_dist(n.pos, center) as u32, n.id.0 == fn_id@.0)),
        decreases fns.len() - i,
    {
        let node = &graph.functions[i];
        proof {
            assert(fns[i as int] == node@);
            assert(distance_defined(fns[i as int].pos, center));
            assert(fns.take(i + 1) =~= fns.take(i as int).push(node@));
            fns.take(i as int).lemma_filter_push(node@, pred);
        }
        let ghost c0 = cands@;
        if node.id != *fn_id {
            let d = distance_between(node.pos, center);
            if d <= max_distance {
                cands.push((node.id.clone(), d, node.id.file == fn_id.file));
                proof {
                    assert(cands@.map_values(|t: (FunctionId, u32, bool)| related_view(t)) =~= c0.map_values(
                        |t: (FunctionId, u32, bool)| related_view(t),
                    ).push((node@.id, d, node@.id.0 == fn_id@.0)));
                }
            }
        }
        i = i + 1;
    }
    proof {
        assert(fns.take(fns.len() as int) =~= fns);
        assert(all_rank_ok(cands@));
    }
    let ghost cs = cands@;
    let r = top_ranked(cands, max_results);
    proof {
        assert(is_top(r@, cs, max_results as int));
    }
    r
}

} // verus!
