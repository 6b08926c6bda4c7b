//! What the ring and spiral walks visit: every cell of the ring or disk
//! exactly once, and nothing else.

use crate::hex_vector::{abs, cube_distance, Cube};
use crate::hex_walk::{
    lemma_ring_cell_distance, ring_cell, ring_seq, ring_side, ring_side_offset, rings_inward,
    rings_outward, spiral_seq,
};
use vstd::arithmetic::div_mod::{
    lemma_div_pos_is_pos, lemma_fundamental_div_mod, lemma_fundamental_div_mod_converse,
    lemma_mod_pos_bound,
};
use vstd::arithmetic::mul::lemma_mul_is_commutative;
use vstd::prelude::*;

verus! {

/// The sum of the cube coordinates; cells reachable from one another by
/// unit steps share it.
pub open spec fn cube_sum(c: Cube) -> int {
    c.0 + c.1 + c.2
}

/// The cells of the plane of `origin` at a distance from it between `low` and `high`.
pub open spec fn in_annulus(origin: Cube, c: Cube, low: int, high: int) -> bool {
    &&& cube_sum(c) == cube_sum(origin)
    &&& low <= cube_distance(c, origin) <= high
}

proof fn lemma_split(radius: int, k: int)
    requires
        radius >= 1,
        0 <= k < 6 * radius,
    ensures
        k == (k / radius) * radius + k % radius,
        0 <= k % radius < radius,
        0 <= k / radius < 6,
{
    lemma_fundamental_div_mod(k, radius);
    lemma_mul_is_commutative(radius, k / radius);
    lemma_mod_pos_bound(k, radius);
    lemma_div_pos_is_pos(k, radius);
    assert(k / radius < 6) by (nonlinear_arith)
        requires
            k == (k / radius) * radius + k % radius,
            0 <= k % radius,
            k < 6 * radius,
            radius >= 1,
    ;
}

/// A ring walk stays on the plane of its centre.
pub proof fn lemma_ring_cell_sum(origin: Cube, radius: int, k: int)
    requires
        radius >= 1,
        0 <= k < 6 * radius,
    ensures
        cube_sum(ring_cell(origin, radius, k)) == cube_sum(origin),
{
    lemma_split(radius, k);
}

/// The items of a ring walk are pairwise different.
pub proof fn lemma_ring_injective(origin: Cube, radius: int, k1: int, k2: int)
    requires
        radius >= 1,
        0 <= k1 < 6 * radius,
        0 <= k2 < 6 * radius,
        k1 != k2,
    ensures
        ring_cell(origin, radius, k1) != ring_cell(origin, radius, k2),
{
    lemma_split(radius, k1);
    lemma_split(radius, k2);
    let j1 = k1 / radius;
    let j2 = k2 / radius;
    if j1 == j2 {
        assert(k1 % radius != k2 % radius);
    }
}

/// Every cell at distance `radius` on the plane of the centre is on the ring.
pub proof fn lemma_ring_covers(origin: Cube, radius: int, c: Cube) -> (k: int)
    requires
        radius >= 1,
        in_annulus(origin, c, radius, radius),
    ensures
        0 <= k < 6 * radius,
        ring_cell(origin, radius, k) == c,
{
    let d0 = c.0 - origin.0;
    let d1 = c.1 - origin.1;
    let d2 = c.2 - origin.2;
    let (j, t): (int, int) = if d2 == radius && d0 < 0 {
        (0, -d0)
    } else if d0 == -radius && d1 > 0 {
        (1, d1)
    } else if d1 == radius && d2 < 0 {
        (2, -d2)
    } else if d2 == -radius && d0 > 0 {
        (3, d0)
    } else if d0 == radius && d1 < 0 {
        (4, -d1)
    } else {
        (5, d2)
    };
    let k = j * radius + (t - 1);
    lemma_fundamental_div_mod_converse(k, radius, j, t - 1);
    assert(ring_side_offset(radius, j, t) == (d0, d1, d2));
    assert(0 <= k < 6 * radius) by (nonlinear_arith)
        requires
            k == j * radius + (t - 1),
            0 <= j < 6,
            1 <= t <= radius,
    ;
    k
}

/// The ring of radius `radius >= 1` holds exactly the cells at that distance
/// on the plane of its centre, each once.
pub proof fn lemma_ring_seq_exact(origin: Cube, radius: int)
    requires
        radius >= 1,
    ensures
        ring_seq(origin, radius).no_duplicates(),
        forall|c: Cube|
            ring_seq(origin, radius).contains(c) <==> in_annulus(origin, c, radius, radius),
{
    let s = ring_seq(origin, radius);
    assert forall|a: int, b: int| 0 <= a < s.len() && 0 <= b < s.len() && a != b implies s[a]
        != s[b] by {
        lemma_ring_injective(origin, radius, a, b);
    }
    assert forall|c: Cube| s.contains(c) <==> in_annulus(origin, c, radius, radius) by {
        if s.contains(c) {
            let k = choose|k: int| 0 <= k < s.len() && s[k] == c;
            lemma_ring_cell_distance(origin, radius, k);
            lemma_ring_cell_sum(origin, radius, k);
        }
        if in_annulus(origin, c, radius, radius) {
            let k = lemma_ring_covers(origin, radius, c);
            assert(s[k] == c);
        }
    }
}

proof fn lemma_concat_exact(s1: Seq<Cube>, s2: Seq<Cube>)
    requires
        s1.no_duplicates(),
        s2.no_duplicates(),
        forall|c: Cube| s1.contains(c) ==> !s2.contains(c),
    ensures
        (s1 + s2).no_duplicates(),
        forall|c: Cube| (s1 + s2).contains(c) <==> (s1.contains(c) || s2.contains(c)),
{
    let s = s1 + s2;
    assert forall|a: int, b: int| 0 <= a < s.len() && 0 <= b < s.len() && a != b implies s[a]
        != s[b] by {
        if a < s1.len() && b >= s1.len() {
            assert(s1.contains(s[a]));
            assert(s2.contains(s2[b - s1.len()]));
        } else if b < s1.len() && a >= s1.len() {
            assert(s1.contains(s[b]));
            assert(s2.contains(s2[a - s1.len()]));
        }
    }
    assert forall|c: Cube| s.contains(c) <==> (s1.contains(c) || s2.contains(c)) by {
        if s.contains(c) {
            let k = choose|k: int| 0 <= k < s.len() && s[k] == c;
            if k < s1.len() {
                assert(s1[k] == c);
            } else {
                assert(s2[k - s1.len()] == c);
            }
        }
        if s1.contains(c) {
            let k = choose|k: int| 0 <= k < s1.len() && s1[k] == c;
            assert(s[k] == c);
        }
        if s2.contains(c) {
            let k = choose|k: int| 0 <= k < s2.len() && s2[k] == c;
            assert(s[k + s1.len()] == c);
        }
    }
}

/// The rings `low..=high` (with `low >= 1`) hold exactly the cells whose
/// distance lies in that range, each once; there are
/// `3 * (high * (high + 1) - (low - 1) * low)` of them.
pub proof fn lemma_rings_outward_exact(origin: Cube, low: int, high: int)
    requires
        low >= 1,
    ensures
        rings_outward(origin, low, high).no_duplicates(),
        forall|c: Cube|
            #![trigger rings_outward(origin, low, high).contains(c)]
            rings_outward(origin, low, high).contains(c) <==> in_annulus(origin, c, low, high),
        low <= high + 1 ==> rings_outward(origin, low, high).len() == 3 * (high * (high + 1) - (
        low - 1) * low),
    decreases high + 1 - low,
{
    let s = rings_outward(origin, low, high);
    if low > high {
        assert(s =~= Seq::<Cube>::empty());
        assert forall|c: Cube| s.contains(c) <==> in_annulus(origin, c, low, high) by {}
    } else {
        let s1 = ring_seq(origin, low);
        let s2 = rings_outward(origin, low + 1, high);
        assert(s == s1 + s2);
        lemma_ring_seq_exact(origin, low);
        lemma_rings_outward_exact(origin, low + 1, high);
        assert forall|c: Cube| s1.contains(c) implies !s2.contains(c) by {
            assert(in_annulus(origin, c, low, low));
        }
        lemma_concat_exact(s1, s2);
        assert forall|c: Cube| s.contains(c) <==> in_annulus(origin, c, low, high) by {
            assert(s1.contains(c) <==> in_annulus(origin, c, low, low));
            assert(s2.contains(c) <==> in_annulus(origin, c, low + 1, high));
        }
        assert(3 * (high * (high + 1) - low * (low + 1)) + 6 * low == 3 * (high * (high + 1) - (
        low - 1) * low)) by (nonlinear_arith);
    }
}

/// The rings `radius` down to 1 hold exactly the cells at distance 1 to
/// `radius`, each once.
pub proof fn lemma_rings_inward_exact(origin: Cube, radius: int)
    ensures
        rings_inward(origin, radius).no_duplicates(),
        forall|c: Cube|
            #![trigger rings_inward(origin, radius).contains(c)]
            rings_inward(origin, radius).contains(c) <==> in_annulus(origin, c, 1, radius),
        radius >= 0 ==> rings_inward(origin, radius).len() == 3 * radius * (radius + 1),
    decreases radius,
{
    let s = rings_inward(origin, radius);
    if radius <= 0 {
        assert(s =~= Seq::<Cube>::empty());
        assert forall|c: Cube| s.contains(c) <==> in_annulus(origin, c, 1, radius) by {}
        assert(radius == 0 ==> 3 * radius * (radius + 1) == 0) by (nonlinear_arith);
    } else {
        let s1 = ring_seq(origin, radius);
        let s2 = rings_inward(origin, radius - 1);
        assert(s == s1 + s2);
        lemma_ring_seq_exact(origin, radius);
        lemma_rings_inward_exact(origin, radius - 1);
        assert forall|c: Cube| s1.contains(c) implies !s2.contains(c) by {
            assert(in_annulus(origin, c, radius, radius));
        }
        lemma_concat_exact(s1, s2);
        assert forall|c: Cube| s.contains(c) <==> in_annulus(origin, c, 1, radius) by {
            assert(s1.contains(c) <==> in_annulus(origin, c, radius, radius));
            assert(s2.contains(c) <==> in_annulus(origin, c, 1, radius - 1));
        }
        let l2 = s2.len() as int;
        assert(6 * radius + l2 == 3 * radius * (radius + 1)) by (nonlinear_arith)
            requires
                l2 == 3 * (radius - 1) * (radius - 1 + 1),
        ;
    }
}

proof fn lemma_origin_exact(origin: Cube)
    ensures
        seq![origin].no_duplicates(),
        forall|c: Cube|
            #![trigger seq![origin].contains(c)]
            seq![origin].contains(c) <==> in_annulus(origin, c, 0, 0),
{
    assert forall|c: Cube| seq![origin].contains(c) <==> in_annulus(origin, c, 0, 0) by {
        if in_annulus(origin, c, 0, 0) {
            assert(seq![origin][0] == c);
        }
    }
}

/// A spiral that starts at the origin and walks outwards to ring `to`
/// visits every cell within distance `to` exactly once, the origin first;
/// `1 + 3 * to * (to + 1)` cells in all.
pub proof fn lemma_spiral_outward_from_origin(origin: Cube, to: int)
    requires
        to >= 1,
    ensures
        spiral_seq(origin, 0, to).no_duplicates(),
        forall|c: Cube| spiral_seq(origin, 0, to).contains(c) <==> in_annulus(origin, c, 0, to),
        spiral_seq(origin, 0, to).len() == 1 + 3 * to * (to + 1),
        spiral_seq(origin, 0, to)[0] == origin,
{
    let s1 = seq![origin];
    let s2 = rings_outward(origin, 1, to);
    lemma_origin_exact(origin);
    lemma_rings_outward_exact(origin, 1, to);
    assert forall|c: Cube| s1.contains(c) implies !s2.contains(c) by {
        assert(in_annulus(origin, c, 0, 0));
    }
    lemma_concat_exact(s1, s2);
    let l2 = s2.len() as int;
    assert(1 + l2 == 1 + 3 * to * (to + 1)) by (nonlinear_arith)
        requires
            l2 == 3 * (to * (to + 1) - (1 - 1) * 1),
    ;
    assert forall|c: Cube| spiral_seq(origin, 0, to).contains(c) <==> in_annulus(origin, c, 0, to) by {
        assert(s1.contains(c) <==> in_annulus(origin, c, 0, 0));
        assert(s2.contains(c) <==> in_annulus(origin, c, 1, to));
    }
}

/// A spiral that starts at ring `from >= 1` and walks outwards to ring `to`
/// visits each cell at a distance between `from` and `to` exactly once.
pub proof fn lemma_spiral_outward(origin: Cube, from: int, to: int)
    requires
        1 <= from < to,
    ensures
        spiral_seq(origin, from, to).no_duplicates(),
        forall|c: Cube|
            spiral_seq(origin, from, to).contains(c) <==> in_annulus(origin, c, from, to),
{
    lemma_rings_outward_exact(origin, from, to);
}

/// A spiral that walks inwards from ring `from >= 1` visits every cell
/// within distance `from` exactly once, whatever ring it was asked to stop
/// at, and ends at the origin.
pub proof fn lemma_spiral_inward(origin: Cube, from: int, to: int)
    requires
        from >= 1,
        to <= from,
    ensures
        spiral_seq(origin, from, to).no_duplicates(),
        forall|c: Cube|
            spiral_seq(origin, from, to).contains(c) <==> in_annulus(origin, c, 0, from),
        spiral_seq(origin, from, to).len() == 1 + 3 * from * (from + 1),
        spiral_seq(origin, from, to).last() == origin,
{
    let s1 = rings_inward(origin, from);
    let s2 = seq![origin];
    lemma_origin_exact(origin);
    lemma_rings_inward_exact(origin, from);
    assert forall|c: Cube| s1.contains(c) implies !s2.contains(c) by {
        assert(in_annulus(origin, c, 1, from));
    }
    lemma_concat_exact(s1, s2);
    assert forall|c: Cube| spiral_seq(origin, from, to).contains(c) <==> in_annulus(origin, c, 0, from) by {
        assert(s1.contains(c) <==> in_annulus(origin, c, 1, from));
        assert(s2.contains(c) <==> in_annulus(origin, c, 0, 0));
    }
}

/// Item `m` of ring `r` sits in the rings `low..=high` after the
/// `3 * ((r - 1) * r - (low - 1) * low)` cells of the rings before it.
proof fn lemma_rings_outward_index(origin: Cube, low: int, high: int, r: int, m: int)
    requires
        1 <= low <= r <= high,
        0 <= m < 6 * r,
    ensures
        3 * ((r - 1) * r - (low - 1) * low) + m < rings_outward(origin, low, high).len(),
        rings_outward(origin, low, high)[3 * ((r - 1) * r - (low - 1) * low) + m] == ring_cell(
            origin,
            r,
            m,
        ),
    decreases r - low,
{
    let s1 = ring_seq(origin, low);
    let s2 = rings_outward(origin, low + 1, high);
    let idx = 3 * ((r - 1) * r - (low - 1) * low) + m;
    assert(rings_outward(origin, low, high) == s1 + s2);
    assert(s1.len() == 6 * low);
    if r == low {
        assert(idx == m) by (nonlinear_arith)
            requires
                r == low,
                idx == 3 * ((r - 1) * r - (low - 1) * low) + m,
        ;
        assert((s1 + s2)[idx] == s1[m]);
    } else {
        let idx2 = 3 * ((r - 1) * r - low * (low + 1)) + m;
        lemma_rings_outward_index(origin, low + 1, high, r, m);
        assert(idx == 6 * low + idx2) by (nonlinear_arith)
            requires
                idx == 3 * ((r - 1) * r - (low - 1) * low) + m,
                idx2 == 3 * ((r - 1) * r - low * (low + 1)) + m,
        ;
        assert(idx2 >= 0) by (nonlinear_arith)
            requires
                idx2 == 3 * ((r - 1) * r - low * (low + 1)) + m,
                low + 1 <= r,
                m >= 0,
                low >= 1,
        ;
        assert((s1 + s2)[idx] == s2[idx2]);
    }
}

/// Item `m` of ring `r` sits in the rings `radius` down to 1 after the
/// `3 * (radius * (radius + 1) - r * (r + 1))` cells of the rings before it.
proof fn lemma_rings_inward_index(origin: Cube, radius: int, r: int, m: int)
    requires
        1 <= r <= radius,
        0 <= m < 6 * r,
    ensures
        3 * (radius * (radius + 1) - r * (r + 1)) + m < rings_inward(origin, radius).len(),
        rings_inward(origin, radius)[3 * (radius * (radius + 1) - r * (r + 1)) + m] == ring_cell(
            origin,
            r,
            m,
        ),
    decreases radius - r,
{
    let s1 = ring_seq(origin, radius);
    let s2 = rings_inward(origin, radius - 1);
    let idx = 3 * (radius * (radius + 1) - r * (r + 1)) + m;
    assert(rings_inward(origin, radius) == s1 + s2);
    assert(s1.len() == 6 * radius);
    if r == radius {
        assert(idx == m) by (nonlinear_arith)
            requires
                r == radius,
                idx == 3 * (radius * (radius + 1) - r * (r + 1)) + m,
        ;
        assert((s1 + s2)[idx] == s1[m]);
    } else {
        let idx2 = 3 * ((radius - 1) * radius - r * (r + 1)) + m;
        lemma_rings_inward_index(origin, radius - 1, r, m);
        assert(idx == 6 * radius + idx2) by (nonlinear_arith)
            requires
                idx == 3 * (radius * (radius + 1) - r * (r + 1)) + m,
                idx2 == 3 * ((radius - 1) * radius - r * (r + 1)) + m,
        ;
        assert(idx2 >= 0) by (nonlinear_arith)
            requires
                idx2 == 3 * ((radius - 1) * radius - r * (r + 1)) + m,
                r + 1 <= radius,
                m >= 0,
                r >= 1,
        ;
        assert((s1 + s2)[idx] == s2[idx2]);
    }
}

/// A spiral walking outwards from the origin yields its rings in turn: after
/// the origin and the `3 * (r - 1) * r` cells of the nearer rings come the
/// `6 * r` cells of ring `r`, all at distance `r`.
pub proof fn lemma_spiral_outward_order(origin: Cube, to: int, r: int, m: int)
    requires
        1 <= r <= to,
        0 <= m < 6 * r,
    ensures
        1 + 3 * (r - 1) * r + m < spiral_seq(origin, 0, to).len(),
        spiral_seq(origin, 0, to)[1 + 3 * (r - 1) * r + m] == ring_cell(origin, r, m),
        cube_distance(spiral_seq(origin, 0, to)[1 + 3 * (r - 1) * r + m], origin) == r,
{
    lemma_rings_outward_index(origin, 1, to, r, m);
    lemma_ring_cell_distance(origin, r, m);
    assert(3 * ((r - 1) * r - (1 - 1) * 1) == 3 * (r - 1) * r) by (nonlinear_arith);
    assert(spiral_seq(origin, 0, to) == seq![origin] + rings_outward(origin, 1, to));
}

/// A spiral walking inwards from ring `from` yields its rings in turn: after
/// the cells of the farther rings come the `6 * r` cells of ring `r`, all at
/// distance `r`; the origin comes last.
pub proof fn lemma_spiral_inward_order(origin: Cube, from: int, to: int, r: int, m: int)
    requires
        1 <= r <= from,
        to <= from,
        0 <= m < 6 * r,
    ensures
        3 * (from * (from + 1) - r * (r + 1)) + m < spiral_seq(origin, from, to).len(),
        spiral_seq(origin, from, to)[3 * (from * (from + 1) - r * (r + 1)) + m] == ring_cell(
            origin,
            r,
            m,
        ),
        cube_distance(spiral_seq(origin, from, to)[3 * (from * (from + 1) - r * (r + 1)) + m], origin)
            == r,
{
    let idx = 3 * (from * (from + 1) - r * (r + 1)) + m;
    assert(idx >= 0) by (nonlinear_arith)
        requires
            idx == 3 * (from * (from + 1) - r * (r + 1)) + m,
            1 <= r <= from,
            m >= 0,
    ;
    lemma_rings_inward_index(origin, from, r, m);
    lemma_ring_cell_distance(origin, r, m);
    assert(spiral_seq(origin, from, to) == rings_inward(origin, from) + seq![origin]);
    assert((rings_inward(origin, from) + seq![origin])[idx] == rings_inward(origin, from)[idx]);
}

/// A spiral that starts and ends at the origin yields nothing.
pub proof fn lemma_spiral_empty(origin: Cube, to: int)
    requires
        to <= 0,
    ensures
        spiral_seq(origin, 0, to).len() == 0,
{
}

} // verus!
