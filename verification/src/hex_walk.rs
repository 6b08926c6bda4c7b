//! Walks around a cell: the ring of all cells at one distance, and the
//! spiral that visits ring after ring.

use crate::hex_vector::{abs, ball_fits, cube_add, cube_distance, cube_fits, hex_direction, spec_direction, Cube, HexVector};
use vstd::arithmetic::div_mod::{lemma_fundamental_div_mod, lemma_fundamental_div_mod_converse, lemma_mod_pos_bound, lemma_div_pos_is_pos};
use vstd::arithmetic::mul::lemma_mul_is_commutative;
use vstd::prelude::*;

verus! {

/// Offset from the ring's first corner walk: cell `t` (1-based) of side
/// `side` of the ring of radius `radius` around the origin.
pub open spec fn ring_side_offset(radius: int, side: int, t: int) -> Cube {
    if side == 0 {
        (-t, t - radius, radius)
    } else if side == 1 {
        (-radius, t, radius - t)
    } else if side == 2 {
        (t - radius, radius, -t)
    } else if side == 3 {
        (t, radius - t, -radius)
    } else if side == 4 {
        (radius, -t, t - radius)
    } else {
        (radius - t, -radius, t)
    }
}

/// The first cell of a ring walk started with radius `start_radius`:
/// `start_radius` steps in direction 4 from the origin.
pub open spec fn ring_start(origin: Cube, start_radius: int) -> Cube {
    (origin.0, origin.1 - start_radius, origin.2 + start_radius)
}

/// The side length of a ring walk started with radius `start_radius`.
pub open spec fn ring_side(start_radius: int) -> int {
    if start_radius < 1 {
        1
    } else {
        start_radius
    }
}

/// The cell that a ring walk around `origin`, started with radius
/// `start_radius`, yields as its `k`-th item (counting from 0).
pub open spec fn ring_cell(origin: Cube, start_radius: int, k: int) -> Cube {
    let side = ring_side(start_radius);
    let shift: Cube = if start_radius < 1 {
        (0, 1, -1)
    } else {
        (0, 0, 0)
    };
    cube_add(cube_add(origin, shift), ring_side_offset(side, k / side, k % side + 1))
}

/// The `6 * radius` cells of the ring of radius `radius` around `origin`,
/// in walking order.
pub open spec fn ring_seq(origin: Cube, radius: int) -> Seq<Cube> {
    Seq::new((6 * radius) as nat, |k: int| ring_cell(origin, radius, k))
}

/// The step from item `k - 1` to item `k` of a ring walk is the unit step of
/// the side that item `k` lies on.
proof fn lemma_side_index(side: int, k: int)
    requires
        side >= 1,
        k >= 0,
    ensures
        k == (k / side) * side + k % side,
        0 <= k % side < side,
        0 <= k / side,
        k % side + 1 < side ==> (k + 1) / side == k / side && (k + 1) % side == k % side + 1,
        k % side + 1 == side ==> (k + 1) / side == k / side + 1 && (k + 1) % side == 0,
{
    lemma_fundamental_div_mod(k, side);
    lemma_mul_is_commutative(side, k / side);
    lemma_mod_pos_bound(k, side);
    lemma_div_pos_is_pos(k, side);
    let q = k / side;
    let t = k % side;
    if t + 1 < side {
        lemma_fundamental_div_mod_converse(k + 1, side, q, t + 1);
    } else {
        assert(k + 1 == (q + 1) * side + 0) by (nonlinear_arith)
            requires
                k == q * side + t,
                t + 1 == side,
        ;
        lemma_fundamental_div_mod_converse(k + 1, side, q + 1, 0);
    }
}

/// Each item of a ring walk is the one before plus the unit step of the
/// side it lies on: the walk goes `side` steps in each direction in turn.
pub proof fn lemma_ring_step(origin: Cube, start_radius: int, k: int)
    requires
        start_radius >= 0,
        0 <= k,
        k + 1 < 6 * ring_side(start_radius),
    ensures
        ring_cell(origin, start_radius, k + 1) == cube_add(
            ring_cell(origin, start_radius, k),
            spec_direction((k + 1) / ring_side(start_radius)),
        ),
        0 <= (k + 1) / ring_side(start_radius) < 6,
{
    let side = ring_side(start_radius);
    lemma_side_index(side, k);
    lemma_side_index(side, k + 1);
    assert((k + 1) / side < 6) by (nonlinear_arith)
        requires
            k + 1 == ((k + 1) / side) * side + (k + 1) % side,
            0 <= (k + 1) % side,
            k + 1 < 6 * side,
            side >= 1,
    ;
}

/// The first item of a ring walk is one unit step (direction 0) from its start.
pub proof fn lemma_ring_first(origin: Cube, start_radius: int)
    requires
        start_radius >= 0,
    ensures
        ring_cell(origin, start_radius, 0) == cube_add(
            ring_start(origin, start_radius),
            spec_direction(0),
        ),
{
    let side = ring_side(start_radius);
    lemma_side_index(side, 0);
    lemma_fundamental_div_mod_converse(0, side, 0, 0);
}


/// Every cell of a ring of radius `radius >= 1` lies at distance exactly
/// `radius` from its centre.
pub proof fn lemma_ring_cell_distance(origin: Cube, radius: int, k: int)
    requires
        radius >= 1,
        0 <= k < 6 * radius,
    ensures
        cube_distance(ring_cell(origin, radius, k), origin) == radius,
{
    lemma_side_index(radius, k);
    assert(k / radius < 6) by (nonlinear_arith)
        requires
            k == (k / radius) * radius + k % radius,
            0 <= k % radius,
            k < 6 * radius,
            radius >= 1,
    ;
}

/// A ring walk of radius `radius >= 1` closes on its start: its last item
/// is the cell `radius` steps from the centre in direction 4, where it began.
pub proof fn lemma_ring_closes(origin: Cube, radius: int)
    requires
        radius >= 1,
    ensures
        ring_cell(origin, radius, 6 * radius - 1) == ring_start(origin, radius),
{
    lemma_fundamental_div_mod_converse(6 * radius - 1, radius, 5, radius - 1);
}

/// The cells of a ring walk can be stored when the ball around its centre can.
pub proof fn lemma_ring_cell_fits(origin: Cube, start_radius: int, k: int)
    requires
        start_radius >= 0,
        0 <= k < 6 * ring_side(start_radius),
        ball_fits(origin, if start_radius < 1 { 2 } else { start_radius }),
    ensures
        cube_fits(ring_cell(origin, start_radius, k)),
{
    let side = ring_side(start_radius);
    lemma_side_index(side, k);
    assert(k / side < 6) by (nonlinear_arith)
        requires
            k == (k / side) * side + k % side,
            0 <= k % side,
            k < 6 * side,
            side >= 1,
    ;
}

/// Iterates over the ring of cells at a fixed distance around an origin.
pub struct HexVectorRing {
    current: HexVector,
    range: u16,
    i: u16,
    origin: Ghost<Cube>,
    start_radius: Ghost<int>,
}

impl HexVectorRing {
    /// The centre of the ring.
    pub closed spec fn spec_origin(&self) -> Cube {
        self.origin@
    }

    /// The radius the ring was created with.
    pub closed spec fn spec_start_radius(&self) -> int {
        self.start_radius@
    }

    /// How many items the ring has yielded so far.
    pub closed spec fn spec_index(&self) -> int {
        self.i as int
    }

    pub closed spec fn wf(&self) -> bool {
        &&& self.start_radius@ >= 0
        &&& self.range as int == ring_side(self.start_radius@)
        &&& self.current.cube() == if self.i == 0 {
            ring_start(self.origin@, self.start_radius@)
        } else {
            ring_cell(self.origin@, self.start_radius@, self.i - 1)
        }
    }

    /// Starts a ring walk of radius `range` around `origin`; a radius of 0
    /// walks as if it were 1.
    pub fn new(origin: &HexVector, range: u16) -> (ring: Self)
        requires
            range <= i16::MAX,
            cube_fits(ring_start(origin.cube(), range as int)),
        ensures
            ring.wf(),
            ring.spec_origin() == origin.cube(),
            ring.spec_start_radius() == range as int,
            ring.spec_index() == 0,
    {
        let direction = hex_direction(4);
        let step = HexVector(0, direction.1 * (range as i16), direction.2 * (range as i16));
        let current = origin.plus(&step);
        Self {
            current,
            range: if range > 1 { range } else { 1 },
            i: 0,
            origin: Ghost(origin.cube()),
            start_radius: Ghost(range as int),
        }
    }

    /// Yields the next cell of the ring walk.
    pub fn next(&mut self) -> (item: Option<HexVector>)
        requires
            old(self).wf(),
            old(self).spec_index() < 6 * ring_side(old(self).spec_start_radius()),
            old(self).spec_index() < u16::MAX,
            cube_fits(
                ring_cell(
                    old(self).spec_origin(),
                    old(self).spec_start_radius(),
                    old(self).spec_index(),
                ),
            ),
        ensures
            final(self).wf(),
            final(self).spec_origin() == old(self).spec_origin(),
            final(self).spec_start_radius() == old(self).spec_start_radius(),
            final(self).spec_index() == old(self).spec_index() + 1,
            item matches Some(h) && h.cube() == ring_cell(
                old(self).spec_origin(),
                old(self).spec_start_radius(),
                old(self).spec_index(),
            ),
    {
        proof {
            if self.i == 0 {
                lemma_ring_first(self.origin@, self.start_radius@);
                lemma_side_index(self.range as int, 0);
            } else {
                lemma_ring_step(self.origin@, self.start_radius@, self.i - 1);
            }
        }
        let sibling = self.current.get_sibling((self.i / self.range) as usize);
        self.current = sibling;
        self.i = self.i + 1;
        Some(sibling)
    }
}

} // verus!

verus! {

/// The rings of radius `from`, `from + 1`, ..., `to` around `origin`, one
/// after the other.
pub open spec fn rings_outward(origin: Cube, from: int, to: int) -> Seq<Cube>
    decreases to + 1 - from,
{
    if from > to {
        Seq::empty()
    } else {
        ring_seq(origin, from) + rings_outward(origin, from + 1, to)
    }
}

/// The rings of radius `radius`, `radius - 1`, ..., `1` around `origin`, one
/// after the other.
pub open spec fn rings_inward(origin: Cube, radius: int) -> Seq<Cube>
    decreases radius,
{
    if radius <= 0 {
        Seq::empty()
    } else {
        ring_seq(origin, radius) + rings_inward(origin, radius - 1)
    }
}

/// The cells a spiral from ring `from` towards ring `to` yields.
///
/// Outwards (`to > from`) it walks the rings `from..=to`, starting with the
/// origin itself when `from` is 0. Otherwise it walks inwards from ring
/// `from` down to ring 1 and ends with the origin; it yields nothing when
/// `from` is 0.
pub open spec fn spiral_seq(origin: Cube, from: int, to: int) -> Seq<Cube> {
    if to > from {
        if from == 0 {
            seq![origin] + rings_outward(origin, 1, to)
        } else {
            rings_outward(origin, from, to)
        }
    } else {
        if from == 0 {
            Seq::empty()
        } else {
            rings_inward(origin, from) + seq![origin]
        }
    }
}

/// A spiral from ring `from` towards ring `to` around `origin` can be walked
/// to its end: outwards, ring `to` has at most `MAX_SPIRAL_RADIUS` cells per
/// side and every cell up to it fits in an `i16`; inwards, every cell up to
/// ring `from` does.
pub open spec fn spiral_fits(origin: Cube, from: int, to: int) -> bool {
    if to > from {
        to <= MAX_SPIRAL_RADIUS && ball_fits(origin, to)
    } else {
        ball_fits(origin, from)
    }
}

pub open spec fn max_u16(a: u16, b: u16) -> int {
    if a >= b {
        a as int
    } else {
        b as int
    }
}

/// The largest ring a spiral can walk: its ring numbers times six must
/// fit in a `u16`.
pub const MAX_SPIRAL_RADIUS: u16 = 10922;

/// Iterates over the cells around an origin ring by ring.
pub struct HexVectorSpiral {
    current_step: u16,
    range_end: u16,
    step: i8,
    ring_iterator: HexVectorRing,
    ring_left: u16,
    origin: HexVector,
}

impl HexVectorSpiral {
    /// The cells that the spiral has yet to yield.
    pub closed spec fn remaining(&self) -> Seq<Cube> {
        let o = self.origin.cube();
        let c = self.current_step as int;
        let e = self.range_end as int;
        let ring_part = Seq::new(
            self.ring_left as nat,
            |m: int|
                ring_cell(
                    o,
                    self.ring_iterator.spec_start_radius(),
                    self.ring_iterator.spec_index() + m,
                ),
        );
        if c == 0 {
            if self.step > 0 {
                seq![o] + ring_part + rings_outward(o, 2, e)
            } else {
                Seq::empty()
            }
        } else {
            ring_part + if self.step > 0 {
                rings_outward(o, c + 1, e)
            } else {
                rings_inward(o, c - 1) + seq![o]
            }
        }
    }

    pub closed spec fn wf(&self) -> bool {
        let o = self.origin.cube();
        let r0 = self.ring_iterator.spec_start_radius();
        let c = self.current_step as int;
        &&& self.ring_iterator.wf()
        &&& self.ring_iterator.spec_origin() == o
        &&& self.step == 1 || self.step == -1
        &&& c <= MAX_SPIRAL_RADIUS
        &&& (self.step > 0 ==> c <= self.range_end && self.range_end >= 1)
        &&& (c > 0 || self.step > 0) ==> {
            &&& r0 == if c == 0 {
                1
            } else {
                c
            }
            &&& self.ring_iterator.spec_index() + self.ring_left == 6 * r0
        }
    }

    /// The rest of the walk stays within the machine's limits: the rings it
    /// has yet to enter have at most `MAX_SPIRAL_RADIUS` cells per side and
    /// every cell of them has coordinates that fit in an `i16`.
    pub closed spec fn walkable(&self) -> bool {
        let o = self.origin.cube();
        &&& (self.step > 0 ==> self.range_end <= MAX_SPIRAL_RADIUS)
        &&& ball_fits(
            o,
            if self.step > 0 {
                self.range_end as int
            } else {
                self.current_step as int
            },
        )
    }

    /// Starts a spiral around `origin` from ring `from` towards ring `to`.
    pub fn new(origin: &HexVector, from: u16, to: u16) -> (spiral: Self)
        requires
            from <= MAX_SPIRAL_RADIUS,
            cube_fits(ring_start(origin.cube(), max_u16(from, 1))),
        ensures
            spiral.wf(),
            spiral.walkable() == spiral_fits(origin.cube(), from as int, to as int),
            spiral.remaining() == spiral_seq(origin.cube(), from as int, to as int),
    {
        let next_range: u16 = if from > 1 {
            from
        } else {
            1
        };
        let spiral = Self {
            origin: *origin,
            current_step: from,
            range_end: to,
            step: if to > from {
                1
            } else {
                -1
            },
            ring_iterator: HexVectorRing::new(origin, next_range),
            ring_left: next_range * 6,
        };
        proof {
            let o = origin.cube();
            let r = spiral.ring_iterator;
            let ring_part = Seq::new(
                spiral.ring_left as nat,
                |m: int| ring_cell(o, r.spec_start_radius(), r.spec_index() + m),
            );
            assert(ring_part =~= ring_seq(o, next_range as int));
            if to > from {
                if from > 0 {
                    assert(rings_outward(o, from as int, to as int) == ring_seq(o, from as int)
                        + rings_outward(o, from + 1, to as int));
                } else {
                    assert(rings_outward(o, 1, to as int) == ring_seq(o, 1) + rings_outward(
                        o,
                        2,
                        to as int,
                    ));
                }
            } else if from > 0 {
                assert(rings_inward(o, from as int) == ring_seq(o, from as int) + rings_inward(
                    o,
                    from - 1,
                ));
            }
        }
        spiral
    }


    /// Yields the next cell of the spiral, or `None` once it is exhausted.
    pub fn next(&mut self) -> (item: Option<HexVector>)
        requires
            old(self).wf(),
            old(self).walkable(),
        ensures
            final(self).wf(),
            final(self).walkable(),
            old(self).remaining().len() > 0 ==> {
                &&& item matches Some(h) && h.cube() == old(self).remaining()[0]
                &&& final(self).remaining() == old(self).remaining().drop_first()
            },
            old(self).remaining().len() == 0 ==> item is None && final(self).remaining()
                == old(self).remaining(),
    {
        let ghost old_rem = self.remaining();
        let ghost o = self.origin.cube();
        let range_end = self.range_end;
        let next_step_wide: i32 = self.current_step as i32 + self.step as i32;
        let next_step_option: Option<u16> = if 0 <= next_step_wide && next_step_wide
            <= u16::MAX as i32 {
            Some(next_step_wide as u16)
        } else {
            None
        };
        if self.current_step == 0 {
            match next_step_option {
                Some(next) => {
                    self.current_step = next;
                    proof {
                        assert(old_rem.drop_first() =~= self.remaining());
                    }
                    Some(self.origin)
                },
                None => None,
            }
        } else {
            let ghost before = *self;
            match self.take_next() {
                Some(hex) => {
                    proof {
                        assert(old_rem.drop_first() =~= self.remaining());
                    }
                    Some(hex)
                },
                None => {
                    if self.current_step == range_end && self.step > 0 {
                        return None;
                    }
                    let next_step = next_step_option.unwrap();
                    let ghost c = self.current_step as int;
                    proof {
                        if self.step > 0 {
                            assert(rings_outward(o, c + 1, range_end as int) == ring_seq(o, c + 1)
                                + rings_outward(o, c + 2, range_end as int));
                        } else if c >= 2 {
                            assert(rings_inward(o, c - 1) == ring_seq(o, c - 1) + rings_inward(
                                o,
                                c - 2,
                            ));
                        }
                    }
                    self.current_step = next_step;
                    self.ring_iterator = HexVectorRing::new(&self.origin, self.current_step);
                    self.ring_left = self.current_step * 6;
                    if self.current_step == 0 {
                        proof {
                            assert(old_rem =~= seq![o]);
                        }
                        return if self.step > 0 {
                            None
                        } else {
                            Some(self.origin)
                        };
                    }
                    match self.take_next() {
                        Some(hex) => {
                            proof {
                                assert(old_rem[0] == hex.cube());
                                assert(old_rem.drop_first() =~= self.remaining());
                            }
                            Some(hex)
                        },
                        None => {
                            if self.step > 0 {
                                None
                            } else {
                                Some(self.origin)
                            }
                        },
                    }
                },
            }
        }
    }

    /// The next cell of the ring being walked, if the ring has any left.
    fn take_next(&mut self) -> (item: Option<HexVector>)
        requires
            old(self).ring_iterator.wf(),
            old(self).ring_iterator.spec_start_radius() >= 1,
            old(self).ring_iterator.spec_index() + old(self).ring_left == 6
                * old(self).ring_iterator.spec_start_radius(),
            old(self).ring_iterator.spec_start_radius() <= MAX_SPIRAL_RADIUS,
            ball_fits(
                old(self).ring_iterator.spec_origin(),
                old(self).ring_iterator.spec_start_radius(),
            ),
        ensures
            final(self).ring_iterator.wf(),
            final(self).ring_iterator.spec_origin() == old(self).ring_iterator.spec_origin(),
            final(self).ring_iterator.spec_start_radius()
                == old(self).ring_iterator.spec_start_radius(),
            final(self).current_step == old(self).current_step,
            final(self).range_end == old(self).range_end,
            final(self).step == old(self).step,
            final(self).origin == old(self).origin,
            old(self).ring_left == 0 ==> item is None && *final(self) == *old(self),
            old(self).ring_left > 0 ==> {
                &&& item matches Some(h) && h.cube() == ring_cell(
                    old(self).ring_iterator.spec_origin(),
                    old(self).ring_iterator.spec_start_radius(),
                    old(self).ring_iterator.spec_index(),
                )
                &&& final(self).ring_left == old(self).ring_left - 1
                &&& final(self).ring_iterator.spec_index() == old(self).ring_iterator.spec_index()
                    + 1
            },
    {
        if self.ring_left == 0 {
            return None;
        }
        proof {
            lemma_ring_cell_fits(
                self.ring_iterator.spec_origin(),
                self.ring_iterator.spec_start_radius(),
                self.ring_iterator.spec_index(),
            );
        }
        self.ring_left = self.ring_left - 1;
        self.ring_iterator.next()
    }
}

} // verus!
