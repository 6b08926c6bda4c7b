//! A cyclic pattern stored in its canonical rotation, together with the
//! number of places the input was rotated left to reach it.

use crate::rotation::{
    is_least_min_rotation,
    lemma_doubled_least_rotation, lemma_least_rotation, lemma_lex_lt_irreflexive, lemma_rotation_zero, least_rotation,
    best_rotation_below, lex_less, rotated, rotation, two_pointer_least_rotation,
};
use vstd::arithmetic::div_mod::{lemma_mod_add_multiples_vanish, lemma_small_mod};
use vstd::prelude::*;

verus! {

#[derive(Debug, Clone)]
pub struct Cycle<const COUNT: usize> {
    cycle: [i8; COUNT],
    rotation: usize,
}

impl<const COUNT: usize> Cycle<COUNT> {
    /// The pattern in its canonical rotation.
    pub closed spec fn spec_cycle(&self) -> Seq<i8> {
        self.cycle@
    }

    /// How many places the input was rotated left.
    pub closed spec fn spec_rotation(&self) -> int {
        self.rotation as int
    }

    pub fn cycle(&self) -> (c: [i8; COUNT])
        ensures
            c@ == self.spec_cycle(),
    {
        self.cycle
    }

    pub fn rotation(&self) -> (r: usize)
        ensures
            r == self.spec_rotation(),
    {
        self.rotation
    }

    /// The canonical rotation found by trying every rotation in turn.
    pub fn naive_minimal_rotation(arr: &[i8; COUNT]) -> (res: Self)
        ensures
            res.spec_rotation() == least_rotation(arr@),
            res.spec_cycle() == rotation(arr@, res.spec_rotation()),
            COUNT > 0 ==> is_least_min_rotation(arr@, res.spec_rotation()),
    {
        proof {
            if COUNT > 0 {
                lemma_least_rotation(arr@);
            }
        }
        let mut min_rotation_arr = *arr;
        let mut min_rotation: usize = 0;
        proof {
            lemma_rotation_zero(arr@);
        }
        let mut i: usize = 0;
        while i < COUNT
            invariant
                0 <= i <= COUNT,
                min_rotation == best_rotation_below(arr@, i as int),
                min_rotation_arr@ == rotation(arr@, min_rotation as int),
            decreases COUNT - i,
        {
            let rotation = rotated(arr, i);
            proof {
                lemma_lex_lt_irreflexive(rotation@);
            }
            if lex_less(&rotation, &min_rotation_arr) {
                min_rotation_arr = rotation;
                min_rotation = i;
            }
            i = i + 1;
        }
        Self { cycle: min_rotation_arr, rotation: min_rotation }
    }

    /// The canonical rotation found by the two-pointer scan over the pattern
    /// written out twice.
    pub fn shiloah_minimal_rotation(arr: &[i8; COUNT]) -> (res: Self)
        requires
            COUNT <= usize::MAX / 8,
        ensures
            res.spec_rotation() == least_rotation(arr@),
            res.spec_cycle() == rotation(arr@, res.spec_rotation()),
            COUNT > 0 ==> is_least_min_rotation(arr@, res.spec_rotation()),
    {
        proof {
            if COUNT > 0 {
                lemma_least_rotation(arr@);
            }
        }
        let mut doubled_arr: Vec<i8> = Vec::new();
        let mut m: usize = 0;
        while m < COUNT
            invariant
                0 <= m <= COUNT,
                doubled_arr@ == arr@.subrange(0, m as int),
            decreases COUNT - m,
        {
            doubled_arr.push(arr[m]);
            m = m + 1;
        }
        m = 0;
        while m < COUNT
            invariant
                0 <= m <= COUNT,
                doubled_arr@ == arr@ + arr@.subrange(0, m as int),
            decreases COUNT - m,
        {
            doubled_arr.push(arr[m]);
            proof {
                assert(arr@.subrange(0, m + 1) =~= arr@.subrange(0, m as int).push(arr@[m as int]));
            }
            m = m + 1;
        }
        proof {
            assert(arr@.subrange(0, COUNT as int) =~= arr@);
            assert(doubled_arr@ =~= arr@ + arr@);
        }
        let rotation_point = two_pointer_least_rotation(doubled_arr.as_slice());
        proof {
            if COUNT > 0 {
                lemma_doubled_least_rotation(arr@);
                lemma_least_rotation(arr@);
            }
        }
        let mut res = *arr;
        let mut q: usize = 0;
        while q < COUNT
            invariant
                0 <= q <= COUNT,
                COUNT <= usize::MAX / 8,
                rotation_point == least_rotation(arr@),
                COUNT > 0 ==> rotation_point < COUNT,
                doubled_arr@ == arr@ + arr@,
                res@.len() == COUNT,
                forall|t: int| 0 <= t < q ==> res@[t] == rotation(arr@, rotation_point as int)[t],
            decreases COUNT - q,
        {
            proof {
                let x = rotation_point + q;
                if x < COUNT {
                    lemma_small_mod(x as nat, COUNT as nat);
                } else {
                    lemma_small_mod((x - COUNT) as nat, COUNT as nat);
                    lemma_mod_add_multiples_vanish(x - COUNT, COUNT as int);
                }
            }
            res[q] = doubled_arr[rotation_point + q];
            q = q + 1;
        }
        proof {
            assert(res@ =~= rotation(arr@, rotation_point as int));
        }
        Cycle { cycle: res, rotation: rotation_point }
    }
}

} // verus!
