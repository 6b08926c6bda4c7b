//! A cyclic height pattern in its canonical rotation; two of them are equal
//! when their canonical rotations are.

use crate::rotation::{
    is_least_min_rotation,
    best_rotation_below, lemma_least_rotation, lemma_lex_lt_irreflexive, lemma_rotation_zero,
    least_rotation, lex_less, rotated, rotation, two_pointer_least_rotation,
};
use crate::booth::{
    failure_entry, inner_ok, is_border, lemma_booth_result, lemma_finish_match,
    lemma_finish_mismatch, lemma_finish_new_start, lemma_inner_start, lemma_step_larger,
    lemma_step_smaller, outer_ok,
};
use vstd::arithmetic::div_mod::lemma_small_mod;
use vstd::prelude::*;
use vstd::std_specs::cmp::PartialEqSpec;

verus! {

#[derive(Debug, Clone)]
pub struct LexigraphicalCycle<const COUNT: usize> {
    cycle: [i8; COUNT],
    rotation: usize,
}

impl<const COUNT: usize> LexigraphicalCycle<COUNT> {
    /// The pattern in its canonical rotation.
    pub closed spec fn spec_cycle(&self) -> Seq<i8> {
        self.cycle@
    }

    /// How many places the input was rotated left.
    pub closed spec fn spec_rotation(&self) -> int {
        self.rotation as int
    }

    pub fn cycle(&self) -> (c: [i8; COUNT])
        ensures
            c@ == self.spec_cycle(),
    {
        self.cycle
    }

    pub fn rotation(&self) -> (r: usize)
        ensures
            r == self.spec_rotation(),
    {
        self.rotation
    }

    /// The canonical rotation found by trying every rotation in turn.
    pub fn naive_minimal_rotation(arr: &[i8; COUNT]) -> (res: Self)
        ensures
            res.spec_rotation() == least_rotation(arr@),
            res.spec_cycle() == rotation(arr@, res.spec_rotation()),
            COUNT > 0 ==> is_least_min_rotation(arr@, res.spec_rotation()),
    {
        proof {
            if COUNT > 0 {
                lemma_least_rotation(arr@);
            }
        }
        let mut min_rotation_arr = *arr;
        let mut min_rotation: usize = 0;
        proof {
            lemma_rotation_zero(arr@);
        }
        let mut i: usize = 0;
        while i < COUNT
            invariant
                0 <= i <= COUNT,
                min_rotation == best_rotation_below(arr@, i as int),
                min_rotation_arr@ == rotation(arr@, min_rotation as int),
            decreases COUNT - i,
        {
            let rotation = rotated(arr, i);
            proof {
                lemma_lex_lt_irreflexive(rotation@);
            }
            if lex_less(&rotation, &min_rotation_arr) {
                min_rotation_arr = rotation;
                min_rotation = i;
            }
            i = i + 1;
        }
        Self { cycle: min_rotation_arr, rotation: min_rotation }
    }

    /// The canonical rotation found by the two-pointer scan over the pattern
    /// read cyclically.
    pub fn shiloah_minimal_rotation(arr: &[i8; COUNT]) -> (res: Self)
        requires
            0 < COUNT <= usize::MAX / 4,
        ensures
            res.spec_rotation() == least_rotation(arr@),
            res.spec_cycle() == rotation(arr@, res.spec_rotation()),
            COUNT > 0 ==> is_least_min_rotation(arr@, res.spec_rotation()),
    {
        proof {
            if COUNT > 0 {
                lemma_least_rotation(arr@);
            }
        }
        let n = COUNT;
        let start = two_pointer_least_rotation(arr.as_slice());
        proof {
            lemma_least_rotation(arr@);
            lemma_small_mod(start as nat, n as nat);
        }
        let rotation_point = start % n;
        let res = rotated(arr, rotation_point);
        LexigraphicalCycle { cycle: res, rotation: rotation_point }
    }

    /// The canonical rotation found by Booth's scan: a failure table over the
    /// pattern read twice, moving the candidate start whenever a smaller
    /// item breaks a border.
    pub fn booth_minimal_rotation(arr: &[i8; COUNT]) -> (res: Self)
        requires
            COUNT <= 16383,
        ensures
            res.spec_rotation() == least_rotation(arr@),
            res.spec_cycle() == rotation(arr@, res.spec_rotation()),
            COUNT > 0 ==> is_least_min_rotation(arr@, res.spec_rotation()),
    {
        proof {
            if COUNT > 0 {
                lemma_least_rotation(arr@);
            }
        }
        let ghost s = arr@;
        let n2: i16 = 2 * (COUNT as i16);
        let mut f: Vec<i16> = vec![-1; n2 as usize];
        let mut k: i16 = 0;
        let mut j: i16 = 1;
        proof {
            if COUNT > 0 {
                assert(is_border(s, 0, 1, 0));
                assert(failure_entry(s, f@, 0, 0));
            }
        }
        while j < n2
            invariant
                s == arr@,
                COUNT <= 16383,
                n2 == 2 * COUNT,
                1 <= j,
                COUNT > 0 ==> outer_ok(s, f@, k as int, j as int),
                COUNT == 0 ==> k == 0,
            decreases n2 - j,
        {
            let mut i: i16 = f[(j - k - 1) as usize];
            proof {
                lemma_inner_start(s, f@, k as int, j as int);
            }
            while i != -1 && arr[(j as usize) % COUNT] != arr[((k + i + 1) as usize) % COUNT]
                invariant
                    s == arr@,
                    COUNT <= 16383,
                    n2 == 2 * COUNT,
                    COUNT > 0,
                    j < n2,
                    inner_ok(s, f@, k as int, j as int, i as int),
                decreases i + 1,
            {
                proof {
                    assert(failure_entry(s, f@, k as int, i as int));
                }
                if arr[(j as usize) % COUNT] < arr[((k + i + 1) as usize) % COUNT] {
                    proof {
                        lemma_step_smaller(s, f@, k as int, j as int, i as int);
                    }
                    k = j - i - 1;
                } else {
                    proof {
                        lemma_step_larger(s, f@, k as int, j as int, i as int);
                    }
                }
                i = f[i as usize];
            }
            if i == -1 && arr[(j as usize) % COUNT] != arr[((k + i + 1) as usize) % COUNT] {
                if arr[(j as usize) % COUNT] < arr[((k + i + 1) as usize) % COUNT] {
                    proof {
                        lemma_finish_new_start(s, f@, k as int, j as int);
                    }
                    k = j;
                } else {
                    proof {
                        lemma_finish_mismatch(s, f@, k as int, j as int);
                    }
                }
                f.set((j - k) as usize, -1);
            } else {
                proof {
                    lemma_finish_match(s, f@, k as int, j as int, i as int);
                }
                f.set((j - k) as usize, i + 1);
            }
            j = j + 1;
        }
        proof {
            if COUNT > 0 {
                lemma_booth_result(s, f@, k as int);
            }
        }
        let res = rotated(arr, k as usize);
        LexigraphicalCycle { cycle: res, rotation: k as usize }
    }
}

impl<const COUNT: usize> PartialEq for LexigraphicalCycle<COUNT> {
    fn eq(&self, other: &Self) -> (same: bool) {
        let mut m: usize = 0;
        while m < COUNT
            invariant
                0 <= m <= COUNT,
                forall|q: int| 0 <= q < m ==> self.cycle@[q] == other.cycle@[q],
            decreases COUNT - m,
        {
            if self.cycle[m] != other.cycle[m] {
                return false;
            }
            m = m + 1;
        }
        proof {
            assert(self.cycle@ =~= other.cycle@);
        }
        true
    }
}

impl<const COUNT: usize> vstd::std_specs::cmp::PartialEqSpecImpl for LexigraphicalCycle<COUNT> {
    open spec fn obeys_eq_spec() -> bool {
        true
    }

    open spec fn eq_spec(&self, other: &Self) -> bool {
        self.spec_cycle() == other.spec_cycle()
    }
}


/// Two patterns are equal exactly when their canonical rotations agree at
/// every one of the `COUNT` places.
pub proof fn lemma_eq_compares_whole_cycles<const COUNT: usize>(
    a: LexigraphicalCycle<COUNT>,
    b: LexigraphicalCycle<COUNT>,
)
    ensures
        a.spec_cycle().len() == COUNT,
        b.spec_cycle().len() == COUNT,
        a.eq_spec(&b) <==> (forall|q: int|
            0 <= q < COUNT ==> #[trigger] a.spec_cycle()[q] == b.spec_cycle()[q]),
{
    if forall|q: int| 0 <= q < COUNT ==> #[trigger] a.spec_cycle()[q] == b.spec_cycle()[q] {
        assert(a.spec_cycle() =~= b.spec_cycle());
    }
}

} // verus!
