use itertools::Itertools;
use wanderer_tales::cycle::Cycle;
use wanderer_tales::lexigraphical_cycle::LexigraphicalCycle;

fn rotate_right<const N: usize>(arr: &[i8; N], shift: usize) -> [i8; N] {
    let mut input = *arr;
    input.rotate_right(shift);
    input
}

#[test]
fn cycle_naive_rotation() {
    let cycles = [([3, 1, 3, 4, 5, 1, 7], [1, 3, 4, 5, 1, 7, 3])];
    for (cycle, expected) in cycles {
        for shift in 0..cycle.len() {
            let input = rotate_right(&cycle, shift);

            let res = Cycle::naive_minimal_rotation(&input);
            assert!(res.cycle().iter().eq(expected.iter()), "{:?} != {:?}", res, expected);

            let mut rotated = input;
            rotated.rotate_left(res.rotation());

            assert!(rotated.iter().eq(expected.iter()), "{:?} != {:?}", rotated, expected);
        }
    }
}

#[test]
fn shiloah_rotation() {
    let cycles = [([3, 1, 3, 4, 5, 1, 7], [1, 3, 4, 5, 1, 7, 3])];
    for (cycle, expected) in cycles {
        for shift in 0..cycle.len() {
            let input = rotate_right(&cycle, shift);

            let res = Cycle::shiloah_minimal_rotation(&input);
            assert!(res.cycle().iter().eq(expected.iter()), "{:?} != {:?}", res, expected);

            let mut rotated = input;
            rotated.rotate_left(res.rotation());

            assert!(rotated.iter().eq(expected.iter()), "{:?} != {:?}", rotated, expected);
        }
    }
}

fn check_equality<const SIZE: usize>(calculate: fn(&[i8; SIZE]) -> LexigraphicalCycle<SIZE>) {
    let inputs: Vec<[i8; SIZE]> =
        (-2..3).permutations(SIZE).map(|i| i.try_into().unwrap()).collect();
    for input in inputs {
        let outputs: Vec<LexigraphicalCycle<SIZE>> =
            (0..SIZE).map(|shift| calculate(&rotate_right(&input, shift))).collect();
        for i in 0..outputs.len() {
            for j in 0..outputs.len() {
                assert_eq!(outputs[i], outputs[j]);
            }
        }
    }
}

fn check_correctness(calculate: fn(&[i8; 7]) -> LexigraphicalCycle<7>) {
    let cycles = [([3, 1, 3, 4, 5, 1, 7], [1, 3, 4, 5, 1, 7, 3])];
    for (input, expected) in cycles {
        for shift in 0..input.len() {
            let output = calculate(&rotate_right(&input, shift));
            assert_eq!(output.cycle(), expected);
        }
    }
}

#[test]
fn mod_cycle_naive_rotation() {
    check_equality::<5>(LexigraphicalCycle::naive_minimal_rotation);
    check_correctness(LexigraphicalCycle::naive_minimal_rotation);
}

#[test]
fn cycle_shiloah_rotation() {
    check_equality::<5>(LexigraphicalCycle::shiloah_minimal_rotation);
    check_correctness(LexigraphicalCycle::shiloah_minimal_rotation);
}

#[test]
fn cycle_booth_rotation() {
    check_equality::<5>(LexigraphicalCycle::booth_minimal_rotation);
    check_correctness(LexigraphicalCycle::booth_minimal_rotation);
}

// A periodic pattern: the first of the equal smallest rotations is chosen.
#[test]
fn periodic_pattern_takes_first_smallest_rotation() {
    let input: [i8; 6] = [2, 0, 1, 2, 0, 1];
    let expected: [i8; 6] = [0, 1, 2, 0, 1, 2];
    let naive = LexigraphicalCycle::naive_minimal_rotation(&input);
    let shiloah = LexigraphicalCycle::shiloah_minimal_rotation(&input);
    let booth = LexigraphicalCycle::booth_minimal_rotation(&input);
    let doubled = Cycle::shiloah_minimal_rotation(&input);
    let naive_cycle = Cycle::naive_minimal_rotation(&input);
    for (cycle, rotation) in [
        (naive.cycle(), naive.rotation()),
        (shiloah.cycle(), shiloah.rotation()),
        (booth.cycle(), booth.rotation()),
        (doubled.cycle(), doubled.rotation()),
        (naive_cycle.cycle(), naive_cycle.rotation()),
    ] {
        assert_eq!(cycle, expected);
        assert_eq!(rotation, 1);
    }
}

// All algorithms agree with each other on every pattern of length 4 over a
// small alphabet, repeated values included.
#[test]
fn all_algorithms_agree() {
    for a in -1..2i8 {
        for b in -1..2i8 {
            for c in -1..2i8 {
                for d in -1..2i8 {
                    let input = [a, b, c, d];
                    let naive = LexigraphicalCycle::naive_minimal_rotation(&input);
                    let shiloah = LexigraphicalCycle::shiloah_minimal_rotation(&input);
                    let booth = LexigraphicalCycle::booth_minimal_rotation(&input);
                    let doubled = Cycle::shiloah_minimal_rotation(&input);
                    assert_eq!(naive.cycle(), shiloah.cycle());
                    assert_eq!(naive.cycle(), booth.cycle());
                    assert_eq!(naive.cycle(), doubled.cycle());
                    assert_eq!(naive.rotation(), shiloah.rotation());
                    assert_eq!(naive.rotation(), booth.rotation());
                    assert_eq!(naive.rotation(), doubled.rotation());
                }
            }
        }
    }
}

#[test]
fn single_and_empty_patterns() {
    let one = LexigraphicalCycle::booth_minimal_rotation(&[5i8]);
    assert_eq!(one.cycle(), [5]);
    assert_eq!(one.rotation(), 0);
    let empty = Cycle::<0>::naive_minimal_rotation(&[]);
    assert_eq!(empty.rotation(), 0);
    let empty = Cycle::<0>::shiloah_minimal_rotation(&[]);
    assert_eq!(empty.rotation(), 0);
}

#[test]
fn equality_compares_canonical_patterns() {
    let a = LexigraphicalCycle::naive_minimal_rotation(&[1i8, 2, 3]);
    let b = LexigraphicalCycle::naive_minimal_rotation(&[3i8, 1, 2]);
    let c = LexigraphicalCycle::naive_minimal_rotation(&[1i8, 3, 2]);
    assert_eq!(a, b);
    assert_ne!(a.rotation(), b.rotation());
    assert_ne!(a, c);
}
