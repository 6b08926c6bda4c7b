use wanderer_tales::hex_vector::{hex_direction, HexVector};
use wanderer_tales::hex_walk::{HexVectorRing, HexVectorSpiral};

#[test]
fn hex_circle() {
    let origin = HexVector::new(3, 2, -5);
    let mut iterator = HexVectorRing::new(&origin, 1);

    assert_eq!(iterator.next(), Some(hex_direction(5).plus(&origin)));
    assert_eq!(iterator.next(), Some(hex_direction(0).plus(&origin)));
    assert_eq!(iterator.next(), Some(hex_direction(1).plus(&origin)));
    assert_eq!(iterator.next(), Some(hex_direction(2).plus(&origin)));
    assert_eq!(iterator.next(), Some(hex_direction(3).plus(&origin)));
    assert_eq!(iterator.next(), Some(hex_direction(4).plus(&origin)));
}

#[test]
fn hex_circle_range() {
    let origin = HexVector::new(5, 7, -12);
    let range: u16 = 10;
    let mut iterator = HexVectorRing::new(&origin, range);
    for _ in 0..(range * 6) {
        let v = iterator.next().unwrap();
        assert_eq!(v.distance_to(&origin), range);
    }
}

#[test]
fn hex_spiral() {
    let origin = HexVector::new(3, 2, -5);
    let range_end: u16 = 3;
    let mut iterator = HexVectorSpiral::new(&origin, 0, range_end);

    assert_eq!(iterator.next().unwrap(), origin);
    for range in 1..=range_end {
        let i_max = range * 6;
        for _ in 0..i_max {
            let distance = iterator.next().unwrap().distance_to(&origin);
            assert_eq!(distance, range);
        }
    }
    assert_eq!(iterator.next(), None);
}

#[test]
fn hex_spiral_backwards() {
    let origin = HexVector::new(3, 2, -5);
    let range_start: u16 = 3;
    let mut iterator = HexVectorSpiral::new(&origin, range_start, 0);

    for range in 0..=range_start {
        let range_inv = range_start - range;
        let i_max = range_inv * 6;
        for _ in 0..i_max {
            let distance = iterator.next().unwrap().distance_to(&origin);
            assert_eq!(distance, range_inv);
        }
    }
    assert_eq!(iterator.next(), Some(origin.clone()));
    assert_eq!(iterator.next(), None);
}

// Each cell of a ring is one step from the previous one, and the walk
// closes on itself.
#[test]
fn ring_cells_are_neighbours_and_distinct() {
    let origin = HexVector::new(-4, 9, -5);
    let radius: u16 = 4;
    let mut ring = HexVectorRing::new(&origin, radius);
    let cells: Vec<HexVector> = (0..radius * 6).map(|_| ring.next().unwrap()).collect();
    for (i, a) in cells.iter().enumerate() {
        let b = &cells[(i + 1) % cells.len()];
        assert_eq!(a.distance_to(b), 1);
        for c in cells.iter().skip(i + 1) {
            assert_ne!(a, c);
        }
    }
}

// A ring created with radius 0 walks with side 1, shifted by one step.
#[test]
fn ring_radius_zero_walks_like_radius_one() {
    let origin = HexVector::new(0, 0, 0);
    let mut ring = HexVectorRing::new(&origin, 0);
    assert_eq!(ring.next(), Some(HexVector::new(-1, 1, 0)));
    assert_eq!(ring.next(), Some(HexVector::new(-1, 2, -1)));
}

// An outward spiral covers the whole disk once: 1 + 3 r (r + 1) cells.
#[test]
fn spiral_covers_disk_once() {
    let origin = HexVector::new(1, -1, 0);
    let radius: u16 = 4;
    let mut spiral = HexVectorSpiral::new(&origin, 0, radius);
    let mut cells: Vec<HexVector> = Vec::new();
    while let Some(cell) = spiral.next() {
        cells.push(cell);
    }
    assert_eq!(cells.len(), 1 + 3 * 4 * 5);
    for (i, a) in cells.iter().enumerate() {
        assert!(a.distance_to(&origin) <= radius);
        assert_eq!(a.0 + a.1 + a.2, 0);
        for b in cells.iter().skip(i + 1) {
            assert_ne!(a, b);
        }
    }
}

// Outwards from ring 2 to ring 3: only those rings.
#[test]
fn spiral_outward_between_rings() {
    let origin = HexVector::new(0, 0, 0);
    let mut spiral = HexVectorSpiral::new(&origin, 2, 3);
    let mut count = 0;
    while let Some(cell) = spiral.next() {
        let d = cell.distance_to(&origin);
        assert!(d == 2 || d == 3);
        count += 1;
    }
    assert_eq!(count, 12 + 18);
}

// Inwards the spiral ignores where it was asked to stop and ends at the origin.
#[test]
fn spiral_inward_runs_to_origin() {
    let origin = HexVector::new(0, 0, 0);
    let mut spiral = HexVectorSpiral::new(&origin, 2, 1);
    let mut cells: Vec<HexVector> = Vec::new();
    while let Some(cell) = spiral.next() {
        cells.push(cell);
    }
    assert_eq!(cells.len(), 12 + 6 + 1);
    assert_eq!(cells.last(), Some(&origin));
}

// From ring 0 to ring 0 nothing is yielded.
#[test]
fn spiral_from_zero_to_zero_is_empty() {
    let origin = HexVector::new(2, 2, -4);
    let mut spiral = HexVectorSpiral::new(&origin, 0, 0);
    assert_eq!(spiral.next(), None);
}

#[test]
fn distance_and_siblings() {
    let a = HexVector::new(3, 2, -5);
    let b = HexVector::new(-1, 4, -3);
    assert_eq!(a.distance_to(&b), 4);
    assert_eq!(b.distance_to(&a), 4);
    for i in 0..6 {
        assert_eq!(a.get_sibling(i).distance_to(&a), 1);
    }
    assert_eq!(a.get_sibling(2), HexVector::new(4, 2, -6));
}

#[test]
fn spiral_reaches_the_edge_of_the_grid() {
    // The walk reaches a coordinate of exactly i16::MIN without overflow.
    let origin = HexVector::new(-32765, 32762, 3);
    let mut iterator = HexVectorSpiral::new(&origin, 0, 3);
    let mut count = 0;
    let mut lowest = i16::MAX;
    while let Some(hex) = iterator.next() {
        assert!(hex.distance_to(&origin) <= 3);
        lowest = lowest.min(hex.0);
        count += 1;
    }
    assert_eq!(count, 37);
    assert_eq!(lowest, i16::MIN);
}
