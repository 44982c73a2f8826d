use gridfov::{BitGrid, Error, FOV, FOVIter};

fn collect(it: &mut FOVIter) -> Vec<(isize, isize)> {
    let mut out = Vec::new();
    while let Some(c) = it.next() {
        out.push(c);
    }
    out
}

#[test]
fn new_grid_all_true() {
    let g = BitGrid::new(10, 7, true);
    assert_eq!(g.w(), 10);
    assert_eq!(g.h(), 7);
    for y in 0..7 {
        for x in 0..10 {
            assert!(g.get((x, y)));
        }
    }
}

#[test]
fn new_grid_all_false() {
    let g = BitGrid::new(5, 5, false);
    for y in 0..5 {
        for x in 0..5 {
            assert!(!g.get((x, y)));
        }
    }
}

#[test]
fn set_get_across_word_boundary() {
    let mut g = BitGrid::new(65, 2, false);
    g.set((63, 0), true);
    g.set((64, 0), true);
    g.set((0, 1), true);
    assert!(g.get((63, 0)));
    assert!(g.get((64, 0)));
    assert!(g.get((0, 1)));
    assert!(!g.get((62, 0)));
    assert!(!g.get((1, 1)));
    g.set((63, 0), false);
    assert!(!g.get((63, 0)));
    assert!(g.get((64, 0)));
}

#[test]
fn get_outside_bounds_is_false() {
    let g = BitGrid::new(4, 4, true);
    assert!(!g.get((-1, 0)));
    assert!(!g.get((0, -1)));
    assert!(!g.get((4, 0)));
    assert!(!g.get((0, 4)));
    assert!(!g.get((100, 100)));
}

#[test]
fn set_outside_bounds_changes_nothing() {
    let mut g = BitGrid::new(3, 3, false);
    g.set((-1, 0), true);
    g.set((3, 1), true);
    g.set((1, 3), true);
    for y in 0..3 {
        for x in 0..3 {
            assert!(!g.get((x, y)));
        }
    }
}

#[test]
fn bitwise_or_combines_cells() {
    let mut a = BitGrid::new(4, 3, false);
    let mut b = BitGrid::new(4, 3, false);
    a.set((1, 1), true);
    b.set((2, 2), true);
    b.set((1, 1), true);
    assert!(a.bitwise_or(&b).is_ok());
    assert!(a.get((1, 1)));
    assert!(a.get((2, 2)));
    assert!(!a.get((0, 0)));
}

#[test]
fn bitwise_and_combines_cells() {
    let mut a = BitGrid::new(4, 3, true);
    let mut b = BitGrid::new(4, 3, false);
    b.set((3, 0), true);
    assert!(a.bitwise_and(&b).is_ok());
    assert!(a.get((3, 0)));
    assert!(!a.get((0, 0)));
    assert!(!a.get((2, 2)));
}

#[test]
fn dimension_mismatch_leaves_operands_unchanged() {
    let mut a = BitGrid::new(4, 3, false);
    a.set((2, 1), true);
    let mut b = BitGrid::new(3, 4, true);
    assert_eq!(a.bitwise_or(&b), Err(Error::DimensionMismatch));
    assert_eq!(a.bitwise_and(&b), Err(Error::DimensionMismatch));
    assert_eq!(b.bitwise_or(&a), Err(Error::DimensionMismatch));
    assert!(a.get((2, 1)));
    assert!(!a.get((0, 0)));
    for y in 0..4 {
        for x in 0..3 {
            assert!(b.get((x, y)));
        }
    }
}

#[test]
fn invalid_radius_zero_and_too_large() {
    let fov = FOV::new(4, false);
    let occ = BitGrid::new(16, 16, false);
    assert!(matches!(fov.compute(&occ, (8, 8), 0), Err(Error::InvalidRadius)));
    assert!(matches!(fov.compute(&occ, (8, 8), 5), Err(Error::InvalidRadius)));
    assert!(fov.compute(&occ, (8, 8), 4).is_ok());
    assert!(fov.compute(&occ, (8, 8), 1).is_ok());
}

#[test]
fn empty_grid_radius_one_sees_only_origin() {
    let fov = FOV::new(4, false);
    let occ = BitGrid::new(16, 16, false);
    let mut it = fov.compute(&occ, (8, 8), 1).unwrap();
    assert_eq!(collect(&mut it), vec![(8, 8)]);
    assert_eq!(it.next(), None);
}

#[test]
fn empty_grid_radius_three_sees_open_disc() {
    let fov = FOV::new(4, false);
    let occ = BitGrid::new(16, 16, false);
    let mut it = fov.compute(&occ, (8, 8), 3).unwrap();
    let got = collect(&mut it);
    let mut expected = Vec::new();
    for y in 5..=11isize {
        for x in 5..=11isize {
            if (x - 8) * (x - 8) + (y - 8) * (y - 8) < 9 {
                expected.push((x, y));
            }
        }
    }
    assert_eq!(got, expected);
}

#[test]
fn empty_grid_permissive_table_matches_strict_table() {
    let strict = FOV::new(4, false);
    let permissive = FOV::new(4, true);
    let occ = BitGrid::new(16, 16, false);
    let mut a = strict.compute(&occ, (8, 8), 3).unwrap();
    let mut b = permissive.compute(&occ, (8, 8), 3).unwrap();
    assert_eq!(collect(&mut a), collect(&mut b));
}

#[test]
fn single_blocker_occludes_its_ray_only() {
    let fov = FOV::new(4, false);
    let mut occ = BitGrid::new(16, 16, false);
    occ.set((9, 8), true);
    let mut it = fov.compute(&occ, (8, 8), 3).unwrap();
    let got = collect(&mut it);
    // The blocker cell itself stays visible; cells beyond it on the same
    // ray are occluded; rays that do not pass through the blocker are
    // untouched.
    assert!(got.contains(&(9, 8)));
    assert!(!got.contains(&(10, 8)));
    assert!(got.contains(&(8, 9)));
    assert!(got.contains(&(8, 10)));
    assert!(got.contains(&(7, 8)));
    assert!(got.contains(&(6, 8)));
    // Every occluded cell is one whose traced sightline to the origin runs
    // through the blocker offset: the straight ray plus the staircase
    // sightlines that cross it, mirrored north and south.
    let occluded = [(10, 8), (9, 7), (10, 7), (10, 6), (9, 9), (10, 9), (10, 10)];
    let mut expected = Vec::new();
    for y in 5..=11isize {
        for x in 5..=11isize {
            if (x - 8) * (x - 8) + (y - 8) * (y - 8) < 9 && !occluded.contains(&(x, y)) {
                expected.push((x, y));
            }
        }
    }
    assert_eq!(got, expected);
}

#[test]
fn visible_set_grows_with_radius() {
    let fov = FOV::new(5, false);
    let mut occ = BitGrid::new(20, 20, false);
    occ.set((11, 10), true);
    occ.set((10, 12), true);
    let mut small = fov.compute(&occ, (10, 10), 2).unwrap();
    let mut large = fov.compute(&occ, (10, 10), 4).unwrap();
    let seen_small = collect(&mut small);
    let seen_large = collect(&mut large);
    for c in &seen_small {
        assert!(seen_large.contains(c));
    }
}

#[test]
fn identical_queries_yield_identical_sequences() {
    let fov = FOV::new(4, false);
    let mut occ = BitGrid::new(16, 16, false);
    occ.set((9, 9), true);
    occ.set((7, 8), true);
    let mut a = fov.compute(&occ, (8, 8), 3).unwrap();
    let mut b = fov.compute(&occ, (8, 8), 3).unwrap();
    assert_eq!(collect(&mut a), collect(&mut b));
}

#[test]
fn exhausted_sequence_stays_exhausted() {
    let fov = FOV::new(2, false);
    let occ = BitGrid::new(8, 8, false);
    let mut it = fov.compute(&occ, (4, 4), 1).unwrap();
    assert_eq!(it.next(), Some((4, 4)));
    assert_eq!(it.next(), None);
    assert_eq!(it.next(), None);
}

#[test]
fn occupancy_outside_grid_reads_as_open() {
    // The origin sits at the grid's corner: absolute cells with negative
    // coordinates are outside the occupancy grid and so never block.
    let fov = FOV::new(3, false);
    let occ = BitGrid::new(4, 4, false);
    let mut it = fov.compute(&occ, (0, 0), 2).unwrap();
    let got = collect(&mut it);
    assert!(got.contains(&(0, 0)));
    assert!(got.contains(&(-1, 0)));
    assert!(got.contains(&(0, -1)));
    assert!(got.contains(&(1, 1)));
}
