use md_tools::lattice::{cube_root, global_index, lattice_site, site_coordinates};

#[test]
fn test_cube_root() {
    assert_eq!(cube_root(1), 1);
    assert_eq!(cube_root(8), 2);
    assert_eq!(cube_root(27), 3);
    assert_eq!(cube_root(64), 4);
    assert_eq!(cube_root(65), 0);
    assert_eq!(cube_root(125), 5);
}

#[test]
fn cube_root_of_non_cubes_is_zero() {
    assert_eq!(cube_root(0), 0);
    assert_eq!(cube_root(2), 0);
    assert_eq!(cube_root(26), 0);
    assert_eq!(cube_root(999_999), 0);
    assert_eq!(cube_root(1_000_000), 100);
}

#[test]
fn cube_root_of_large_inputs() {
    assert_eq!(cube_root(2_097_151 * 2_097_151 * 2_097_151), 2_097_151);
    assert_eq!(cube_root(usize::MAX), 0);
}

#[test]
fn corner_site_with_no_remainder_is_doubled_corner() {
    for k in [-5, 0, 1, 7, 1000] {
        assert_eq!(lattice_site((k, 0, 0), (false, false, false), false), (2 * k, 0, 0));
    }
}

#[test]
fn body_centre_site_follows_octant() {
    // remainder towards (+x, -y, -z): body centre between corner and its low y, z neighbours
    assert_eq!(lattice_site((0, 1, 1), (true, false, false), true), (1, 0, 0));
    assert_eq!(lattice_site((1, 0, 0), (false, true, true), true), (1, 0, 0));
    assert_eq!(lattice_site((3, 4, 5), (false, false, false), true), (5, 3, 4));
    assert_eq!(lattice_site((3, 4, 5), (true, true, true), true), (7, 4, 5));
    assert_eq!(lattice_site((3, 4, 5), (true, true, true), false), (6, 4, 5));
}

#[test]
fn global_index_formula() {
    // 2 * box_x * (z * box_y + y) + x
    assert_eq!(global_index((3, 1, 2), 2, 3), 2 * 2 * (2 * 3 + 1) + 3);
    assert_eq!(global_index((0, 0, 0), 5, 5), 0);
    assert_eq!(global_index((-1, 0, 0), 5, 5), -1);
}

#[test]
fn site_coordinates_inverts_global_index() {
    let (bx, by) = (3usize, 4usize);
    for z in 0..5 {
        for y in 0..4 {
            for x in 0..6 {
                let g = global_index((x, y, z), bx, by);
                assert_eq!(site_coordinates(g, bx, by), (x as i128, y as i128, z as i128));
            }
        }
    }
}

#[test]
fn site_coordinates_of_negative_index_rounds_towards_zero() {
    // -7 in a 2 x 2 box: plane 8, row 4 -> z 0, left -7, y -1, x -3
    assert_eq!(site_coordinates(-7, 2, 2), (-3, -1, 0));
    assert_eq!(site_coordinates(-17, 2, 2), (-1, 0, -2));
}
