use md_tools::box_config::{config_simulation_box, BoxConfig, BoxError, MismatchPolicy};

fn config(sizes: Vec<u64>) -> BoxConfig {
    BoxConfig { box_size: sizes, box_size_: (0, 0, 0) }
}

#[test]
fn cube_of_sixteen_atoms_is_detected() {
    let mut c = config(vec![]);
    let r = config_simulation_box(16, (0, 0, 0), (0, 0, 0), &mut c, MismatchPolicy::Warn);
    assert_eq!(c.box_size_, (2, 2, 2));
    // two atoms per cell: 8 cells for 16 atoms, reported as a mismatch
    assert_eq!(r, Ok(false));
}

#[test]
fn mismatch_fails_under_strict_policy() {
    let mut c = config(vec![]);
    let r = config_simulation_box(16, (0, 0, 0), (0, 0, 0), &mut c, MismatchPolicy::Fail);
    assert_eq!(c.box_size_, (2, 2, 2));
    assert_eq!(r, Err(BoxError::BoxMismatch));
}

#[test]
fn requested_size_is_used_verbatim() {
    let mut c = config(vec![2, 2, 4]);
    let r = config_simulation_box(16, (0, 0, 0), (9, 9, 9), &mut c, MismatchPolicy::Fail);
    assert_eq!(c.box_size_, (2, 2, 4));
    assert_eq!(r, Ok(true));
    assert_eq!(c.box_size, vec![2, 2, 4]);
}

#[test]
fn odd_atom_count_is_refused() {
    let mut c = config(vec![]);
    let r = config_simulation_box(15, (0, 0, 0), (4, 4, 4), &mut c, MismatchPolicy::Warn);
    assert_eq!(r, Err(BoxError::BadAtomCount));
    assert_eq!(c.box_size_, (0, 0, 0));
}

#[test]
fn request_of_two_sizes_is_refused() {
    let mut c = config(vec![2, 2]);
    let r = config_simulation_box(16, (0, 0, 0), (4, 4, 4), &mut c, MismatchPolicy::Warn);
    assert_eq!(r, Err(BoxError::BadBoxSize));
}

#[test]
fn zero_axis_is_refused() {
    let mut c = config(vec![2, 0, 2]);
    let r = config_simulation_box(16, (0, 0, 0), (4, 4, 4), &mut c, MismatchPolicy::Warn);
    assert_eq!(r, Err(BoxError::BadBoxSize));
}

#[test]
fn box_size_from_bounding_box_sites() {
    // 12 atoms: 6 is no cube, so the extent of the corner sites decides
    let mut c = config(vec![]);
    let r = config_simulation_box(12, (4, 1, 8), (8, 6, 9), &mut c, MismatchPolicy::Warn);
    assert_eq!(c.box_size_, (4, 5, 1));
    assert_eq!(r, Ok(false));
    let mut c = config(vec![]);
    let r = config_simulation_box(12, (4, 1, 8), (2, 4, 11), &mut c, MismatchPolicy::Warn);
    assert_eq!(c.box_size_, (0, 3, 3));
    assert_eq!(r, Err(BoxError::BadBoxSize));
    let mut c = config(vec![]);
    let r = config_simulation_box(12, (0, 0, 0), (2, 3, 2), &mut c, MismatchPolicy::Fail);
    assert_eq!(c.box_size_, (2, 3, 2));
    assert_eq!(r, Ok(true));
}
