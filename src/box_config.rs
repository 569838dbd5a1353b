//! Simulation-box sizing for the defect analysis: the extent of the box in
//! lattice cells along each axis, given by the user or detected from the
//! snapshot.
use vstd::prelude::*;
use crate::lattice::{cube, cube_root, is_positive_cube};

verus! {

/// Box sizes requested by the user and the sizes settled on.
pub struct BoxConfig {
    /// Cells along x, y and z as requested; empty to detect them.
    pub box_size: Vec<u64>,
    /// Cells along x, y and z after resolution.
    pub box_size_: (usize, usize, usize),
}

/// What to do when the box holds a different number of sites than there are
/// atoms.
#[derive(Clone, Copy, Debug, PartialEq, Eq, Structural)]
pub enum MismatchPolicy {
    /// Report the mismatch and keep the box.
    Warn,
    /// Refuse the box.
    Fail,
}

/// Reasons a box cannot be used.
#[derive(Clone, Copy, Debug, PartialEq, Eq, Structural)]
pub enum BoxError {
    /// An odd number of atoms cannot fill a BCC box.
    BadAtomCount,
    /// The requested sizes are not three values, or some axis has no cell.
    BadBoxSize,
    /// The product of the axis sizes differs from the atom count.
    BoxMismatch,
}

/// The request is well formed: no sizes, or three sizes that fit in `usize`.
pub open spec fn request_ok(requested: Seq<u64>) -> bool {
    requested.len() == 0 || (requested.len() == 3 && forall|i: int| 0 <= i < 3 ==> requested[i] <= usize::MAX)
}

/// Size along one axis from the lattice sites of the lowest and highest
/// corners of the atoms' bounding box: their difference, or 0 when negative.
pub open spec fn extent(lo: i32, hi: i32) -> int {
    if hi - lo < 0 {
        0
    } else {
        hi - lo
    }
}

/// The edge of a cube box holding `n` cells.
pub open spec fn cube_edge(n: int) -> int {
    choose|k: int| k >= 1 && cube(k) == n
}

/// Box size settled on: the requested sizes when there are three, else the
/// edge of a cube when half the atom count is a cube (two atoms per BCC cell),
/// else the extent of the bounding box in lattice units.
pub open spec fn resolved_size(atoms_size: int, requested: Seq<u64>, lo: (i32, i32, i32), hi: (i32, i32, i32)) -> (
    int,
    int,
    int,
) {
    if requested.len() == 3 {
        (requested[0] as int, requested[1] as int, requested[2] as int)
    } else if is_positive_cube(atoms_size / 2) {
        let k = cube_edge(atoms_size / 2);
        (k, k, k)
    } else {
        (extent(lo.0, hi.0), extent(lo.1, hi.1), extent(lo.2, hi.2))
    }
}

/// Per-axis size along `lo..hi`, 0 when `hi` is below `lo`.
fn axis_extent(lo: i32, hi: i32) -> (r: usize)
    ensures
        r == extent(lo, hi),
{
    let d: i64 = hi as i64 - lo as i64;
    if d < 0 {
        0
    } else {
        d as usize
    }
}

/// Settles the box size for `atoms_size` atoms and checks it.
///
/// `lo` and `hi` are the lattice sites of the lowest and highest corners of
/// the atoms' bounding box; they are read only when no size is requested and
/// half the atom count is not a cube. The settled size is stored in
/// `box_size_` once the atom count is even and the request well formed: no
/// sizes, or three that fit in `usize`.
/// `Ok(true)`: the box has one cell per atom. `Ok(false)`: it has not, and the
/// policy is to warn.
pub fn config_simulation_box(
    atoms_size: usize,
    lo: (i32, i32, i32),
    hi: (i32, i32, i32),
    box_config: &mut BoxConfig,
    policy: MismatchPolicy,
) -> (r: Result<bool, BoxError>)
    ensures
        final(box_config).box_size == old(box_config).box_size,
        atoms_size % 2 != 0 ==> r == Err::<bool, BoxError>(BoxError::BadAtomCount) && final(box_config).box_size_
            == old(box_config).box_size_,
        atoms_size % 2 == 0 && !request_ok(old(box_config).box_size@) ==> r == Err::<bool, BoxError>(BoxError::BadBoxSize) && final(box_config).box_size_
            == old(box_config).box_size_,
        atoms_size % 2 == 0 && request_ok(old(box_config).box_size@) ==> {
            let s = final(box_config).box_size_;
            let prod = s.0 as int * s.1 as int * s.2 as int;
            &&& (s.0 as int, s.1 as int, s.2 as int) == resolved_size(
                atoms_size as int,
                old(box_config).box_size@,
                lo,
                hi,
            )
            &&& (s.0 == 0 || s.1 == 0 || s.2 == 0) ==> r == Err::<bool, BoxError>(BoxError::BadBoxSize)
            &&& (s.0 != 0 && s.1 != 0 && s.2 != 0 && prod != atoms_size && policy == MismatchPolicy::Fail)
                ==> r == Err::<bool, BoxError>(BoxError::BoxMismatch)
            &&& (s.0 != 0 && s.1 != 0 && s.2 != 0 && prod != atoms_size && policy == MismatchPolicy::Warn)
                ==> r == Ok::<bool, BoxError>(false)
            &&& (s.0 != 0 && s.1 != 0 && s.2 != 0 && prod == atoms_size) ==> r == Ok::<bool, BoxError>(true)
        },
{
    if atoms_size % 2 != 0 {
        return Err(BoxError::BadAtomCount);
    }
    let requested = box_config.box_size.len();
    if requested != 0 && requested != 3 {
        return Err(BoxError::BadBoxSize);
    }
    if requested == 3 {
        let mut i: usize = 0;
        while i < 3
            invariant
                box_config.box_size@.len() == 3,
                atoms_size % 2 == 0,
                box_config.box_size == old(box_config).box_size,
                box_config.box_size_ == old(box_config).box_size_,
                i <= 3,
                forall|j: int| 0 <= j < i ==> box_config.box_size@[j] <= usize::MAX,
            decreases 3 - i,
        {
            if box_config.box_size[i] > usize::MAX as u64 {
                return Err(BoxError::BadBoxSize);
            }
            i = i + 1;
        }
    }
    if requested == 3 {
        box_config.box_size_ = (
            box_config.box_size[0] as usize,
            box_config.box_size[1] as usize,
            box_config.box_size[2] as usize,
        );
    } else {
        let edge = cube_root(atoms_size / 2);
        if edge != 0 {
            proof {
                assert(cube_edge(atoms_size as int / 2) == edge as int) by {
                    assert(is_positive_cube(atoms_size as int / 2));
                }
            }
            box_config.box_size_ = (edge, edge, edge);
        } else {
            box_config.box_size_ = (axis_extent(lo.0, hi.0), axis_extent(lo.1, hi.1), axis_extent(lo.2, hi.2));
        }
    }
    let (sx, sy, sz) = box_config.box_size_;
    if sx == 0 || sy == 0 || sz == 0 {
        return Err(BoxError::BadBoxSize);
    }
    let cells: Option<usize> = match sx.checked_mul(sy) {
        Some(p) => p.checked_mul(sz),
        None => None,
    };
    let matches = match cells {
        Some(c) => c == atoms_size,
        None => {
            assert(sx as int * sy as int * sz as int > usize::MAX) by (nonlinear_arith)
                requires
                    sx as int * sy as int > usize::MAX || (sx as int * sy as int) * sz as int > usize::MAX,
                    sz >= 1,
            ;
            false
        },
    };
    if matches {
        Ok(true)
    } else {
        match policy {
            MismatchPolicy::Warn => Ok(false),
            MismatchPolicy::Fail => Err(BoxError::BoxMismatch),
        }
    }
}

} // verus!
