//! Integer geometry of the body-centred-cubic lattice: cube roots of atom
//! counts, the integer step of nearest-site assignment, and the global site
//! index with its inverse.
use vstd::prelude::*;
use vstd::arithmetic::div_mod::lemma_fundamental_div_mod_converse;

verus! {

/// The cube of an integer.
pub open spec fn cube(k: int) -> int {
    k * k * k
}

/// `n` is the cube of some positive integer.
pub open spec fn is_positive_cube(n: int) -> bool {
    exists|k: int| k >= 1 && #[trigger] cube(k) == n
}

proof fn lemma_cube_strictly_monotone(a: int, b: int)
    requires
        0 <= a < b,
    ensures
        cube(a) < cube(b),
{
    assert(a * a <= b * b) by (nonlinear_arith)
        requires 0 <= a < b;
    assert(a * a * a < b * b * b) by (nonlinear_arith)
        requires 0 <= a < b, a * a <= b * b;
}

proof fn lemma_cube_at_least(k: int)
    requires
        k >= 1,
    ensures
        cube(k) >= k,
{
    assert(k * k * k >= k) by (nonlinear_arith)
        requires k >= 1;
}

/// Exact integer cube root: `k` when `n == k * k * k` for some `k >= 1`,
/// and 0 when `n` is no such cube.
pub fn cube_root(n: usize) -> (r: usize)
    ensures
        r >= 1 ==> cube(r as int) == n,
        r == 0 <==> !is_positive_cube(n as int),
        forall|k: int| k >= 1 && #[trigger] cube(k) == n ==> r == k,
{
    let mut low: usize = 1;
    let mut high: usize = n;
    proof {
        assert forall|k: int| n < k implies #[trigger] cube(k) > n by {
            lemma_cube_at_least(k);
        }
    }
    while low <= high
        invariant
            1 <= low,
            high <= n,
            low <= high + 1,
            forall|k: int| 1 <= k < low ==> #[trigger] cube(k) < n,
            forall|k: int| high < k ==> #[trigger] cube(k) > n,
        decreases high + 1 - low,
    {
        let mid: usize = low + (high - low) / 2;
        let cubed: Option<usize> = match mid.checked_mul(mid) {
            Some(sq) => sq.checked_mul(mid),
            None => None,
        };
        assert(mid as int * mid as int * mid as int == cube(mid as int));
        match cubed {
            Some(c) if c == n => {
                proof {
                    assert forall|k: int| k >= 1 && #[trigger] cube(k) == n implies mid == k by {
                        if k < mid {
                            lemma_cube_strictly_monotone(k, mid as int);
                        } else if k > mid {
                            lemma_cube_strictly_monotone(mid as int, k);
                        }
                    }
                }
                return mid;
            },
            Some(c) if c < n => {
                proof {
                    lemma_cube_at_least(mid as int);
                    assert forall|k: int| 1 <= k < mid + 1 implies #[trigger] cube(k) < n by {
                        if k < mid {
                            lemma_cube_strictly_monotone(k, mid as int);
                        }
                    }
                }
                low = mid + 1;
            },
            _ => {
                proof {
                    if cubed.is_none() {
                        assert(mid as int * mid as int * mid as int > usize::MAX) by (nonlinear_arith)
                            requires
                                mid as int * mid as int > usize::MAX || (mid as int * mid as int)
                                    * mid as int > usize::MAX,
                                mid >= 1,
                        ;
                    }
                    assert forall|k: int| mid - 1 < k implies #[trigger] cube(k) > n by {
                        if k > mid {
                            lemma_cube_strictly_monotone(mid as int, k);
                        }
                    }
                }
                high = mid - 1;
            },
        }
    }
    proof {
        assert forall|k: int| k >= 1 implies #[trigger] cube(k) != n by {
            if k < low {
            } else {
                assert(high < k);
            }
        }
    }
    0
}

/// Offset, in doubled-x lattice units, from a corner site to the body-centre
/// site of the octant selected by the signs of the remainders.
pub open spec fn octant_offset(above: (bool, bool, bool)) -> (int, int, int) {
    (
        if above.0 { 1 } else { -1 },
        if above.1 { 0 } else { -1 },
        if above.2 { 0 } else { -1 },
    )
}

/// The site chosen by nearest-site assignment, x doubled: the corner itself,
/// or the body-centre neighbour of the octant when the position lies on the
/// far side of the bisector plane.
pub open spec fn chosen_site(corner: (i32, i32, i32), above: (bool, bool, bool), beyond_plane: bool) -> (
    int,
    int,
    int,
) {
    let d = if beyond_plane { octant_offset(above) } else { (0int, 0int, 0int) };
    (2 * corner.0 + d.0, corner.1 + d.1, corner.2 + d.2)
}

/// Integer step of nearest-site assignment in the BCC lattice.
///
/// `corner` is the nearest corner site (each coordinate rounded in lattice
/// units), `above` tells for each axis whether the remainder is positive, and
/// `beyond_plane` whether the remainder lies on the far side of the bisector
/// plane between the corner and the body centre of its octant. The x
/// coordinate of the result is doubled, so corner and body-centre sites share
/// one integer grid.
pub fn lattice_site(corner: (i32, i32, i32), above: (bool, bool, bool), beyond_plane: bool) -> (r: (
    i32,
    i32,
    i32,
))
    requires
        -0x4000_0000 < corner.0 < 0x4000_0000,
        corner.1 > i32::MIN,
        corner.2 > i32::MIN,
    ensures
        (r.0 as int, r.1 as int, r.2 as int) == chosen_site(corner, above, beyond_plane),
{
    let mut x: i32 = 2 * corner.0;
    let mut y: i32 = corner.1;
    let mut z: i32 = corner.2;
    if beyond_plane {
        x = if above.0 { x + 1 } else { x - 1 };
        if !above.1 {
            y = y - 1;
        }
        if !above.2 {
            z = z - 1;
        }
    }
    (x, y, z)
}

/// A corner site whose position has no remainder stays where it is: the
/// corner `(k, 0, 0)` with zero remainders (no axis above, not beyond the
/// plane) is the site `(2k, 0, 0)`.
pub proof fn lemma_corner_site_is_fixed(k: i32)
    requires
        -0x4000_0000 < k < 0x4000_0000,
    ensures
        chosen_site((k, 0, 0), (false, false, false), false) == (2 * k, 0int, 0int),
{
}

/// Largest box extent along x and y for which site indexes are computed.
pub const MAX_BOX_EXTENT: usize = 0xffff_ffff;

/// Bound on the magnitude of every global index that `global_index` returns.
pub const INDEX_BOUND: i128 = 0x8_0000_0000_0000_0000_0000_0000;

/// Global index of a site: `2 * box_x * (z * box_y + y) + x`, x doubled.
pub open spec fn site_index(site: (int, int, int), box_x: int, box_y: int) -> int {
    2 * box_x * (site.2 * box_y + site.1) + site.0
}

/// Quotient of a division rounded towards zero.
pub open spec fn trunc_div(a: int, d: int) -> int {
    if a >= 0 {
        a / d
    } else {
        -((-a) / d)
    }
}

/// Remainder of a division rounded towards zero; it has the sign of `a`.
pub open spec fn trunc_rem(a: int, d: int) -> int {
    if a >= 0 {
        a % d
    } else {
        -((-a) % d)
    }
}

/// Site `(x, y, z)` read back from a global index, with divisions rounded
/// towards zero.
pub open spec fn site_of_index(index: int, box_x: int, box_y: int) -> (int, int, int) {
    let plane = 2 * box_x * box_y;
    let left = trunc_rem(index, plane);
    (trunc_rem(left, 2 * box_x), trunc_div(left, 2 * box_x), trunc_div(index, plane))
}

/// Computes the global index of a site of the box.
pub fn global_index(site: (i32, i32, i32), box_x: usize, box_y: usize) -> (r: i128)
    requires
        box_x <= MAX_BOX_EXTENT,
        box_y <= MAX_BOX_EXTENT,
    ensures
        r == site_index((site.0 as int, site.1 as int, site.2 as int), box_x as int, box_y as int),
        -INDEX_BOUND <= r <= INDEX_BOUND,
{
    let bx: i128 = box_x as i128;
    let by: i128 = box_y as i128;
    let z: i128 = site.2 as i128;
    let y: i128 = site.1 as i128;
    let x: i128 = site.0 as i128;
    assert(-0x8000_0000_0000_0000 <= z * by <= 0x8000_0000_0000_0000) by (nonlinear_arith)
        requires
            -0x8000_0000 <= z <= 0x8000_0000,
            0 <= by <= 0xffff_ffff,
    ;
    let row: i128 = z * by + y;
    assert(-0x4_0000_0000_0000_0000_0000_0000 <= 2 * bx * row <= 0x4_0000_0000_0000_0000_0000_0000)
        by (nonlinear_arith)
        requires
            -0x1_0000_0000_0000_0000 <= row <= 0x1_0000_0000_0000_0000,
            0 <= bx <= 0xffff_ffff,
    ;
    2 * bx * row + x
}

/// Reads the site back from a global index, inverting `global_index` for
/// every site of the box. Divisions round towards zero.
pub fn site_coordinates(index: i128, box_x: usize, box_y: usize) -> (r: (i128, i128, i128))
    requires
        1 <= box_x <= MAX_BOX_EXTENT,
        1 <= box_y <= MAX_BOX_EXTENT,
        index > i128::MIN,
    ensures
        (r.0 as int, r.1 as int, r.2 as int) == site_of_index(index as int, box_x as int, box_y as int),
{
    let row: u128 = 2 * box_x as u128;
    assert(row * box_y <= 0x2_0000_0000_0000_0000) by (nonlinear_arith)
        requires
            row <= 0x2_0000_0000,
            box_y <= 0xffff_ffff,
    ;
    let plane: u128 = row * box_y as u128;
    assert(plane >= 1) by (nonlinear_arith)
        requires
            row >= 2,
            box_y >= 1,
            plane == row * box_y,
    ;
    if index >= 0 {
        let m: u128 = index as u128;
        let left: u128 = m % plane;
        ((left % row) as i128, (left / row) as i128, (m / plane) as i128)
    } else {
        let m: u128 = (-index) as u128;
        let left: u128 = m % plane;
        proof {
            if left == 0 {
                assert(0int / (row as int) == 0);
                assert(0int % (row as int) == 0);
            }
        }
        (-((left % row) as i128), -((left / row) as i128), -((m / plane) as i128))
    }
}

/// Reading a site back from its global index gives the site again, for
/// every site of a box of `box_x * box_y * box_z` cells.
pub proof fn lemma_site_index_round_trip(site: (int, int, int), box_x: int, box_y: int, box_z: int)
    requires
        1 <= box_x,
        1 <= box_y,
        0 <= site.0 < 2 * box_x,
        0 <= site.1 < box_y,
        0 <= site.2 < box_z,
    ensures
        site_of_index(site_index(site, box_x, box_y), box_x, box_y) == site,
{
    let (x, y, z) = site;
    let row = 2 * box_x;
    let plane = 2 * box_x * box_y;
    let left = y * row + x;
    let index = site_index(site, box_x, box_y);
    assert(index == z * plane + left) by (nonlinear_arith)
        requires
            index == 2 * box_x * (z * box_y + y) + x,
            plane == 2 * box_x * box_y,
            row == 2 * box_x,
            left == y * row + x,
    ;
    assert(0 <= left < plane) by (nonlinear_arith)
        requires
            0 <= x < row,
            0 <= y < box_y,
            left == y * row + x,
            plane == row * box_y,
            plane == 2 * box_x * box_y,
            row == 2 * box_x,
    ;
    assert(index >= 0) by (nonlinear_arith)
        requires
            index == z * plane + left,
            z >= 0,
            plane >= 0,
            left >= 0,
    ;
    lemma_fundamental_div_mod_converse(index, plane, z, left);
    lemma_fundamental_div_mod_converse(left, row, y, x);
}

} // verus!
