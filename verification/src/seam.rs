//! Land masses do not depend on where the torus seam falls: cyclically
//! shifting a land mask keeps the size of its largest mass and, when that
//! mass is unique, its circular extent and band flags.

use vstd::prelude::*;

use crate::grid::{flat, ring_next};
use crate::land::{circular_extent_holds, law_extent_rotation_invariant, rotated};
use crate::landmass::{
    east_of, in_mass, is_largest_mass, is_representative, labelling_ok, land_connected, land_walk, lemma_connected_sym,
    lemma_connected_trans, mass_columns, mass_count, mass_rows, mass_size, neighbours, south_of, torus4,
};

verus! {

/// The cell whose content appears at `k` after shifting by `(sx, sy)`: the
/// cell `sx` columns right and `sy` rows down of `k`, wrapping.
pub open spec fn shift_cell(w: int, h: int, sx: int, sy: int, k: int) -> int {
    flat(w, (k % w + sx) % w, (k / w + sy) % h)
}

/// `land` cyclically shifted by `(sx, sy)`: cell `(x, y)` shows the content
/// of cell `(x + sx, y + sy)` (wrapping).
pub open spec fn shifted(w: int, h: int, land: Seq<bool>, sx: int, sy: int) -> Seq<bool> {
    Seq::new(land.len(), |k: int| land[shift_cell(w, h, sx, sy, k)])
}

/// Geometry of a shift on a `w × h` torus.
pub open spec fn shift_ok(w: int, h: int, n: int, sx: int, sy: int) -> bool {
    &&& w > 0
    &&& h > 0
    &&& n == w * h
    &&& 0 <= sx < w
    &&& 0 <= sy < h
}

proof fn lemma_coords(w: int, h: int, x: int, y: int)
    requires
        0 <= x < w,
        0 <= y < h,
    ensures
        0 <= flat(w, x, y) < w * h,
        flat(w, x, y) % w == x,
        flat(w, x, y) / w == y,
{
    assert(0 <= y * w + x < w * h && (y * w + x) % w == x && (y * w + x) / w == y) by (nonlinear_arith)
        requires
            0 <= x < w,
            0 <= y < h,
    ;
}

proof fn lemma_split(w: int, h: int, k: int)
    requires
        w > 0,
        h > 0,
        0 <= k < w * h,
    ensures
        0 <= k % w < w,
        0 <= k / w < h,
        flat(w, k % w, k / w) == k,
{
    crate::grid::lemma_unflat(w, h, k);
}

proof fn lemma_small_mod(a: int, w: int)
    requires
        w > 0,
        0 <= a < 2 * w,
    ensures
        a % w == (if a < w {
            a
        } else {
            a - w
        }),
{
    if a < w {
        vstd::arithmetic::div_mod::lemma_small_mod(a as nat, w as nat);
    } else {
        vstd::arithmetic::div_mod::lemma_small_mod((a - w) as nat, w as nat);
        vstd::arithmetic::div_mod::lemma_mod_add_multiples_vanish(a - w, w);
    }
}

/// Coordinates of the shifted cell.
proof fn lemma_shift_coords(w: int, h: int, sx: int, sy: int, k: int)
    requires
        shift_ok(w, h, w * h, sx, sy),
        0 <= k < w * h,
    ensures
        0 <= shift_cell(w, h, sx, sy, k) < w * h,
        shift_cell(w, h, sx, sy, k) % w == (if k % w + sx < w {
            k % w + sx
        } else {
            k % w + sx - w
        }),
        shift_cell(w, h, sx, sy, k) / w == (if k / w + sy < h {
            k / w + sy
        } else {
            k / w + sy - h
        }),
{
    lemma_split(w, h, k);
    lemma_small_mod(k % w + sx, w);
    lemma_small_mod(k / w + sy, h);
    lemma_coords(w, h, (k % w + sx) % w, (k / w + sy) % h);
}

/// The shift moves distinct cells to distinct cells.
proof fn lemma_shift_injective(w: int, h: int, sx: int, sy: int, a: int, b: int)
    requires
        shift_ok(w, h, w * h, sx, sy),
        0 <= a < w * h,
        0 <= b < w * h,
        shift_cell(w, h, sx, sy, a) == shift_cell(w, h, sx, sy, b),
    ensures
        a == b,
{
    lemma_shift_coords(w, h, sx, sy, a);
    lemma_shift_coords(w, h, sx, sy, b);
    lemma_split(w, h, a);
    lemma_split(w, h, b);
    assert(a % w == b % w);
    assert(a / w == b / w);
}

/// Every cell is the image of some cell.
proof fn lemma_shift_onto(w: int, h: int, sx: int, sy: int, j: int) -> (k: int)
    requires
        shift_ok(w, h, w * h, sx, sy),
        0 <= j < w * h,
    ensures
        0 <= k < w * h,
        shift_cell(w, h, sx, sy, k) == j,
{
    lemma_split(w, h, j);
    let x = if j % w >= sx {
        j % w - sx
    } else {
        j % w - sx + w
    };
    let y = if j / w >= sy {
        j / w - sy
    } else {
        j / w - sy + h
    };
    lemma_coords(w, h, x, y);
    let k = flat(w, x, y);
    lemma_shift_coords(w, h, sx, sy, k);
    lemma_split(w, h, shift_cell(w, h, sx, sy, k));
    k
}

/// The shift commutes with the east and south neighbours.
proof fn lemma_shift_commutes(w: int, h: int, sx: int, sy: int, k: int)
    requires
        shift_ok(w, h, w * h, sx, sy),
        0 <= k < w * h,
    ensures
        0 <= east_of(w, k) < w * h,
        0 <= south_of(w, h, k) < w * h,
        east_of(w, shift_cell(w, h, sx, sy, k)) == shift_cell(w, h, sx, sy, east_of(w, k)),
        south_of(w, h, shift_cell(w, h, sx, sy, k)) == shift_cell(w, h, sx, sy, south_of(w, h, k)),
{
    lemma_split(w, h, k);
    let x = k % w;
    let y = k / w;
    lemma_coords(w, h, ring_next(x, w), y);
    lemma_coords(w, h, x, ring_next(y, h));
    let s = shift_cell(w, h, sx, sy, k);
    lemma_shift_coords(w, h, sx, sy, k);
    lemma_shift_coords(w, h, sx, sy, east_of(w, k));
    lemma_shift_coords(w, h, sx, sy, south_of(w, h, k));
    lemma_split(w, h, s);
    lemma_small_mod(ring_next(x, w) + sx, w);
    lemma_small_mod(ring_next(y, h) + sy, h);
    lemma_small_mod(x + sx, w);
    lemma_small_mod(y + sy, h);
}


/// Two cells are 4-neighbours exactly when their shifted cells are.
proof fn lemma_shift_neighbours(w: int, h: int, sx: int, sy: int, a: int, b: int)
    requires
        shift_ok(w, h, w * h, sx, sy),
        0 <= a < w * h,
        0 <= b < w * h,
    ensures
        neighbours(w, h, a, b) <==> neighbours(
            w,
            h,
            shift_cell(w, h, sx, sy, a),
            shift_cell(w, h, sx, sy, b),
        ),
{
    lemma_shift_commutes(w, h, sx, sy, a);
    lemma_shift_commutes(w, h, sx, sy, b);
    let sa = shift_cell(w, h, sx, sy, a);
    let sb = shift_cell(w, h, sx, sy, b);
    if sb == east_of(w, sa) {
        lemma_shift_injective(w, h, sx, sy, b, east_of(w, a));
    }
    if sb == south_of(w, h, sa) {
        lemma_shift_injective(w, h, sx, sy, b, south_of(w, h, a));
    }
    if sa == east_of(w, sb) {
        lemma_shift_injective(w, h, sx, sy, a, east_of(w, b));
    }
    if sa == south_of(w, h, sb) {
        lemma_shift_injective(w, h, sx, sy, a, south_of(w, h, b));
    }
}

/// A land walk in the shifted mask maps to a land walk in the mask.
proof fn lemma_walk_forward(w: int, h: int, land: Seq<bool>, sx: int, sy: int, path: Seq<int>, a: int, b: int)
    requires
        shift_ok(w, h, land.len() as int, sx, sy),
        land_walk(w, h, shifted(w, h, land, sx, sy), path, a, b),
    ensures
        land_walk(
            w,
            h,
            land,
            path.map_values(|c: int| shift_cell(w, h, sx, sy, c)),
            shift_cell(w, h, sx, sy, a),
            shift_cell(w, h, sx, sy, b),
        ),
{
    let lm = shifted(w, h, land, sx, sy);
    let q = path.map_values(|c: int| shift_cell(w, h, sx, sy, c));
    assert forall|t: int| 0 <= t < q.len() implies 0 <= #[trigger] q[t] < land.len() && land[q[t]] by {
        assert(0 <= path[t] < lm.len() && lm[path[t]]);
        lemma_shift_coords(w, h, sx, sy, path[t]);
    }
    assert forall|t: int| 0 <= t < q.len() - 1 implies (torus4(w, h))(#[trigger] q[t], q[t + 1]) by {
        assert(0 <= path[t] < lm.len() && lm[path[t]]);
        assert(0 <= path[t + 1] < lm.len() && lm[path[t + 1]]);
        assert((torus4(w, h))(path[t], path[t + 1]));
        lemma_shift_neighbours(w, h, sx, sy, path[t], path[t + 1]);
    }
    assert(q.last() == shift_cell(w, h, sx, sy, b));
}

/// A cell of the grid before the shift.
spec fn unshift(w: int, h: int, sx: int, sy: int, j: int) -> int {
    choose|k: int| 0 <= k < w * h && shift_cell(w, h, sx, sy, k) == j
}

proof fn lemma_unshift(w: int, h: int, sx: int, sy: int, j: int)
    requires
        shift_ok(w, h, w * h, sx, sy),
        0 <= j < w * h,
    ensures
        0 <= unshift(w, h, sx, sy, j) < w * h,
        shift_cell(w, h, sx, sy, unshift(w, h, sx, sy, j)) == j,
{
    let k = lemma_shift_onto(w, h, sx, sy, j);
    assert(0 <= k < w * h && shift_cell(w, h, sx, sy, k) == j);
}

/// A land walk in the mask between shifted cells pulls back to a land walk
/// in the shifted mask.
proof fn lemma_walk_back(w: int, h: int, land: Seq<bool>, sx: int, sy: int, path: Seq<int>, a: int, b: int)
    requires
        shift_ok(w, h, land.len() as int, sx, sy),
        0 <= a < land.len(),
        0 <= b < land.len(),
        land_walk(w, h, land, path, shift_cell(w, h, sx, sy, a), shift_cell(w, h, sx, sy, b)),
    ensures
        land_connected(w, h, shifted(w, h, land, sx, sy), a, b),
{
    let lm = shifted(w, h, land, sx, sy);
    let q = path.map_values(|c: int| unshift(w, h, sx, sy, c));
    assert forall|t: int| 0 <= t < q.len() implies 0 <= #[trigger] q[t] < lm.len() && lm[q[t]] by {
        assert(0 <= path[t] < land.len() && land[path[t]]);
        lemma_unshift(w, h, sx, sy, path[t]);
    }
    assert forall|t: int| 0 <= t < q.len() - 1 implies (torus4(w, h))(#[trigger] q[t], q[t + 1]) by {
        assert(0 <= path[t] < land.len() && land[path[t]]);
        assert(0 <= path[t + 1] < land.len() && land[path[t + 1]]);
        assert((torus4(w, h))(path[t], path[t + 1]));
        lemma_unshift(w, h, sx, sy, path[t]);
        lemma_unshift(w, h, sx, sy, path[t + 1]);
        lemma_shift_neighbours(w, h, sx, sy, q[t], q[t + 1]);
    }
    lemma_unshift(w, h, sx, sy, path[0]);
    lemma_unshift(w, h, sx, sy, path.last());
    lemma_shift_injective(w, h, sx, sy, q[0], a);
    lemma_shift_injective(w, h, sx, sy, q.last(), b);
    assert(land_walk(w, h, lm, q, a, b));
}

/// Connectivity in the shifted mask is connectivity of the shifted cells.
proof fn lemma_shift_connected(w: int, h: int, land: Seq<bool>, sx: int, sy: int, a: int, b: int)
    requires
        shift_ok(w, h, land.len() as int, sx, sy),
        0 <= a < land.len(),
        0 <= b < land.len(),
    ensures
        land_connected(w, h, shifted(w, h, land, sx, sy), a, b) <==> land_connected(
            w,
            h,
            land,
            shift_cell(w, h, sx, sy, a),
            shift_cell(w, h, sx, sy, b),
        ),
{
    let lm = shifted(w, h, land, sx, sy);
    if land_connected(w, h, lm, a, b) {
        let path = choose|path: Seq<int>| #[trigger] crate::landmass::mask_walk(torus4(w, h), lm, path, a, b);
        lemma_walk_forward(w, h, land, sx, sy, path, a, b);
    }
    if land_connected(w, h, land, shift_cell(w, h, sx, sy, a), shift_cell(w, h, sx, sy, b)) {
        let path = choose|path: Seq<int>| #[trigger] crate::landmass::mask_walk(
            torus4(w, h),
            land,
            path,
            shift_cell(w, h, sx, sy, a),
            shift_cell(w, h, sx, sy, b),
        );
        lemma_walk_back(w, h, land, sx, sy, path, a, b);
    }
}


/// Land cells connected to `a`.
pub open spec fn component(w: int, h: int, land: Seq<bool>, a: int) -> Set<int> {
    Set::new(|k: int| 0 <= k < land.len() && land[k] && land_connected(w, h, land, a, k))
}

proof fn lemma_torus4_symmetric(w: int, h: int)
    ensures
        forall|x: int, y: int| #[trigger] (torus4(w, h))(x, y) ==> (torus4(w, h))(y, x),
{
}

proof fn lemma_component_finite(w: int, h: int, land: Seq<bool>, a: int)
    ensures
        component(w, h, land, a).finite(),
{
    vstd::set_lib::lemma_int_range(0, land.len() as int);
    vstd::set_lib::lemma_len_subset(component(w, h, land, a), vstd::set_lib::set_int_range(0, land.len() as int));
}

/// Connected cells have the same component.
proof fn lemma_component_eq(w: int, h: int, land: Seq<bool>, a: int, b: int)
    requires
        land_connected(w, h, land, a, b),
    ensures
        component(w, h, land, a) == component(w, h, land, b),
{
    lemma_torus4_symmetric(w, h);
    lemma_connected_sym(torus4(w, h), land, a, b);
    assert forall|k: int| #[trigger] component(w, h, land, a).contains(k) <==> component(w, h, land, b).contains(k) by {
        if component(w, h, land, a).contains(k) {
            lemma_connected_trans(torus4(w, h), land, b, a, k);
        }
        if component(w, h, land, b).contains(k) {
            lemma_connected_trans(torus4(w, h), land, a, b, k);
        }
    }
    assert(component(w, h, land, a) =~= component(w, h, land, b));
}

/// The component of a shifted cell is the image of the component in the
/// shifted mask; both have the same number of cells.
proof fn lemma_component_shift(w: int, h: int, land: Seq<bool>, sx: int, sy: int, a: int)
    requires
        shift_ok(w, h, land.len() as int, sx, sy),
        0 <= a < land.len(),
    ensures
        component(w, h, land, shift_cell(w, h, sx, sy, a)).len() == component(
            w,
            h,
            shifted(w, h, land, sx, sy),
            a,
        ).len(),
{
    let lm = shifted(w, h, land, sx, sy);
    let f = |c: int| shift_cell(w, h, sx, sy, c);
    let c1 = component(w, h, lm, a);
    let c2 = component(w, h, land, shift_cell(w, h, sx, sy, a));
    assert forall|j: int| #[trigger] c1.map(f).contains(j) <==> c2.contains(j) by {
        if c1.map(f).contains(j) {
            let k = choose|k: int| c1.contains(k) && f(k) == j;
            lemma_shift_connected(w, h, land, sx, sy, a, k);
            lemma_shift_coords(w, h, sx, sy, k);
        }
        if c2.contains(j) {
            lemma_unshift(w, h, sx, sy, j);
            let k = unshift(w, h, sx, sy, j);
            lemma_shift_connected(w, h, land, sx, sy, a, k);
            assert(c1.contains(k));
            assert(f(k) == j);
        }
    }
    assert(c1.map(f) =~= c2);
    lemma_component_finite(w, h, lm, a);
    assert forall|x: int, y: int| c1.contains(x) && c1.contains(y) && #[trigger] f(x) == #[trigger] f(y) implies x == y by {
        lemma_shift_injective(w, h, sx, sy, x, y);
    }
    vstd::set_lib::lemma_map_size(c1, c2, f);
}

/// Cells of the mass labelled `r` among the first `k`.
spec fn mass_prefix(land: Seq<bool>, labels: Seq<usize>, r: int, k: int) -> Set<int> {
    Set::new(|j: int| 0 <= j < k && in_mass(land, labels, r, j))
}

proof fn lemma_mass_count_set(land: Seq<bool>, labels: Seq<usize>, r: int, k: int)
    requires
        0 <= k,
    ensures
        mass_prefix(land, labels, r, k).finite(),
        mass_count(land, labels, r, k) == mass_prefix(land, labels, r, k).len(),
    decreases k,
{
    if k == 0 {
        assert(mass_prefix(land, labels, r, k) =~= Set::empty());
    } else {
        lemma_mass_count_set(land, labels, r, k - 1);
        if in_mass(land, labels, r, k - 1) {
            assert(mass_prefix(land, labels, r, k) =~= mass_prefix(land, labels, r, k - 1).insert(k - 1));
        } else {
            assert(mass_prefix(land, labels, r, k) =~= mass_prefix(land, labels, r, k - 1));
        }
    }
}

/// The size of a mass is the number of cells of its component.
proof fn lemma_mass_size_component(w: int, h: int, land: Seq<bool>, labels: Seq<usize>, r: int)
    requires
        labelling_ok(w, h, land, labels),
        is_representative(land, labels, r),
    ensures
        mass_size(land, labels, r) == component(w, h, land, r).len(),
{
    lemma_mass_count_set(land, labels, r, land.len() as int);
    lemma_torus4_symmetric(w, h);
    assert forall|j: int| #[trigger] mass_prefix(land, labels, r, land.len() as int).contains(j) <==> component(
        w,
        h,
        land,
        r,
    ).contains(j) by {
        if 0 <= j < land.len() && land[j] {
            assert(labels[j] == labels[r] <==> land_connected(w, h, land, j, r));
            if land_connected(w, h, land, j, r) {
                lemma_connected_sym(torus4(w, h), land, j, r);
            }
            if land_connected(w, h, land, r, j) {
                lemma_connected_sym(torus4(w, h), land, r, j);
            }
        }
    }
    assert(mass_prefix(land, labels, r, land.len() as int) =~= component(w, h, land, r));
}


proof fn lemma_in_mass_component(w: int, h: int, land: Seq<bool>, labels: Seq<usize>, r: int, k: int)
    requires
        labelling_ok(w, h, land, labels),
        is_representative(land, labels, r),
    ensures
        in_mass(land, labels, r, k) <==> component(w, h, land, r).contains(k),
{
    lemma_torus4_symmetric(w, h);
    if 0 <= k < land.len() && land[k] {
        assert(labels[k] == labels[r] <==> land_connected(w, h, land, k, r));
        if land_connected(w, h, land, k, r) {
            lemma_connected_sym(torus4(w, h), land, k, r);
        }
        if land_connected(w, h, land, r, k) {
            lemma_connected_sym(torus4(w, h), land, r, k);
        }
    }
}

/// The representative of the mass holding land cell `j`, and the fact that
/// its component is `j`'s.
proof fn lemma_rep_of(w: int, h: int, land: Seq<bool>, labels: Seq<usize>, j: int) -> (q: int)
    requires
        labelling_ok(w, h, land, labels),
        0 <= j < land.len(),
        land[j],
    ensures
        q == labels[j] as int,
        is_representative(land, labels, q),
        component(w, h, land, q) == component(w, h, land, j),
{
    let q = labels[j] as int;
    assert(labels[q] == labels[j]);
    assert(land_connected(w, h, land, j, q));
    lemma_torus4_symmetric(w, h);
    lemma_connected_sym(torus4(w, h), land, j, q);
    lemma_component_eq(w, h, land, q, j);
    q
}

/// Seam invariance of the largest mass: a land mask and its cyclic shift by
/// `(sx, sy)` have largest masses of the same size.
pub proof fn law_largest_mass_seam_invariant(
    w: int,
    h: int,
    land: Seq<bool>,
    sx: int,
    sy: int,
    labels: Seq<usize>,
    r: int,
    labels2: Seq<usize>,
    r2: int,
)
    requires
        shift_ok(w, h, land.len() as int, sx, sy),
        labelling_ok(w, h, land, labels),
        labelling_ok(w, h, shifted(w, h, land, sx, sy), labels2),
        is_largest_mass(land, labels, r),
        is_largest_mass(shifted(w, h, land, sx, sy), labels2, r2),
    ensures
        mass_size(land, labels, r) == mass_size(shifted(w, h, land, sx, sy), labels2, r2),
{
    let lm = shifted(w, h, land, sx, sy);
    lemma_mass_size_component(w, h, land, labels, r);
    lemma_mass_size_component(w, h, lm, labels2, r2);
    // The largest shifted mass appears, shifted, as a mass of `land`.
    let j = shift_cell(w, h, sx, sy, r2);
    lemma_shift_coords(w, h, sx, sy, r2);
    assert(land[j] == lm[r2]);
    let q = lemma_rep_of(w, h, land, labels, j);
    lemma_mass_size_component(w, h, land, labels, q);
    lemma_component_shift(w, h, land, sx, sy, r2);
    assert(mass_size(land, labels, q) <= mass_size(land, labels, r));
    // The largest mass of `land` appears, unshifted, as a mass of the shift.
    lemma_unshift(w, h, sx, sy, r);
    let a = unshift(w, h, sx, sy, r);
    assert(lm[a] == land[r]);
    let q2 = lemma_rep_of(w, h, lm, labels2, a);
    lemma_mass_size_component(w, h, lm, labels2, q2);
    lemma_component_shift(w, h, land, sx, sy, a);
    assert(mass_size(lm, labels2, q2) <= mass_size(lm, labels2, r2));
}


/// When `land`'s largest mass is the only one of its size, the largest
/// mass of the shifted mask is that mass shifted: its columns and rows are
/// rotations of the original ones.
proof fn lemma_largest_mass_shifted_occupancy(
    w: int,
    h: int,
    land: Seq<bool>,
    sx: int,
    sy: int,
    labels: Seq<usize>,
    r: int,
    labels2: Seq<usize>,
    r2: int,
)
    requires
        shift_ok(w, h, land.len() as int, sx, sy),
        labelling_ok(w, h, land, labels),
        labelling_ok(w, h, shifted(w, h, land, sx, sy), labels2),
        is_largest_mass(land, labels, r),
        is_largest_mass(shifted(w, h, land, sx, sy), labels2, r2),
        forall|q: int|
            #[trigger] is_representative(land, labels, q) && q != r ==> mass_size(land, labels, q) < mass_size(
                land,
                labels,
                r,
            ),
    ensures
        mass_columns(w, shifted(w, h, land, sx, sy), labels2, r2) == rotated(mass_columns(w, land, labels, r), sx),
        mass_rows(w, h, shifted(w, h, land, sx, sy), labels2, r2) == rotated(mass_rows(w, h, land, labels, r), sy),
{
    let lm = shifted(w, h, land, sx, sy);
    law_largest_mass_seam_invariant(w, h, land, sx, sy, labels, r, labels2, r2);
    lemma_mass_size_component(w, h, land, labels, r);
    lemma_mass_size_component(w, h, lm, labels2, r2);
    let j = shift_cell(w, h, sx, sy, r2);
    lemma_shift_coords(w, h, sx, sy, r2);
    assert(land[j] == lm[r2]);
    let q = lemma_rep_of(w, h, land, labels, j);
    lemma_mass_size_component(w, h, land, labels, q);
    lemma_component_shift(w, h, land, sx, sy, r2);
    assert(q == r);
    let c = component(w, h, land, r);
    let c2 = component(w, h, lm, r2);
    // k lies in the shifted mass exactly when its shifted cell lies in the mass.
    assert forall|k: int| 0 <= k < land.len() implies (in_mass(lm, labels2, r2, k) <==> in_mass(
        land,
        labels,
        r,
        #[trigger] shift_cell(w, h, sx, sy, k),
    )) by {
        lemma_in_mass_component(w, h, lm, labels2, r2, k);
        lemma_shift_coords(w, h, sx, sy, k);
        lemma_in_mass_component(w, h, land, labels, r, shift_cell(w, h, sx, sy, k));
        lemma_shift_connected(w, h, land, sx, sy, r2, k);
        assert(lm[k] == land[shift_cell(w, h, sx, sy, k)]);
    }
    let cols = mass_columns(w, land, labels, r);
    let cols2 = mass_columns(w, lm, labels2, r2);
    assert forall|x: int| 0 <= x < w implies cols2[x] == #[trigger] rotated(cols, sx)[x] by {
        lemma_small_mod(x + sx, w);
        if cols2[x] {
            let k = choose|k: int| #[trigger] in_mass(lm, labels2, r2, k) && k % w == x;
            lemma_shift_coords(w, h, sx, sy, k);
            assert(in_mass(land, labels, r, shift_cell(w, h, sx, sy, k)));
        }
        if cols[(x + sx) % w] {
            let jj = choose|jj: int| #[trigger] in_mass(land, labels, r, jj) && jj % w == (x + sx) % w;
            lemma_unshift(w, h, sx, sy, jj);
            let k = unshift(w, h, sx, sy, jj);
            lemma_shift_coords(w, h, sx, sy, k);
            lemma_split(w, h, k);
            assert(in_mass(lm, labels2, r2, k));
        }
    }
    assert(cols2 =~= rotated(cols, sx));
    let rows = mass_rows(w, h, land, labels, r);
    let rows2 = mass_rows(w, h, lm, labels2, r2);
    assert forall|y: int| 0 <= y < h implies rows2[y] == #[trigger] rotated(rows, sy)[y] by {
        lemma_small_mod(y + sy, h);
        if rows2[y] {
            let k = choose|k: int| #[trigger] in_mass(lm, labels2, r2, k) && k / w == y;
            lemma_shift_coords(w, h, sx, sy, k);
            assert(in_mass(land, labels, r, shift_cell(w, h, sx, sy, k)));
        }
        if rows[(y + sy) % h] {
            let jj = choose|jj: int| #[trigger] in_mass(land, labels, r, jj) && jj / w == (y + sy) % h;
            lemma_unshift(w, h, sx, sy, jj);
            let k = unshift(w, h, sx, sy, jj);
            lemma_shift_coords(w, h, sx, sy, k);
            lemma_split(w, h, k);
            assert(in_mass(lm, labels2, r2, k));
        }
    }
    assert(rows2 =~= rotated(rows, sy));
}

/// Seam invariance of the largest mass's circular extent: when the
/// largest mass of `land` is the only one of its size, the band flag and
/// the circular extent of the largest mass, on each axis, are the same
/// for `land` and for its cyclic shift by `(sx, sy)`.
pub proof fn law_largest_extent_seam_invariant(
    w: int,
    h: int,
    land: Seq<bool>,
    sx: int,
    sy: int,
    labels: Seq<usize>,
    r: int,
    labels2: Seq<usize>,
    r2: int,
    ex: (bool, usize, usize),
    ey: (bool, usize, usize),
    ex2: (bool, usize, usize),
    ey2: (bool, usize, usize),
)
    requires
        shift_ok(w, h, land.len() as int, sx, sy),
        labelling_ok(w, h, land, labels),
        labelling_ok(w, h, shifted(w, h, land, sx, sy), labels2),
        is_largest_mass(land, labels, r),
        is_largest_mass(shifted(w, h, land, sx, sy), labels2, r2),
        forall|q: int|
            #[trigger] is_representative(land, labels, q) && q != r ==> mass_size(land, labels, q) < mass_size(
                land,
                labels,
                r,
            ),
        circular_extent_holds(mass_columns(w, land, labels, r), ex),
        circular_extent_holds(mass_rows(w, h, land, labels, r), ey),
        circular_extent_holds(mass_columns(w, shifted(w, h, land, sx, sy), labels2, r2), ex2),
        circular_extent_holds(mass_rows(w, h, shifted(w, h, land, sx, sy), labels2, r2), ey2),
    ensures
        ex.0 == ex2.0 && ex.1 == ex2.1,
        ey.0 == ey2.0 && ey.1 == ey2.1,
{
    lemma_largest_mass_shifted_occupancy(w, h, land, sx, sy, labels, r, labels2, r2);
    law_extent_rotation_invariant(mass_columns(w, land, labels, r), sx, ex, ex2);
    law_extent_rotation_invariant(mass_rows(w, h, land, labels, r), sy, ey, ey2);
}

} // verus!
