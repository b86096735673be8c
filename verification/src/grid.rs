//! Row-major 2-D grids on a periodic (torus) domain: the binary
//! [`BoolField`] mask and the per-cell plate index [`PlateIdField`].

use vstd::prelude::*;

verus! {

/// Flat row-major index of cell `(i, j)` on a grid `nx` cells wide.
pub open spec fn flat(nx: int, i: int, j: int) -> int {
    j * nx + i
}

/// Every in-range cell maps to an in-range flat index.
pub proof fn lemma_flat_in_bounds(nx: int, ny: int, i: int, j: int)
    requires
        0 <= i < nx,
        0 <= j < ny,
    ensures
        0 <= flat(nx, i, j) < nx * ny,
        flat(nx, i, j) <= (ny - 1) * nx + (nx - 1),
{
    assert(0 <= j * nx) by (nonlinear_arith)
        requires
            0 <= j,
            0 <= nx,
    ;
    assert(j * nx + i < nx * ny) by (nonlinear_arith)
        requires
            0 <= i < nx,
            0 <= j < ny,
    ;
    assert(j * nx <= (ny - 1) * nx) by (nonlinear_arith)
        requires
            0 <= j < ny,
            0 <= nx,
    ;
}

/// Distinct in-range cells have distinct flat indices.
pub proof fn lemma_flat_injective(nx: int, i: int, j: int, i2: int, j2: int)
    requires
        0 <= i < nx,
        0 <= i2 < nx,
        0 <= j,
        0 <= j2,
        flat(nx, i, j) == flat(nx, i2, j2),
    ensures
        i == i2,
        j == j2,
{
    if j < j2 {
        assert(j * nx + nx <= j2 * nx) by (nonlinear_arith)
            requires
                j < j2,
                0 <= nx,
        ;
    } else if j2 < j {
        assert(j2 * nx + nx <= j * nx) by (nonlinear_arith)
            requires
                j2 < j,
                0 <= nx,
        ;
    }
}

/// The cell coordinates of a flat index are in range and map back to it.
pub proof fn lemma_unflat(nx: int, ny: int, k: int)
    requires
        0 < nx,
        0 <= k < nx * ny,
    ensures
        0 <= k % nx < nx,
        0 <= k / nx < ny,
        flat(nx, k % nx, k / nx) == k,
{
    assert(k == (k / nx) * nx + k % nx) by (nonlinear_arith)
        requires
            0 < nx,
    ;
    assert(0 <= k % nx < nx) by (nonlinear_arith)
        requires
            0 < nx,
    ;
    assert(0 <= k / nx < ny) by (nonlinear_arith)
        requires
            0 < nx,
            0 <= k < nx * ny,
    ;
}

/// Successor of `i` on a ring of `n` slots.
pub open spec fn ring_next(i: int, n: int) -> int {
    if i + 1 == n {
        0
    } else {
        i + 1
    }
}

/// Predecessor of `i` on a ring of `n` slots.
pub open spec fn ring_prev(i: int, n: int) -> int {
    if i == 0 {
        n - 1
    } else {
        i - 1
    }
}

/// Periodic successor index: `(i + 1) mod n`.
pub fn wrap_next(i: usize, n: usize) -> (r: usize)
    requires
        i < n,
    ensures
        r == ring_next(i as int, n as int),
        r < n,
{
    if i + 1 == n {
        0
    } else {
        i + 1
    }
}

/// Periodic predecessor index: `(i + n - 1) mod n`.
pub fn wrap_prev(i: usize, n: usize) -> (r: usize)
    requires
        i < n,
    ensures
        r == ring_prev(i as int, n as int),
        r < n,
{
    if i == 0 {
        n - 1
    } else {
        i - 1
    }
}

/// Binary per-cell mask, row-major `nx × ny`.
#[derive(Clone, Debug)]
pub struct BoolField {
    nx: usize,
    ny: usize,
    data: Vec<bool>,
}

impl View for BoolField {
    type V = Seq<bool>;

    closed spec fn view(&self) -> Seq<bool> {
        self.data@
    }
}

impl BoolField {
    /// Well-formedness: the flat contents cover exactly `nx × ny` cells.
    pub closed spec fn wf(&self) -> bool {
        self.data@.len() == self.nx * self.ny
    }

    /// A well-formed field's flat length is `width × height`.
    pub proof fn lemma_wf_len(&self)
        requires
            self.wf(),
        ensures
            self@.len() == self.width() * self.height(),
    {
    }

    /// Width (cells along `i`).
    pub closed spec fn width(&self) -> usize {
        self.nx
    }

    /// Height (cells along `j`).
    pub closed spec fn height(&self) -> usize {
        self.ny
    }

    /// Value at cell `(i, j)`.
    pub open spec fn at(&self, i: int, j: int) -> bool {
        self@[flat(self.width() as int, i, j)]
    }

    /// A field of `nx × ny` cells all holding `value`.
    pub fn filled(nx: usize, ny: usize, value: bool) -> (f: Self)
        requires
            nx * ny <= usize::MAX,
        ensures
            f.wf(),
            f.width() == nx,
            f.height() == ny,
            f@ == Seq::new((nx * ny) as nat, |_k: int| value),
    {
        let data = vec![value; nx * ny];
        assert(data@ =~= Seq::new((nx * ny) as nat, |_k: int| value));
        Self { nx, ny, data }
    }

    /// Wrap existing row-major data; its length must be `nx × ny`.
    pub fn from_vec(nx: usize, ny: usize, data: Vec<bool>) -> (f: Self)
        requires
            data@.len() == nx * ny,
        ensures
            f.wf(),
            f.width() == nx,
            f.height() == ny,
            f@ == data@,
    {
        Self { nx, ny, data }
    }

    /// Width; also exposes the shape invariant `len == nx · ny`.
    pub fn nx(&self) -> (r: usize)
        ensures
            r == self.width(),
    {
        self.nx
    }

    /// Height; also exposes the shape invariant `len == nx · ny`.
    pub fn ny(&self) -> (r: usize)
        ensures
            r == self.height(),
    {
        self.ny
    }

    /// Value at `(i, j)`.
    pub fn get(&self, i: usize, j: usize) -> (b: bool)
        requires
            self.wf(),
            i < self.width(),
            j < self.height(),
        ensures
            b == self.at(i as int, j as int),
    {
        let _len = self.data.len();
        proof {
            lemma_flat_in_bounds(self.nx as int, self.ny as int, i as int, j as int);
        }
        self.data[j * self.nx + i]
    }

    /// Overwrite the value at `(i, j)`; every other cell is unchanged.
    pub fn set(&mut self, i: usize, j: usize, value: bool)
        requires
            old(self).wf(),
            i < old(self).width(),
            j < old(self).height(),
        ensures
            final(self).wf(),
            final(self).width() == old(self).width(),
            final(self).height() == old(self).height(),
            final(self)@ == old(self)@.update(
                flat(old(self).width() as int, i as int, j as int),
                value,
            ),
    {
        let _len = self.data.len();
        proof {
            lemma_flat_in_bounds(self.nx as int, self.ny as int, i as int, j as int);
        }
        let k = j * self.nx + i;
        self.data.set(k, value);
    }

    /// The row-major contents.
    pub fn data(&self) -> (s: &[bool])
        ensures
            s@ == self@,
    {
        self.data.as_slice()
    }
}

/// Per-cell plate index, row-major `nx × ny`.
#[derive(Clone, Debug)]
pub struct PlateIdField {
    nx: usize,
    ny: usize,
    data: Vec<u16>,
}

impl View for PlateIdField {
    type V = Seq<u16>;

    closed spec fn view(&self) -> Seq<u16> {
        self.data@
    }
}

impl PlateIdField {
    /// Well-formedness: the flat contents cover exactly `nx × ny` cells.
    pub closed spec fn wf(&self) -> bool {
        self.data@.len() == self.nx * self.ny
    }

    /// A well-formed field's flat length is `width × height`.
    pub proof fn lemma_wf_len(&self)
        requires
            self.wf(),
        ensures
            self@.len() == self.width() * self.height(),
    {
    }

    pub closed spec fn width(&self) -> usize {
        self.nx
    }

    pub closed spec fn height(&self) -> usize {
        self.ny
    }

    /// Plate id at cell `(i, j)`.
    pub open spec fn at(&self, i: int, j: int) -> u16 {
        self@[flat(self.width() as int, i, j)]
    }

    /// An `nx × ny` field with every cell on plate 0.
    pub fn new(nx: usize, ny: usize) -> (f: Self)
        requires
            nx * ny <= usize::MAX,
        ensures
            f.wf(),
            f.width() == nx,
            f.height() == ny,
            f@ == Seq::new((nx * ny) as nat, |_k: int| 0u16),
    {
        let data = vec![0u16; nx * ny];
        assert(data@ =~= Seq::new((nx * ny) as nat, |_k: int| 0u16));
        Self { nx, ny, data }
    }

    /// Wrap existing row-major data; its length must be `nx × ny`.
    pub fn from_vec(nx: usize, ny: usize, data: Vec<u16>) -> (f: Self)
        requires
            data@.len() == nx * ny,
        ensures
            f.wf(),
            f.width() == nx,
            f.height() == ny,
            f@ == data@,
    {
        Self { nx, ny, data }
    }

    /// Width; also exposes the shape invariant `len == nx · ny`.
    pub fn nx(&self) -> (r: usize)
        ensures
            r == self.width(),
    {
        self.nx
    }

    /// Height; also exposes the shape invariant `len == nx · ny`.
    pub fn ny(&self) -> (r: usize)
        ensures
            r == self.height(),
    {
        self.ny
    }

    pub fn get(&self, i: usize, j: usize) -> (p: u16)
        requires
            self.wf(),
            i < self.width(),
            j < self.height(),
        ensures
            p == self.at(i as int, j as int),
    {
        let _len = self.data.len();
        proof {
            lemma_flat_in_bounds(self.nx as int, self.ny as int, i as int, j as int);
        }
        self.data[j * self.nx + i]
    }

    /// Plate id at a flat index.
    pub fn get_flat(&self, k: usize) -> (p: u16)
        requires
            k < self@.len(),
        ensures
            p == self@[k as int],
    {
        self.data[k]
    }

    pub fn set(&mut self, i: usize, j: usize, value: u16)
        requires
            old(self).wf(),
            i < old(self).width(),
            j < old(self).height(),
        ensures
            final(self).wf(),
            final(self).width() == old(self).width(),
            final(self).height() == old(self).height(),
            final(self)@ == old(self)@.update(
                flat(old(self).width() as int, i as int, j as int),
                value,
            ),
    {
        let _len = self.data.len();
        proof {
            lemma_flat_in_bounds(self.nx as int, self.ny as int, i as int, j as int);
        }
        let k = j * self.nx + i;
        self.data.set(k, value);
    }

    /// Overwrite the plate id at a flat index.
    pub fn set_flat(&mut self, k: usize, value: u16)
        requires
            old(self).wf(),
            k < old(self)@.len(),
        ensures
            final(self).wf(),
            final(self).width() == old(self).width(),
            final(self).height() == old(self).height(),
            final(self)@ == old(self)@.update(k as int, value),
    {
        proof {
        }
        self.data.set(k, value);
    }

    pub fn data(&self) -> (s: &[u16])
        ensures
            s@ == self@,
    {
        self.data.as_slice()
    }
}

/// Crust type of a plate / cell.
#[derive(Clone, Copy, Debug, PartialEq, Eq, Structural)]
pub enum PlateType {
    Continental,
    Oceanic,
}

/// Per-cell crust type, row-major `nx × ny`.
#[derive(Clone, Debug)]
pub struct PlateTypeField {
    nx: usize,
    ny: usize,
    data: Vec<PlateType>,
}

impl View for PlateTypeField {
    type V = Seq<PlateType>;

    closed spec fn view(&self) -> Seq<PlateType> {
        self.data@
    }
}

impl PlateTypeField {
    /// Well-formedness: the flat contents cover exactly `nx × ny` cells.
    pub closed spec fn wf(&self) -> bool {
        self.data@.len() == self.nx * self.ny
    }

    /// A well-formed field's flat length is `width × height`.
    pub proof fn lemma_wf_len(&self)
        requires
            self.wf(),
        ensures
            self@.len() == self.width() * self.height(),
    {
    }

    pub closed spec fn width(&self) -> usize {
        self.nx
    }

    pub closed spec fn height(&self) -> usize {
        self.ny
    }

    /// Plate id at cell `(i, j)`.
    pub open spec fn at(&self, i: int, j: int) -> PlateType {
        self@[flat(self.width() as int, i, j)]
    }

    /// An `nx × ny` field with every cell of type `value`.
    pub fn filled(nx: usize, ny: usize, value: PlateType) -> (f: Self)
        requires
            nx * ny <= usize::MAX,
        ensures
            f.wf(),
            f.width() == nx,
            f.height() == ny,
            f@ == Seq::new((nx * ny) as nat, |_k: int| value),
    {
        let mut data: Vec<PlateType> = Vec::new();
        let n = nx * ny;
        let mut k: usize = 0;
        while k < n
            invariant
                k <= n,
                data@ == Seq::new(k as nat, |_k: int| value),
            decreases n - k,
        {
            data.push(value);
            k = k + 1;
            assert(data@ =~= Seq::new(k as nat, |_k: int| value));
        }
        Self { nx, ny, data }
    }

    /// Wrap existing row-major data; its length must be `nx × ny`.
    pub fn from_vec(nx: usize, ny: usize, data: Vec<PlateType>) -> (f: Self)
        requires
            data@.len() == nx * ny,
        ensures
            f.wf(),
            f.width() == nx,
            f.height() == ny,
            f@ == data@,
    {
        Self { nx, ny, data }
    }

    /// Width; also exposes the shape invariant `len == nx · ny`.
    pub fn nx(&self) -> (r: usize)
        ensures
            r == self.width(),
    {
        self.nx
    }

    /// Height; also exposes the shape invariant `len == nx · ny`.
    pub fn ny(&self) -> (r: usize)
        ensures
            r == self.height(),
    {
        self.ny
    }

    pub fn get(&self, i: usize, j: usize) -> (p: PlateType)
        requires
            self.wf(),
            i < self.width(),
            j < self.height(),
        ensures
            p == self.at(i as int, j as int),
    {
        let _len = self.data.len();
        proof {
            lemma_flat_in_bounds(self.nx as int, self.ny as int, i as int, j as int);
        }
        self.data[j * self.nx + i]
    }

    /// Plate id at a flat index.
    pub fn get_flat(&self, k: usize) -> (p: PlateType)
        requires
            k < self@.len(),
        ensures
            p == self@[k as int],
    {
        self.data[k]
    }

    pub fn set(&mut self, i: usize, j: usize, value: PlateType)
        requires
            old(self).wf(),
            i < old(self).width(),
            j < old(self).height(),
        ensures
            final(self).wf(),
            final(self).width() == old(self).width(),
            final(self).height() == old(self).height(),
            final(self)@ == old(self)@.update(
                flat(old(self).width() as int, i as int, j as int),
                value,
            ),
    {
        let _len = self.data.len();
        proof {
            lemma_flat_in_bounds(self.nx as int, self.ny as int, i as int, j as int);
        }
        let k = j * self.nx + i;
        self.data.set(k, value);
    }

    /// Overwrite the plate id at a flat index.
    pub fn set_flat(&mut self, k: usize, value: PlateType)
        requires
            old(self).wf(),
            k < old(self)@.len(),
        ensures
            final(self).wf(),
            final(self).width() == old(self).width(),
            final(self).height() == old(self).height(),
            final(self)@ == old(self)@.update(k as int, value),
    {
        proof {
        }
        self.data.set(k, value);
    }

    pub fn data(&self) -> (s: &[PlateType])
        ensures
            s@ == self@,
    {
        self.data.as_slice()
    }
}

} // verus!
