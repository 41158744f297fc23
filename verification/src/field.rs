use vstd::prelude::*;

use vstd::arithmetic::div_mod::lemma_mod_add_multiples_vanish;

verus! {

/// The cell index of the position `(x, y)` on a square grid of side `size` that wraps
/// around at its edges: each coordinate is taken modulo `size` (Euclidean remainder),
/// and rows are laid out one after another.
pub open spec fn wrapped_index(size: int, x: int, y: int) -> int {
    (y % size) * size + x % size
}

/// A side whose square fits in `usize` fits in `isize`.
proof fn lemma_side_fits_isize(size: usize)
    requires
        size as int * size as int <= usize::MAX,
    ensures
        size <= isize::MAX,
{
    assert(usize::MAX == 0xffff_ffff || usize::MAX == 0xffff_ffff_ffff_ffff);
    assert(isize::MAX == 0x7fff_ffff || isize::MAX == 0x7fff_ffff_ffff_ffff);
    assert(usize::MAX == 2 * isize::MAX + 1);
    if size > isize::MAX {
        assert(size as int * size as int >= (isize::MAX as int + 1) * (isize::MAX as int + 1))
            by (nonlinear_arith)
            requires
                size as int >= isize::MAX as int + 1,
                isize::MAX >= 0,
        ;
        assert((isize::MAX as int + 1) * (isize::MAX as int + 1) > 2 * isize::MAX as int + 1)
            by (nonlinear_arith)
            requires
                isize::MAX >= 0x7fff_ffff,
        ;
    }
}

/// A cell of a `size * size` grid, given by column and row, lies within the grid.
proof fn lemma_row_major_bound(x: int, y: int, size: int)
    requires
        0 <= x < size,
        0 <= y < size,
    ensures
        0 <= y * size + x < size * size,
{
    assert(y * size + x < size * size) by (nonlinear_arith)
        requires
            0 <= x < size,
            0 <= y < size,
    ;
    assert(0 <= y * size) by (nonlinear_arith)
        requires
            0 <= y,
            0 <= size,
    ;
}

/// A square grid of `size * size` cells whose coordinates wrap around, as on a torus.
pub struct WrapGrid<T> {
    size: usize,
    values: Vec<T>,
}

impl<T> WrapGrid<T> {
    /// The number of cells along each side.
    pub closed spec fn side(&self) -> nat {
        self.size as nat
    }

    /// The cells, row after row.
    pub closed spec fn cells(&self) -> Seq<T> {
        self.values@
    }

    #[verifier::type_invariant]
    spec fn square(&self) -> bool {
        self.values@.len() == self.size as int * self.size as int
    }

    /// A grid of `size * size` cells, each holding `value`.
    pub fn new(size: usize, value: T) -> (grid: Self)
        where
            T: Copy,
        requires
            size as int * size as int <= usize::MAX,
        ensures
            grid.side() == size,
            grid.cells() == Seq::new((size * size) as nat, |i: int| value),
    {
        let count = size * size;
        let mut values: Vec<T> = Vec::new();
        while values.len() < count
            invariant
                values.len() <= count,
                forall|i: int| 0 <= i < values.len() ==> values@[i] == value,
            decreases count - values.len(),
        {
            values.push(value);
        }
        let grid = Self { size, values };
        proof {
            assert(grid.values@ =~= Seq::new((size * size) as nat, |i: int| value));
        }
        grid
    }

    /// The number of cells along each side.
    pub fn size(&self) -> (size: usize)
        ensures
            size == self.side(),
    {
        self.size
    }

    /// The index of the cell at `(x, y)`, each coordinate wrapped into `0..size`.
    pub fn index(&self, x: isize, y: isize) -> (index: usize)
        requires
            self.side() > 0,
        ensures
            index == wrapped_index(self.side() as int, x as int, y as int),
            index < self.cells().len(),
    {
        let count = self.values.len();
        proof {
            use_type_invariant(self);
            assert(count == self.values@.len());
            lemma_side_fits_isize(self.size);
        }
        let size = self.size as isize;
        let wx = x.checked_rem_euclid(size).unwrap();
        let wy = y.checked_rem_euclid(size).unwrap();
        proof {
            lemma_row_major_bound(wx as int, wy as int, self.size as int);
        }
        (wy as usize) * self.size + (wx as usize)
    }

    /// The cells, row after row.
    pub fn values(&self) -> (values: &[T])
        ensures
            values@ == self.cells(),
    {
        self.values.as_slice()
    }

    /// The cell at `(x, y)`, each coordinate wrapped into `0..size`.
    pub fn get_wrapped(&self, x: isize, y: isize) -> (value: &T)
        requires
            self.side() > 0,
        ensures
            *value == self.cells()[wrapped_index(self.side() as int, x as int, y as int)],
    {
        let index = self.index(x, y);
        self.get(index)
    }

    /// Replaces the cell at `(x, y)` by `value`; the coordinates wrap as in `index`.
    pub fn set(&mut self, x: usize, y: usize, value: T)
        requires
            old(self).side() > 0,
        ensures
            final(self).side() == old(self).side(),
            final(self).cells() == old(self).cells().update(
                wrapped_index(old(self).side() as int, (x as isize) as int, (y as isize) as int),
                value,
            ),
    {
        let index = self.index(x as isize, y as isize);
        self.set_index(index, value);
    }

    /// The cell at `index`.
    pub fn get(&self, index: usize) -> (value: &T)
        requires
            index < self.cells().len(),
        ensures
            *value == self.cells()[index as int],
    {
        &self.values[index]
    }

    /// Replaces the cell at `index` by `value`.
    pub fn set_index(&mut self, index: usize, value: T)
        requires
            index < old(self).cells().len(),
        ensures
            final(self).side() == old(self).side(),
            final(self).cells() == old(self).cells().update(index as int, value),
    {
        let mut grid = Self { size: 0, values: Vec::new() };
        std::mem::swap(&mut grid, self);
        proof {
            use_type_invariant(&grid);
        }
        let Self { size, mut values } = grid;
        values.set(index, value);
        *self = Self { size, values };
    }
}

/// Moving a whole side's length along either axis lands on the same cell, and every
/// position names a cell of the grid.
pub proof fn lemma_wrapped_index_periodic(size: int, x: int, y: int)
    requires
        size > 0,
    ensures
        wrapped_index(size, x + size, y) == wrapped_index(size, x, y),
        wrapped_index(size, x, y + size) == wrapped_index(size, x, y),
        0 <= wrapped_index(size, x, y) < size * size,
{
    lemma_mod_add_multiples_vanish(x, size);
    lemma_mod_add_multiples_vanish(y, size);
    lemma_row_major_bound(x % size, y % size, size);
}

/// After a cell is written, reading the grid gives the new value at every position that
/// wraps onto that cell, and the old value everywhere else.
pub proof fn lemma_read_after_set<T>(
    before: WrapGrid<T>,
    after: WrapGrid<T>,
    x: int,
    y: int,
    value: T,
    u: int,
    v: int,
)
    requires
        before.side() > 0,
        before.cells().len() == before.side() * before.side(),
        after.side() == before.side(),
        after.cells() == before.cells().update(wrapped_index(before.side() as int, x, y), value),
    ensures
        after.cells()[wrapped_index(after.side() as int, u, v)] == if wrapped_index(
            before.side() as int,
            u,
            v,
        ) == wrapped_index(before.side() as int, x, y) {
            value
        } else {
            before.cells()[wrapped_index(before.side() as int, u, v)]
        },
{
    let size = before.side() as int;
    lemma_wrapped_index_periodic(size, x, y);
    lemma_wrapped_index_periodic(size, u, v);
}

} // verus!
