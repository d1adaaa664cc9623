//! Cubes of points with integer coordinates, and tables with one entry per point.

use vstd::arithmetic::div_mod::{lemma_fundamental_div_mod, lemma_fundamental_div_mod_converse};
use vstd::prelude::*;

verus! {

/// The number of points in a cube with `size` points along each axis.
pub open spec fn volume(size: int) -> int {
    size * size * size
}

/// The place of a point in the order in which a cube is walked: `x` changes
/// slowest, `z` fastest.
pub open spec fn offset(size: int, x: int, y: int, z: int) -> int {
    (x * size + y) * size + z
}

/// The point at a place of the walk.
pub open spec fn point_at(size: int, n: int) -> (int, int, int) {
    (n / size / size, n / size % size, n % size)
}

/// Whether a point lies in the cube.
pub open spec fn in_cube(size: int, x: int, y: int, z: int) -> bool {
    0 <= x < size && 0 <= y < size && 0 <= z < size
}

/// Every point of the cube has a place of its own in the walk, and the point at
/// that place is the point.
pub proof fn lemma_offset(size: int, x: int, y: int, z: int)
    requires
        in_cube(size, x, y, z),
    ensures
        0 <= offset(size, x, y, z) < volume(size),
        point_at(size, offset(size, x, y, z)) == (x, y, z),
        0 <= x * size,
        x * size + y < size * size,
        0 <= (x * size + y) * size,
{
    let row = x * size + y;
    assert(0 <= x * size && row < size * size) by (nonlinear_arith)
        requires
            0 <= x < size,
            0 <= y < size,
            row == x * size + y,
    ;
    assert(0 <= row * size && row * size + z < size * size * size) by (nonlinear_arith)
        requires
            0 <= row < size * size,
            0 <= z < size,
    ;
    lemma_fundamental_div_mod_converse(row * size + z, size, row, z);
    lemma_fundamental_div_mod_converse(row, size, x, y);
}

/// Every place of the walk belongs to a point of the cube.
pub proof fn lemma_point_at(size: int, n: int)
    requires
        0 <= n < volume(size),
        0 <= size,
    ensures
        ({
            let (x, y, z) = point_at(size, n);
            in_cube(size, x, y, z) && offset(size, x, y, z) == n
        }),
{
    assert(size > 0) by (nonlinear_arith)
        requires
            0 <= n < size * size * size,
            0 <= size,
    ;
    let (x, y, z) = point_at(size, n);
    let row = n / size;
    lemma_fundamental_div_mod(n, size);
    lemma_fundamental_div_mod(row, size);
    assert(0 <= z < size && 0 <= y < size) by (nonlinear_arith)
        requires
            size > 0,
            z == n % size,
            y == row % size,
    ;
    assert(0 <= row < size * size) by (nonlinear_arith)
        requires
            n == size * row + z,
            0 <= n < size * size * size,
            0 <= z < size,
    ;
    assert(0 <= x < size) by (nonlinear_arith)
        requires
            row == size * x + y,
            0 <= row < size * size,
            0 <= y < size,
    ;
    assert(size * row == row * size && size * x == x * size) by (nonlinear_arith);
}

/// The walk begins at the lowest point, goes on along z, then along y, then along x,
/// and ends at the highest point.
pub proof fn lemma_walk(size: int, x: int, y: int, z: int)
    requires
        0 < size,
    ensures
        in_cube(size, x, y, z) <==> 0 <= x < size && 0 <= y < size && 0 <= z < size,
        offset(size, 0, 0, 0) == 0,
        offset(size, x, y, z + 1) == offset(size, x, y, z) + 1,
        offset(size, x, y + 1, 0) == offset(size, x, y, size - 1) + 1,
        offset(size, x + 1, 0, 0) == offset(size, x, size - 1, size - 1) + 1,
        volume(size) == offset(size, size - 1, size - 1, size - 1) + 1,
        volume(size) == size * size * size,
{
    assert((0 * size + 0) * size + 0 == 0) by (nonlinear_arith);
    assert((x * size + (y + 1)) * size + 0 == (x * size + y) * size + (size - 1) + 1)
        by (nonlinear_arith);
    assert(((x + 1) * size + 0) * size + 0 == (x * size + (size - 1)) * size + (size - 1) + 1)
        by (nonlinear_arith);
    assert(size * size * size == ((size - 1) * size + (size - 1)) * size + (size - 1) + 1)
        by (nonlinear_arith);
}

/// A walk over the points of a cube.
#[derive(Clone, Copy, Debug)]
pub struct Cube {
    size: u32,
    x: u32,
    y: u32,
    z: u32,
}

impl Cube {
    /// The number of points along each axis.
    pub closed spec fn size(self) -> int {
        self.size as int
    }

    /// How many points have been handed out.
    pub closed spec fn position(self) -> int {
        offset(self.size as int, self.x as int, self.y as int, self.z as int)
    }

    pub closed spec fn wf(self) -> bool {
        ||| in_cube(self.size as int, self.x as int, self.y as int, self.z as int)
        ||| self.x == self.size && self.y == 0 && self.z == 0
    }

    /// Hands out the next point, or nothing once every point has been handed out.
    pub fn next(&mut self) -> (point: Option<(u32, u32, u32)>)
        requires
            old(self).wf(),
        ensures
            final(self).wf(),
            final(self).size() == old(self).size(),
            0 <= old(self).position() <= volume(old(self).size()),
            match point {
                Some((x, y, z)) => {
                    &&& old(self).position() < volume(old(self).size())
                    &&& final(self).position() == old(self).position() + 1
                    &&& in_cube(old(self).size(), x as int, y as int, z as int)
                    &&& old(self).position() == offset(
                        old(self).size(),
                        x as int,
                        y as int,
                        z as int,
                    )
                },
                None => {
                    &&& old(self).position() == volume(old(self).size())
                    &&& final(self).position() == old(self).position()
                },
            },
    {
        let ghost size = self.size as int;
        if self.x == self.size {
            assert((size * size + 0) * size + 0 == size * size * size) by (nonlinear_arith);
            return None;
        }
        let point = (self.x, self.y, self.z);
        proof {
            let (x, y, z) = (self.x as int, self.y as int, self.z as int);
            lemma_offset(size, x, y, z);
            assert((x * size + (size - 1)) * size + (size - 1) + 1 == ((x + 1) * size + 0) * size
                + 0) by (nonlinear_arith);
            assert((x * size + y) * size + (size - 1) + 1 == (x * size + (y + 1)) * size + 0)
                by (nonlinear_arith);
        }
        if self.z + 1 < self.size {
            self.z = self.z + 1;
        } else {
            self.z = 0;
            if self.y + 1 < self.size {
                self.y = self.y + 1;
            } else {
                self.y = 0;
                self.x = self.x + 1;
            }
        }
        Some(point)
    }
}

/// Starts a walk over the cube with `size` points along each axis.
pub fn cube(size: u32) -> (walk: Cube)
    ensures
        walk.wf(),
        walk.size() == size,
        walk.position() == 0,
{
    assert((0 * size + 0) * size + 0 == 0) by (nonlinear_arith);
    Cube { size, x: 0, y: 0, z: 0 }
}

/// A table with one entry for each point of a cube.
#[derive(Debug)]
pub struct GridTable<T> {
    size: u32,
    data: Vec<T>,
}

impl<T> GridTable<T> {
    /// The number of points along each axis.
    pub closed spec fn size(&self) -> int {
        self.size as int
    }

    /// The entries in the order of the walk over the cube.
    pub closed spec fn entries(&self) -> Seq<T> {
        self.data@
    }

    /// One entry for each point of the cube.
    pub open spec fn wf(&self) -> bool {
        self.entries().len() == volume(self.size())
    }

    /// The entry of a point.
    pub open spec fn at(&self, x: int, y: int, z: int) -> T {
        self.entries()[offset(self.size(), x, y, z)]
    }

    /// Makes a table out of its entries, which are in the order of the walk.
    pub fn from_entries(size: u32, entries: Vec<T>) -> (table: Self)
        requires
            entries@.len() == volume(size as int),
        ensures
            table.wf(),
            table.size() == size,
            table.entries() == entries@,
    {
        GridTable { size, data: entries }
    }

    /// Makes a table by asking `filler` for the entry of each point, in the order
    /// of the walk.
    pub fn fill_with<F: Fn(u32, u32, u32) -> T>(size: u32, filler: F) -> (table: Self)
        requires
            volume(size as int) <= usize::MAX,
            forall|x: u32, y: u32, z: u32|
                in_cube(size as int, x as int, y as int, z as int) ==> call_requires(
                    filler,
                    (x, y, z),
                ),
        ensures
            table.wf(),
            table.size() == size,
            forall|x: u32, y: u32, z: u32|
                in_cube(size as int, x as int, y as int, z as int) ==> #[trigger] call_ensures(
                    filler,
                    (x, y, z),
                    table.at(x as int, y as int, z as int),
                ),
    {
        let mut data: Vec<T> = Vec::new();
        let mut walk = cube(size);
        loop
            invariant
                walk.wf(),
                walk.size() == size,
                walk.position() == data@.len(),
                volume(size as int) <= usize::MAX,
                data@.len() <= volume(size as int),
                forall|x: u32, y: u32, z: u32|
                    in_cube(size as int, x as int, y as int, z as int) ==> call_requires(
                        filler,
                        (x, y, z),
                    ),
                forall|n: int|
                    #![trigger data@[n]]
                    0 <= n < data@.len() ==> {
                        let (x, y, z) = point_at(size as int, n);
                        call_ensures(filler, (x as u32, y as u32, z as u32), data@[n])
                    },
            ensures
                data@.len() == volume(size as int),
            decreases volume(size as int) - data@.len(),
        {
            match walk.next() {
                Some((x, y, z)) => {
                    proof {
                        lemma_offset(size as int, x as int, y as int, z as int);
                    }
                    let entry = filler(x, y, z);
                    data.push(entry);
                },
                None => {
                    break;
                },
            }
        }
        let table = GridTable { size, data };
        proof {
            assert forall|x: u32, y: u32, z: u32|
                in_cube(size as int, x as int, y as int, z as int) implies #[trigger] call_ensures(
                filler,
                (x, y, z),
                table.at(x as int, y as int, z as int),
            ) by {
                lemma_offset(size as int, x as int, y as int, z as int);
                let n = offset(size as int, x as int, y as int, z as int);
                assert(table.data@[n] == table.at(x as int, y as int, z as int));
            }
        }
        table
    }

    /// Gives the entry of a point.
    pub fn get(&self, x: u32, y: u32, z: u32) -> (entry: &T)
        requires
            self.wf(),
            in_cube(self.size(), x as int, y as int, z as int),
        ensures
            *entry == self.at(x as int, y as int, z as int),
    {
        proof {
            lemma_offset(self.size as int, x as int, y as int, z as int);
            assert(self.data.len() == volume(self.size as int));
            let row = x * self.size + y;
            assert(row <= row * self.size) by (nonlinear_arith)
                requires
                    self.size >= 1,
                    row >= 0,
            ;
        }
        let size: usize = self.size as usize;
        &self.data[(x as usize * size + y as usize) * size + z as usize]
    }
}

/// The entries of a table are in the order of the walk: the entry of a point is as far
/// behind the first one as the point is behind the lowest point in the walk.
pub proof fn lemma_entry<T>(table: &GridTable<T>, x: int, y: int, z: int)
    requires
        table.wf(),
        0 <= x < table.size(),
        0 <= y < table.size(),
        0 <= z < table.size(),
    ensures
        table.entries().len() == table.size() * table.size() * table.size(),
        0 <= (x * table.size() + y) * table.size() + z < table.entries().len(),
        table.at(x, y, z) == table.entries()[(x * table.size() + y) * table.size() + z],
{
    lemma_offset(table.size(), x, y, z);
}

} // verus!
