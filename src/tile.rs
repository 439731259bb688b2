//! Rectangular layers of tiles, addressed by `(x, y)` with `u16`
//! coordinates.

use vstd::prelude::*;

verus! {

/// A `width x height` grid of values, stored row by row.
pub struct TileMap<T> {
    data: Vec<Vec<T>>,
    width: u16,
    height: u16,
}

impl<T> TileMap<T> {
    /// The rows of the map.
    pub closed spec fn cells(&self) -> Seq<Seq<T>> {
        Seq::new(self.data@.len(), |y: int| self.data@[y]@)
    }

    pub closed spec fn w(&self) -> u16 {
        self.width
    }

    pub closed spec fn h(&self) -> u16 {
        self.height
    }

    /// The value at `(x, y)`.
    pub open spec fn at(&self, x: int, y: int) -> T {
        self.cells()[y][x]
    }

    pub open spec fn contains_xy(&self, x: int, y: int) -> bool {
        0 <= x < self.w() as int && 0 <= y < self.h() as int
    }

    /// `height` rows of `width` values each.
    pub closed spec fn wf(&self) -> bool {
        &&& self.data@.len() == self.height
        &&& forall|y: int| 0 <= y < self.height ==> (#[trigger] self.data@[y])@.len() == self.width
    }

    pub fn width(&self) -> (r: u16)
        ensures
            r == self.w(),
    {
        self.width
    }

    pub fn height(&self) -> (r: u16)
        ensures
            r == self.h(),
    {
        self.height
    }

    /// The value at `(x, y)`.
    pub fn get(&self, x: u16, y: u16) -> (r: &T)
        requires
            self.wf(),
            self.contains_xy(x as int, y as int),
        ensures
            *r == self.at(x as int, y as int),
    {
        &self.data[y as usize][x as usize]
    }

    /// Replaces the value at `(x, y)`.
    pub fn set(&mut self, x: u16, y: u16, v: T)
        requires
            old(self).wf(),
            old(self).contains_xy(x as int, y as int),
        ensures
            final(self).wf(),
            final(self).w() == old(self).w(),
            final(self).h() == old(self).h(),
            forall|i: int, j: int|
                old(self).contains_xy(i, j) ==> #[trigger] final(self).at(i, j) == (if i == x && j
                    == y {
                    v
                } else {
                    old(self).at(i, j)
                }),
    {
        let ghost before = self.data@;
        self.data[y as usize].set(x as usize, v);
        proof {
            assert forall|i: int, j: int| old(self).contains_xy(i, j) implies #[trigger] self.at(i, j) == if i == x && j == y {
                v
            } else {
                old(self).at(i, j)
            } by {
                if j != y {
                    assert(self.data@[j] == before[j]);
                }
            }
            assert forall|j: int| 0 <= j < self.height implies (#[trigger] self.data@[j])@.len() == self.width by {
                if j != y {
                    assert(self.data@[j] == before[j]);
                }
            }
        }
    }
}

impl<T: Copy> TileMap<T> {
    /// A `width x height` map with `value` everywhere.
    pub fn filled(width: u16, height: u16, value: T) -> (r: TileMap<T>)
        ensures
            r.wf(),
            r.w() == width,
            r.h() == height,
            forall|x: int, y: int| r.contains_xy(x, y) ==> #[trigger] r.at(x, y) == value,
    {
        let mut data: Vec<Vec<T>> = Vec::new();
        let mut y: u16 = 0;
        while y < height
            invariant
                y <= height,
                data@.len() == y,
                forall|j: int|
                    0 <= j < y ==> (#[trigger] data@[j])@.len() == width && forall|i: int|
                        0 <= i < width ==> data@[j]@[i] == value,
            decreases height - y,
        {
            let mut row: Vec<T> = Vec::new();
            let mut x: u16 = 0;
            while x < width
                invariant
                    x <= width,
                    row@.len() == x,
                    forall|i: int| 0 <= i < x ==> #[trigger] row@[i] == value,
                decreases width - x,
            {
                row.push(value);
                x = x + 1;
            }
            data.push(row);
            y = y + 1;
        }
        let r = TileMap { data, width, height };
        proof {
            assert forall|x: int, y: int| r.contains_xy(x, y) implies #[trigger] r.at(x, y) == value by {
                assert(r.data@[y]@[x] == value);
            }
        }
        r
    }
}

impl<T: Copy + Default> TileMap<T> {
    /// A `width x height` map holding `T`'s default value everywhere.
    pub fn with_default(width: u16, height: u16) -> (r: TileMap<T>)
        ensures
            r.wf(),
            r.w() == width,
            r.h() == height,
            forall|x: int, y: int|
                r.contains_xy(x, y) ==> call_ensures(T::default, (), #[trigger] r.at(x, y)),
    {
        TileMap::filled(width, height, T::default())
    }
}

/// A layer in which each tile may be empty.
pub struct AlphaTileMap<T>(pub TileMap<Option<T>>);

impl<T: Copy> AlphaTileMap<T> {
    /// A `width x height` layer with every tile empty.
    pub fn empty(width: u16, height: u16) -> (r: AlphaTileMap<T>)
        ensures
            r.0.wf(),
            r.0.w() == width,
            r.0.h() == height,
            forall|x: int, y: int| r.0.contains_xy(x, y) ==> #[trigger] r.0.at(x, y) == None::<T>,
    {
        AlphaTileMap(TileMap::filled(width, height, None))
    }
}

impl<T> AlphaTileMap<T> {
    /// What the layer holds at `(x, y)`.
    pub fn get(&self, x: u16, y: u16) -> (r: &Option<T>)
        requires
            self.0.wf(),
            self.0.contains_xy(x as int, y as int),
        ensures
            *r == self.0.at(x as int, y as int),
    {
        self.0.get(x, y)
    }

    /// Replaces what the layer holds at `(x, y)`.
    pub fn set(&mut self, x: u16, y: u16, v: Option<T>)
        requires
            old(self).0.wf(),
            old(self).0.contains_xy(x as int, y as int),
        ensures
            final(self).0.wf(),
            final(self).0.w() == old(self).0.w(),
            final(self).0.h() == old(self).0.h(),
            forall|i: int, j: int|
                old(self).0.contains_xy(i, j) ==> #[trigger] final(self).0.at(i, j) == (if i == x
                    && j == y {
                    v
                } else {
                    old(self).0.at(i, j)
                }),
    {
        self.0.set(x, y, v)
    }
}

} // verus!
