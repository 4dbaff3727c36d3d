use vstd::prelude::*;

use crate::geometry::Vector;

verus! {

/// A single cell of the dungeon grid.
#[derive(Copy, Clone, Debug, PartialEq, Eq, Structural)]
pub enum Tile {
    Wall,
    OpenDoor,
    ClosedDoor,
    Floor,
}

impl Tile {
    /// The glyph used when the grid is rendered as text.
    pub fn to_char(self) -> (c: char)
        ensures
            c == (match self {
                Tile::Wall => ' ',
                Tile::OpenDoor => '/',
                Tile::ClosedDoor => '+',
                Tile::Floor => '█',
            }),
    {
        match self {
            Tile::Wall => ' ',
            Tile::OpenDoor => '/',
            Tile::ClosedDoor => '+',
            Tile::Floor => '█',
        }
    }
}

/// A fixed-size grid of tiles, stored row-major.
pub struct Stage {
    pub width: i32,
    pub height: i32,
    pub tiles: Vec<Tile>,
}

impl Stage {
    /// The store holds exactly one tile per cell of a non-negative-sized
    /// grid whose area fits in `i32`.
    pub open spec fn wf(self) -> bool {
        &&& 0 <= self.width
        &&& 0 <= self.height
        &&& self.width * self.height <= i32::MAX
        &&& self.tiles@.len() == self.width * self.height
    }

    pub open spec fn in_bounds(self, x: int, y: int) -> bool {
        0 <= x < self.width && 0 <= y < self.height
    }

    /// Row-major index of a cell.
    pub open spec fn cell(self, x: int, y: int) -> int {
        y * self.width + x
    }

    pub open spec fn tile_at(self, x: int, y: int) -> Tile {
        self.tiles@[self.cell(x, y)]
    }

    /// A cell strictly inside the one-cell border.
    pub open spec fn interior(self, x: int, y: int) -> bool {
        1 <= x < self.width - 1 && 1 <= y < self.height - 1
    }

    /// A passable (non-wall) in-bounds cell.
    pub open spec fn open_at(self, x: int, y: int) -> bool {
        self.in_bounds(x, y) && self.tile_at(x, y) != Tile::Wall
    }

    /// How many of the four cardinal neighbors are passable.
    pub open spec fn exit_count(self, x: int, y: int) -> int {
        (if self.open_at(x, y - 1) {
            1int
        } else {
            0int
        }) + (if self.open_at(x + 1, y) {
            1int
        } else {
            0int
        }) + (if self.open_at(x, y + 1) {
            1int
        } else {
            0int
        }) + (if self.open_at(x - 1, y) {
            1int
        } else {
            0int
        })
    }

    /// An interior passable cell with exactly one passable cardinal
    /// neighbor.
    pub open spec fn dead_end(self, x: int, y: int) -> bool {
        self.interior(x, y) && self.tile_at(x, y) != Tile::Wall && self.exit_count(x, y) == 1
    }

    pub open spec fn no_dead_ends(self) -> bool {
        forall|x: int, y: int| !(#[trigger] self.dead_end(x, y))
    }

    /// Allocates a grid with every cell a wall.
    pub fn new(width: i32, height: i32) -> (s: Stage)
        requires
            0 <= width,
            0 <= height,
            width * height <= i32::MAX,
        ensures
            s.wf(),
            s.width == width,
            s.height == height,
            forall|x: int, y: int| s.in_bounds(x, y) ==> #[trigger] s.tile_at(x, y) == Tile::Wall,
    {
        proof {
            lemma_area_fits(width as int, height as int);
        }
        let n: usize = (width as usize) * (height as usize);
        let mut tiles: Vec<Tile> = Vec::new();
        while tiles.len() < n
            invariant
                tiles@.len() <= n,
                forall|i: int| 0 <= i < tiles@.len() ==> tiles@[i] == Tile::Wall,
            decreases n - tiles@.len(),
        {
            tiles.push(Tile::Wall);
        }
        let s = Stage { width, height, tiles };
        proof {
            assert forall|x: int, y: int| s.in_bounds(x, y) implies #[trigger] s.tile_at(x, y)
                == Tile::Wall by {
                lemma_cell_in_range(s, x, y);
            }
        }
        s
    }

    /// True exactly when the position is inside the grid.
    pub fn contains(&self, pos: Vector) -> (r: bool)
        ensures
            r == self.in_bounds(pos.0 as int, pos.1 as int),
    {
        pos.0 >= 0 && pos.0 < self.width && pos.1 >= 0 && pos.1 < self.height
    }

    /// Bounds-checked read: out-of-range positions yield nothing.
    pub fn get(&self, pos: Vector) -> (r: Option<Tile>)
        requires
            self.wf(),
        ensures
            r == if self.in_bounds(pos.0 as int, pos.1 as int) {
                Some(self.tile_at(pos.0 as int, pos.1 as int))
            } else {
                None::<Tile>
            },
    {
        if self.contains(pos) {
            proof {
                lemma_cell_in_range(*self, pos.0 as int, pos.1 as int);
            }
            let idx: usize = (pos.1 as usize) * (self.width as usize) + (pos.0 as usize);
            Some(self.tiles[idx])
        } else {
            None
        }
    }

    /// Bounds-checked write: a no-op on out-of-range positions.
    pub fn set(&mut self, pos: Vector, tile: Tile)
        requires
            old(self).wf(),
        ensures
            final(self).wf(),
            final(self).width == old(self).width,
            final(self).height == old(self).height,
            old(self).in_bounds(pos.0 as int, pos.1 as int) ==> final(self).tile_at(
                pos.0 as int,
                pos.1 as int,
            ) == tile,
            forall|x: int, y: int|
                old(self).in_bounds(x, y) && (x != pos.0 as int || y != pos.1 as int)
                    ==> #[trigger] final(self).tile_at(x, y) == old(self).tile_at(x, y),
            old(self).in_bounds(pos.0 as int, pos.1 as int) ==> final(self).tiles@ == old(
                self,
            ).tiles@.update(old(self).cell(pos.0 as int, pos.1 as int), tile),
            !old(self).in_bounds(pos.0 as int, pos.1 as int) ==> final(self).tiles@ == old(
                self,
            ).tiles@,
    {
        if self.contains(pos) {
            proof {
                lemma_cell_in_range(*self, pos.0 as int, pos.1 as int);
            }
            let idx: usize = (pos.1 as usize) * (self.width as usize) + (pos.0 as usize);
            self.tiles[idx] = tile;
            proof {
                assert forall|x: int, y: int|
                    old(self).in_bounds(x, y) && (x != pos.0 as int || y != pos.1 as int) implies #[trigger] self.tile_at(
                    x,
                    y,
                ) == old(self).tile_at(x, y) by {
                    lemma_cell_in_range(*old(self), x, y);
                    lemma_cell_distinct(*old(self), x, y, pos.0 as int, pos.1 as int);
                }
            }
        }
    }
}

/// For non-negative dimensions whose product fits in `i32`, the product of
/// the `usize` casts equals the mathematical product.
pub proof fn lemma_area_fits(w: int, h: int)
    requires
        0 <= w,
        0 <= h,
        w * h <= i32::MAX,
    ensures
        w * h <= usize::MAX,
{
}

/// The row-major index of an in-bounds cell lies inside the tile store.
pub proof fn lemma_cell_in_range(s: Stage, x: int, y: int)
    requires
        s.wf(),
        s.in_bounds(x, y),
    ensures
        0 <= s.cell(x, y) < s.tiles@.len(),
{
    assert(0 <= y * s.width + x < s.width * s.height) by (nonlinear_arith)
        requires
            0 <= x < s.width,
            0 <= y < s.height,
    ;
}

/// Distinct in-bounds cells have distinct row-major indices.
pub proof fn lemma_cell_distinct(s: Stage, x1: int, y1: int, x2: int, y2: int)
    requires
        s.wf(),
        s.in_bounds(x1, y1),
        s.in_bounds(x2, y2),
        x1 != x2 || y1 != y2,
    ensures
        s.cell(x1, y1) != s.cell(x2, y2),
{
    assert(y1 * s.width + x1 != y2 * s.width + x2) by (nonlinear_arith)
        requires
            0 <= x1 < s.width,
            0 <= x2 < s.width,
            0 <= y1 < s.height,
            0 <= y2 < s.height,
            x1 != x2 || y1 != y2,
    ;
}

/// How many tiles of the store are passable (not walls).
pub open spec fn count_carved(tiles: Seq<Tile>) -> int
    decreases tiles.len(),
{
    if tiles.len() == 0 {
        0
    } else {
        count_carved(tiles.drop_last()) + if tiles.last() != Tile::Wall {
            1int
        } else {
            0int
        }
    }
}

/// The carved-tile count is between zero and the store's length.
pub proof fn lemma_count_carved_bounds(tiles: Seq<Tile>)
    ensures
        0 <= count_carved(tiles) <= tiles.len(),
    decreases tiles.len(),
{
    if tiles.len() > 0 {
        lemma_count_carved_bounds(tiles.drop_last());
    }
}

/// A passable tile anywhere makes the carved count positive.
pub proof fn lemma_count_carved_pos(tiles: Seq<Tile>, i: int)
    requires
        0 <= i < tiles.len(),
        tiles[i] != Tile::Wall,
    ensures
        count_carved(tiles) >= 1,
    decreases tiles.len(),
{
    lemma_count_carved_bounds(tiles.drop_last());
    if i < tiles.len() - 1 {
        lemma_count_carved_pos(tiles.drop_last(), i);
    }
}

/// Writing one tile changes the carved-tile count by exactly the change in
/// that cell's contribution.
pub proof fn lemma_count_carved_update(tiles: Seq<Tile>, i: int, t: Tile)
    requires
        0 <= i < tiles.len(),
    ensures
        count_carved(tiles.update(i, t)) == count_carved(tiles) - (if tiles[i] != Tile::Wall {
            1int
        } else {
            0int
        }) + (if t != Tile::Wall {
            1int
        } else {
            0int
        }),
    decreases tiles.len(),
{
    if i == tiles.len() - 1 {
        assert(tiles.update(i, t).drop_last() =~= tiles.drop_last());
    } else {
        lemma_count_carved_update(tiles.drop_last(), i, t);
        assert(tiles.update(i, t).drop_last() =~= tiles.drop_last().update(i, t));
    }
}

/// How many entries of the sequence are true.
pub open spec fn count_true(s: Seq<bool>) -> int
    decreases s.len(),
{
    if s.len() == 0 {
        0
    } else {
        count_true(s.drop_last()) + if s.last() {
            1int
        } else {
            0int
        }
    }
}

/// The true-count is between zero and the sequence's length.
pub proof fn lemma_count_true_bounds(s: Seq<bool>)
    ensures
        0 <= count_true(s) <= s.len(),
    decreases s.len(),
{
    if s.len() > 0 {
        lemma_count_true_bounds(s.drop_last());
    }
}

/// Writing one entry changes the true-count by the change in that entry's
/// contribution.
pub proof fn lemma_count_true_update(s: Seq<bool>, i: int, b: bool)
    requires
        0 <= i < s.len(),
    ensures
        count_true(s.update(i, b)) == count_true(s) - (if s[i] {
            1int
        } else {
            0int
        }) + (if b {
            1int
        } else {
            0int
        }),
    decreases s.len(),
{
    if i == s.len() - 1 {
        assert(s.update(i, b).drop_last() =~= s.drop_last());
    } else {
        lemma_count_true_update(s.drop_last(), i, b);
        assert(s.update(i, b).drop_last() =~= s.drop_last().update(i, b));
    }
}

} // verus!
