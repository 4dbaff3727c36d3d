use vstd::prelude::*;

use crate::connectivity::in_queue;
use crate::geometry::{abs_int, in_room, lemma_distance_symmetric, lemma_separated_disjoint, rooms_separated, Rectangle, Vector};
use crate::rng::{rand_range_i32, rand_ratio, rand_usize};
use crate::stage::{count_carved, count_true, lemma_cell_distinct, lemma_cell_in_range, lemma_count_carved_bounds, lemma_count_carved_pos, lemma_count_carved_update, Stage, Tile};

verus! {

/// One kept redundant connector per this many collapsed candidates, on
/// average.
const EXTRA_CONNECTOR_CHANCE: u32 = 20;

/// Percent chance of turning even though the walk could continue straight.
const WINDING_PERCENT: i32 = 0;

/// Extra width given to the random room-size draw.
const ROOM_EXTRA_SIZE: i32 = 0;

/// The four cardinal direction vectors, in scan order.
pub open spec fn spec_cardinal(i: int) -> Vector {
    if i == 0 {
        Vector(0i32, -1i32)
    } else if i == 1 {
        Vector(1i32, 0i32)
    } else if i == 2 {
        Vector(0i32, 1i32)
    } else {
        Vector(-1i32, 0i32)
    }
}

/// A unit step along exactly one axis.
pub open spec fn is_cardinal(d: Vector) -> bool {
    (d.0 == 0 && (d.1 == 1 || d.1 == -1)) || (d.1 == 0 && (d.0 == 1 || d.0 == -1))
}

/// A room as the placer draws it: odd position and extent on the maze
/// lattice, between the smallest and the largest draw, with one axis
/// keeping the raw size draw.
pub open spec fn room_on_lattice(r: Rectangle) -> bool {
    &&& r.x % 2 == 1
    &&& r.y % 2 == 1
    &&& r.w % 2 == 1
    &&& r.h % 2 == 1
    &&& 3 <= r.w <= 15
    &&& 3 <= r.h <= 15
    &&& (r.w <= 7 || r.h <= 7)
}

/// The room sits fully inside the grid, clear of the one-cell border.
pub open spec fn room_in_stage(r: Rectangle, s: Stage) -> bool {
    1 <= r.x && r.x + r.w <= s.width - 1 && 1 <= r.y && r.y + r.h <= s.height - 1
}

/// A wall cell recorded during the connector scan, together with the
/// distinct region ids found among its cardinal neighbors.
struct Connector {
    pos: Vector,
    regions: Vec<i32>,
}

/// Some recorded connector sits at the given cell.
spec fn conn_listed(cs: Seq<Connector>, x: int, y: int) -> bool {
    exists|k: int| 0 <= k < cs.len() && (#[trigger] cs[k]).pos.0 == x && cs[k].pos.1 == y
}

/// Drives one full generation run over a grid it owns for the duration.
pub struct Dungeon {
    pub n_room_tries: u32,
    pub rooms: Vec<Rectangle>,
    /// Region id per cell, row-major and parallel to the stage tiles; -1
    /// marks a cell no carving start has claimed.
    pub regions: Vec<i32>,
    pub curr_region: i32,
    pub stage: Stage,
}

impl Dungeon {
    pub open spec fn wf(self) -> bool {
        &&& self.stage.wf()
        &&& self.regions@.len() == self.stage.width * self.stage.height
        &&& -1 <= self.curr_region
        &&& self.n_room_tries <= 0x7fff
        &&& (forall|i: int|
            0 <= i < self.regions@.len() ==> -1 <= #[trigger] self.regions@[i]
                <= self.curr_region)
        &&& rooms_separated(self.rooms@)
        &&& (forall|i: int|
            0 <= i < self.rooms@.len() ==> (#[trigger] self.rooms@[i]).in_range()
                && room_in_stage(self.rooms@[i], self.stage))
    }

    /// The region id recorded for a cell, -1 when it has none.
    pub open spec fn region_at(self, x: int, y: int) -> int {
        self.regions@[self.stage.cell(x, y)] as int
    }

    /// Every accepted room is at least three cells wide and high.
    pub open spec fn rooms_wide(self) -> bool {
        forall|i: int|
            0 <= i < self.rooms@.len() ==> 3 <= (#[trigger] self.rooms@[i]).w && 3
                <= self.rooms@[i].h
    }

    /// Every cell of every accepted room is passable.
    pub open spec fn rooms_open(self) -> bool {
        forall|i: int, x: int, y: int|
            #![trigger self.rooms@[i], self.stage.tile_at(x, y)]
            0 <= i < self.rooms@.len() && in_room(self.rooms@[i], x, y) ==> self.stage.tile_at(
                x,
                y,
            ) != Tile::Wall
    }

    /// The region label of the cardinal neighbor with the given scan
    /// index, -1 when that neighbor is out of bounds.
    pub open spec fn neighbor_region(self, x: int, y: int, i: int) -> int {
        if self.stage.in_bounds(x + spec_cardinal(i).0, y + spec_cardinal(i).1) {
            self.region_at(x + spec_cardinal(i).0, y + spec_cardinal(i).1)
        } else {
            -1
        }
    }

    /// The cell borders at least two distinct region labels.
    pub open spec fn spans_two(self, x: int, y: int) -> bool {
        exists|i: int, j: int|
            0 <= i < 4 && 0 <= j < 4 && 0 <= #[trigger] self.neighbor_region(x, y, i) && 0
                <= #[trigger] self.neighbor_region(x, y, j) && self.neighbor_region(x, y, i)
                != self.neighbor_region(x, y, j)
    }

    /// Every cell of every accepted room is carved floor.
    pub open spec fn rooms_floor(self) -> bool {
        forall|i: int, x: int, y: int|
            #![trigger self.rooms@[i], self.stage.tile_at(x, y)]
            0 <= i < self.rooms@.len() && in_room(self.rooms@[i], x, y) ==> self.stage.tile_at(
                x,
                y,
            ) == Tile::Floor
    }

    /// Binds a generator to a grid; all run state starts fresh.
    pub fn new(stage: Stage) -> (d: Dungeon)
        requires
            stage.wf(),
        ensures
            d.wf(),
            d.stage == stage,
            d.curr_region == -1,
            d.rooms@.len() == 0,
            forall|i: int| 0 <= i < d.regions@.len() ==> #[trigger] d.regions@[i] == -1,
            d.n_room_tries == 50,
    {
        proof {
            crate::stage::lemma_area_fits(stage.width as int, stage.height as int);
        }
        let n: usize = (stage.width as usize) * (stage.height as usize);
        let mut regions: Vec<i32> = Vec::new();
        while regions.len() < n
            invariant
                regions@.len() <= n,
                forall|i: int| 0 <= i < regions@.len() ==> #[trigger] regions@[i] == -1,
            decreases n - regions@.len(),
        {
            regions.push(-1);
        }
        Dungeon { n_room_tries: 50, rooms: Vec::new(), regions, curr_region: -1, stage }
    }

    /// Row-major index of an in-bounds cell, valid for the region store.
    fn cell_index(&self, pos: Vector) -> (i: usize)
        requires
            self.wf(),
            self.stage.in_bounds(pos.0 as int, pos.1 as int),
        ensures
            i == self.stage.cell(pos.0 as int, pos.1 as int),
            i < self.regions@.len(),
    {
        proof {
            lemma_cell_in_range(self.stage, pos.0 as int, pos.1 as int);
        }
        (pos.1 as usize) * (self.stage.width as usize) + (pos.0 as usize)
    }

    /// Opens a fresh region id for the next carving start.
    pub fn start_region(&mut self)
        requires
            old(self).wf(),
            old(self).curr_region < i32::MAX,
        ensures
            final(self).wf(),
            final(self).curr_region == old(self).curr_region + 1,
            final(self).stage == old(self).stage,
            final(self).rooms@ == old(self).rooms@,
            final(self).regions@ == old(self).regions@,
            final(self).n_room_tries == old(self).n_room_tries,
    {
        self.curr_region = self.curr_region + 1;
    }

    /// Reads an in-bounds cell of the grid.
    pub fn get_tile(&self, pos: Vector) -> (t: Tile)
        requires
            self.wf(),
            self.stage.in_bounds(pos.0 as int, pos.1 as int),
        ensures
            t == self.stage.tile_at(pos.0 as int, pos.1 as int),
    {
        self.stage.get(pos).unwrap()
    }

    /// Writes a tile; a no-op out of bounds. Region labels are untouched.
    pub fn set_tile(&mut self, pos: Vector, tile: Tile)
        requires
            old(self).wf(),
        ensures
            final(self).wf(),
            final(self).stage.width == old(self).stage.width,
            final(self).stage.height == old(self).stage.height,
            final(self).rooms@ == old(self).rooms@,
            final(self).regions@ == old(self).regions@,
            final(self).curr_region == old(self).curr_region,
            final(self).n_room_tries == old(self).n_room_tries,
            old(self).stage.in_bounds(pos.0 as int, pos.1 as int) ==> final(self).stage.tile_at(
                pos.0 as int,
                pos.1 as int,
            ) == tile,
            forall|x: int, y: int|
                old(self).stage.in_bounds(x, y) && (x != pos.0 as int || y != pos.1 as int)
                    ==> #[trigger] final(self).stage.tile_at(x, y) == old(self).stage.tile_at(x, y),
            old(self).stage.in_bounds(pos.0 as int, pos.1 as int) ==> final(self).stage.tiles@
                == old(self).stage.tiles@.update(
                old(self).stage.cell(pos.0 as int, pos.1 as int),
                tile,
            ),
            !old(self).stage.in_bounds(pos.0 as int, pos.1 as int) ==> final(self).stage.tiles@
                == old(self).stage.tiles@,
    {
        self.stage.set(pos, tile);
    }

    /// Carves a tile and tags the cell with the current region; a no-op out
    /// of bounds.
    pub fn carve(&mut self, pos: Vector, tile: Tile)
        requires
            old(self).wf(),
            0 <= old(self).curr_region,
        ensures
            final(self).wf(),
            final(self).stage.width == old(self).stage.width,
            final(self).stage.height == old(self).stage.height,
            final(self).rooms@ == old(self).rooms@,
            final(self).curr_region == old(self).curr_region,
            final(self).n_room_tries == old(self).n_room_tries,
            old(self).stage.in_bounds(pos.0 as int, pos.1 as int) ==> final(self).stage.tile_at(
                pos.0 as int,
                pos.1 as int,
            ) == tile && final(self).region_at(pos.0 as int, pos.1 as int) == old(
                self,
            ).curr_region,
            forall|x: int, y: int|
                old(self).stage.in_bounds(x, y) && (x != pos.0 as int || y != pos.1 as int)
                    ==> #[trigger] final(self).stage.tile_at(x, y) == old(self).stage.tile_at(x, y)
                    && final(self).region_at(x, y) == old(self).region_at(x, y),
            old(self).stage.in_bounds(pos.0 as int, pos.1 as int) ==> final(self).stage.tiles@
                == old(self).stage.tiles@.update(
                old(self).stage.cell(pos.0 as int, pos.1 as int),
                tile,
            ) && final(self).regions@ == old(self).regions@.update(
                old(self).stage.cell(pos.0 as int, pos.1 as int),
                old(self).curr_region,
            ),
            !old(self).stage.in_bounds(pos.0 as int, pos.1 as int) ==> final(self).stage.tiles@
                == old(self).stage.tiles@ && final(self).regions@ == old(self).regions@,
    {
        self.set_tile(pos, tile);
        if self.stage.contains(pos) {
            let idx = self.cell_index(pos);
            let r = self.curr_region;
            self.regions[idx] = r;
            proof {
                assert forall|x: int, y: int|
                    old(self).stage.in_bounds(x, y) && (x != pos.0 as int || y != pos.1 as int) implies #[trigger] self.stage.tile_at(
                    x,
                    y,
                ) == old(self).stage.tile_at(x, y) && self.region_at(x, y) == old(self).region_at(
                    x,
                    y,
                ) by {
                    lemma_cell_in_range(old(self).stage, x, y);
                    lemma_cell_distinct(old(self).stage, x, y, pos.0 as int, pos.1 as int);
                }
            }
        }
    }

    /// Whether the maze walk may carve two cells ahead from `pos`: the cell
    /// three steps out must be in bounds and the cell two steps out still a
    /// wall.
    pub open spec fn spec_can_carve(self, pos: Vector, d: Vector) -> bool {
        self.stage.in_bounds(pos.0 + 3 * d.0, pos.1 + 3 * d.1) && self.stage.tile_at(
            pos.0 + 2 * d.0,
            pos.1 + 2 * d.1,
        ) == Tile::Wall
    }

    /// The carve test at integer coordinates, by cardinal scan index.
    pub open spec fn can_carve_at(self, x: int, y: int, i: int) -> bool {
        self.stage.in_bounds(x + 3 * spec_cardinal(i).0, y + 3 * spec_cardinal(i).1)
            && self.stage.tile_at(x + 2 * spec_cardinal(i).0, y + 2 * spec_cardinal(i).1)
            == Tile::Wall
    }

    pub fn can_carve(&self, pos: Vector, direction: Vector) -> (r: bool)
        requires
            self.wf(),
            is_cardinal(direction),
            self.stage.in_bounds(pos.0 as int, pos.1 as int),
            pos.0 + 3 <= i32::MAX,
            pos.1 + 3 <= i32::MAX,
        ensures
            r == self.spec_can_carve(pos, direction),
    {
        let tx = pos.0 + direction.0 * 3;
        let ty = pos.1 + direction.1 * 3;
        if !(tx >= 0 && tx < self.stage.width && ty >= 0 && ty < self.stage.height) {
            return false;
        }
        let mx = pos.0 + direction.0 * 2;
        let my = pos.1 + direction.1 * 2;
        self.get_tile(Vector(mx, my)) == Tile::Wall
    }

    /// Counts the passable cardinal neighbors of an interior cell.
    fn count_exits(&self, x: i32, y: i32) -> (n: u32)
        requires
            self.wf(),
            self.stage.interior(x as int, y as int),
        ensures
            n as int == self.stage.exit_count(x as int, y as int),
    {
        let mut n: u32 = 0;
        if self.get_tile(Vector(x, y - 1)) != Tile::Wall {
            n = n + 1;
        }
        if self.get_tile(Vector(x + 1, y)) != Tile::Wall {
            n = n + 1;
        }
        if self.get_tile(Vector(x, y + 1)) != Tile::Wall {
            n = n + 1;
        }
        if self.get_tile(Vector(x - 1, y)) != Tile::Wall {
            n = n + 1;
        }
        n
    }

    /// Grows one maze region from an odd-aligned seed: an explicit-stack
    /// growing-tree walk that carves two cells at a time, preferring to
    /// continue straight subject to the winding parameter. Only interior
    /// cells are touched, and every carved cell becomes floor of the fresh
    /// region.
    #[verifier::loop_isolation(false)]
    #[verifier::rlimit(100)]
    pub fn grow_maze(&mut self, start: Vector)
        requires
            old(self).wf(),
            old(self).curr_region < i32::MAX,
            old(self).stage.width % 2 == 1,
            old(self).stage.height % 2 == 1,
            old(self).stage.in_bounds(start.0 as int, start.1 as int),
            start.0 % 2 == 1,
            start.1 % 2 == 1,
        ensures
            final(self).wf(),
            final(self).stage.width == old(self).stage.width,
            final(self).stage.height == old(self).stage.height,
            final(self).rooms@ == old(self).rooms@,
            final(self).n_room_tries == old(self).n_room_tries,
            final(self).curr_region == old(self).curr_region + 1,
            forall|x: int, y: int|
                old(self).stage.in_bounds(x, y) ==> #[trigger] final(self).stage.tile_at(x, y)
                    == old(self).stage.tile_at(x, y) || (old(self).stage.interior(x, y)
                    && final(self).stage.tile_at(x, y) == Tile::Floor),
            forall|i: int|
                0 <= i < old(self).regions@.len() ==> #[trigger] final(self).regions@[i] == old(
                    self,
                ).regions@[i] || final(self).regions@[i] == old(self).curr_region + 1,
            forall|x: int, y: int|
                old(self).stage.in_bounds(x, y) && #[trigger] final(self).region_at(x, y) == old(
                    self,
                ).curr_region + 1 ==> final(self).stage.tile_at(x, y) == Tile::Floor,
            forall|x: int, y: int|
                old(self).stage.in_bounds(x, y) ==> ((#[trigger] final(self).stage.tile_at(x, y))
                    == old(self).stage.tile_at(x, y) && final(self).region_at(x, y) == old(
                    self,
                ).region_at(x, y)) || (old(self).stage.interior(x, y) && final(self).stage.tile_at(x, y) == Tile::Floor && final(self).region_at(x, y) == old(
                    self,
                ).curr_region + 1),
            forall|x: int, y: int|
                old(self).stage.in_bounds(x, y) && #[trigger] final(self).region_at(x, y) == old(
                    self,
                ).curr_region + 1 ==> x % 2 == 1 || y % 2 == 1,
            forall|x: int, y: int, i: int|
                old(self).stage.in_bounds(x, y) && x % 2 == 1 && y % 2 == 1 && 0 <= i < 4
                    && final(self).region_at(x, y) == old(self).curr_region + 1 ==> !(
                #[trigger] final(self).can_carve_at(x, y, i)),
            final(self).stage.tile_at(start.0 as int, start.1 as int) == Tile::Floor,
    {
        proof {
            lemma_odd_cell_interior(old(self).stage, start.0 as int, start.1 as int);
            lemma_dims_bound(old(self).stage.width as int, old(self).stage.height as int);
            lemma_cell_in_range(old(self).stage, start.0 as int, start.1 as int);
        }
        self.start_region();
        self.carve(start, Tile::Floor);
        let mut cells: Vec<Vector> = Vec::new();
        cells.push(start);
        let mut last_dir = Vector(0, 0);
        proof {
            assert forall|x: int, y: int|
                old(self).stage.in_bounds(x, y) && #[trigger] self.region_at(x, y) == old(
                    self,
                ).curr_region + 1 implies self.stage.tile_at(x, y) == Tile::Floor && (x % 2 == 1
                || y % 2 == 1) && in_queue(cells@, x, y) by {
                lemma_cell_in_range(old(self).stage, x, y);
                if x != start.0 as int || y != start.1 as int {
                    lemma_cell_distinct(old(self).stage, x, y, start.0 as int, start.1 as int);
                } else {
                    assert(cells@[0] == start);
                }
            }
        }
        while cells.len() > 0
            invariant
                self.wf(),
                self.stage.width == old(self).stage.width,
                self.stage.height == old(self).stage.height,
                self.rooms@ == old(self).rooms@,
                self.n_room_tries == old(self).n_room_tries,
                self.curr_region == old(self).curr_region + 1,
                forall|k: int|
                    0 <= k < cells@.len() ==> (#[trigger] cells@[k]).0 % 2 == 1 && cells@[k].1 % 2
                        == 1 && self.stage.in_bounds(cells@[k].0 as int, cells@[k].1 as int),
                forall|x: int, y: int|
                    old(self).stage.in_bounds(x, y) ==> #[trigger] self.stage.tile_at(x, y) == old(
                        self,
                    ).stage.tile_at(x, y) || (old(self).stage.interior(x, y) && self.stage.tile_at(
                        x,
                        y,
                    ) == Tile::Floor),
                forall|i: int|
                    0 <= i < old(self).regions@.len() ==> #[trigger] self.regions@[i] == old(
                        self,
                    ).regions@[i] || self.regions@[i] == old(self).curr_region + 1,
                forall|x: int, y: int|
                    old(self).stage.in_bounds(x, y) && #[trigger] self.region_at(x, y) == old(
                        self,
                    ).curr_region + 1 ==> self.stage.tile_at(x, y) == Tile::Floor,
                forall|x: int, y: int|
                    old(self).stage.in_bounds(x, y) ==> ((#[trigger] self.stage.tile_at(x, y))
                        == old(self).stage.tile_at(x, y) && self.region_at(x, y) == old(
                        self,
                    ).region_at(x, y)) || (old(self).stage.interior(x, y) && self.stage.tile_at(
                        x,
                        y,
                    ) == Tile::Floor && self.region_at(x, y) == old(self).curr_region + 1),
                forall|x: int, y: int|
                    old(self).stage.in_bounds(x, y) && #[trigger] self.region_at(x, y) == old(
                        self,
                    ).curr_region + 1 ==> x % 2 == 1 || y % 2 == 1,
                forall|x: int, y: int, i: int|
                    old(self).stage.in_bounds(x, y) && x % 2 == 1 && y % 2 == 1 && 0 <= i < 4
                        && self.region_at(x, y) == old(self).curr_region + 1 && !in_queue(
                        cells@,
                        x,
                        y,
                    ) ==> !(#[trigger] self.can_carve_at(x, y, i)),
                self.stage.tile_at(start.0 as int, start.1 as int) == Tile::Floor,
            decreases 2 * (self.stage.tiles@.len() - count_carved(self.stage.tiles@))
                + cells@.len(),
        {
            let ghost self0 = *self;
            proof {
                lemma_count_carved_bounds(self.stage.tiles@);
            }
            let cell = cells[cells.len() - 1];
            let mut unmade: Vec<Vector> = Vec::new();
            let mut i: usize = 0;
            while i < 4
                invariant
                    i <= 4,
                    forall|k: int|
                        0 <= k < unmade@.len() ==> is_cardinal(#[trigger] unmade@[k])
                            && self.spec_can_carve(cell, unmade@[k]),
                    unmade@.len() == 0 ==> forall|j: int|
                        0 <= j < i ==> !self.spec_can_carve(cell, #[trigger] spec_cardinal(j)),
                decreases 4 - i,
            {
                let d = cardinal(i);
                if self.can_carve(cell, d) {
                    unmade.push(d);
                }
                i = i + 1;
            }
            if unmade.len() == 0 {
                let ghost cells_before = cells@;
                cells.pop();
                last_dir = Vector(0, 0);
                proof {
                    assert forall|x: int, y: int, i: int|
                        old(self).stage.in_bounds(x, y) && x % 2 == 1 && y % 2 == 1 && 0 <= i < 4
                            && self.region_at(x, y) == old(self).curr_region + 1 && !in_queue(
                            cells@,
                            x,
                            y,
                        ) implies !(#[trigger] self.can_carve_at(x, y, i)) by {
                        if x == cell.0 as int && y == cell.1 as int {
                            assert(!self.spec_can_carve(cell, spec_cardinal(i)));
                            assert(self.can_carve_at(x, y, i) == self.spec_can_carve(
                                cell,
                                spec_cardinal(i),
                            ));
                        } else {
                            if in_queue(cells_before, x, y) {
                                let k = choose|k: int|
                                    0 <= k < cells_before.len() && (#[trigger] cells_before[k]).0
                                        == x && cells_before[k].1 == y;
                                assert(cells_before[cells_before.len() - 1] == cell);
                                assert(k < cells_before.len() - 1);
                                assert(cells@[k] == cells_before[k]);
                                assert(in_queue(cells@, x, y));
                                assert(false);
                            }
                        }
                    }
                }
            } else {
                let dir: Vector;
                if contains_vec(&unmade, last_dir) && rand_range_i32(1, 100) > WINDING_PERCENT {
                    dir = last_dir;
                } else {
                    let k = rand_usize() % unmade.len();
                    dir = unmade[k];
                }
                proof {
                    lemma_step_cells(self.stage, cell, dir);
                    lemma_cell_in_range(self.stage, cell.0 + 2 * dir.0, cell.1 + 2 * dir.1);
                }
                let ghost before = self.stage.tiles@;
                let ghost old_cells = cells@;
                let mid = Vector(cell.0 + dir.0, cell.1 + dir.1);
                let dest = Vector(cell.0 + dir.0 * 2, cell.1 + dir.1 * 2);
                proof {
                    assert(is_cardinal(dir));
                    assert(cell.0 % 2 == 1 && cell.1 % 2 == 1);
                    assert(mid.0 % 2 == 1 || mid.1 % 2 == 1);
                    assert(!(mid.0 % 2 == 1 && mid.1 % 2 == 1));
                    assert(dest.0 % 2 == 1 && dest.1 % 2 == 1);
                }
                self.carve(mid, Tile::Floor);
                self.carve(dest, Tile::Floor);
                cells.push(dest);
                last_dir = dir;
                proof {
                    lemma_cell_in_range(self.stage, mid.0 as int, mid.1 as int);
                    lemma_count_carved_update(
                        before,
                        self.stage.cell(mid.0 as int, mid.1 as int),
                        Tile::Floor,
                    );
                    lemma_count_carved_update(
                        before.update(self.stage.cell(mid.0 as int, mid.1 as int), Tile::Floor),
                        self.stage.cell(dest.0 as int, dest.1 as int),
                        Tile::Floor,
                    );
                    lemma_cell_distinct(
                        self.stage,
                        mid.0 as int,
                        mid.1 as int,
                        dest.0 as int,
                        dest.1 as int,
                    );
                    lemma_count_carved_bounds(self.stage.tiles@);
                    assert forall|x: int, y: int|
                        old(self).stage.in_bounds(x, y) && #[trigger] self.region_at(x, y) == old(
                            self,
                        ).curr_region + 1 implies x % 2 == 1 || y % 2 == 1 by {
                        lemma_cell_in_range(old(self).stage, x, y);
                        if x == mid.0 as int && y == mid.1 as int {
                            assert(mid.0 % 2 == 1 || mid.1 % 2 == 1);
                        } else if x == dest.0 as int && y == dest.1 as int {
                        } else {
                            lemma_cell_distinct(old(self).stage, x, y, mid.0 as int, mid.1 as int);
                            lemma_cell_distinct(
                                old(self).stage,
                                x,
                                y,
                                dest.0 as int,
                                dest.1 as int,
                            );
                            assert(self.region_at(x, y) == self0.region_at(x, y));
                        }
                    }
                    assert forall|x: int, y: int, i: int|
                        old(self).stage.in_bounds(x, y) && x % 2 == 1 && y % 2 == 1 && 0 <= i < 4
                            && self.region_at(x, y) == old(self).curr_region + 1 && !in_queue(
                            cells@,
                            x,
                            y,
                        ) implies !(#[trigger] self.can_carve_at(x, y, i)) by {
                        lemma_cell_in_range(old(self).stage, x, y);
                        if x == dest.0 as int && y == dest.1 as int {
                            assert(cells@[cells@.len() - 1] == dest);
                            assert(false);
                        } else if x == mid.0 as int && y == mid.1 as int {
                            assert(mid.0 % 2 == 0 || mid.1 % 2 == 0);
                            assert(false);
                        } else {
                            lemma_cell_distinct(old(self).stage, x, y, mid.0 as int, mid.1 as int);
                            lemma_cell_distinct(
                                old(self).stage,
                                x,
                                y,
                                dest.0 as int,
                                dest.1 as int,
                            );
                            if in_queue(old_cells, x, y) {
                                let k = choose|k: int|
                                    0 <= k < old_cells.len() && (#[trigger] old_cells[k]).0 == x
                                        && old_cells[k].1 == y;
                                assert(cells@[k] == old_cells[k]);
                                assert(in_queue(cells@, x, y));
                                assert(false);
                            }
                            assert(self.region_at(x, y) == self0.region_at(x, y));
                            assert(!self0.can_carve_at(x, y, i));
                            if self.can_carve_at(x, y, i) {
                                let dx = spec_cardinal(i).0 as int;
                                let dy = spec_cardinal(i).1 as int;
                                assert(self0.stage.in_bounds(x + 3 * dx, y + 3 * dy));
                                assert(self0.stage.in_bounds(x + 2 * dx, y + 2 * dy));
                                assert(self0.stage.tile_at(x + 2 * dx, y + 2 * dy) != Tile::Wall);
                                assert(self.stage.tile_at(x + 2 * dx, y + 2 * dy) == self0.stage.tile_at(
                                    x + 2 * dx,
                                    y + 2 * dy,
                                ) || self.stage.tile_at(x + 2 * dx, y + 2 * dy) == Tile::Floor);
                                assert(false);
                            }
                        }
                    }
                }
            }
        }
    }

    /// Attempts a fixed number of randomized room placements, keeping only
    /// candidates that fit the odd lattice and do not touch or overlap any
    /// accepted room. Each accepted room is carved as floor under a fresh
    /// region. Placement is best-effort: attempts that find no space or
    /// conflict are skipped silently.
    #[verifier::loop_isolation(false)]
    #[verifier::rlimit(100)]
    pub fn add_rooms(&mut self)
        requires
            old(self).wf(),
            old(self).curr_region + old(self).n_room_tries <= i32::MAX,
        ensures
            final(self).wf(),
            final(self).stage.width == old(self).stage.width,
            final(self).stage.height == old(self).stage.height,
            final(self).n_room_tries == old(self).n_room_tries,
            old(self).curr_region <= final(self).curr_region <= old(self).curr_region + old(
                self,
            ).n_room_tries,
            rooms_separated(final(self).rooms@),
            old(self).rooms@.len() <= final(self).rooms@.len() <= old(self).rooms@.len() + old(
                self,
            ).n_room_tries,
            forall|i: int|
                0 <= i < old(self).rooms@.len() ==> #[trigger] final(self).rooms@[i] == old(
                    self,
                ).rooms@[i],
            forall|i: int|
                old(self).rooms@.len() <= i < final(self).rooms@.len() ==> room_on_lattice(
                    #[trigger] final(self).rooms@[i],
                ),
            forall|i: int, x: int, y: int|
                #![trigger final(self).rooms@[i], final(self).stage.tile_at(x, y)]
                old(self).rooms@.len() <= i < final(self).rooms@.len() && in_room(
                    final(self).rooms@[i],
                    x,
                    y,
                ) ==> final(self).stage.tile_at(x, y) == Tile::Floor && old(self).curr_region
                    < final(self).region_at(x, y) <= final(self).curr_region,
            (old(self).rooms@.len() == 0 && old(self).stage.width >= 17 && old(self).stage.height
                >= 17 && old(self).n_room_tries >= 1) ==> final(self).rooms@.len() >= 1,
            forall|x: int, y: int|
                old(self).stage.in_bounds(x, y) ==> #[trigger] final(self).stage.tile_at(x, y)
                    == old(self).stage.tile_at(x, y) || (old(self).stage.interior(x, y)
                    && final(self).stage.tile_at(x, y) == Tile::Floor),
            forall|i: int|
                0 <= i < old(self).regions@.len() ==> #[trigger] final(self).regions@[i] == old(
                    self,
                ).regions@[i] || old(self).curr_region < final(self).regions@[i]
                    <= final(self).curr_region,
    {
        let n_tries = self.n_room_tries;
        let mut t: u32 = 0;
        while t < n_tries
            invariant
                t <= n_tries,
                self.wf(),
                self.stage.width == old(self).stage.width,
                self.stage.height == old(self).stage.height,
                self.n_room_tries == n_tries,
                old(self).curr_region <= self.curr_region <= old(self).curr_region + t,
                old(self).rooms@.len() <= self.rooms@.len() <= old(self).rooms@.len() + t,
                forall|i: int|
                    0 <= i < old(self).rooms@.len() ==> #[trigger] self.rooms@[i] == old(
                        self,
                    ).rooms@[i],
                forall|i: int|
                    old(self).rooms@.len() <= i < self.rooms@.len() ==> room_on_lattice(
                        #[trigger] self.rooms@[i],
                    ),
                forall|i: int, x2: int, y2: int|
                    #![trigger self.rooms@[i], self.stage.tile_at(x2, y2)]
                    old(self).rooms@.len() <= i < self.rooms@.len() && in_room(
                        self.rooms@[i],
                        x2,
                        y2,
                    ) ==> self.stage.tile_at(x2, y2) == Tile::Floor && old(self).curr_region
                        < self.region_at(x2, y2) <= self.curr_region,
                (old(self).rooms@.len() == 0 && old(self).stage.width >= 17 && old(
                    self,
                ).stage.height >= 17) ==> (t == 0 || self.rooms@.len() >= 1),
                forall|x: int, y: int|
                    old(self).stage.in_bounds(x, y) ==> #[trigger] self.stage.tile_at(x, y) == old(
                        self,
                    ).stage.tile_at(x, y) || (old(self).stage.interior(x, y)
                    && self.stage.tile_at(x, y) == Tile::Floor),
                forall|i: int|
                    0 <= i < old(self).regions@.len() ==> #[trigger] self.regions@[i] == old(
                        self,
                    ).regions@[i] || old(self).curr_region < self.regions@[i] <= self.curr_region,
            decreases n_tries - t,
        {
            let size = rand_range_i32(1, 3 + ROOM_EXTRA_SIZE) * 2 + 1;
            let rectangularity = rand_range_i32(0, 1 + size / 2) * 2;
            let mut width = size;
            let mut height = size;
            if rand_ratio(1, 2) {
                width = width + rectangularity;
            } else {
                height = height + rectangularity;
            }
            if self.stage.width - width >= 2 && self.stage.height - height >= 2 {
                proof {
                    lemma_dims_bound(self.stage.width as int, self.stage.height as int);
                }
                let rx = rand_range_i32(0, (self.stage.width - width) / 2 - 1);
                let ry = rand_range_i32(0, (self.stage.height - height) / 2 - 1);
                let x = rx * 2 + 1;
                let y = ry * 2 + 1;
                let room = Rectangle { x, y, w: width, h: height };
                let mut ok = true;
                let mut j: usize = 0;
                while j < self.rooms.len()
                    invariant
                        j <= self.rooms@.len(),
                        self.rooms@.len() == 0 ==> ok,
                        ok ==> forall|i: int|
                            0 <= i < j ==> room.spec_distance(#[trigger] self.rooms@[i]) > 0,
                    decreases self.rooms@.len() - j,
                {
                    if room.distance_to(self.rooms[j]) <= 0 {
                        ok = false;
                    }
                    j = j + 1;
                }
                if ok {
                    proof {
                        assert forall|i: int| 0 <= i < self.rooms@.len() implies (
                        #[trigger] self.rooms@[i]).spec_distance(room) > 0 by {
                            lemma_distance_symmetric(room, self.rooms@[i]);
                        }
                    }
                    self.rooms.push(room);
                    self.start_region();
                    proof {
                        assert forall|a: int, b: int|
                            0 <= a < self.rooms@.len() && 0 <= b < self.rooms@.len() && a
                                != b implies #[trigger] self.rooms@[a].spec_distance(
                            self.rooms@[b],
                        ) > 0 by {
                            if a == self.rooms@.len() - 1 || b == self.rooms@.len() - 1 {
                            } else {
                                assert(old(self).wf() || self.wf());
                            }
                        }
                    }
                    let ghost accepted = *self;
                    let mut yy = y;
                    while yy < y + height
                        invariant
                            y <= yy <= y + height,
                            self.wf(),
                            self.stage.width == old(self).stage.width,
                            self.stage.height == old(self).stage.height,
                            self.n_room_tries == n_tries,
                            self.curr_region == accepted.curr_region,
                            self.rooms@ == accepted.rooms@,
                            forall|i: int, x2: int, y2: int|
                                #![trigger self.rooms@[i], self.stage.tile_at(x2, y2)]
                                old(self).rooms@.len() <= i < self.rooms@.len() - 1 && in_room(
                                    self.rooms@[i],
                                    x2,
                                    y2,
                                ) ==> self.stage.tile_at(x2, y2) == Tile::Floor && old(
                                    self,
                                ).curr_region < self.region_at(x2, y2) <= self.curr_region,
                            forall|x2: int, y2: int|
                                #![trigger self.stage.tile_at(x2, y2)]
                                in_room(room, x2, y2) && y2 < yy ==> self.stage.tile_at(x2, y2)
                                    == Tile::Floor && self.region_at(x2, y2) == self.curr_region,
                            forall|x2: int, y2: int|
                                old(self).stage.in_bounds(x2, y2) ==> #[trigger] self.stage.tile_at(
                                    x2,
                                    y2,
                                ) == old(self).stage.tile_at(x2, y2) || (old(self).stage.interior(
                                    x2,
                                    y2,
                                ) && self.stage.tile_at(x2, y2) == Tile::Floor),
                            forall|i: int|
                                0 <= i < old(self).regions@.len() ==> #[trigger] self.regions@[i]
                                    == old(self).regions@[i] || old(self).curr_region
                                    < self.regions@[i] <= self.curr_region,
                        decreases y + height - yy,
                    {
                        let mut xx = x;
                        while xx < x + width
                            invariant
                                x <= xx <= x + width,
                                y <= yy < y + height,
                                self.wf(),
                                self.stage.width == old(self).stage.width,
                                self.stage.height == old(self).stage.height,
                                self.n_room_tries == n_tries,
                                self.curr_region == accepted.curr_region,
                                self.rooms@ == accepted.rooms@,
                                forall|i: int, x2: int, y2: int|
                                    #![trigger self.rooms@[i], self.stage.tile_at(x2, y2)]
                                    old(self).rooms@.len() <= i < self.rooms@.len() - 1 && in_room(
                                        self.rooms@[i],
                                        x2,
                                        y2,
                                    ) ==> self.stage.tile_at(x2, y2) == Tile::Floor && old(
                                        self,
                                    ).curr_region < self.region_at(x2, y2) <= self.curr_region,
                                forall|x2: int, y2: int|
                                    #![trigger self.stage.tile_at(x2, y2)]
                                    in_room(room, x2, y2) && (y2 < yy || (y2 == yy && x2 < xx))
                                        ==> self.stage.tile_at(x2, y2) == Tile::Floor
                                        && self.region_at(x2, y2) == self.curr_region,
                                forall|x2: int, y2: int|
                                    old(self).stage.in_bounds(x2, y2)
                                        ==> #[trigger] self.stage.tile_at(x2, y2) == old(
                                        self,
                                    ).stage.tile_at(x2, y2) || (old(self).stage.interior(x2, y2)
                                        && self.stage.tile_at(x2, y2) == Tile::Floor),
                                forall|i: int|
                                    0 <= i < old(self).regions@.len()
                                        ==> #[trigger] self.regions@[i] == old(self).regions@[i]
                                        || old(self).curr_region < self.regions@[i]
                                        <= self.curr_region,
                            decreases x + width - xx,
                        {
                            proof {
                                lemma_cell_in_range(self.stage, xx as int, yy as int);
                                assert forall|i: int|
                                    old(self).rooms@.len() <= i < self.rooms@.len()
                                        - 1 implies !in_room(
                                    #[trigger] self.rooms@[i],
                                    xx as int,
                                    yy as int,
                                ) by {
                                    assert(self.rooms@[self.rooms@.len() - 1] == room);
                                    assert(room.spec_distance(self.rooms@[i]) > 0);
                                    lemma_separated_disjoint(
                                        room,
                                        self.rooms@[i],
                                        xx as int,
                                        yy as int,
                                    );
                                }
                            }
                            self.carve(Vector(xx, yy), Tile::Floor);
                            xx = xx + 1;
                        }
                        yy = yy + 1;
                    }
                }
            }
            t = t + 1;
        }
    }

    /// A recorded connector candidate is an interior wall cell whose
    /// cardinal neighbors carry at least two distinct region labels, all
    /// recorded ids valid.
    spec fn conn_ok(self, c: Connector) -> bool {
        &&& self.stage.interior(c.pos.0 as int, c.pos.1 as int)
        &&& self.stage.tile_at(c.pos.0 as int, c.pos.1 as int) == Tile::Wall
        &&& 2 <= c.regions@.len()
        &&& (forall|k: int|
            0 <= k < c.regions@.len() ==> 0 <= #[trigger] c.regions@[k] <= self.curr_region)
        &&& self.spans_two(c.pos.0 as int, c.pos.1 as int)
    }

    /// Examines one interior cell: a wall cell whose cardinal neighbors
    /// carry two or more distinct region labels is recorded with those ids.
    #[verifier::loop_isolation(false)]
    #[verifier::rlimit(100)]
    fn scan_cell(&self, x: i32, y: i32, conns: &mut Vec<Connector>)
        requires
            self.wf(),
            self.stage.interior(x as int, y as int),
            forall|k: int| 0 <= k < old(conns)@.len() ==> self.conn_ok(#[trigger] old(conns)@[k]),
        ensures
            forall|k: int| 0 <= k < final(conns)@.len() ==> self.conn_ok(#[trigger] final(conns)@[k]),
            old(conns)@.len() <= final(conns)@.len(),
            forall|k: int|
                0 <= k < old(conns)@.len() ==> #[trigger] final(conns)@[k] == old(conns)@[k],
            (self.stage.tile_at(x as int, y as int) == Tile::Wall && self.spans_two(
                x as int,
                y as int,
            )) ==> conn_listed(final(conns)@, x as int, y as int),
    {
        let pos = Vector(x, y);
        if self.get_tile(pos) != Tile::Wall {
            return ;
        }
        let mut regs: Vec<i32> = Vec::new();
        let mut i: usize = 0;
        while i < 4
            invariant
                i <= 4,
                forall|m: int|
                    0 <= m < regs@.len() ==> 0 <= #[trigger] regs@[m] <= self.curr_region,
                forall|m1: int, m2: int|
                    #![trigger regs@[m1], regs@[m2]]
                    0 <= m1 < m2 < regs@.len() ==> regs@[m1] != regs@[m2],
                forall|m: int|
                    0 <= m < regs@.len() ==> exists|j: int|
                        0 <= j < 4 && (#[trigger] regs@[m]) == (#[trigger] self.neighbor_region(
                            x as int,
                            y as int,
                            j,
                        )),
                forall|j: int|
                    0 <= j < i && 0 <= #[trigger] self.neighbor_region(x as int, y as int, j)
                        ==> exists|m: int|
                        0 <= m < regs@.len() && (#[trigger] regs@[m]) == self.neighbor_region(
                            x as int,
                            y as int,
                            j,
                        ),
            decreases 4 - i,
        {
            let dvec = cardinal(i);
            let np = Vector(x + dvec.0, y + dvec.1);
            let idx = self.cell_index(np);
            let rid = self.regions[idx];
            proof {
                assert(rid as int == self.neighbor_region(x as int, y as int, i as int));
            }
            let ghost regs0 = regs@;
            if rid >= 0 {
                if !contains_i32(&regs, rid) {
                    regs.push(rid);
                }
            }
            proof {
                assert forall|j: int|
                    0 <= j < i + 1 && 0 <= self.neighbor_region(x as int, y as int, j) implies exists|
                    m: int,
                |
                    0 <= m < regs@.len() && (#[trigger] regs@[m]) == self.neighbor_region(
                        x as int,
                        y as int,
                        j,
                    ) by {
                    if j < i {
                        let m0 = choose|m: int|
                            0 <= m < regs0.len() && (#[trigger] regs0[m]) == self.neighbor_region(
                                x as int,
                                y as int,
                                j,
                            );
                        assert(regs@[m0] == regs0[m0]);
                    } else {
                        if 0 <= rid {
                            if regs@.len() == regs0.len() {
                                let m0 = choose|m: int|
                                    0 <= m < regs0.len() && (#[trigger] regs0[m]) == rid;
                                assert(regs@[m0] == rid);
                            } else {
                                assert(regs@[regs@.len() - 1] == rid);
                            }
                        }
                    }
                }
            }
            i = i + 1;
        }
        let ghost conns0 = conns@;
        if regs.len() >= 2 {
            proof {
                let j0 = choose|j: int|
                    0 <= j < 4 && regs@[0] == self.neighbor_region(x as int, y as int, j);
                let j1 = choose|j: int|
                    0 <= j < 4 && regs@[1] == self.neighbor_region(x as int, y as int, j);
                assert(regs@[0] != regs@[1]);
                assert(0 <= self.neighbor_region(x as int, y as int, j0));
                assert(0 <= self.neighbor_region(x as int, y as int, j1));
                assert(self.spans_two(x as int, y as int));
            }
            conns.push(Connector { pos, regions: regs });
            proof {
                assert(conns@[conns@.len() - 1].pos == pos);
                assert(self.conn_ok(conns@[conns@.len() - 1]));
                assert forall|k: int|
                    0 <= k < conns@.len() implies self.conn_ok(#[trigger] conns@[k]) by {
                    if k < conns@.len() - 1 {
                        assert(conns@[k] == conns0[k]);
                    }
                }
            }
        } else {
            proof {
                if self.spans_two(x as int, y as int) {
                    let (j0, j1) = choose|j0: int, j1: int|
                        0 <= j0 < 4 && 0 <= j1 < 4 && 0 <= self.neighbor_region(
                            x as int,
                            y as int,
                            j0,
                        ) && 0 <= self.neighbor_region(x as int, y as int, j1)
                            && self.neighbor_region(x as int, y as int, j0)
                            != self.neighbor_region(x as int, y as int, j1);
                    let m0 = choose|m: int|
                        0 <= m < regs@.len() && (#[trigger] regs@[m]) == self.neighbor_region(
                            x as int,
                            y as int,
                            j0,
                        );
                    let m1 = choose|m: int|
                        0 <= m < regs@.len() && (#[trigger] regs@[m]) == self.neighbor_region(
                            x as int,
                            y as int,
                            j1,
                        );
                    assert(regs@[m0] != regs@[m1]);
                    assert(regs@.len() >= 2);
                    assert(false);
                }
            }
        }
    }

    /// Scans the interior for wall cells whose cardinal neighbors span two
    /// or more distinct region labels, recording each with its touched ids.
    #[verifier::loop_isolation(false)]
    #[verifier::rlimit(100)]
    fn scan_connectors(&self) -> (conns: Vec<Connector>)
        requires
            self.wf(),
        ensures
            forall|k: int| 0 <= k < conns@.len() ==> self.conn_ok(#[trigger] conns@[k]),
            forall|px: int, py: int|
                self.stage.interior(px, py) && self.stage.tile_at(px, py) == Tile::Wall && (
                #[trigger] self.spans_two(px, py)) ==> conn_listed(conns@, px, py),
    {
        let mut conns: Vec<Connector> = Vec::new();
        let mut y: i32 = 1;
        while y < self.stage.height - 1
            invariant
                1 <= y,
                forall|k: int| 0 <= k < conns@.len() ==> self.conn_ok(#[trigger] conns@[k]),
                forall|px: int, py: int|
                    py < y && self.stage.interior(px, py) && self.stage.tile_at(px, py)
                        == Tile::Wall && (#[trigger] self.spans_two(px, py)) ==> conn_listed(
                        conns@,
                        px,
                        py,
                    ),
            decreases self.stage.height - 1 - y,
        {
            let mut x: i32 = 1;
            while x < self.stage.width - 1
                invariant
                    1 <= x,
                    1 <= y < self.stage.height - 1,
                    forall|k: int| 0 <= k < conns@.len() ==> self.conn_ok(#[trigger] conns@[k]),
                    forall|px: int, py: int|
                        py < y && self.stage.interior(px, py) && self.stage.tile_at(px, py)
                            == Tile::Wall && (#[trigger] self.spans_two(px, py)) ==> conn_listed(
                            conns@,
                            px,
                            py,
                        ),
                    forall|px: int|
                        px < x && self.stage.interior(px, y as int) && self.stage.tile_at(
                            px,
                            y as int,
                        ) == Tile::Wall && (#[trigger] self.spans_two(px, y as int))
                            ==> conn_listed(conns@, px, y as int),
                decreases self.stage.width - 1 - x,
            {
                let ghost conns0 = conns@;
                self.scan_cell(x, y, &mut conns);
                proof {
                    assert forall|px: int, py: int|
                        (py < y as int || (py == y as int && px < x as int + 1))
                            && self.stage.interior(px, py) && self.stage.tile_at(px, py)
                            == Tile::Wall && self.spans_two(px, py) implies conn_listed(
                        conns@,
                        px,
                        py,
                    ) by {
                        if px == x as int && py == y as int {
                        } else {
                            let k = choose|k: int|
                                0 <= k < conns0.len() && (#[trigger] conns0[k]).pos.0 == px
                                    && conns0[k].pos.1 == py;
                            assert(conns@[k] == conns0[k]);
                            assert(conn_listed(conns@, px, py));
                        }
                    }
                }
                x = x + 1;
            }
            y = y + 1;
        }
        conns
    }

    /// Merges all regions into one connected whole: scans for wall cells
    /// bordering two or more regions, then repeatedly carves a random
    /// connector as a junction, merges the regions it touches, and filters
    /// the candidate list, occasionally keeping a redundant junction so the
    /// result is not purely tree-shaped. Only interior wall cells are ever
    /// opened.
    #[verifier::loop_isolation(false)]
    #[verifier::rlimit(100)]
    pub fn connect_regions(&mut self)
        requires
            old(self).wf(),
        ensures
            final(self).wf(),
            final(self).stage.width == old(self).stage.width,
            final(self).stage.height == old(self).stage.height,
            final(self).rooms@ == old(self).rooms@,
            final(self).regions@ == old(self).regions@,
            final(self).curr_region == old(self).curr_region,
            final(self).n_room_tries == old(self).n_room_tries,
            forall|x: int, y: int|
                old(self).stage.in_bounds(x, y) ==> #[trigger] final(self).stage.tile_at(x, y)
                    == old(self).stage.tile_at(x, y) || (old(self).stage.interior(x, y) && old(
                    self,
                ).stage.tile_at(x, y) == Tile::Wall && final(self).stage.tile_at(x, y)
                    != Tile::Wall && old(self).spans_two(x, y)),
            (exists|x: int, y: int|
                old(self).stage.interior(x, y) && old(self).stage.tile_at(x, y) == Tile::Wall && (
                #[trigger] old(self).spans_two(x, y))) ==> (exists|x: int, y: int|
                old(self).stage.in_bounds(x, y) && old(self).stage.tile_at(x, y) == Tile::Wall && (
                #[trigger] final(self).stage.tile_at(x, y)) != Tile::Wall),
    {
        let conns = self.scan_connectors();
        let n_regions: usize = if self.curr_region < 0 {
            0
        } else {
            (self.curr_region as usize) + 1
        };
        let mut merged: Vec<i32> = Vec::new();
        let mut open: Vec<bool> = Vec::new();
        let mut r: usize = 0;
        while r < n_regions
            invariant
                r <= n_regions,
                merged@.len() == r as int,
                open@.len() == r as int,
                count_true(open@) == r as int,
                forall|k: int| 0 <= k < r ==> #[trigger] merged@[k] == k,
            decreases n_regions - r,
        {
            let ghost open_before = open@;
            merged.push(r as i32);
            open.push(true);
            proof {
                assert(open@.drop_last() =~= open_before);
            }
            r = r + 1;
        }
        let mut live: Vec<usize> = Vec::new();
        let mut ci: usize = 0;
        while ci < conns.len()
            invariant
                ci <= conns@.len(),
                live@.len() == ci as int,
                forall|k: int| 0 <= k < live@.len() ==> (#[trigger] live@[k]) < conns@.len(),
            decreases conns@.len() - ci,
        {
            live.push(ci);
            ci = ci + 1;
        }
        let mut n_open = count_open(&open);
        proof {
            if exists|x: int, y: int|
                old(self).stage.interior(x, y) && old(self).stage.tile_at(x, y) == Tile::Wall && (
                #[trigger] old(self).spans_two(x, y)) {
                let (sx, sy) = choose|x: int, y: int|
                    old(self).stage.interior(x, y) && old(self).stage.tile_at(x, y) == Tile::Wall
                        && (#[trigger] old(self).spans_two(x, y));
                assert(conn_listed(conns@, sx, sy));
                assert(conns@.len() >= 1);
                let (j0, j1) = choose|j0: int, j1: int|
                    0 <= j0 < 4 && 0 <= j1 < 4 && 0 <= old(self).neighbor_region(sx, sy, j0) && 0
                        <= old(self).neighbor_region(sx, sy, j1) && old(self).neighbor_region(
                        sx,
                        sy,
                        j0,
                    ) != old(self).neighbor_region(sx, sy, j1);
                lemma_cell_in_range(
                    old(self).stage,
                    sx + spec_cardinal(j0).0,
                    sy + spec_cardinal(j0).1,
                );
                lemma_cell_in_range(
                    old(self).stage,
                    sx + spec_cardinal(j1).0,
                    sy + spec_cardinal(j1).1,
                );
                assert(old(self).neighbor_region(sx, sy, j0) <= old(self).curr_region);
                assert(old(self).neighbor_region(sx, sy, j1) <= old(self).curr_region);
                assert(old(self).curr_region >= 1);
                assert(n_regions as int >= 2);
            }
        }
        while n_open > 1 && live.len() > 0
            invariant
                self.wf(),
                self.stage.width == old(self).stage.width,
                self.stage.height == old(self).stage.height,
                self.rooms@ == old(self).rooms@,
                self.regions@ == old(self).regions@,
                self.curr_region == old(self).curr_region,
                self.n_room_tries == old(self).n_room_tries,
                merged@.len() == n_regions as int,
                open@.len() == n_regions as int,
                forall|k: int|
                    0 <= k < merged@.len() ==> 0 <= #[trigger] merged@[k] <= old(
                        self,
                    ).curr_region,
                forall|k: int| 0 <= k < live@.len() ==> (#[trigger] live@[k]) < conns@.len(),
                forall|x: int, y: int|
                    old(self).stage.in_bounds(x, y) ==> #[trigger] self.stage.tile_at(x, y) == old(
                        self,
                    ).stage.tile_at(x, y) || (old(self).stage.interior(x, y) && old(
                        self,
                    ).stage.tile_at(x, y) == Tile::Wall && self.stage.tile_at(x, y) != Tile::Wall
                        && old(self).spans_two(x, y)),
                (exists|x: int, y: int|
                    old(self).stage.interior(x, y) && old(self).stage.tile_at(x, y) == Tile::Wall
                        && (#[trigger] old(self).spans_two(x, y))) ==> ((exists|x: int, y: int|
                    old(self).stage.in_bounds(x, y) && old(self).stage.tile_at(x, y) == Tile::Wall
                        && (#[trigger] self.stage.tile_at(x, y)) != Tile::Wall) || (n_open > 1
                    && live@.len() > 0)),
            decreases live@.len(),
        {
            let pick = rand_usize() % live.len();
            let ci2 = live[pick];
            proof {
                assert(old(self).conn_ok(conns@[ci2 as int]));
            }
            let cpos = conns[ci2].pos;
            proof {
                assert(old(self).conn_ok(conns@[ci2 as int]));
            }
            self.add_junction(cpos);
            proof {
                assert(self.stage.tile_at(cpos.0 as int, cpos.1 as int) != Tile::Wall);
            }
            let nregs = conns[ci2].regions.len();
            let mut resolved: Vec<i32> = Vec::new();
            let mut k: usize = 0;
            while k < nregs
                invariant
                    k <= nregs,
                    resolved@.len() == k as int,
                    forall|m: int|
                        0 <= m < resolved@.len() ==> 0 <= #[trigger] resolved@[m] <= old(
                            self,
                        ).curr_region,
                decreases nregs - k,
            {
                let rid = conns[ci2].regions[k];
                resolved.push(merged[rid as usize]);
                k = k + 1;
            }
            let dest = resolved[0];
            let mut sources: Vec<i32> = Vec::new();
            let mut k2: usize = 1;
            while k2 < resolved.len()
                invariant
                    1 <= k2 <= resolved@.len(),
                    forall|m: int|
                        0 <= m < sources@.len() ==> 0 <= #[trigger] sources@[m] <= old(
                            self,
                        ).curr_region,
                decreases resolved@.len() - k2,
            {
                sources.push(resolved[k2]);
                k2 = k2 + 1;
            }
            let mut m: usize = 0;
            while m < merged.len()
                invariant
                    merged@.len() == n_regions as int,
                    forall|k3: int|
                        0 <= k3 < merged@.len() ==> 0 <= #[trigger] merged@[k3] <= old(
                            self,
                        ).curr_region,
                decreases merged@.len() - m,
            {
                let cur = merged[m];
                if contains_i32(&sources, cur) {
                    merged[m] = dest;
                }
                m = m + 1;
            }
            let mut s2: usize = 0;
            while s2 < sources.len()
                invariant
                    open@.len() == n_regions as int,
                decreases sources@.len() - s2,
            {
                let sid = sources[s2];
                open[sid as usize] = false;
                s2 = s2 + 1;
            }
            let mut kept: Vec<usize> = Vec::new();
            let mut q: usize = 0;
            while q < live.len()
                invariant
                    q <= live@.len(),
                    pick < live@.len(),
                    forall|k3: int| 0 <= k3 < kept@.len() ==> (#[trigger] kept@[k3]) < conns@.len(),
                    kept@.len() + (if q > pick {
                        1int
                    } else {
                        0int
                    }) <= q as int,
                    self.wf(),
                    self.stage.width == old(self).stage.width,
                    self.stage.height == old(self).stage.height,
                    self.rooms@ == old(self).rooms@,
                    self.regions@ == old(self).regions@,
                    self.curr_region == old(self).curr_region,
                    self.n_room_tries == old(self).n_room_tries,
                    forall|x: int, y: int|
                        old(self).stage.in_bounds(x, y) ==> #[trigger] self.stage.tile_at(x, y)
                            == old(self).stage.tile_at(x, y) || (old(self).stage.interior(x, y)
                            && old(self).stage.tile_at(x, y) == Tile::Wall && self.stage.tile_at(
                            x,
                            y,
                        ) != Tile::Wall && old(self).spans_two(x, y)),
                    exists|x: int, y: int|
                        old(self).stage.in_bounds(x, y) && old(self).stage.tile_at(x, y)
                            == Tile::Wall && (#[trigger] self.stage.tile_at(x, y)) != Tile::Wall,
                decreases live@.len() - q,
            {
                let cj = live[q];
                proof {
                    assert(old(self).conn_ok(conns@[cj as int]));
                    lemma_dims_bound(
                        old(self).stage.width as int,
                        old(self).stage.height as int,
                    );
                }
                let pos_j = conns[cj].pos;
                let dvec = cpos.sub(pos_j);
                let dist = dvec.abs();
                if dist < 2 {
                } else {
                    let nregs2 = conns[cj].regions.len();
                    let mut rres: Vec<i32> = Vec::new();
                    let mut k3: usize = 0;
                    while k3 < nregs2
                        invariant
                            k3 <= nregs2,
                            forall|m2: int|
                                0 <= m2 < rres@.len() ==> 0 <= #[trigger] rres@[m2] <= old(
                                    self,
                                ).curr_region,
                        decreases nregs2 - k3,
                    {
                        let rid = conns[cj].regions[k3];
                        let rep = merged[rid as usize];
                        if !contains_i32(&rres, rep) {
                            rres.push(rep);
                        }
                        k3 = k3 + 1;
                    }
                    if rres.len() > 1 {
                        kept.push(cj);
                    } else {
                        if rand_ratio(1, EXTRA_CONNECTOR_CHANCE) {
                            proof {
                                assert(old(self).conn_ok(conns@[cj as int]));
                            }
                            let ghost pre = *self;
                            self.add_junction(pos_j);
                            proof {
                                let (wx, wy) = choose|x: int, y: int|
                                    old(self).stage.in_bounds(x, y) && old(self).stage.tile_at(
                                        x,
                                        y,
                                    ) == Tile::Wall && (#[trigger] pre.stage.tile_at(x, y))
                                        != Tile::Wall;
                                assert(self.stage.tile_at(wx, wy) != Tile::Wall);
                            }
                        }
                    }
                }
                q = q + 1;
            }
            live = kept;
            n_open = count_open(&open);
        }
    }

    /// Runs the full pipeline in place: place rooms, carve mazes over the
    /// odd lattice, connect the regions, and prune dead ends. The grid
    /// keeps its (odd) dimensions, accepted rooms never touch, and no dead
    /// end survives.
    #[verifier::loop_isolation(false)]
    pub fn generate(&mut self)
        requires
            old(self).wf(),
            old(self).stage.width % 2 == 1,
            old(self).stage.height % 2 == 1,
            old(self).curr_region == -1,
            old(self).rooms@.len() == 0,
            old(self).n_room_tries >= 1,
        ensures
            final(self).wf(),
            final(self).stage.width == old(self).stage.width,
            final(self).stage.height == old(self).stage.height,
            final(self).stage.width % 2 == 1,
            final(self).stage.height % 2 == 1,
            rooms_separated(final(self).rooms@),
            final(self).stage.no_dead_ends(),
            final(self).rooms_floor(),
            (old(self).stage.width >= 17 && old(self).stage.height >= 17) ==> final(self).rooms@.len() >= 1,
            (old(self).stage.width >= 3 && old(self).stage.height >= 3) ==> count_carved(
                final(self).stage.tiles@,
            ) >= 1,
            forall|x: int, y: int|
                old(self).stage.in_bounds(x, y) && !old(self).stage.interior(x, y)
                    ==> #[trigger] final(self).stage.tile_at(x, y) == old(self).stage.tile_at(x, y),
    {
        self.add_rooms();
        let mut y: i32 = 1;
        while y < self.stage.height
            invariant
                1 <= y,
                y % 2 == 1,
                self.wf(),
                self.stage.width == old(self).stage.width,
                self.stage.height == old(self).stage.height,
                self.rooms_floor(),
                self.rooms_wide(),
                (old(self).stage.width >= 17 && old(self).stage.height >= 17)
                    ==> self.rooms@.len() >= 1,
                y == 1 ==> self.curr_region < i32::MAX,
                (old(self).stage.width >= 3 && old(self).stage.height >= 3 && y > 1)
                    ==> self.stage.tile_at(1, 1) != Tile::Wall,
                forall|x2: int, y2: int|
                    old(self).stage.in_bounds(x2, y2) ==> #[trigger] self.stage.tile_at(x2, y2)
                        == old(self).stage.tile_at(x2, y2) || old(self).stage.interior(x2, y2),
            decreases self.stage.height - y,
        {
            let mut x: i32 = 1;
            while x < self.stage.width
                invariant
                    1 <= x,
                    x % 2 == 1,
                    1 <= y < self.stage.height,
                    y % 2 == 1,
                    self.wf(),
                    self.stage.width == old(self).stage.width,
                    self.stage.height == old(self).stage.height,
                    self.rooms_floor(),
                    self.rooms_wide(),
                    (old(self).stage.width >= 17 && old(self).stage.height >= 17)
                        ==> self.rooms@.len() >= 1,
                    y == 1 && x == 1 ==> self.curr_region < i32::MAX,
                    (old(self).stage.width >= 3 && old(self).stage.height >= 3 && (y > 1 || x
                        > 1)) ==> self.stage.tile_at(1, 1) != Tile::Wall,
                    forall|x2: int, y2: int|
                        old(self).stage.in_bounds(x2, y2) ==> #[trigger] self.stage.tile_at(
                            x2,
                            y2,
                        ) == old(self).stage.tile_at(x2, y2) || old(self).stage.interior(x2, y2),
                decreases self.stage.width - x,
            {
                let pos = Vector(x, y);
                if self.get_tile(pos) == Tile::Wall && self.curr_region < i32::MAX {
                    self.grow_maze(pos);
                }
                x = x + 2;
            }
            y = y + 2;
        }
        proof {
            if old(self).stage.width >= 3 && old(self).stage.height >= 3 {
                lemma_cell_in_range(self.stage, 1, 1);
                lemma_count_carved_pos(self.stage.tiles@, self.stage.cell(1, 1));
            }
        }
        self.connect_regions();
        proof {
            if old(self).stage.width >= 3 && old(self).stage.height >= 3 {
                assert(self.stage.tile_at(1, 1) != Tile::Wall);
                lemma_cell_in_range(self.stage, 1, 1);
                lemma_count_carved_pos(self.stage.tiles@, self.stage.cell(1, 1));
            }
        }
        self.remove_dead_ends();
    }

    /// Carves a junction tile at a connector: open (a quarter of the time:
    /// door or floor) or a closed door. A no-op out of bounds.
    pub fn add_junction(&mut self, pos: Vector)
        requires
            old(self).wf(),
        ensures
            final(self).wf(),
            final(self).stage.width == old(self).stage.width,
            final(self).stage.height == old(self).stage.height,
            final(self).rooms@ == old(self).rooms@,
            final(self).regions@ == old(self).regions@,
            final(self).curr_region == old(self).curr_region,
            final(self).n_room_tries == old(self).n_room_tries,
            old(self).stage.in_bounds(pos.0 as int, pos.1 as int) ==> final(self).stage.tile_at(
                pos.0 as int,
                pos.1 as int,
            ) != Tile::Wall,
            forall|x: int, y: int|
                old(self).stage.in_bounds(x, y) && (x != pos.0 as int || y != pos.1 as int)
                    ==> #[trigger] final(self).stage.tile_at(x, y) == old(self).stage.tile_at(x, y),
            !old(self).stage.in_bounds(pos.0 as int, pos.1 as int) ==> final(self).stage.tiles@
                == old(self).stage.tiles@,
    {
        if rand_ratio(1, 4) {
            if rand_ratio(1, 3) {
                self.set_tile(pos, Tile::OpenDoor);
            } else {
                self.set_tile(pos, Tile::Floor);
            }
        } else {
            self.set_tile(pos, Tile::ClosedDoor);
        }
    }

    /// Walls off dead ends until none remain: repeated full scans convert
    /// every interior passable cell with exactly one passable neighbor back
    /// to wall, until a scan changes nothing. On a grid already free of
    /// dead ends this changes nothing, so the pass is idempotent.
    #[verifier::loop_isolation(false)]
    #[verifier::rlimit(100)]
    pub fn remove_dead_ends(&mut self)
        requires
            old(self).wf(),
        ensures
            final(self).wf(),
            final(self).stage.width == old(self).stage.width,
            final(self).stage.height == old(self).stage.height,
            final(self).rooms@ == old(self).rooms@,
            final(self).regions@ == old(self).regions@,
            final(self).curr_region == old(self).curr_region,
            final(self).n_room_tries == old(self).n_room_tries,
            final(self).stage.no_dead_ends(),
            forall|x: int, y: int|
                old(self).stage.in_bounds(x, y) ==> #[trigger] final(self).stage.tile_at(x, y)
                    == old(self).stage.tile_at(x, y) || (final(self).stage.tile_at(x, y)
                    == Tile::Wall && old(self).stage.tile_at(x, y) != Tile::Wall && old(
                    self,
                ).stage.interior(x, y)),
            (old(self).rooms_wide() && old(self).rooms_open()) ==> forall|i: int, x: int, y: int|
                #![trigger final(self).rooms@[i], final(self).stage.tile_at(x, y)]
                0 <= i < final(self).rooms@.len() && in_room(final(self).rooms@[i], x, y)
                    ==> final(self).stage.tile_at(x, y) == old(self).stage.tile_at(x, y),
            old(self).stage.no_dead_ends() ==> final(self).stage.tiles@ == old(self).stage.tiles@,
            count_carved(old(self).stage.tiles@) >= 1 ==> count_carved(final(self).stage.tiles@)
                >= 1,
    {
        let mut done = false;
        while !done
            invariant
                self.wf(),
                self.stage.width == old(self).stage.width,
                self.stage.height == old(self).stage.height,
                self.rooms@ == old(self).rooms@,
                self.regions@ == old(self).regions@,
                self.curr_region == old(self).curr_region,
                self.n_room_tries == old(self).n_room_tries,
                done ==> self.stage.no_dead_ends(),
                forall|x: int, y: int|
                    old(self).stage.in_bounds(x, y) ==> #[trigger] self.stage.tile_at(x, y) == old(
                        self,
                    ).stage.tile_at(x, y) || (self.stage.tile_at(x, y) == Tile::Wall && old(
                        self,
                    ).stage.tile_at(x, y) != Tile::Wall && old(self).stage.interior(x, y)),
                (old(self).rooms_wide() && old(self).rooms_open()) ==> forall|
                    i: int,
                    x: int,
                    y: int,
                |
                    #![trigger self.rooms@[i], self.stage.tile_at(x, y)]
                    0 <= i < self.rooms@.len() && in_room(self.rooms@[i], x, y)
                        ==> self.stage.tile_at(x, y) == old(self).stage.tile_at(x, y),
                old(self).stage.no_dead_ends() ==> self.stage.tiles@ == old(self).stage.tiles@,
                count_carved(old(self).stage.tiles@) >= 1 ==> count_carved(self.stage.tiles@)
                    >= 1,
            decreases count_carved(self.stage.tiles@) + (if done {
                0int
            } else {
                1int
            }),
        {
            proof {
                lemma_count_carved_bounds(self.stage.tiles@);
            }
            done = true;
            let ghost pass = self.stage;
            let mut y: i32 = 1;
            while y < self.stage.height - 1
                invariant
                    1 <= y,
                    self.wf(),
                    self.stage.width == old(self).stage.width,
                    self.stage.height == old(self).stage.height,
                    self.rooms@ == old(self).rooms@,
                    self.regions@ == old(self).regions@,
                    self.curr_region == old(self).curr_region,
                    self.n_room_tries == old(self).n_room_tries,
                    done ==> self.stage == pass,
                    done ==> forall|px: int, py: int|
                        py < y ==> !(#[trigger] self.stage.dead_end(px, py)),
                    forall|x: int, y: int|
                        old(self).stage.in_bounds(x, y) ==> #[trigger] self.stage.tile_at(x, y)
                            == old(self).stage.tile_at(x, y) || (self.stage.tile_at(x, y)
                            == Tile::Wall && old(self).stage.tile_at(x, y) != Tile::Wall && old(
                            self,
                        ).stage.interior(x, y)),
                    (old(self).rooms_wide() && old(self).rooms_open()) ==> forall|
                        i: int,
                        x: int,
                        y: int,
                    |
                        #![trigger self.rooms@[i], self.stage.tile_at(x, y)]
                        0 <= i < self.rooms@.len() && in_room(self.rooms@[i], x, y)
                            ==> self.stage.tile_at(x, y) == old(self).stage.tile_at(x, y),
                    old(self).stage.no_dead_ends() ==> self.stage.tiles@ == old(
                        self,
                    ).stage.tiles@,
                    count_carved(old(self).stage.tiles@) >= 1 ==> count_carved(
                        self.stage.tiles@,
                    ) >= 1,
                    count_carved(self.stage.tiles@) <= count_carved(pass.tiles@),
                    !done ==> count_carved(self.stage.tiles@) < count_carved(pass.tiles@),
                decreases self.stage.height - 1 - y,
            {
                let mut x: i32 = 1;
                while x < self.stage.width - 1
                    invariant
                        1 <= x,
                        1 <= y < self.stage.height - 1,
                        self.wf(),
                        self.stage.width == old(self).stage.width,
                        self.stage.height == old(self).stage.height,
                        self.rooms@ == old(self).rooms@,
                        self.regions@ == old(self).regions@,
                        self.curr_region == old(self).curr_region,
                        self.n_room_tries == old(self).n_room_tries,
                        done ==> self.stage == pass,
                        done ==> forall|px: int, py: int|
                            py < y ==> !(#[trigger] self.stage.dead_end(px, py)),
                        done ==> forall|px: int|
                            px < x ==> !(#[trigger] self.stage.dead_end(px, y as int)),
                        forall|x: int, y: int|
                            old(self).stage.in_bounds(x, y) ==> #[trigger] self.stage.tile_at(x, y)
                                == old(self).stage.tile_at(x, y) || (self.stage.tile_at(x, y)
                                == Tile::Wall && old(self).stage.tile_at(x, y) != Tile::Wall && old(
                                self,
                            ).stage.interior(x, y)),
                        (old(self).rooms_wide() && old(self).rooms_open()) ==> forall|
                            i: int,
                            x2: int,
                            y2: int,
                        |
                            #![trigger self.rooms@[i], self.stage.tile_at(x2, y2)]
                            0 <= i < self.rooms@.len() && in_room(self.rooms@[i], x2, y2)
                                ==> self.stage.tile_at(x2, y2) == old(self).stage.tile_at(x2, y2),
                        old(self).stage.no_dead_ends() ==> self.stage.tiles@ == old(
                            self,
                        ).stage.tiles@,
                        count_carved(old(self).stage.tiles@) >= 1 ==> count_carved(
                            self.stage.tiles@,
                        ) >= 1,
                        count_carved(self.stage.tiles@) <= count_carved(pass.tiles@),
                        !done ==> count_carved(self.stage.tiles@) < count_carved(pass.tiles@),
                    decreases self.stage.width - 1 - x,
                {
                    let pos = Vector(x, y);
                    if self.get_tile(pos) != Tile::Wall {
                        let exits = self.count_exits(x, y);
                        if exits == 1 {
                            proof {
                                if old(self).stage.no_dead_ends() {
                                    assert(self.stage.tiles@ == old(self).stage.tiles@);
                                    assert(old(self).stage.dead_end(x as int, y as int));
                                    assert(false);
                                }
                                if old(self).rooms_wide() && old(self).rooms_open() {
                                    assert forall|i: int|
                                        0 <= i < self.rooms@.len() implies !in_room(
                                        #[trigger] self.rooms@[i],
                                        x as int,
                                        y as int,
                                    ) by {
                                        if in_room(self.rooms@[i], x as int, y as int) {
                                            let r = self.rooms@[i];
                                            if x as int > r.x {
                                                assert(in_room(r, x as int - 1, y as int));
                                                assert(self.stage.open_at(x as int - 1, y as int));
                                            } else {
                                                assert(in_room(r, x as int + 1, y as int));
                                                assert(self.stage.open_at(x as int + 1, y as int));
                                            }
                                            if y as int > r.y {
                                                assert(in_room(r, x as int, y as int - 1));
                                                assert(self.stage.open_at(x as int, y as int - 1));
                                            } else {
                                                assert(in_room(r, x as int, y as int + 1));
                                                assert(self.stage.open_at(x as int, y as int + 1));
                                            }
                                            assert(self.stage.exit_count(x as int, y as int) >= 2);
                                            assert(false);
                                        }
                                    }
                                }
                            }
                            done = false;
                            let ghost stage_before = self.stage;
                            let ghost before = self.stage.tiles@;
                            self.set_tile(pos, Tile::Wall);
                            proof {
                                lemma_cell_in_range(pass, x as int, y as int);
                                lemma_count_carved_update(
                                    before,
                                    self.stage.cell(x as int, y as int),
                                    Tile::Wall,
                                );
                                if stage_before.open_at(x as int, y as int - 1) {
                                    lemma_cell_in_range(self.stage, x as int, y as int - 1);
                                    assert(self.stage.open_at(x as int, y as int - 1));
                                    lemma_count_carved_pos(
                                        self.stage.tiles@,
                                        self.stage.cell(x as int, y as int - 1),
                                    );
                                } else if stage_before.open_at(x as int + 1, y as int) {
                                    lemma_cell_in_range(self.stage, x as int + 1, y as int);
                                    assert(self.stage.open_at(x as int + 1, y as int));
                                    lemma_count_carved_pos(
                                        self.stage.tiles@,
                                        self.stage.cell(x as int + 1, y as int),
                                    );
                                } else if stage_before.open_at(x as int, y as int + 1) {
                                    lemma_cell_in_range(self.stage, x as int, y as int + 1);
                                    assert(self.stage.open_at(x as int, y as int + 1));
                                    lemma_count_carved_pos(
                                        self.stage.tiles@,
                                        self.stage.cell(x as int, y as int + 1),
                                    );
                                } else {
                                    assert(stage_before.open_at(x as int - 1, y as int));
                                    lemma_cell_in_range(self.stage, x as int - 1, y as int);
                                    assert(self.stage.open_at(x as int - 1, y as int));
                                    lemma_count_carved_pos(
                                        self.stage.tiles@,
                                        self.stage.cell(x as int - 1, y as int),
                                    );
                                }
                            }
                        }
                    }
                    x = x + 1;
                }
                y = y + 1;
            }
            proof {
                lemma_count_carved_bounds(self.stage.tiles@);
            }
        }
    }
}

/// Returns the cardinal direction with the given scan index.
pub fn cardinal(i: usize) -> (d: Vector)
    requires
        i < 4,
    ensures
        d == spec_cardinal(i as int),
        is_cardinal(d),
{
    if i == 0 {
        Vector(0, -1)
    } else if i == 1 {
        Vector(1, 0)
    } else if i == 2 {
        Vector(0, 1)
    } else {
        Vector(-1, 0)
    }
}

/// Linear search for a direction vector.
fn contains_vec(v: &Vec<Vector>, x: Vector) -> (r: bool)
    ensures
        r == exists|k: int| 0 <= k < v@.len() && (#[trigger] v@[k]) == x,
{
    let mut i: usize = 0;
    let mut found = false;
    while i < v.len()
        invariant
            i <= v@.len(),
            found == exists|k: int| 0 <= k < i && (#[trigger] v@[k]) == x,
        decreases v@.len() - i,
    {
        if v[i] == x {
            found = true;
        }
        i = i + 1;
    }
    found
}

/// Linear search for a region id.
fn contains_i32(v: &Vec<i32>, x: i32) -> (r: bool)
    ensures
        r == exists|k: int| 0 <= k < v@.len() && (#[trigger] v@[k]) == x,
{
    let mut i: usize = 0;
    let mut found = false;
    while i < v.len()
        invariant
            i <= v@.len(),
            found == exists|k: int| 0 <= k < i && (#[trigger] v@[k]) == x,
        decreases v@.len() - i,
    {
        if v[i] == x {
            found = true;
        }
        i = i + 1;
    }
    found
}

/// For a grid at least three cells wide and high whose area fits in `i32`,
/// both dimensions, and their sum, stay well clear of `i32::MAX`.
pub proof fn lemma_dims_bound(w: int, h: int)
    requires
        3 <= w,
        3 <= h,
        w * h <= i32::MAX,
    ensures
        w <= i32::MAX / 3,
        h <= i32::MAX / 3,
        w + h <= i32::MAX - 6,
{
    assert(3 * w <= w * h) by (nonlinear_arith)
        requires
            3 <= h,
            0 <= w,
    ;
    assert(3 * h <= w * h) by (nonlinear_arith)
        requires
            3 <= w,
            0 <= h,
    ;
}

/// Maze steps stay on the odd lattice: from an odd-aligned cell, one
/// two-cell step along a cardinal direction lands on an odd-aligned cell
/// exactly two apart in Manhattan distance.
pub proof fn lemma_maze_step_on_lattice(x: int, y: int, d: Vector)
    requires
        x % 2 == 1,
        y % 2 == 1,
        is_cardinal(d),
    ensures
        (x + 2 * d.0) % 2 == 1,
        (y + 2 * d.1) % 2 == 1,
        abs_int(2 * d.0) + abs_int(2 * d.1) == 2,
{
}

/// On an odd-by-odd grid, every odd-aligned in-bounds cell is interior.
pub proof fn lemma_odd_cell_interior(s: Stage, x: int, y: int)
    requires
        s.wf(),
        s.width % 2 == 1,
        s.height % 2 == 1,
        x % 2 == 1,
        y % 2 == 1,
        s.in_bounds(x, y),
    ensures
        s.interior(x, y),
{
}

/// The two cells a maze step carves are interior, and the far one stays on
/// the odd lattice.
proof fn lemma_step_cells(s: Stage, cell: Vector, d: Vector)
    requires
        s.wf(),
        s.width % 2 == 1,
        s.height % 2 == 1,
        is_cardinal(d),
        cell.0 % 2 == 1,
        cell.1 % 2 == 1,
        s.in_bounds(cell.0 as int, cell.1 as int),
        s.in_bounds(cell.0 + 3 * d.0, cell.1 + 3 * d.1),
    ensures
        s.interior(cell.0 + d.0, cell.1 + d.1),
        s.interior(cell.0 + 2 * d.0, cell.1 + 2 * d.1),
        (cell.0 + 2 * d.0) % 2 == 1,
        (cell.1 + 2 * d.1) % 2 == 1,
{
    lemma_odd_cell_interior(s, cell.0 as int, cell.1 as int);
}

/// Counts the regions still open.
fn count_open(v: &Vec<bool>) -> (n: usize)
    ensures
        n as int == count_true(v@),
{
    let mut n: usize = 0;
    let mut i: usize = 0;
    while i < v.len()
        invariant
            i <= v@.len(),
            n <= i,
            n as int == count_true(v@.take(i as int)),
        decreases v@.len() - i,
    {
        if v[i] {
            n = n + 1;
        }
        proof {
            assert(v@.take(i as int + 1).drop_last() =~= v@.take(i as int));
            assert(v@.take(i as int + 1).last() == v@[i as int]);
        }
        i = i + 1;
    }
    proof {
        assert(v@.take(v@.len() as int) =~= v@);
    }
    n
}

} // verus!
