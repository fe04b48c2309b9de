//! The tile grid of a level, its row-major indexing and status bits, and
//! the rectangles that rooms are carved from.

use vstd::arithmetic::div_mod::lemma_fundamental_div_mod_converse;
use vstd::prelude::*;

verus! {

/// Largest number of tiles a map may hold.
pub const MAX_TILES: i32 = 0x100_0000;

/// Status bit: the tile is currently in the player's view.
pub const VISIBLE: u8 = 1;

/// Status bit: the tile has been seen at some point.
pub const REVEALED: u8 = 2;

/// Status bit: something on the tile blocks movement.
pub const BLOCKED: u8 = 4;

#[derive(PartialEq, Eq, Structural, Clone, Copy, Debug)]
pub enum TileKind {
    Wall,
    Floor,
    DownStairs,
}

/// Floor and stairs can be stepped on; walls cannot.
pub open spec fn is_open(t: TileKind) -> bool {
    t != TileKind::Wall
}

/// Row-major position of `(x, y)` in a grid of width `w`.
pub open spec fn idx_of(w: int, x: int, y: int) -> int {
    y * w + x
}

/// Coordinates of position `i` in a grid of width `w`.
pub open spec fn xy_of(w: int, i: int) -> (int, int) {
    (i % w, i / w)
}

/// The tile grid of one level.
pub struct GridMap {
    pub width: i32,
    pub height: i32,
    pub depth: i32,
    pub tiles: Vec<TileKind>,
    pub status: Vec<u8>,
    /// Entity ids standing on each tile; rebuilt every turn.
    pub tile_content: Vec<Vec<u64>>,
}

impl GridMap {
    /// Number of tiles.
    pub open spec fn size(&self) -> int {
        self.width * self.height
    }

    pub open spec fn wf(&self) -> bool {
        &&& 1 <= self.width
        &&& 1 <= self.height
        &&& self.width * self.height <= MAX_TILES
        &&& self.tiles@.len() == self.size()
        &&& self.status@.len() == self.size()
        &&& self.tile_content@.len() == self.size()
    }

    pub open spec fn in_bounds(&self, x: int, y: int) -> bool {
        0 <= x < self.width && 0 <= y < self.height
    }

    /// A map of the given size whose tiles are all walls.
    pub fn new(width: i32, height: i32, depth: i32) -> (m: GridMap)
        requires
            1 <= width,
            1 <= height,
            width * height <= MAX_TILES,
        ensures
            m.wf(),
            m.width == width,
            m.height == height,
            m.depth == depth,
            forall|i: int| 0 <= i < m.size() ==> m.tiles@[i] == TileKind::Wall,
            forall|i: int| 0 <= i < m.size() ==> m.status@[i] == 0,
            forall|i: int| 0 <= i < m.size() ==> m.tile_content@[i]@.len() == 0,
    {
        let n = (width as usize) * (height as usize);
        let mut tiles: Vec<TileKind> = Vec::new();
        let mut status: Vec<u8> = Vec::new();
        let mut tile_content: Vec<Vec<u64>> = Vec::new();
        let mut i: usize = 0;
        while i < n
            invariant
                i <= n,
                n == width * height,
                tiles@.len() == i,
                status@.len() == i,
                tile_content@.len() == i,
                forall|k: int| 0 <= k < i ==> tiles@[k] == TileKind::Wall,
                forall|k: int| 0 <= k < i ==> status@[k] == 0,
                forall|k: int| 0 <= k < i ==> tile_content@[k]@.len() == 0,
            decreases n - i,
        {
            tiles.push(TileKind::Wall);
            status.push(0);
            tile_content.push(Vec::new());
            i = i + 1;
        }
        GridMap { width, height, depth, tiles, status, tile_content }
    }

    /// Index of tile `(x, y)`.
    pub fn xy_idx(&self, x: i32, y: i32) -> (r: usize)
        requires
            self.wf(),
            self.in_bounds(x as int, y as int),
        ensures
            r == idx_of(self.width as int, x as int, y as int),
            r < self.size(),
    {
        proof {
            lemma_index_in_range(self.width as int, self.height as int, x as int, y as int);
        }
        (y as usize) * (self.width as usize) + (x as usize)
    }

    /// Coordinates of tile `idx`.
    pub fn idx_xy(&self, idx: usize) -> (r: (i32, i32))
        requires
            self.wf(),
            idx < self.size(),
        ensures
            (r.0 as int, r.1 as int) == xy_of(self.width as int, idx as int),
            self.in_bounds(r.0 as int, r.1 as int),
    {
        let w = self.width as usize;
        let x = idx % w;
        let y = idx / w;
        proof {
            assert(y * w <= idx) by (nonlinear_arith)
                requires
                    y == idx / w,
                    w > 0,
            ;
            assert(y < self.height) by (nonlinear_arith)
                requires
                    y == idx / w,
                    w > 0,
                    idx < w * self.height,
            ;
        }
        (x as i32, y as i32)
    }

    /// Floor or stairs, and not blocked.
    pub fn is_walkable(&self, idx: usize) -> (r: bool)
        requires
            self.wf(),
            idx < self.size(),
        ensures
            r == (is_open(self.tiles@[idx as int]) && self.status@[idx as int] & BLOCKED == 0),
    {
        let t = self.tiles[idx];
        let open = match t {
            TileKind::Wall => false,
            _ => true,
        };
        open && self.status[idx] & BLOCKED == 0
    }

    pub fn has_status(&self, idx: usize, flag: u8) -> (r: bool)
        requires
            self.wf(),
            idx < self.size(),
        ensures
            r == (self.status@[idx as int] & flag != 0),
    {
        self.status[idx] & flag != 0
    }

    pub fn set_status(&mut self, idx: usize, flag: u8)
        requires
            old(self).wf(),
            idx < old(self).size(),
        ensures
            final(self).wf(),
            final(self).width == old(self).width,
            final(self).height == old(self).height,
            final(self).depth == old(self).depth,
            final(self).tiles == old(self).tiles,
            final(self).tile_content == old(self).tile_content,
            final(self).status@ == old(self).status@.update(
                idx as int,
                old(self).status@[idx as int] | flag,
            ),
    {
        let s = self.status[idx];
        self.status.set(idx, s | flag);
    }

    pub fn clear_status(&mut self, idx: usize, flag: u8)
        requires
            old(self).wf(),
            idx < old(self).size(),
        ensures
            final(self).wf(),
            final(self).width == old(self).width,
            final(self).height == old(self).height,
            final(self).depth == old(self).depth,
            final(self).tiles == old(self).tiles,
            final(self).tile_content == old(self).tile_content,
            final(self).status@ == old(self).status@.update(
                idx as int,
                old(self).status@[idx as int] & !flag,
            ),
    {
        let s = self.status[idx];
        self.status.set(idx, s & !flag);
    }
}

/// Positions inside the grid have indexes inside it.
pub proof fn lemma_index_in_range(w: int, h: int, x: int, y: int)
    requires
        0 <= x < w,
        0 <= y < h,
    ensures
        0 <= idx_of(w, x, y) < w * h,
{
    assert(0 <= y * w + x < w * h) by (nonlinear_arith)
        requires
            0 <= x < w,
            0 <= y < h,
    ;
}

/// Turning a position into an index and back gives the position again.
pub proof fn lemma_index_round_trip(w: int, h: int, x: int, y: int)
    requires
        0 <= x < w,
        0 <= y < h,
    ensures
        xy_of(w, idx_of(w, x, y)) == (x, y),
{
    lemma_fundamental_div_mod_converse(y * w + x, w, y, x);
}

/// Half of `v`, rounded toward zero as integer division does.
pub open spec fn half_toward_zero(v: int) -> int {
    if v >= 0 {
        v / 2
    } else {
        -((-v) / 2)
    }
}

/// A rectangle from `(x1, y1)` to `(x2, y2)`; its interior is carved as a room.
#[derive(PartialEq, Eq, Structural, Clone, Copy, Debug)]
pub struct Rect {
    pub x1: i32,
    pub y1: i32,
    pub x2: i32,
    pub y2: i32,
}

impl Rect {
    pub fn new(x: i32, y: i32, w: i32, h: i32) -> (r: Rect)
        requires
            i32::MIN <= x + w <= i32::MAX,
            i32::MIN <= y + h <= i32::MAX,
        ensures
            r.x1 == x && r.y1 == y && r.x2 == x + w && r.y2 == y + h,
    {
        Rect { x1: x, y1: y, x2: x + w, y2: y + h }
    }

    pub open spec fn overlaps(&self, o: Rect) -> bool {
        self.x1 <= o.x2 && self.x2 >= o.x1 && self.y1 <= o.y2 && self.y2 >= o.y1
    }

    /// Overlap test that counts shared edges, so carved interiors never touch.
    pub fn intersects(&self, other: &Rect) -> (r: bool)
        ensures
            r == self.overlaps(*other),
    {
        self.x1 <= other.x2 && self.x2 >= other.x1 && self.y1 <= other.y2 && self.y2 >= other.y1
    }

    pub open spec fn center_spec(&self) -> (int, int) {
        (half_toward_zero(self.x1 + self.x2), half_toward_zero(self.y1 + self.y2))
    }

    pub fn center(&self) -> (r: (i32, i32))
        ensures
            (r.0 as int, r.1 as int) == self.center_spec(),
    {
        let cx = ((self.x1 as i64 + self.x2 as i64) / 2) as i32;
        let cy = ((self.y1 as i64 + self.y2 as i64) / 2) as i32;
        (cx, cy)
    }
}

} // verus!
