use vstd::prelude::*;

verus! {

/// The two kinds of tile a map is made of.
#[derive(Debug, Clone, Copy, PartialEq, Eq, Structural)]
pub enum TileType {
    Floor,
    Wall,
}

/// Returned when a coordinate or index lies outside the map.
#[derive(Debug, PartialEq, Eq, Structural)]
pub struct OutsideMapError;

/// The concrete tile layout of a map: `width * height` tiles, row by row.
#[derive(Debug)]
pub struct GameMap {
    pub width: u32,
    pub height: u32,
    pub tiles: Vec<TileType>,
}

/// Linear index of the tile at `(x, y)` in a map of the given width.
pub open spec fn index_of(width: int, x: int, y: int) -> int {
    y * width + x
}

/// Coordinate of the tile at linear index `idx` in a map of the given width.
pub open spec fn coord_of(width: int, idx: int) -> (int, int) {
    (idx % width, idx / width)
}

/// Whether `(x, y)` lies inside a map of the given dimensions.
pub open spec fn in_bounds(width: int, height: int, x: int, y: int) -> bool {
    0 <= x < width && 0 <= y < height
}

/// The index of a coordinate inside the map lies below `width * height`.
pub proof fn lemma_index_in_range(width: int, height: int, x: int, y: int)
    requires
        in_bounds(width, height, x, y),
    ensures
        0 <= index_of(width, x, y) < width * height,
{
    assert(0 <= y * width) by (nonlinear_arith)
        requires
            0 <= y,
            0 < width,
    ;
    assert(y * width + x < width * height) by (nonlinear_arith)
        requires
            0 <= x < width,
            0 <= y < height,
    ;
}

/// Mapping a coordinate to its index and back gives the coordinate again.
pub proof fn lemma_coord_of_index(width: int, height: int, x: int, y: int)
    requires
        in_bounds(width, height, x, y),
    ensures
        coord_of(width, index_of(width, x, y)) == (x, y),
{
    vstd::arithmetic::div_mod::lemma_fundamental_div_mod_converse(y * width + x, width, y, x);
}

/// Mapping an index to its coordinate and back gives the index again.
pub proof fn lemma_index_of_coord(width: int, height: int, idx: int)
    requires
        0 < width,
        0 < height,
        0 <= idx < width * height,
    ensures
        in_bounds(width, height, coord_of(width, idx).0, coord_of(width, idx).1),
        index_of(width, coord_of(width, idx).0, coord_of(width, idx).1) == idx,
{
    vstd::arithmetic::div_mod::lemma_fundamental_div_mod(idx, width);
    vstd::arithmetic::div_mod::lemma_mod_bound(idx, width);
    vstd::arithmetic::div_mod::lemma_div_pos_is_pos(idx, width);
    let q = idx / width;
    let r = idx % width;
    assert(q < height) by (nonlinear_arith)
        requires
            idx == width * q + r,
            0 <= r,
            idx < width * height,
            0 < width,
    ;
    assert(q * width == width * q) by (nonlinear_arith);
}

/// Whether some tile is a floor tile.
pub open spec fn has_floor(tiles: Seq<TileType>) -> bool {
    exists|j: int| 0 <= j < tiles.len() && tiles[j] == TileType::Floor
}

/// `j` is the floor tile found by searching forward from `start`, or, when
/// there is none from `start` on, backward from just before `start`.
pub open spec fn nearest_floor(tiles: Seq<TileType>, start: int, j: int) -> bool {
    &&& 0 <= j < tiles.len()
    &&& tiles[j] == TileType::Floor
    &&& if start <= j {
        forall|k: int| start <= k < j ==> tiles[k] != TileType::Floor
    } else {
        &&& forall|k: int| start <= k < tiles.len() ==> tiles[k] != TileType::Floor
        &&& forall|k: int| j < k < start && k < tiles.len() ==> tiles[k] != TileType::Floor
    }
}

/// Whether `p` lies in the box `xl <= x < xe`, `yl <= y < ye`.
pub open spec fn in_box(p: (u32, u32), xl: int, xe: int, yl: int, ye: int) -> bool {
    xl <= p.0 < xe && yl <= p.1 < ye
}

/// Whether `a` and `b` are orthogonal neighbours.
pub open spec fn adjacent(a: (u32, u32), b: (u32, u32)) -> bool {
    ||| a.1 == b.1 && (a.0 + 1 == b.0 || b.0 + 1 == a.0)
    ||| a.0 == b.0 && (a.1 + 1 == b.1 || b.1 + 1 == a.1)
}

/// The `(x, y)` position of linear index `idx` in a map of the given width.
pub open spec fn pos_of(width: int, idx: int) -> (u32, u32) {
    ((idx % width) as u32, (idx / width) as u32)
}

/// Whether some entry has `q` as its node.
pub open spec fn has_key(r: Seq<((u32, u32), u64)>, q: (u32, u32)) -> bool {
    exists|i: int| 0 <= i < r.len() && r[i].0 == q
}

/// The neighbour of `p` in direction `d` (east, south, north, west), if it
/// has coordinates.
pub open spec fn step_from(p: (u32, u32), d: u8) -> Option<(u32, u32)> {
    if d == 0 {
        if p.0 < u32::MAX { Some(((p.0 + 1) as u32, p.1)) } else { None }
    } else if d == 1 {
        if p.1 < u32::MAX { Some((p.0, (p.1 + 1) as u32)) } else { None }
    } else if d == 2 {
        if p.1 > 0 { Some((p.0, (p.1 - 1) as u32)) } else { None }
    } else {
        if p.0 > 0 { Some(((p.0 - 1) as u32, p.1)) } else { None }
    }
}

fn step(p: (u32, u32), d: u8) -> (r: Option<(u32, u32)>)
    ensures
        r == step_from(p, d),
        r matches Some(q) ==> adjacent(p, q),
{
    if d == 0 {
        if p.0 < u32::MAX { Some((p.0 + 1, p.1)) } else { None }
    } else if d == 1 {
        if p.1 < u32::MAX { Some((p.0, p.1 + 1)) } else { None }
    } else if d == 2 {
        if p.1 > 0 { Some((p.0, p.1 - 1)) } else { None }
    } else {
        if p.0 > 0 { Some((p.0 - 1, p.1)) } else { None }
    }
}

proof fn lemma_adjacent_is_step(p: (u32, u32), q: (u32, u32))
    requires
        adjacent(p, q),
    ensures
        exists|e: u8| e < 4 && step_from(p, e) == Some(q),
{
    if q.1 == p.1 && q.0 == p.0 + 1 {
        assert(step_from(p, 0) == Some(q));
    } else if q.0 == p.0 && q.1 == p.1 + 1 {
        assert(step_from(p, 1) == Some(q));
    } else if q.0 == p.0 && p.1 == q.1 + 1 {
        assert(step_from(p, 2) == Some(q));
    } else {
        assert(step_from(p, 3) == Some(q));
    }
}

/// Distinct indices of a map have distinct positions, and an index has the
/// position `p` exactly when it is the index of `p`.
pub proof fn lemma_pos_of_index(width: int, height: int, i: int, p: (u32, u32))
    requires
        0 < width,
        0 < height,
        width <= u32::MAX,
        height <= u32::MAX,
        0 <= i < width * height,
    ensures
        (pos_of(width, i) == p) <==> (in_bounds(width, height, p.0 as int, p.1 as int) && i == index_of(width, p.0 as int, p.1 as int)),
        in_bounds(width, height, pos_of(width, i).0 as int, pos_of(width, i).1 as int),
{
    lemma_index_of_coord(width, height, i);
    assert(pos_of(width, i).0 == i % width && pos_of(width, i).1 == i / width);
    if in_bounds(width, height, p.0 as int, p.1 as int) {
        lemma_coord_of_index(width, height, p.0 as int, p.1 as int);
    }
}

impl GameMap {
    /// Dimensions are positive, the tile count fits in a `u32`, and there is one tile per cell.
    pub open spec fn wf(&self) -> bool {
        &&& self.width > 0
        &&& self.height > 0
        &&& self.width * self.height <= u32::MAX
        &&& self.tiles@.len() == self.width * self.height
    }

    /// The tile at `(x, y)`.
    pub open spec fn tile_at(&self, x: int, y: int) -> TileType {
        self.tiles@[index_of(self.width as int, x, y)]
    }

    /// Whether `(x, y)` lies inside this map.
    pub open spec fn contains(&self, x: int, y: int) -> bool {
        in_bounds(self.width as int, self.height as int, x, y)
    }

    /// Whether `p` lies inside the map on a floor tile.
    pub open spec fn is_floor_at(&self, p: (u32, u32)) -> bool {
        self.contains(p.0 as int, p.1 as int) && self.tile_at(p.0 as int, p.1 as int) == TileType::Floor
    }

    /// A walk: each step goes to an orthogonal neighbour that is a floor tile
    /// (the first position may be any).
    pub open spec fn is_walk(&self, path: Seq<(u32, u32)>) -> bool {
        &&& path.len() >= 1
        &&& forall|i: int| 1 <= i < path.len() ==> adjacent(path[i - 1], #[trigger] path[i]) && self.is_floor_at(path[i])
    }

    /// Whether some walk leads from `from` to `to`.
    pub open spec fn reachable(&self, from: (u32, u32), to: (u32, u32)) -> bool {
        exists|path: Seq<(u32, u32)>| #[trigger] self.is_walk(path) && path[0] == from && path.last() == to
    }

    /// The orthogonal neighbours of `p` that are floor tiles, each with a step cost of one.
    pub fn open_neighbours(&self, p: (u32, u32)) -> (r: Vec<((u32, u32), u64)>)
        requires
            self.wf(),
        ensures
            forall|i: int| 0 <= i < r@.len() ==> (#[trigger] r@[i]).1 == 1,
            forall|q: (u32, u32)| #[trigger] adjacent(p, q) && self.is_floor_at(q) ==> has_key(r@, q),
            forall|i: int| 0 <= i < r@.len() ==> adjacent(p, (#[trigger] r@[i]).0) && self.is_floor_at(r@[i].0),
    {
        let mut r: Vec<((u32, u32), u64)> = Vec::new();
        let mut d: u8 = 0;
        while d < 4
            invariant
                self.wf(),
                d <= 4,
                forall|i: int| 0 <= i < r@.len() ==> (#[trigger] r@[i]).1 == 1,
                forall|i: int| 0 <= i < r@.len() ==> adjacent(p, (#[trigger] r@[i]).0) && self.is_floor_at(r@[i].0),
                forall|e: u8| e < d ==> (#[trigger] step_from(p, e) is Some && self.is_floor_at(step_from(p, e)->0) ==> has_key(r@, step_from(p, e)->0)),
            decreases 4 - d,
        {
            let ghost before = r@;
            match step(p, d) {
                Some(q) => {
                    if let Ok(idx) = self.xy_to_idx(q.0, q.1) {
                        if self.tiles[idx] == TileType::Floor {
                            r.push((q, 1));
                            assert(r@[r@.len() - 1].0 == q);
                            assert(has_key(r@, q));
                        }
                    }
                },
                None => {},
            }
            assert forall|e: u8| e < d + 1 && #[trigger] step_from(p, e) is Some && self.is_floor_at(step_from(p, e)->0) implies has_key(r@, step_from(p, e)->0) by {
                if e < d {
                    if let Some(q) = step_from(p, e) {
                        if self.is_floor_at(q) {
                            let i = choose|i: int| 0 <= i < before.len() && before[i].0 == q;
                            assert(r@[i] == before[i]);
                            assert(has_key(r@, q));
                        }
                    }
                }
            }
            d = d + 1;
        }
        assert forall|q: (u32, u32)| #[trigger] adjacent(p, q) && self.is_floor_at(q) implies has_key(r@, q) by {
            lemma_adjacent_is_step(p, q);
            let e = choose|e: u8| e < 4 && step_from(p, e) == Some(q);
            assert(has_key(r@, q));
        }
        r
    }

    /// Makes the tile at `(x, y)` a floor tile; nothing changes when the
    /// position lies outside the map.
    pub fn set_floor(&mut self, x: u64, y: u64)
        requires
            old(self).wf(),
        ensures
            final(self).wf(),
            final(self).width == old(self).width,
            final(self).height == old(self).height,
            forall|i: int| 0 <= i < old(self).tiles@.len() ==> #[trigger] final(self).tiles@[i] == if pos_of(old(self).width as int, i).0 == x
                && pos_of(old(self).width as int, i).1 == y {
                TileType::Floor
            } else {
                old(self).tiles@[i]
            },
    {
        let ghost w = self.width as int;
        let ghost h = self.height as int;
        if x < self.width as u64 && y < self.height as u64 {
            if let Ok(idx) = self.xy_to_idx(x as u32, y as u32) {
                self.tiles.set(idx, TileType::Floor);
            }
        }
        assert forall|i: int| 0 <= i < old(self).tiles@.len() implies #[trigger] self.tiles@[i] == if pos_of(w, i).0 == x
            && pos_of(w, i).1 == y {
            TileType::Floor
        } else {
            old(self).tiles@[i]
        } by {
            lemma_pos_of_index(w, h, i, (x as u32, y as u32));
        }
    }

    /// Makes floor of every tile `(x, y)` of the map with `xl <= x < xe`
    /// and `yl <= y < ye`.
    pub fn carve_box(&mut self, xl: u64, xe: u64, yl: u64, ye: u64)
        requires
            old(self).wf(),
            xe <= u32::MAX as u64 + 1,
            ye <= u32::MAX as u64 + 1,
        ensures
            final(self).wf(),
            final(self).width == old(self).width,
            final(self).height == old(self).height,
            forall|i: int| 0 <= i < old(self).tiles@.len() ==> #[trigger] final(self).tiles@[i] == if in_box(pos_of(old(self).width as int, i), xl as int, xe as int, yl as int, ye as int) {
                TileType::Floor
            } else {
                old(self).tiles@[i]
            },
    {
        let ghost w = old(self).width as int;
        let ghost len = old(self).tiles@.len();
        let mut y: u64 = yl;
        while y < ye
            invariant
                self.wf(),
                self.width == old(self).width,
                self.height == old(self).height,
                yl <= y <= ye || y == yl,
                ye <= u32::MAX as u64 + 1,
                xe <= u32::MAX as u64 + 1,
                len == self.tiles@.len(),
                len == old(self).tiles@.len(),
                w == old(self).width,
                forall|i: int| 0 <= i < len ==> #[trigger] self.tiles@[i] == if in_box(pos_of(w, i), xl as int, xe as int, yl as int, y as int) {
                    TileType::Floor
                } else {
                    old(self).tiles@[i]
                },
            decreases ye - y,
        {
            let mut x: u64 = xl;
            while x < xe
                invariant
                    self.wf(),
                    self.width == old(self).width,
                    self.height == old(self).height,
                    yl <= y < ye,
                    xl <= x <= xe || x == xl,
                    xe <= u32::MAX as u64 + 1,
                    len == self.tiles@.len(),
                    len == old(self).tiles@.len(),
                    w == old(self).width,
                    forall|i: int| 0 <= i < len ==> #[trigger] self.tiles@[i] == if in_box(pos_of(w, i), xl as int, xe as int, yl as int, y as int)
                        || in_box(pos_of(w, i), xl as int, x as int, y as int, y + 1) {
                        TileType::Floor
                    } else {
                        old(self).tiles@[i]
                    },
                decreases xe - x,
            {
                let ghost prev = self.tiles@;
                self.set_floor(x, y);
                assert forall|i: int| 0 <= i < len implies #[trigger] self.tiles@[i] == if in_box(pos_of(w, i), xl as int, xe as int, yl as int, y as int)
                    || in_box(pos_of(w, i), xl as int, x + 1, y as int, y + 1) {
                    TileType::Floor
                } else {
                    old(self).tiles@[i]
                } by {
                    assert(self.tiles@[i] == if pos_of(w, i).0 == x && pos_of(w, i).1 == y {
                        TileType::Floor
                    } else {
                        prev[i]
                    });
                }
                x = x + 1;
            }
            y = y + 1;
        }
    }

    /// Creates a map of the given dimensions in which every tile is a wall.
    pub fn new(width: u32, height: u32) -> (r: GameMap)
        requires
            width > 0,
            height > 0,
            width * height <= u32::MAX,
        ensures
            r.wf(),
            r.width == width,
            r.height == height,
            forall|i: int| 0 <= i < r.tiles@.len() ==> r.tiles@[i] == TileType::Wall,
    {
        let size: usize = (width as usize) * (height as usize);
        let mut tiles: Vec<TileType> = Vec::with_capacity(size);
        while tiles.len() < size
            invariant
                tiles@.len() <= size,
                forall|i: int| 0 <= i < tiles@.len() ==> tiles@[i] == TileType::Wall,
            decreases size - tiles@.len(),
        {
            tiles.push(TileType::Wall);
        }
        GameMap { width, height, tiles }
    }

    /// A copy of this map.
    pub fn duplicate(&self) -> (r: GameMap)
        ensures
            r.width == self.width,
            r.height == self.height,
            r.tiles@ == self.tiles@,
    {
        let mut tiles: Vec<TileType> = Vec::with_capacity(self.tiles.len());
        let mut i: usize = 0;
        while i < self.tiles.len()
            invariant
                i <= self.tiles@.len(),
                tiles@ == self.tiles@.subrange(0, i as int),
            decreases self.tiles@.len() - i,
        {
            tiles.push(self.tiles[i]);
            assert(tiles@ =~= self.tiles@.subrange(0, i + 1));
            i = i + 1;
        }
        assert(tiles@ =~= self.tiles@);
        GameMap { width: self.width, height: self.height, tiles }
    }

    /// The index of the first floor tile at or after `start`, or failing
    /// that the last one before it; `None` when there is no floor tile.
    pub fn find_floor_near(&self, start: usize) -> (r: Option<usize>)
        ensures
            r is None <==> !has_floor(self.tiles@),
            r matches Some(j) ==> nearest_floor(self.tiles@, start as int, j as int),
    {
        let mut j: usize = start;
        while j < self.tiles.len()
            invariant
                start <= j,
                forall|k: int| start <= k < j && k < self.tiles@.len() ==> self.tiles@[k] != TileType::Floor,
            decreases self.tiles@.len() - j,
        {
            if self.tiles[j] == TileType::Floor {
                return Some(j);
            }
            j = j + 1;
        }
        let mut k: usize = if start < self.tiles.len() { start } else { self.tiles.len() };
        while k > 0
            invariant
                k <= start,
                k <= self.tiles@.len(),
                forall|m: int| start <= m < self.tiles@.len() ==> self.tiles@[m] != TileType::Floor,
                forall|m: int| k <= m < start && m < self.tiles@.len() ==> self.tiles@[m] != TileType::Floor,
            decreases k,
        {
            k = k - 1;
            if self.tiles[k] == TileType::Floor {
                return Some(k);
            }
        }
        None
    }

    /// The total number of tiles.
    pub fn length(&self) -> (r: usize)
        requires
            self.wf(),
        ensures
            r == self.width * self.height,
            r == self.tiles@.len(),
            r > 0,
    {
        assert(self.width * self.height > 0) by (nonlinear_arith)
            requires
                self.width > 0,
                self.height > 0,
        ;
        (self.width as usize) * (self.height as usize)
    }

    /// The `(x, y)` position of the tile at linear index `idx`.
    pub fn idx_to_xy(&self, idx: usize) -> (r: Result<(u32, u32), OutsideMapError>)
        requires
            self.wf(),
        ensures
            idx >= self.width * self.height <==> r is Err,
            r matches Ok(p) ==> (p.0 as int, p.1 as int) == coord_of(self.width as int, idx as int)
                && self.contains(p.0 as int, p.1 as int),
    {
        if idx >= (self.width as usize) * (self.height as usize) {
            return Err(OutsideMapError);
        }
        proof {
            lemma_index_of_coord(self.width as int, self.height as int, idx as int);
        }
        let x = idx % self.width as usize;
        let y = idx / self.width as usize;
        Ok((x as u32, y as u32))
    }

    /// The linear index of the tile at `(x, y)`.
    pub fn xy_to_idx(&self, x: u32, y: u32) -> (r: Result<usize, OutsideMapError>)
        requires
            self.wf(),
        ensures
            !self.contains(x as int, y as int) <==> r is Err,
            r matches Ok(i) ==> i == index_of(self.width as int, x as int, y as int)
                && i < self.tiles@.len(),
    {
        if x >= self.width || y >= self.height {
            return Err(OutsideMapError);
        }
        proof {
            lemma_index_in_range(self.width as int, self.height as int, x as int, y as int);
        }
        assert((y as int) * (self.width as int) == (self.width as int) * (y as int)) by (nonlinear_arith);
        Ok((self.width as usize) * (y as usize) + (x as usize))
    }
}

/// A walk that reaches `b` extends to a floor neighbour `c` of `b`.
pub proof fn lemma_reach_step(map: GameMap, a: (u32, u32), b: (u32, u32), c: (u32, u32))
    requires
        map.reachable(a, b),
        adjacent(b, c),
        map.is_floor_at(c),
    ensures
        map.reachable(a, c),
{
    let path = choose|path: Seq<(u32, u32)>| #[trigger] map.is_walk(path) && path[0] == a && path.last() == b;
    let longer = path.push(c);
    assert forall|i: int| 1 <= i < longer.len() implies adjacent(longer[i - 1], #[trigger] longer[i]) && map.is_floor_at(longer[i]) by {
        if i < path.len() {
            assert(longer[i] == path[i] && longer[i - 1] == path[i - 1]);
        }
    }
    assert(map.is_walk(longer));
}

/// A walk that reaches `s` extends along `s`'s row to column `x` when every
/// tile of the row from `s` to `x` is floor.
pub proof fn lemma_reach_along_row(map: GameMap, a: (u32, u32), s: (u32, u32), x: u32)
    requires
        map.reachable(a, s),
        forall|p: (u32, u32)| p.1 == s.1 && (if s.0 <= x { s.0 <= p.0 <= x } else { x <= p.0 <= s.0 })
            ==> #[trigger] map.is_floor_at(p),
    ensures
        map.reachable(a, (x, s.1)),
    decreases (if s.0 <= x { x - s.0 } else { s.0 - x }),
{
    if x != s.0 {
        let prev: u32 = if s.0 < x { (x - 1) as u32 } else { (x + 1) as u32 };
        lemma_reach_along_row(map, a, s, prev);
        assert(map.is_floor_at((x, s.1)));
        lemma_reach_step(map, a, (prev, s.1), (x, s.1));
    }
}

/// A walk that reaches `s` extends along `s`'s column to row `y` when every
/// tile of the column from `s` to `y` is floor.
pub proof fn lemma_reach_along_column(map: GameMap, a: (u32, u32), s: (u32, u32), y: u32)
    requires
        map.reachable(a, s),
        forall|p: (u32, u32)| p.0 == s.0 && (if s.1 <= y { s.1 <= p.1 <= y } else { y <= p.1 <= s.1 })
            ==> #[trigger] map.is_floor_at(p),
    ensures
        map.reachable(a, (s.0, y)),
    decreases (if s.1 <= y { y - s.1 } else { s.1 - y }),
{
    if y != s.1 {
        let prev: u32 = if s.1 < y { (y - 1) as u32 } else { (y + 1) as u32 };
        lemma_reach_along_column(map, a, s, prev);
        assert(map.is_floor_at((s.0, y)));
        lemma_reach_step(map, a, (s.0, prev), (s.0, y));
    }
}

/// Every position reaches itself.
pub proof fn lemma_reach_self(map: GameMap, a: (u32, u32))
    ensures
        map.reachable(a, a),
{
    assert(map.is_walk(seq![a]));
}

} // verus!
