use super::{BuildError, MapBuildData};
use crate::map::{coord_of, lemma_coord_of_index, lemma_index_in_range, lemma_index_of_coord, GameMap, TileType};
use crate::rng::gen_ratio;
use vstd::prelude::*;

verus! {

/// One if the tile at `i` is a wall, else zero.
pub open spec fn wall_at(tiles: Seq<TileType>, i: int) -> int {
    if tiles[i] == TileType::Wall { 1 } else { 0 }
}

/// How many of the eight tiles around index `i` are walls, in a map of the given width.
pub open spec fn wall_count(tiles: Seq<TileType>, w: int, i: int) -> int {
    wall_at(tiles, i - 1) + wall_at(tiles, i + 1) + wall_at(tiles, i - w) + wall_at(tiles, i + w)
        + wall_at(tiles, i - (w - 1)) + wall_at(tiles, i - (w + 1)) + wall_at(tiles, i + (w - 1))
        + wall_at(tiles, i + (w + 1))
}

/// Whether index `i` lies off the border of a `w` by `h` map.
pub open spec fn is_interior(w: int, h: int, i: int) -> bool {
    let (x, y) = coord_of(w, i);
    1 <= x < w - 1 && 1 <= y < h - 1
}

/// One synchronous step of the automaton: each interior tile becomes a wall
/// exactly when its count of neighbouring walls is in `thresholds`; border
/// tiles stay as they are.
pub open spec fn automaton_step(tiles: Seq<TileType>, w: int, h: int, thresholds: Seq<i32>) -> Seq<TileType> {
    Seq::new(tiles.len(), |i: int| if is_interior(w, h, i) {
        if thresholds.contains(wall_count(tiles, w, i) as i32) { TileType::Wall } else { TileType::Floor }
    } else {
        tiles[i]
    })
}

/// `n` steps of the automaton.
pub open spec fn automaton_steps(tiles: Seq<TileType>, w: int, h: int, thresholds: Seq<i32>, n: nat) -> Seq<TileType>
    decreases n,
{
    if n == 0 {
        tiles
    } else {
        automaton_step(automaton_steps(tiles, w, h, thresholds, (n - 1) as nat), w, h, thresholds)
    }
}

fn contains_count(thresholds: &Vec<i32>, n: i32) -> (r: bool)
    ensures
        r == thresholds@.contains(n),
{
    let mut k: usize = 0;
    while k < thresholds.len()
        invariant
            k <= thresholds@.len(),
            forall|j: int| 0 <= j < k ==> thresholds@[j] != n,
        decreases thresholds@.len() - k,
    {
        if thresholds[k] == n {
            return true;
        }
        k = k + 1;
    }
    false
}

/// Whether a tile of the initial noise fits odds of `odds` percent: at
/// zero percent it is a wall, at a hundred percent a floor.
pub open spec fn noise_fits(odds: nat, t: TileType) -> bool {
    (odds == 0 ==> t == TileType::Wall) && (odds == 100 ==> t == TileType::Floor)
}

/// Grows caves: random noise smoothed by a cellular automaton.
#[derive(Debug)]
pub struct CellularAutomataBuilder {
    iterations: i32,
    floor_percent: u32,
    neighbors_for_wall: Vec<i32>,
}

impl CellularAutomataBuilder {
    #[verifier::type_invariant]
    spec fn odds_are_a_percentage(&self) -> bool {
        self.floor_percent <= 100
    }

    /// A builder that runs `iterations` steps after filling the interior
    /// with floor at `floor_percent` percent odds; a tile whose count of
    /// neighbouring walls is in `neighbors_for_wall` becomes a wall.
    pub fn new(iterations: i32, floor_percent: u32, neighbors_for_wall: Vec<i32>) -> (r: CellularAutomataBuilder)
        requires
            floor_percent <= 100,
        ensures
            r.steps() == (if iterations > 0 { iterations as nat } else { 0 }),
            r.floor_odds() == floor_percent,
            r.thresholds() == neighbors_for_wall@,
    {
        CellularAutomataBuilder { iterations, floor_percent, neighbors_for_wall }
    }

    /// How many steps of the automaton are run.
    pub closed spec fn steps(&self) -> nat {
        if self.iterations > 0 { self.iterations as nat } else { 0 }
    }

    /// The odds, in percent, that an interior tile starts as floor.
    pub closed spec fn floor_odds(&self) -> nat {
        self.floor_percent as nat
    }

    /// The wall counts that make a tile a wall.
    pub closed spec fn thresholds(&self) -> Seq<i32> {
        self.neighbors_for_wall@
    }

    /// What a run of `build_map` does: the map and metadata `before` become
    /// those `after`.
    pub open spec fn built(&self, before: MapBuildData, after: MapBuildData) -> bool {
        &&& after.map.width == before.map.width
        &&& after.map.height == before.map.height
        &&& after.metadata == before.metadata
        &&& after.history@.len() == before.history@.len() + 1 + self.steps()
        &&& exists|noise: Seq<TileType>| #[trigger] noise.len() == before.map.tiles@.len()
            && (forall|i: int| 0 <= i < noise.len() && !is_interior(before.map.width as int, before.map.height as int, i)
                ==> noise[i] == before.map.tiles@[i])
            && (forall|i: int| 0 <= i < noise.len() && is_interior(before.map.width as int, before.map.height as int, i)
                ==> noise_fits(self.floor_odds(), noise[i]))
            && after.map.tiles@ == automaton_steps(noise, before.map.width as int,
                before.map.height as int, self.thresholds(), self.steps())
            && (forall|k: int| 0 <= k <= self.steps() ==> (#[trigger] after.history@[before.history@.len() + k]).0.tiles@
                == automaton_steps(noise, before.map.width as int, before.map.height as int, self.thresholds(), k as nat))
    }

    /// Makes each interior tile floor or wall at random, takes a snapshot,
    /// then runs the automaton, taking a snapshot after each step. Border
    /// tiles are never touched.
    pub fn build_map(&self, rng: &mut rand::rngs::StdRng, build_data: &mut MapBuildData)
        requires
            old(build_data).wf(),
        ensures
            final(build_data).wf(),
            self.built(*old(build_data), *final(build_data)),
    {
        proof {
            use_type_invariant(self);
        }
        let ghost w = build_data.map.width as int;
        let ghost h = build_data.map.height as int;
        let ghost len = build_data.map.tiles@.len();
        let ghost initial_tiles = build_data.map.tiles@;
        let mut y: u32 = 1;
        while (y as u64) + 1 < build_data.map.height as u64
            invariant
                build_data.wf(),
                self.floor_odds() <= 100,
                w == build_data.map.width,
                h == build_data.map.height,
                len == build_data.map.tiles@.len(),
                build_data.metadata == old(build_data).metadata,
                build_data.history == old(build_data).history,
                build_data.map.width == old(build_data).map.width,
                build_data.map.height == old(build_data).map.height,
                initial_tiles == old(build_data).map.tiles@,
                1 <= y,
                forall|i: int| 0 <= i < len && !is_interior(w, h, i) ==> #[trigger] build_data.map.tiles@[i] == initial_tiles[i],
                forall|i: int| 0 <= i < len && is_interior(w, h, i) && coord_of(w, i).1 < y
                    ==> noise_fits(self.floor_odds(), #[trigger] build_data.map.tiles@[i]),
            decreases build_data.map.height - y,
        {
            let mut x: u32 = 1;
            while (x as u64) + 1 < build_data.map.width as u64
                invariant
                    build_data.wf(),
                    self.floor_odds() <= 100,
                    w == build_data.map.width,
                    h == build_data.map.height,
                    len == build_data.map.tiles@.len(),
                    build_data.metadata == old(build_data).metadata,
                    build_data.history == old(build_data).history,
                    build_data.map.width == old(build_data).map.width,
                    build_data.map.height == old(build_data).map.height,
                    initial_tiles == old(build_data).map.tiles@,
                    1 <= y,
                    (y as u64) + 1 < build_data.map.height as u64,
                    1 <= x,
                    forall|i: int| 0 <= i < len && !is_interior(w, h, i) ==> #[trigger] build_data.map.tiles@[i] == initial_tiles[i],
                    forall|i: int| 0 <= i < len && is_interior(w, h, i) && (coord_of(w, i).1 < y
                        || (coord_of(w, i).1 == y && coord_of(w, i).0 < x))
                        ==> noise_fits(self.floor_odds(), #[trigger] build_data.map.tiles@[i]),
                decreases build_data.map.width - x,
            {
                if let Ok(idx) = build_data.map.xy_to_idx(x, y) {
                    let tile = if gen_ratio(rng, self.floor_percent, 100) {
                        TileType::Floor
                    } else {
                        TileType::Wall
                    };
                    proof {
                        lemma_coord_of_index(w, h, x as int, y as int);
                    }
                    let ghost before = build_data.map.tiles@;
                    build_data.map.tiles.set(idx, tile);
                    assert forall|i: int| 0 <= i < len && is_interior(w, h, i) && (coord_of(w, i).1 < y
                        || (coord_of(w, i).1 == y && coord_of(w, i).0 < x + 1))
                        implies noise_fits(self.floor_odds(), #[trigger] build_data.map.tiles@[i]) by {
                        lemma_index_of_coord(w, h, i);
                        if i != idx {
                            assert(build_data.map.tiles@[i] == before[i]);
                            assert(coord_of(w, i) != (x as int, y as int));
                        }
                    }
                }
                x = x + 1;
            }
            y = y + 1;
        }
        let ghost noise = build_data.map.tiles@;
        let ghost hl = old(build_data).history@.len() as int;
        build_data.take_snapshot();
        let mut step: i32 = 0;
        while step < self.iterations
            invariant
                build_data.wf(),
                w == build_data.map.width,
                h == build_data.map.height,
                build_data.metadata == old(build_data).metadata,
                build_data.map.width == old(build_data).map.width,
                build_data.map.height == old(build_data).map.height,
                0 <= step,
                step <= (if self.iterations > 0 { self.iterations } else { 0 }),
                build_data.history@.len() == old(build_data).history@.len() + 1 + step,
                build_data.map.tiles@ == automaton_steps(noise, w, h, self.thresholds(), step as nat),
                noise.len() == old(build_data).map.tiles@.len(),
                forall|i: int| 0 <= i < noise.len() && !is_interior(w, h, i) ==> noise[i] == old(build_data).map.tiles@[i],
                forall|i: int| 0 <= i < noise.len() && is_interior(w, h, i) ==> noise_fits(self.floor_odds(), noise[i]),
                hl == old(build_data).history@.len(),
                forall|k: int| 0 <= k <= step ==> (#[trigger] build_data.history@[hl + k]).0.tiles@
                    == automaton_steps(noise, w, h, self.thresholds(), k as nat),
            decreases self.iterations - step,
        {
            let new_tiles = automaton_step_of(&build_data.map, &self.neighbors_for_wall);
            build_data.map.tiles = new_tiles;
            let ghost before = build_data.history@;
            build_data.take_snapshot();
            assert forall|k: int| 0 <= k <= step + 1 implies (#[trigger] build_data.history@[hl + k]).0.tiles@
                == automaton_steps(noise, w, h, self.thresholds(), k as nat) by {
                if k <= step {
                    assert(build_data.history@.subrange(0, before.len() as int)[hl + k] == before[hl + k]);
                }
            }
            step = step + 1;
        }
        assert(step as nat == self.steps());
    }
}

/// One step of the automaton applied to `map` (see [`automaton_step`]).
pub fn automaton_step_of(map: &GameMap, thresholds: &Vec<i32>) -> (r: Vec<TileType>)
    requires
        map.wf(),
    ensures
        r@ == automaton_step(map.tiles@, map.width as int, map.height as int, thresholds@),
{
    let ghost w = map.width as int;
    let ghost h = map.height as int;
    let ghost tiles = map.tiles@;
    let ghost len = tiles.len();
    let width = map.width as usize;
    let mut new_tiles = map.duplicate().tiles;
    let mut y: u32 = 1;
    while (y as u64) + 1 < map.height as u64
        invariant
            map.wf(),
            w == map.width,
            h == map.height,
            tiles == map.tiles@,
            len == tiles.len(),
            width == map.width,
            new_tiles@.len() == len,
            1 <= y,
            forall|i: int| 0 <= i < len ==> #[trigger] new_tiles@[i] == if is_interior(w, h, i) && coord_of(w, i).1 < y {
                automaton_step(tiles, w, h, thresholds@)[i]
            } else {
                tiles[i]
            },
        decreases map.height - y,
    {
        let mut x: u32 = 1;
        while (x as u64) + 1 < map.width as u64
            invariant
                map.wf(),
                w == map.width,
                h == map.height,
                tiles == map.tiles@,
                len == tiles.len(),
                width == map.width,
                new_tiles@.len() == len,
                1 <= y,
                (y as u64) + 1 < map.height as u64,
                1 <= x,
                forall|i: int| 0 <= i < len ==> #[trigger] new_tiles@[i] == if is_interior(w, h, i) && (coord_of(w, i).1 < y
                    || (coord_of(w, i).1 == y && coord_of(w, i).0 < x)) {
                    automaton_step(tiles, w, h, thresholds@)[i]
                } else {
                    tiles[i]
                },
            decreases map.width - x,
        {
            proof {
                lemma_index_in_range(w, h, x as int, y as int);
                lemma_coord_of_index(w, h, x as int, y as int);
                assert(y * w + x >= w + 1) by (nonlinear_arith)
                    requires
                        1 <= y,
                        1 <= x,
                        0 < w,
                ;
                assert(y * w + x + w + 1 < w * h) by (nonlinear_arith)
                    requires
                        y + 1 < h,
                        x + 1 < w,
                        0 < w,
                ;
                assert((y as int) * w == (width as int) * (y as int)) by (nonlinear_arith)
                    requires
                        w == width,
                ;
            }
            let idx = width * (y as usize) + (x as usize);
            let mut neighbors: i32 = 0;
            if map.tiles[idx - 1] == TileType::Wall {
                neighbors = neighbors + 1;
            }
            if map.tiles[idx + 1] == TileType::Wall {
                neighbors = neighbors + 1;
            }
            if map.tiles[idx - width] == TileType::Wall {
                neighbors = neighbors + 1;
            }
            if map.tiles[idx + width] == TileType::Wall {
                neighbors = neighbors + 1;
            }
            if map.tiles[idx - (width - 1)] == TileType::Wall {
                neighbors = neighbors + 1;
            }
            if map.tiles[idx - (width + 1)] == TileType::Wall {
                neighbors = neighbors + 1;
            }
            if map.tiles[idx + (width - 1)] == TileType::Wall {
                neighbors = neighbors + 1;
            }
            if map.tiles[idx + (width + 1)] == TileType::Wall {
                neighbors = neighbors + 1;
            }
            assert(neighbors == wall_count(tiles, w, idx as int));
            let ghost before = new_tiles@;
            if contains_count(thresholds, neighbors) {
                new_tiles.set(idx, TileType::Wall);
            } else {
                new_tiles.set(idx, TileType::Floor);
            }
            assert forall|i: int| 0 <= i < len implies #[trigger] new_tiles@[i] == if is_interior(w, h, i) && (coord_of(w, i).1 < y
                || (coord_of(w, i).1 == y && coord_of(w, i).0 < x + 1)) {
                automaton_step(tiles, w, h, thresholds@)[i]
            } else {
                tiles[i]
            } by {
                lemma_index_of_coord(w, h, i);
                if i != idx {
                    assert(new_tiles@[i] == before[i]);
                    assert(coord_of(w, i) != (x as int, y as int));
                }
            }
            x = x + 1;
        }
        assert forall|i: int| 0 <= i < len implies #[trigger] new_tiles@[i] == if is_interior(w, h, i) && coord_of(w, i).1 < y + 1 {
            automaton_step(tiles, w, h, thresholds@)[i]
        } else {
            tiles[i]
        } by {}
        y = y + 1;
    }
    assert(new_tiles@ =~= automaton_step(tiles, w, h, thresholds@));
    new_tiles
}

} // verus!
