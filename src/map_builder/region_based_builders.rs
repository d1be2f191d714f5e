use super::spawner::{fill_region, in_region, is_creature_or_item, region_fill, spawn_fold, SpawnList, Spawnables};
use super::{regions_seq, BuildError, MapBuildData, Region};
use crate::map::{GameMap, TileType};
use crate::rng::gen_range;
use vstd::prelude::*;

verus! {

/// The distance functions that [`VoronoiRegion`] can measure with.
#[derive(Debug, Clone, Copy, PartialEq, Eq, Structural)]
pub enum DistanceFunction {
    /// The squared Euclidean distance (which orders points as the Euclidean one does).
    Euclidean,
    Manhattan,
    /// The Chebyshev distance: the larger of the two coordinate differences.
    Maximum,
}

/// The absolute difference of two coordinates.
pub open spec fn diff(a: u32, b: u32) -> int {
    if a >= b { a - b } else { b - a }
}

/// The distance between `p` and `q` under `f`.
pub open spec fn distance(f: DistanceFunction, p: (u32, u32), q: (u32, u32)) -> int {
    let dx = diff(p.0, q.0);
    let dy = diff(p.1, q.1);
    match f {
        DistanceFunction::Euclidean => dx * dx + dy * dy,
        DistanceFunction::Manhattan => dx + dy,
        DistanceFunction::Maximum => if dx >= dy { dx } else { dy },
    }
}

/// Among the first `n` points, the index of the first one closest to `p`.
pub open spec fn nearest_upto(f: DistanceFunction, points: Seq<(u32, u32)>, p: (u32, u32), n: int) -> int
    decreases n,
{
    if n <= 1 {
        0
    } else {
        let best = nearest_upto(f, points, p, n - 1);
        if distance(f, p, points[n - 1]) < distance(f, p, points[best]) {
            n - 1
        } else {
            best
        }
    }
}

/// The index of the first of `points` closest to `p`.
pub open spec fn nearest(f: DistanceFunction, points: Seq<(u32, u32)>, p: (u32, u32)) -> int {
    nearest_upto(f, points, p, points.len() as int)
}

/// The nearest point is no farther than any other, and strictly nearer than
/// every point before it.
pub proof fn lemma_nearest_is_first_minimum(f: DistanceFunction, points: Seq<(u32, u32)>, p: (u32, u32), n: int)
    requires
        1 <= n <= points.len(),
    ensures
        0 <= nearest_upto(f, points, p, n) < n,
        forall|j: int| 0 <= j < n ==> distance(f, p, points[nearest_upto(f, points, p, n)]) <= distance(f, p, #[trigger] points[j]),
        forall|j: int| 0 <= j < nearest_upto(f, points, p, n) ==> distance(f, p, points[nearest_upto(f, points, p, n)]) < distance(f, p, #[trigger] points[j]),
    decreases n,
{
    if n > 1 {
        lemma_nearest_is_first_minimum(f, points, p, n - 1);
    }
}

/// Whether `p` is a floor tile off the map's border.
pub open spec fn is_interior_floor(map: GameMap, p: (u32, u32)) -> bool {
    &&& 1 <= p.0 && p.0 + 1 < map.width
    &&& 1 <= p.1 && p.1 + 1 < map.height
    &&& map.tile_at(p.0 as int, p.1 as int) == TileType::Floor
}

/// No position occurs twice.
pub open spec fn no_duplicates(s: Seq<(u32, u32)>) -> bool {
    forall|i: int, j: int| 0 <= i < j < s.len() ==> s[i] != s[j]
}

/// `regions` partitions the interior floor tiles of `map` among `seeds`:
/// region `i` holds, each once, exactly the interior floor tiles whose
/// nearest seed (the first in seed order on a tie) is seed `i`.
pub open spec fn partitioned(map: GameMap, f: DistanceFunction, seeds: Seq<(u32, u32)>, regions: Seq<Seq<(u32, u32)>>) -> bool {
    &&& regions.len() == seeds.len()
    &&& forall|i: int, k: int| 0 <= i < regions.len() && 0 <= k < regions[i].len() ==>
        is_interior_floor(map, #[trigger] regions[i][k]) && nearest(f, seeds, regions[i][k]) == i
    &&& forall|p: (u32, u32)| #[trigger] is_interior_floor(map, p) ==> regions[nearest(f, seeds, p)].contains(p)
    &&& forall|i: int| 0 <= i < regions.len() ==> no_duplicates(#[trigger] regions[i])
}

/// Every interior floor tile lies in exactly one region, once, and that
/// region's seed is nearest to it: no other seed is closer, and every seed
/// before it is strictly farther.
pub proof fn lemma_region_coverage(map: GameMap, f: DistanceFunction, seeds: Seq<(u32, u32)>, regions: Seq<Seq<(u32, u32)>>, p: (u32, u32))
    requires
        seeds.len() > 0,
        partitioned(map, f, seeds, regions),
        is_interior_floor(map, p),
    ensures
        exists|i: int| 0 <= i < regions.len() && #[trigger] regions[i].contains(p)
            && (forall|j: int| 0 <= j < regions.len() && j != i ==> !(#[trigger] regions[j].contains(p)))
            && (forall|a: int, b: int| 0 <= a < b < regions[i].len() ==> regions[i][a] != regions[i][b])
            && (forall|j: int| 0 <= j < seeds.len() ==> distance(f, p, seeds[i]) <= distance(f, p, #[trigger] seeds[j]))
            && (forall|j: int| 0 <= j < i ==> distance(f, p, seeds[i]) < distance(f, p, #[trigger] seeds[j])),
{
    let i = nearest(f, seeds, p);
    lemma_nearest_is_first_minimum(f, seeds, p, seeds.len() as int);
    assert(regions[i].contains(p));
    assert forall|j: int| 0 <= j < regions.len() && j != i implies !(#[trigger] regions[j].contains(p)) by {
        if regions[j].contains(p) {
            let k = choose|k: int| 0 <= k < regions[j].len() && regions[j][k] == p;
            assert(nearest(f, seeds, regions[j][k]) == j);
        }
    }
    assert(no_duplicates(regions[i]));
}

/// Splits the interior floor tiles into regions around random seed points.
#[derive(Debug)]
pub struct VoronoiRegion {
    distance_function: DistanceFunction,
    number_of_regions: u32,
}

impl VoronoiRegion {
    #[verifier::type_invariant]
    spec fn has_regions(&self) -> bool {
        self.number_of_regions > 0
    }

    pub fn new(number_of_regions: u32, distance_function: DistanceFunction) -> (r: VoronoiRegion)
        requires
            number_of_regions > 0,
        ensures
            r.regions_count() == number_of_regions,
            r.metric() == distance_function,
    {
        VoronoiRegion { distance_function, number_of_regions }
    }

    /// How many regions this modifier makes.
    pub closed spec fn regions_count(&self) -> nat {
        self.number_of_regions as nat
    }

    /// The distance function it measures with.
    pub closed spec fn metric(&self) -> DistanceFunction {
        self.distance_function
    }

    fn measure(&self, p: (u32, u32), q: (u32, u32)) -> (r: u128)
        ensures
            r == distance(self.metric(), p, q),
    {
        let dx: u128 = if p.0 >= q.0 { (p.0 - q.0) as u128 } else { (q.0 - p.0) as u128 };
        let dy: u128 = if p.1 >= q.1 { (p.1 - q.1) as u128 } else { (q.1 - p.1) as u128 };
        match self.distance_function {
            DistanceFunction::Euclidean => {
                assert(dx * dx <= 0xffff_ffffu128 * 0xffff_ffffu128) by (nonlinear_arith)
                    requires
                        dx <= 0xffff_ffffu128,
                ;
                assert(dy * dy <= 0xffff_ffffu128 * 0xffff_ffffu128) by (nonlinear_arith)
                    requires
                        dy <= 0xffff_ffffu128,
                ;
                dx * dx + dy * dy
            },
            DistanceFunction::Manhattan => dx + dy,
            DistanceFunction::Maximum => if dx >= dy { dx } else { dy },
        }
    }

    /// The index of the first of `points` closest to `p`.
    pub fn find_closest_point(&self, p: (u32, u32), points: &[(u32, u32)]) -> (r: usize)
        requires
            points@.len() > 0,
        ensures
            r == nearest(self.metric(), points@, p),
            r < points@.len(),
    {
        let mut min_idx: usize = 0;
        let mut min_distance: u128 = self.measure(p, points[0]);
        let mut idx: usize = 1;
        while idx < points.len()
            invariant
                1 <= idx <= points@.len(),
                min_idx == nearest_upto(self.metric(), points@, p, idx as int),
                min_idx < idx,
                min_distance == distance(self.metric(), p, points@[min_idx as int]),
            decreases points@.len() - idx,
        {
            let d = self.measure(p, points[idx]);
            if d < min_distance {
                min_distance = d;
                min_idx = idx;
            }
            idx = idx + 1;
        }
        min_idx
    }

    /// What a run of `modify_map` does: the map and metadata `before` become
    /// those `after`.
    pub open spec fn modified(&self, before: MapBuildData, after: MapBuildData) -> bool {
        &&& (after.map == before.map)
        &&& (after.metadata.starting_position == before.metadata.starting_position)
        &&& (after.metadata.rooms == before.metadata.rooms)
        &&& (after.metadata.spawn_list == before.metadata.spawn_list)
        &&& (after.metadata.regions is Some)
        &&& (exists|seeds: Seq<(u32, u32)>| seeds.len() == self.regions_count()
            && (forall|k: int| 0 <= k < seeds.len() ==> before.map.contains((#[trigger] seeds[k]).0 as int, seeds[k].1 as int))
            && #[trigger] partitioned(before.map, self.metric(), seeds, regions_seq(after.metadata.regions->0)))
        &&& (after.history@.len() == before.history@.len() + 1)
    }

    /// Draws the seed points anywhere on the map, walls included, and stores
    /// one region per seed, empty ones too.
    pub fn modify_map(&self, rng: &mut rand::rngs::StdRng, build_data: &mut MapBuildData)
        requires
            old(build_data).wf(),
        ensures
            final(build_data).wf(),
            self.modified(*old(build_data), *final(build_data)),
    {
        proof {
            use_type_invariant(self);
        }
        let mut seeds: Vec<(u32, u32)> = Vec::new();
        let mut n: u32 = 0;
        while n < self.number_of_regions
            invariant
                build_data.map.wf(),
                n <= self.number_of_regions,
                seeds@.len() == n,
                forall|k: int| 0 <= k < seeds@.len() ==> build_data.map.contains((#[trigger] seeds@[k]).0 as int, seeds@[k].1 as int),
            decreases self.number_of_regions - n,
        {
            let x = gen_range(rng, 0, build_data.map.width as u64) as u32;
            let y = gen_range(rng, 0, build_data.map.height as u64) as u32;
            seeds.push((x, y));
            n = n + 1;
        }
        let regions = self.partition(&build_data.map, seeds.as_slice());
        build_data.metadata.regions = Some(regions);
        build_data.take_snapshot();
    }

    /// Assigns every interior floor tile of `map` to the region of its
    /// nearest seed, scanning column by column.
    pub fn partition(&self, map: &GameMap, seeds: &[(u32, u32)]) -> (r: Vec<Region>)
        requires
            map.wf(),
            seeds@.len() > 0,
        ensures
            partitioned(*map, self.metric(), seeds@, regions_seq(r)),
    {
        let ghost f = self.metric();
        let mut cells: Vec<((u32, u32), usize)> = Vec::new();
        let mut x: u32 = 1;
        while (x as u64) + 1 < map.width as u64
            invariant
                map.wf(),
                seeds@.len() > 0,
                f == self.metric(),
                1 <= x,
                forall|k: int| 0 <= k < cells@.len() ==> is_interior_floor(*map, #[trigger] cells@[k].0)
                    && cells@[k].1 == nearest(f, seeds@, cells@[k].0),
                forall|k1: int, k2: int| 0 <= k1 < k2 < cells@.len() ==> lex_lt(cells@[k1].0, cells@[k2].0),
                forall|k: int| 0 <= k < cells@.len() ==> (#[trigger] cells@[k]).0.0 < x,
                forall|p: (u32, u32)| #[trigger] is_interior_floor(*map, p) && p.0 < x ==> cell_has(cells@, p),
            decreases map.width - x,
        {
            let mut y: u32 = 1;
            while (y as u64) + 1 < map.height as u64
                invariant
                    map.wf(),
                    seeds@.len() > 0,
                    f == self.metric(),
                    1 <= x,
                    (x as u64) + 1 < map.width as u64,
                    1 <= y,
                    forall|k: int| 0 <= k < cells@.len() ==> is_interior_floor(*map, #[trigger] cells@[k].0)
                        && cells@[k].1 == nearest(f, seeds@, cells@[k].0),
                    forall|k1: int, k2: int| 0 <= k1 < k2 < cells@.len() ==> lex_lt(cells@[k1].0, cells@[k2].0),
                    forall|k: int| 0 <= k < cells@.len() ==> lex_lt((#[trigger] cells@[k]).0, (x, y)),
                    forall|p: (u32, u32)| #[trigger] is_interior_floor(*map, p) && lex_lt(p, (x, y)) ==> cell_has(cells@, p),
                decreases map.height - y,
            {
                let ghost before = cells@;
                match map.xy_to_idx(x, y) {
                    Ok(idx) => {
                        if map.tiles[idx] == TileType::Floor {
                            let ri = self.find_closest_point((x, y), seeds);
                            cells.push(((x, y), ri));
                            assert(cells@[cells@.len() - 1].0 == (x, y));
                        }
                    },
                    Err(_) => {},
                }
                assert forall|p: (u32, u32)| #[trigger] is_interior_floor(*map, p) && lex_lt(p, (x, (y + 1) as u32)) implies cell_has(cells@, p) by {
                    if lex_lt(p, (x, y)) {
                        let k = choose|k: int| 0 <= k < before.len() && before[k].0 == p;
                        assert(cells@[k] == before[k]);
                    } else {
                        assert(p == (x, y));
                        assert(cells@[cells@.len() - 1].0 == p);
                    }
                }
                y = y + 1;
            }
            assert forall|p: (u32, u32)| #[trigger] is_interior_floor(*map, p) && p.0 < x + 1 implies cell_has(cells@, p) by {
                assert(lex_lt(p, (x, y)));
            }
            x = x + 1;
        }
        let mut regions: Vec<Region> = Vec::new();
        let mut i: usize = 0;
        while i < seeds.len()
            invariant
                i <= seeds@.len(),
                regions@.len() == i,
                forall|k: int| 0 <= k < cells@.len() ==> is_interior_floor(*map, #[trigger] cells@[k].0)
                    && cells@[k].1 == nearest(f, seeds@, cells@[k].0),
                forall|k1: int, k2: int| 0 <= k1 < k2 < cells@.len() ==> lex_lt(cells@[k1].0, cells@[k2].0),
                forall|j: int, m: int| 0 <= j < i && 0 <= m < regions@[j]@.len() ==> #[trigger] cell_in(cells@, regions@[j]@[m], j),
                forall|j: int, k: int| 0 <= j < i && 0 <= k < cells@.len() && cells@[k].1 == j ==> #[trigger] regions@[j]@.contains(cells@[k].0),
                forall|j: int| 0 <= j < i ==> #[trigger] sorted(regions@[j]@),
            decreases seeds@.len() - i,
        {
            let region = collect_region(&cells, i);
            let ghost before = regions@;
            regions.push(region);
            assert forall|j: int, m: int| 0 <= j < i + 1 && 0 <= m < regions@[j]@.len() implies #[trigger] cell_in(cells@, regions@[j]@[m], j) by {
                if j < i {
                    assert(regions@[j] == before[j]);
                }
            }
            assert forall|j: int, k: int| 0 <= j < i + 1 && 0 <= k < cells@.len() && cells@[k].1 == j implies #[trigger] regions@[j]@.contains(cells@[k].0) by {
                if j < i {
                    assert(regions@[j] == before[j]);
                }
            }
            assert forall|j: int| 0 <= j < i + 1 implies #[trigger] sorted(regions@[j]@) by {
                if j < i {
                    assert(regions@[j] == before[j]);
                }
            }
            i = i + 1;
        }
        let ghost rs = regions_seq(regions);
        assert forall|j: int, k: int| 0 <= j < rs.len() && 0 <= k < rs[j].len() implies
            is_interior_floor(*map, #[trigger] rs[j][k]) && nearest(f, seeds@, rs[j][k]) == j by {
            assert(rs[j] == regions@[j]@);
            assert(cell_in(cells@, regions@[j]@[k], j));
            let c = choose|c: int| 0 <= c < cells@.len() && cells@[c].0 == regions@[j]@[k] && cells@[c].1 == j;
        }
        assert forall|p: (u32, u32)| #[trigger] is_interior_floor(*map, p) implies rs[nearest(f, seeds@, p)].contains(p) by {
            assert(lex_lt(p, (x, 0)) || p.0 < x);
            let k = choose|k: int| 0 <= k < cells@.len() && cells@[k].0 == p;
            lemma_nearest_is_first_minimum(f, seeds@, p, seeds@.len() as int);
            assert(regions@[cells@[k].1 as int]@.contains(cells@[k].0));
        }
        assert forall|j: int| 0 <= j < rs.len() implies no_duplicates(#[trigger] rs[j]) by {
            assert(rs[j] == regions@[j]@);
            assert(sorted(regions@[j]@));
            assert forall|a: int, b: int| 0 <= a < b < rs[j].len() implies rs[j][a] != rs[j][b] by {
                assert(lex_lt(rs[j][a], rs[j][b]));
            }
        }
        regions
    }
}

/// `a` comes before `b` when scanning column by column.
pub open spec fn lex_lt(a: (u32, u32), b: (u32, u32)) -> bool {
    a.0 < b.0 || (a.0 == b.0 && a.1 < b.1)
}

/// Positions in strictly increasing scan order.
pub open spec fn sorted(s: Seq<(u32, u32)>) -> bool {
    forall|a: int, b: int| 0 <= a < b < s.len() ==> lex_lt(s[a], s[b])
}

/// Some cell lies at `p`.
pub open spec fn cell_has(cells: Seq<((u32, u32), usize)>, p: (u32, u32)) -> bool {
    exists|k: int| 0 <= k < cells.len() && cells[k].0 == p
}

/// Some cell lies at `p` and belongs to region `i`.
pub open spec fn cell_in(cells: Seq<((u32, u32), usize)>, p: (u32, u32), i: int) -> bool {
    exists|k: int| 0 <= k < cells.len() && cells[k].0 == p && cells[k].1 == i
}

/// Some cell before index `k` lies at `p` and belongs to region `i`.
pub open spec fn cell_in_prefix(cells: Seq<((u32, u32), usize)>, p: (u32, u32), i: int, k: int) -> bool {
    exists|c: int| 0 <= c < k && cells[c].0 == p && cells[c].1 == i
}

/// The positions of the cells assigned to region `i`, in order.
fn collect_region(cells: &Vec<((u32, u32), usize)>, i: usize) -> (r: Region)
    requires
        forall|k1: int, k2: int| 0 <= k1 < k2 < cells@.len() ==> lex_lt(cells@[k1].0, cells@[k2].0),
    ensures
        forall|m: int| 0 <= m < r@.len() ==> #[trigger] cell_in(cells@, r@[m], i as int),
        forall|k: int| 0 <= k < cells@.len() && cells@[k].1 == i ==> #[trigger] r@.contains(cells@[k].0),
        sorted(r@),
{
    let mut r: Region = Vec::new();
    let mut k: usize = 0;
    while k < cells.len()
        invariant
            k <= cells@.len(),
            forall|k1: int, k2: int| 0 <= k1 < k2 < cells@.len() ==> lex_lt(cells@[k1].0, cells@[k2].0),
            forall|m: int| 0 <= m < r@.len() ==> #[trigger] cell_in_prefix(cells@, r@[m], i as int, k as int),
            forall|c: int| 0 <= c < k && cells@[c].1 == i ==> #[trigger] r@.contains(cells@[c].0),
            sorted(r@),
        decreases cells@.len() - k,
    {
        let c = cells[k];
        let ghost before = r@;
        if c.1 == i {
            assert forall|m: int| 0 <= m < before.len() implies lex_lt(before[m], c.0) by {
                assert(cell_in_prefix(cells@, r@[m], i as int, k as int));
                let d = choose|d: int| 0 <= d < k && cells@[d].0 == r@[m] && cells@[d].1 == i;
            }
            r.push(c.0);
        }
        assert forall|m: int| 0 <= m < r@.len() implies #[trigger] cell_in_prefix(cells@, r@[m], i as int, k + 1) by {
            if m < before.len() {
                assert(r@[m] == before[m]);
                assert(cell_in_prefix(cells@, before[m], i as int, k as int));
                let d = choose|d: int| 0 <= d < k && cells@[d].0 == before[m] && cells@[d].1 == i;
                assert(0 <= d < k + 1 && cells@[d].0 == r@[m] && cells@[d].1 == i);
            } else {
                assert(cells@[k as int].0 == r@[m]);
            }
        }
        assert forall|d: int| 0 <= d < k + 1 && cells@[d].1 == i implies #[trigger] r@.contains(cells@[d].0) by {
            if d < k {
                assert(before.contains(cells@[d].0));
                let m = choose|m: int| 0 <= m < before.len() && before[m] == cells@[d].0;
                assert(r@[m] == before[m]);
            } else {
                assert(r@[r@.len() - 1] == cells@[d].0);
            }
        }
        k = k + 1;
    }
    assert forall|m: int| 0 <= m < r@.len() implies #[trigger] cell_in(cells@, r@[m], i as int) by {
        assert(cell_in_prefix(cells@, r@[m], i as int, k as int));
        let d = choose|d: int| 0 <= d < k && cells@[d].0 == r@[m] && cells@[d].1 == i;
    }
    r
}

/// Fills every region with spawns as [`fill_region`] does.
#[derive(Debug)]
pub struct RegionBasedSpawner {
    max_spawns: u32,
}

impl RegionBasedSpawner {
    pub fn new(max_spawns: u32) -> (r: RegionBasedSpawner)
        ensures
            r.spawn_limit() == max_spawns,
    {
        RegionBasedSpawner { max_spawns }
    }

    /// The most spawns placed in one region.
    pub closed spec fn spawn_limit(&self) -> nat {
        self.max_spawns as nat
    }

    /// What a run of `modify_map` does: the map and metadata `before` become
    /// those `after`, with the outcome `r`.
    pub open spec fn modified(&self, before: MapBuildData, after: MapBuildData, r: Result<(), BuildError>) -> bool {
        &&& (after.map == before.map)
        &&& (r is Err <==> before.metadata.regions is None)
        &&& (r is Err ==> r == Err::<(), BuildError>(BuildError::MissingRegions) && after == before)
        &&& (after.metadata.starting_position == before.metadata.starting_position)
        &&& (after.metadata.rooms == before.metadata.rooms)
        &&& (after.metadata.regions == before.metadata.regions)
        &&& (r is Ok ==> after.history@.len() == before.history@.len() + regions_seq(before.metadata.regions->0).len())
        &&& (r is Ok ==> forall|p: (u32, u32)| #[trigger] before.metadata.spawn_list@.dom().contains(p) ==> after.metadata.spawn_list@.dom().contains(p))
        &&& (r is Ok ==> forall|p: (u32, u32)| #[trigger] after.metadata.spawn_list@.dom().contains(p) ==>
            after.metadata.spawn_list@[p] == before.metadata.spawn_list@[p]
            || (is_creature_or_item(after.metadata.spawn_list@[p])
                && exists|j: int| 0 <= j < regions_seq(before.metadata.regions->0).len()
                    && in_region(#[trigger] regions_seq(before.metadata.regions->0)[j], p)))
        &&& (r is Ok ==> exists|lists: Seq<Map<(u32, u32), Spawnables>>|
            #[trigger] lists.len() == regions_seq(before.metadata.regions->0).len()
            && (forall|j: int| 0 <= j < lists.len() ==> region_fill(#[trigger] lists[j], regions_seq(before.metadata.regions->0)[j], self.spawn_limit()))
            && after.metadata.spawn_list@ == spawn_fold(before.metadata.spawn_list@, lists))
    }

    /// Fills each region in turn, adding its spawns to the spawn list (where
    /// they replace what was there) and taking a snapshot after each. Fails
    /// when no regions were partitioned.
    pub fn modify_map(&self, rng: &mut rand::rngs::StdRng, build_data: &mut MapBuildData) -> (r: Result<(), BuildError>)
        requires
            old(build_data).wf(),
        ensures
            final(build_data).wf(),
            self.modified(*old(build_data), *final(build_data), r),
    {
        let mut lists: Vec<SpawnList> = Vec::new();
        match &build_data.metadata.regions {
            None => {
                return Err(BuildError::MissingRegions);
            },
            Some(regions) => {
                let mut i: usize = 0;
                while i < regions.len()
                    invariant
                        i <= regions@.len(),
                        lists@.len() == i,
                        forall|j: int, p: (u32, u32)| 0 <= j < i && #[trigger] lists@[j]@.dom().contains(p) ==>
                            in_region(regions@[j]@, p) && is_creature_or_item(lists@[j]@[p]),
                        forall|j: int| 0 <= j < i ==> region_fill(#[trigger] lists@[j]@, regions@[j]@, self.max_spawns as nat),
                    decreases regions@.len() - i,
                {
                    let list = fill_region(rng, regions[i].as_slice(), self.max_spawns);
                    lists.push(list);
                    i = i + 1;
                }
            },
        }
        let ghost rs = regions_seq(build_data.metadata.regions->0);
        let ghost start = *build_data;
        assert forall|j: int| 0 <= j < rs.len() implies #[trigger] rs[j] == (build_data.metadata.regions->0)@[j]@ by {}
        let ghost maps = lists@.map_values(|l: SpawnList| l@);
        assert(spawn_fold(start.metadata.spawn_list@, maps.subrange(0, 0)) == start.metadata.spawn_list@);
        let mut k: usize = 0;
        let n = lists.len();
        while lists.len() > 0
            invariant
                build_data.wf(),
                build_data.map == start.map,
                build_data.metadata.starting_position == start.metadata.starting_position,
                build_data.metadata.rooms == start.metadata.rooms,
                build_data.metadata.regions == start.metadata.regions,
                rs == regions_seq(start.metadata.regions->0),
                n == rs.len(),
                k + lists@.len() == n,
                maps.len() == n,
                forall|j: int| 0 <= j < n ==> region_fill(#[trigger] maps[j], rs[j], self.max_spawns as nat),
                forall|j: int| 0 <= j < lists@.len() ==> #[trigger] lists@[j]@ == maps[k + j],
                build_data.metadata.spawn_list@ == spawn_fold(start.metadata.spawn_list@, maps.subrange(0, k as int)),
                build_data.history@.len() == start.history@.len() + k,
                forall|j: int, p: (u32, u32)| 0 <= j < lists@.len() && #[trigger] lists@[j]@.dom().contains(p) ==>
                    in_region(rs[k + j], p) && is_creature_or_item(lists@[j]@[p]),
                forall|p: (u32, u32)| #[trigger] start.metadata.spawn_list@.dom().contains(p) ==> build_data.metadata.spawn_list@.dom().contains(p),
                forall|p: (u32, u32)| #[trigger] build_data.metadata.spawn_list@.dom().contains(p) ==>
                    build_data.metadata.spawn_list@[p] == start.metadata.spawn_list@[p]
                    || (is_creature_or_item(build_data.metadata.spawn_list@[p])
                        && exists|j: int| 0 <= j < rs.len() && in_region(#[trigger] rs[j], p)),
            decreases lists@.len(),
        {
            let ghost before = build_data.metadata.spawn_list@;
            let ghost lists_before = lists@;
            let list = lists.remove(0);
            proof {
                assert forall|j: int, p: (u32, u32)| 0 <= j < lists@.len() && #[trigger] lists@[j]@.dom().contains(p) implies
                    in_region(rs[k + 1 + j], p) && is_creature_or_item(lists@[j]@[p]) by {
                    assert(lists@[j] == lists_before[j + 1]);
                }
            }
            assert(lists_before[0] == list);
            proof {
                assert forall|j: int| 0 <= j < lists@.len() implies #[trigger] lists@[j]@ == maps[k + 1 + j] by {
                    assert(lists@[j] == lists_before[j + 1]);
                }
                assert(maps.subrange(0, k + 1).drop_last() =~= maps.subrange(0, k as int));
            }
            build_data.metadata.spawn_list.extend(list);
            assert forall|p: (u32, u32)| #[trigger] build_data.metadata.spawn_list@.dom().contains(p) implies
                build_data.metadata.spawn_list@[p] == start.metadata.spawn_list@[p]
                || (is_creature_or_item(build_data.metadata.spawn_list@[p])
                    && exists|j: int| 0 <= j < rs.len() && in_region(#[trigger] rs[j], p)) by {
                if list@.dom().contains(p) {
                    assert(lists_before[0]@.dom().contains(p));
                    assert(in_region(rs[k as int], p));
                }
            }
            build_data.take_snapshot();
            k = k + 1;
        }
        assert(maps.subrange(0, n as int) =~= maps);
        Ok(())
    }
}

} // verus!
