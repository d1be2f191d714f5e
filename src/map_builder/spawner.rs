use super::random_table::{lemma_pick_is_entry, pick, RandomTable};
use super::rect::Rect;
use crate::rng::gen_range;
use vstd::prelude::*;

verus! {

/// All things that can be spawned onto a map.
#[derive(Debug, Clone, Copy, PartialEq, Eq, Structural)]
pub enum Spawnables {
    TreasureChest,
    Turtle,
    APCrystal,
}

/// The map that a sequence of `(position, kind)` entries describes, later
/// entries overriding earlier ones.
pub open spec fn map_of(s: Seq<((u32, u32), Spawnables)>) -> Map<(u32, u32), Spawnables>
    decreases s.len(),
{
    if s.len() == 0 {
        Map::empty()
    } else {
        map_of(s.drop_last()).insert(s.last().0, s.last().1)
    }
}

/// No position occurs twice among the entries.
pub open spec fn keys_unique(s: Seq<((u32, u32), Spawnables)>) -> bool {
    forall|i: int, j: int| 0 <= i < j < s.len() ==> s[i].0 != s[j].0
}

proof fn lemma_map_of_contents(s: Seq<((u32, u32), Spawnables)>)
    requires
        keys_unique(s),
    ensures
        forall|k: (u32, u32)| #[trigger] map_of(s).dom().contains(k) <==> exists|i: int| 0 <= i < s.len() && s[i].0 == k,
        forall|i: int| 0 <= i < s.len() ==> #[trigger] map_of(s)[s[i].0] == s[i].1,
        map_of(s).dom().finite(),
        map_of(s).dom().len() == s.len(),
    decreases s.len(),
{
    if s.len() > 0 {
        let d = s.drop_last();
        lemma_map_of_contents(d);
        assert forall|k: (u32, u32)| #[trigger] map_of(s).dom().contains(k) <==> exists|i: int| 0 <= i < s.len() && s[i].0 == k by {
            if map_of(s).dom().contains(k) && k != s.last().0 {
                let i = choose|i: int| 0 <= i < d.len() && d[i].0 == k;
                assert(s[i].0 == k);
            }
            if exists|i: int| 0 <= i < s.len() && s[i].0 == k {
                let i = choose|i: int| 0 <= i < s.len() && s[i].0 == k;
                if i < s.len() - 1 {
                    assert(d[i].0 == k);
                }
            }
        }
        assert(!map_of(d).dom().contains(s.last().0)) by {
            if map_of(d).dom().contains(s.last().0) {
                let i = choose|i: int| 0 <= i < d.len() && d[i].0 == s.last().0;
                assert(s[i].0 == s[s.len() - 1].0);
            }
        }
        assert forall|i: int| 0 <= i < s.len() implies #[trigger] map_of(s)[s[i].0] == s[i].1 by {
            if i < s.len() - 1 {
                assert(d[i] == s[i]);
                assert(s[i].0 != s[s.len() - 1].0);
            }
        }
    }
}

proof fn lemma_map_of_update(s: Seq<((u32, u32), Spawnables)>, i: int, v: Spawnables)
    requires
        keys_unique(s),
        0 <= i < s.len(),
    ensures
        map_of(s.update(i, (s[i].0, v))) == map_of(s).insert(s[i].0, v),
        keys_unique(s.update(i, (s[i].0, v))),
    decreases s.len(),
{
    let t = s.update(i, (s[i].0, v));
    let d = s.drop_last();
    if i == s.len() - 1 {
        assert(t.drop_last() =~= d);
        assert(map_of(t) =~= map_of(s).insert(s[i].0, v));
    } else {
        assert(t.drop_last() =~= d.update(i, (d[i].0, v)));
        lemma_map_of_update(d, i, v);
        assert(s[i].0 != s.last().0);
        assert(map_of(t) =~= map_of(s).insert(s[i].0, v));
    }
}

/// A mapping from map positions to what is spawned there; each position
/// occurs at most once.
#[derive(Debug)]
pub struct SpawnList {
    entries: Vec<((u32, u32), Spawnables)>,
}

impl View for SpawnList {
    type V = Map<(u32, u32), Spawnables>;

    closed spec fn view(&self) -> Map<(u32, u32), Spawnables> {
        map_of(self.entries@)
    }
}

impl SpawnList {
    #[verifier::type_invariant]
    spec fn inv(&self) -> bool {
        keys_unique(self.entries@)
    }

    /// An empty list.
    pub fn new() -> (r: SpawnList)
        ensures
            r@ == Map::<(u32, u32), Spawnables>::empty(),
    {
        SpawnList { entries: Vec::new() }
    }

    fn find(&self, pos: (u32, u32)) -> (r: Option<usize>)
        ensures
            r matches Some(i) ==> i < self.entries@.len() && self.entries@[i as int].0 == pos,
            r is None ==> forall|i: int| 0 <= i < self.entries@.len() ==> self.entries@[i].0 != pos,
    {
        let mut i: usize = 0;
        while i < self.entries.len()
            invariant
                i <= self.entries@.len(),
                forall|j: int| 0 <= j < i ==> self.entries@[j].0 != pos,
            decreases self.entries@.len() - i,
        {
            let p = self.entries[i].0;
            if p.0 == pos.0 && p.1 == pos.1 {
                return Some(i);
            }
            i = i + 1;
        }
        None
    }

    /// The number of positions in the list.
    pub fn len(&self) -> (r: usize)
        ensures
            self@.dom().finite(),
            r == self@.dom().len(),
    {
        proof {
            use_type_invariant(self);
            lemma_map_of_contents(self.entries@);
        }
        self.entries.len()
    }

    /// Whether something is spawned at `pos`.
    pub fn contains_key(&self, pos: (u32, u32)) -> (r: bool)
        ensures
            r == self@.dom().contains(pos),
    {
        proof {
            use_type_invariant(self);
            lemma_map_of_contents(self.entries@);
        }
        self.find(pos).is_some()
    }

    /// What is spawned at `pos`, if anything.
    pub fn get(&self, pos: (u32, u32)) -> (r: Option<Spawnables>)
        ensures
            r == (if self@.dom().contains(pos) { Some(self@[pos]) } else { None }),
    {
        proof {
            use_type_invariant(self);
            lemma_map_of_contents(self.entries@);
        }
        match self.find(pos) {
            Some(i) => Some(self.entries[i].1),
            None => None,
        }
    }

    /// Sets what is spawned at `pos`, replacing what was there before.
    pub fn insert(&mut self, pos: (u32, u32), kind: Spawnables)
        ensures
            final(self)@ == old(self)@.insert(pos, kind),
    {
        proof {
            use_type_invariant(&*self);
        }
        let found = self.find(pos);
        let mut entries: Vec<((u32, u32), Spawnables)> = Vec::new();
        std::mem::swap(&mut entries, &mut self.entries);
        let ghost before = entries@;
        match found {
            Some(i) => {
                entries.set(i, (pos, kind));
                proof {
                    lemma_map_of_update(before, i as int, kind);
                }
            },
            None => {
                entries.push((pos, kind));
                assert(entries@.drop_last() =~= before);
            },
        }
        self.entries = entries;
    }

    /// Adds every entry of `other`, whose entries win where both have one.
    pub fn extend(&mut self, other: SpawnList)
        ensures
            final(self)@ == old(self)@.union_prefer_right(other@),
    {
        proof {
            use_type_invariant(&other);
        }
        let ghost start = self@;
        let mut i: usize = 0;
        while i < other.entries.len()
            invariant
                i <= other.entries@.len(),
                self@ == start.union_prefer_right(map_of(other.entries@.subrange(0, i as int))),
            decreases other.entries@.len() - i,
        {
            let e = other.entries[i];
            self.insert(e.0, e.1);
            let ghost pre = other.entries@.subrange(0, i as int);
            assert(other.entries@.subrange(0, i + 1).drop_last() =~= pre);
            assert(self@ =~= start.union_prefer_right(map_of(other.entries@.subrange(0, i + 1))));
            i = i + 1;
        }
        assert(other.entries@.subrange(0, i as int) =~= other.entries@);
    }

    /// A copy of this list.
    pub fn duplicate(&self) -> (r: SpawnList)
        ensures
            r@ == self@,
    {
        SpawnList { entries: self.to_vec() }
    }

    /// The entries as `(position, kind)` pairs, each position once.
    pub fn to_vec(&self) -> (r: Vec<((u32, u32), Spawnables)>)
        ensures
            keys_unique(r@),
            map_of(r@) == self@,
    {
        proof {
            use_type_invariant(self);
        }
        let mut out: Vec<((u32, u32), Spawnables)> = Vec::new();
        let mut i: usize = 0;
        while i < self.entries.len()
            invariant
                i <= self.entries@.len(),
                out@ == self.entries@.subrange(0, i as int),
            decreases self.entries@.len() - i,
        {
            out.push(self.entries[i]);
            assert(out@ =~= self.entries@.subrange(0, i + 1));
            i = i + 1;
        }
        assert(out@ =~= self.entries@);
        out
    }
}

/// The kinds that region and room spawners draw from, with their weights.
pub fn spawn_table() -> (r: RandomTable<Spawnables>)
    ensures
        r.wf(),
        r@ == seq![(Spawnables::Turtle, 10int), (Spawnables::APCrystal, 200int)],
{
    let t = RandomTable::new().add(Spawnables::Turtle, 10).add(Spawnables::APCrystal, 200);
    assert(t@ =~= seq![(Spawnables::Turtle, 10int), (Spawnables::APCrystal, 200int)]);
    t
}

/// A kind that [`spawn_table`] can select.
pub open spec fn is_creature_or_item(k: Spawnables) -> bool {
    k == Spawnables::Turtle || k == Spawnables::APCrystal
}

/// Whether `pos` is one of the positions of `region`.
pub open spec fn in_region(region: Seq<(u32, u32)>, pos: (u32, u32)) -> bool {
    exists|i: int| 0 <= i < region.len() && region[i] == pos
}

/// Places `kind` at `pos` unless something is spawned there already; tells
/// whether it did.
pub fn try_place(list: &mut SpawnList, pos: (u32, u32), kind: Spawnables) -> (r: bool)
    ensures
        r == !old(list)@.dom().contains(pos),
        r ==> final(list)@ == old(list)@.insert(pos, kind),
        !r ==> final(list)@ == old(list)@,
{
    if list.contains_key(pos) {
        false
    } else {
        list.insert(pos, kind);
        true
    }
}

/// Whether `m` is what a fill of `region` with at most `max` spawns may
/// give: finitely many positions of the region, each with a creature or item.
pub open spec fn region_fill(m: Map<(u32, u32), Spawnables>, region: Seq<(u32, u32)>, max: nat) -> bool {
    &&& m.dom().finite()
    &&& m.dom().len() <= max
    &&& forall|p: (u32, u32)| #[trigger] m.dom().contains(p) ==> in_region(region, p) && is_creature_or_item(m[p])
}

/// The spawn lists `lists` added one after the other to `base`, later ones
/// replacing earlier ones at the same position.
pub open spec fn spawn_fold(base: Map<(u32, u32), Spawnables>, lists: Seq<Map<(u32, u32), Spawnables>>) -> Map<(u32, u32), Spawnables>
    decreases lists.len(),
{
    if lists.len() == 0 {
        base
    } else {
        spawn_fold(base, lists.drop_last()).union_prefer_right(lists.last())
    }
}

/// Fills `num_spawns` slots with positions of `region`: for each slot up to
/// 20 positions are drawn, and the first one not yet taken gets a kind from
/// [`spawn_table`]; a slot whose 20 draws all hit taken positions is given
/// up. The first slot always lands, as nothing is taken yet.
pub fn fill_slots(rng: &mut rand::rngs::StdRng, region: &[(u32, u32)], num_spawns: u64) -> (r: SpawnList)
    requires
        region@.len() > 0,
    ensures
        r@.dom().finite(),
        r@.dom().len() <= num_spawns,
        num_spawns > 0 ==> r@.dom().len() >= 1,
        forall|p: (u32, u32)| #[trigger] r@.dom().contains(p) ==> in_region(region@, p),
        forall|p: (u32, u32)| #[trigger] r@.dom().contains(p) ==> is_creature_or_item(r@[p]),
{
    let mut spawn_points = SpawnList::new();
    let table = spawn_table();
    let mut slot: u64 = 0;
    proof {
        assert(spawn_points@.dom() =~= Set::<(u32, u32)>::empty());
    }
    while slot < num_spawns
        invariant
            table.wf(),
            table@ == seq![(Spawnables::Turtle, 10int), (Spawnables::APCrystal, 200int)],
            slot <= num_spawns,
            region@.len() > 0,
            spawn_points@.dom().finite(),
            spawn_points@.dom().len() <= slot,
            slot > 0 ==> spawn_points@.dom().len() >= 1,
            slot == 0 ==> spawn_points@.dom().len() == 0,
            forall|p: (u32, u32)| #[trigger] spawn_points@.dom().contains(p) ==> in_region(region@, p),
            forall|p: (u32, u32)| #[trigger] spawn_points@.dom().contains(p) ==> is_creature_or_item(spawn_points@[p]),
        decreases num_spawns - slot,
    {
        let mut added = false;
        let mut tries: u32 = 0;
        while !added && tries < 20
            invariant
                table.wf(),
                table@ == seq![(Spawnables::Turtle, 10int), (Spawnables::APCrystal, 200int)],
                region@.len() > 0,
                spawn_points@.dom().finite(),
                spawn_points@.dom().len() <= slot + (if added { 1int } else { 0int }),
                slot > 0 ==> spawn_points@.dom().len() >= 1,
                slot == 0 && !added ==> spawn_points@.dom().len() == 0 && tries == 0,
                added ==> spawn_points@.dom().len() >= 1,
                forall|p: (u32, u32)| #[trigger] spawn_points@.dom().contains(p) ==> in_region(region@, p),
                forall|p: (u32, u32)| #[trigger] spawn_points@.dom().contains(p) ==> is_creature_or_item(spawn_points@[p]),
                tries <= 20,
            decreases (if added { 0int } else { 1int }), 20 - tries,
        {
            let idx = gen_range(rng, 0, region.len() as u64) as usize;
            let pos = region[idx];
            if !spawn_points.contains_key(pos) {
                let kind = match table.roll(rng) {
                    Some(k) => {
                        proof {
                            let v = choose|v: int| 0 <= v < table.total() && pick(table@, v) == Some(k);
                            lemma_pick_is_entry(table@, v, k);
                        }
                        k
                    },
                    None => Spawnables::Turtle,
                };
                let ghost before = spawn_points@;
                try_place(&mut spawn_points, pos, kind);
                assert(spawn_points@.dom() =~= before.dom().insert(pos));
                assert(spawn_points@.dom().contains(pos));
                added = true;
            } else {
                proof {
                    if spawn_points@.dom().len() == 0 {
                        assert(spawn_points@.dom() =~= Set::<(u32, u32)>::empty());
                    }
                }
                tries = tries + 1;
            }
        }
        slot = slot + 1;
    }
    spawn_points
}

/// Draws between zero and `max_spawns` slots and fills them with positions
/// of `region` as [`fill_slots`] does. An empty region gets nothing, and no
/// draw is made for it.
pub fn fill_region(rng: &mut rand::rngs::StdRng, region: &[(u32, u32)], max_spawns: u32) -> (r: SpawnList)
    ensures
        region_fill(r@, region@, max_spawns as nat),
        region@.len() == 0 ==> r@.dom().len() == 0 && *final(rng) == *old(rng),
        r@.dom().finite(),
        r@.dom().len() <= max_spawns,
        forall|p: (u32, u32)| #[trigger] r@.dom().contains(p) ==> in_region(region@, p),
        forall|p: (u32, u32)| #[trigger] r@.dom().contains(p) ==> is_creature_or_item(r@[p]),
{
    if region.len() == 0 {
        let spawn_points = SpawnList::new();
        assert(spawn_points@.dom() =~= Set::<(u32, u32)>::empty());
        return spawn_points;
    }
    let num_spawns = gen_range(rng, 0, max_spawns as u64 + 1);
    fill_slots(rng, region, num_spawns)
}

/// Whether `m` is what a fill of the interior of `room` with at most `max`
/// spawns may give.
pub open spec fn room_fill(m: Map<(u32, u32), Spawnables>, room: Rect, max: nat) -> bool {
    &&& m.dom().finite()
    &&& m.dom().len() <= max
    &&& forall|p: (u32, u32)| #[trigger] m.dom().contains(p) ==> room.x1 < p.0 < room.x2 && room.y1 < p.1 < room.y2
        && is_creature_or_item(m[p])
}

/// Fills the interior of `room` (the tiles strictly inside its border) as
/// [`fill_region`] does.
pub fn fill_room(rng: &mut rand::rngs::StdRng, room: &Rect, max_spawns: u32) -> (r: SpawnList)
    ensures
        room_fill(r@, *room, max_spawns as nat),
        r@.dom().finite(),
        r@.dom().len() <= max_spawns,
        forall|p: (u32, u32)| #[trigger] r@.dom().contains(p) ==> room.x1 < p.0 < room.x2 && room.y1 < p.1 < room.y2,
        forall|p: (u32, u32)| #[trigger] r@.dom().contains(p) ==> is_creature_or_item(r@[p]),
{
    let mut room_tiles: Vec<(u32, u32)> = Vec::new();
    let mut x: u32 = room.x1;
    while (x as u64) + 1 < room.x2 as u64
        invariant
            room.x1 <= x,
            x == room.x1 || x < room.x2,
            forall|i: int| 0 <= i < room_tiles@.len() ==> room.x1 < #[trigger] room_tiles@[i].0 <= x
                && room.y1 < room_tiles@[i].1 < room.y2,
        decreases room.x2 - x,
    {
        x = x + 1;
        let mut y: u32 = room.y1;
        while (y as u64) + 1 < room.y2 as u64
            invariant
                room.x1 < x < room.x2,
                room.y1 <= y,
                y == room.y1 || y < room.y2,
                forall|i: int| 0 <= i < room_tiles@.len() ==> room.x1 < #[trigger] room_tiles@[i].0 <= x
                    && room.y1 < room_tiles@[i].1 < room.y2,
            decreases room.y2 - y,
        {
            y = y + 1;
            room_tiles.push((x, y));
        }
    }
    let r = fill_region(rng, room_tiles.as_slice(), max_spawns);
    assert forall|p: (u32, u32)| #[trigger] r@.dom().contains(p) implies room.x1 < p.0 < room.x2 && room.y1 < p.1 < room.y2 by {
        let i = choose|i: int| 0 <= i < room_tiles@.len() && room_tiles@[i] == p;
        assert(room_tiles@[i].0 == p.0);
    }
    r
}

} // verus!
