use vstd::prelude::*;
use crate::rng::gen_range;

verus! {

/// One labelled entry of a [`RandomTable`] with its weight.
#[derive(Debug)]
pub struct TableEntry<S> {
    name: S,
    weight: i32,
}

impl<S> TableEntry<S> {
    pub fn new(name: S, weight: i32) -> (r: Self)
        ensures
            r.name() == name,
            r.weight() == weight,
    {
        TableEntry { name, weight }
    }

    pub closed spec fn name(&self) -> S {
        self.name
    }

    pub closed spec fn weight(&self) -> int {
        self.weight as int
    }
}

/// Sum of the weights of the entries.
pub open spec fn total_of<S>(entries: Seq<(S, int)>) -> int
    decreases entries.len(),
{
    if entries.len() == 0 {
        0
    } else {
        total_of(entries.drop_last()) + entries.last().1
    }
}

/// The entry a roll selects: scanning in order and subtracting weights, the
/// first entry whose weight exceeds what is left of the roll.
pub open spec fn pick<S>(entries: Seq<(S, int)>, roll: int) -> Option<S>
    decreases entries.len(),
{
    if entries.len() == 0 {
        None
    } else if roll < entries[0].1 {
        Some(entries[0].0)
    } else {
        pick(entries.drop_first(), roll - entries[0].1)
    }
}

/// A weighted choice among labelled entries.
#[derive(Debug)]
pub struct RandomTable<S> {
    entries: Vec<TableEntry<S>>,
    total_weight: i32,
}

impl<S> View for RandomTable<S> {
    type V = Seq<(S, int)>;

    /// The entries in order, each with its weight.
    closed spec fn view(&self) -> Seq<(S, int)> {
        self.entries@.map_values(|e: TableEntry<S>| (e.name, e.weight as int))
    }
}

proof fn lemma_total_push<S>(entries: Seq<(S, int)>, e: (S, int))
    ensures
        total_of(entries.push(e)) == total_of(entries) + e.1,
{
    assert(entries.push(e).drop_last() =~= entries);
}

proof fn lemma_total_drop_first<S>(entries: Seq<(S, int)>)
    requires
        entries.len() > 0,
    ensures
        total_of(entries) == entries[0].1 + total_of(entries.drop_first()),
    decreases entries.len(),
{
    if entries.len() > 1 {
        lemma_total_drop_first(entries.drop_last());
        assert(entries.drop_last().drop_first() =~= entries.drop_first().drop_last());
    } else {
        assert(entries.drop_last() =~= Seq::<(S, int)>::empty());
        assert(entries.drop_first() =~= Seq::<(S, int)>::empty());
    }
}

/// With positive weights, a roll below the total weight always selects an entry.
pub proof fn lemma_pick_in_range<S>(entries: Seq<(S, int)>, roll: int)
    requires
        forall|i: int| 0 <= i < entries.len() ==> entries[i].1 > 0,
        0 <= roll < total_of(entries),
    ensures
        pick(entries, roll) is Some,
    decreases entries.len(),
{
    if entries.len() == 0 {
    } else {
        lemma_total_drop_first(entries);
        if roll >= entries[0].1 {
            lemma_pick_in_range(entries.drop_first(), roll - entries[0].1);
        }
    }
}

/// What a roll selects is one of the entries.
pub proof fn lemma_pick_is_entry<S>(entries: Seq<(S, int)>, roll: int, s: S)
    requires
        pick(entries, roll) == Some(s),
    ensures
        exists|i: int| 0 <= i < entries.len() && entries[i].0 == s,
    decreases entries.len(),
{
    if entries.len() > 0 && roll >= entries[0].1 {
        lemma_pick_is_entry(entries.drop_first(), roll - entries[0].1, s);
        let i = choose|i: int| 0 <= i < entries.drop_first().len() && entries.drop_first()[i].0 == s;
        assert(entries[i + 1].0 == s);
    }
}

proof fn lemma_total_nonneg<S>(entries: Seq<(S, int)>)
    requires
        forall|i: int| 0 <= i < entries.len() ==> entries[i].1 > 0,
    ensures
        total_of(entries) >= 0,
        entries.len() > 0 ==> total_of(entries) > 0,
    decreases entries.len(),
{
    if entries.len() > 0 {
        lemma_total_nonneg(entries.drop_last());
    }
}

impl<S: Copy> RandomTable<S> {
    /// Weights are positive and the stored total is their sum.
    pub closed spec fn wf(&self) -> bool {
        &&& forall|i: int| 0 <= i < self@.len() ==> self@[i].1 > 0
        &&& self.total_weight == total_of(self@)
    }

    /// The sum of all weights.
    pub closed spec fn total(&self) -> int {
        self.total_weight as int
    }

    /// An empty table.
    pub fn new() -> (r: Self)
        ensures
            r.wf(),
            r@ == Seq::<(S, int)>::empty(),
            r.total() == 0,
    {
        let r = RandomTable { entries: Vec::new(), total_weight: 0 };
        assert(r@ =~= Seq::<(S, int)>::empty());
        r
    }

    /// The table with one more entry at the end.
    pub fn add(self, name: S, weight: i32) -> (r: Self)
        requires
            self.wf(),
            weight > 0,
            self.total() + weight <= i32::MAX,
        ensures
            r.wf(),
            r@ == self@.push((name, weight as int)),
            r.total() == self.total() + weight,
    {
        let mut t = self;
        let ghost before = t@;
        t.total_weight = t.total_weight + weight;
        t.entries.push(TableEntry::new(name, weight));
        assert(t@ =~= before.push((name, weight as int)));
        proof {
            lemma_total_push(before, (name, weight as int));
        }
        t
    }

    /// The entry that a roll of `roll` selects.
    pub fn pick_entry(&self, roll: i32) -> (r: Option<S>)
        requires
            self.wf(),
        ensures
            r == pick(self@, roll as int),
    {
        let mut rest: i32 = roll;
        let mut i: usize = 0;
        assert(self@.subrange(0, self@.len() as int) =~= self@);
        while i < self.entries.len()
            invariant
                self.wf(),
                i <= self@.len(),
                self@.len() == self.entries@.len(),
                pick(self@, roll as int) == pick(self@.subrange(i as int, self@.len() as int), rest as int),
            decreases self@.len() - i,
        {
            let ghost tail = self@.subrange(i as int, self@.len() as int);
            assert(tail[0] == self@[i as int]);
            assert(tail.drop_first() =~= self@.subrange(i + 1, self@.len() as int));
            let entry = &self.entries[i];
            if rest < entry.weight {
                return Some(entry.name);
            }
            assert(self@[i as int].1 > 0);
            rest = rest - entry.weight;
            i = i + 1;
        }
        assert(self@.subrange(i as int, self@.len() as int).len() == 0);
        None
    }

    /// Draws a roll below the total weight and returns the entry it selects;
    /// `None` exactly when the table is empty.
    pub fn roll(&self, rng: &mut rand::rngs::StdRng) -> (r: Option<S>)
        requires
            self.wf(),
        ensures
            r is None <==> self@.len() == 0,
            r is None <==> self.total() <= 0,
            r matches Some(s) ==> exists|v: int| 0 <= v < self.total() && pick(self@, v) == Some(s),
    {
        proof {
            lemma_total_nonneg(self@);
        }
        if self.total_weight <= 0 {
            return None;
        }
        let v = gen_range(rng, 0, self.total_weight as u64) as i32;
        proof {
            lemma_pick_in_range(self@, v as int);
        }
        self.pick_entry(v)
    }
}

} // verus!
