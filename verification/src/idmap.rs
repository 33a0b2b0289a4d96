//! Maps and sets keyed by node, kept in node order.

use crate::ids::NodeId;
use vstd::prelude::*;

verus! {

/// The map that a list of records builds when they are entered one by one:
/// of two records for one node the later counts.
pub open spec fn map_of<V>(records: Seq<(Seq<char>, V)>) -> Map<Seq<char>, V>
    decreases records.len(),
{
    if records.len() == 0 {
        Map::empty()
    } else {
        map_of(records.drop_last()).insert(records.last().0, records.last().1)
    }
}

/// Whether the records stand in strictly ascending node order.
pub open spec fn ascending<V>(records: Seq<(Seq<char>, V)>) -> bool {
    forall|i: int, j: int|
        #![trigger records[i], records[j]]
        0 <= i < j < records.len() ==> crate::ids::id_below(records[i].0, records[j].0)
}

/// What a map of records holds, key by key.
pub proof fn lemma_map_of<V>(records: Seq<(Seq<char>, V)>)
    ensures
        forall|k: Seq<char>|
            #![trigger map_of(records).contains_key(k)]
            map_of(records).contains_key(k) <==> exists|i: int|
                0 <= i < records.len() && (#[trigger] records[i]).0 == k,
        ascending(records) ==> forall|i: int|
            0 <= i < records.len() ==> map_of(records).contains_key(
                (#[trigger] records[i]).0,
            ) && map_of(records)[records[i].0] == records[i].1,
    decreases records.len(),
{
    if records.len() > 0 {
        let init = records.drop_last();
        lemma_map_of(init);
        assert forall|k: Seq<char>| #[trigger] map_of(records).contains_key(k) implies exists|
            i: int,
        |
            0 <= i < records.len() && (#[trigger] records[i]).0 == k by {
            if k == records.last().0 {
                assert(records[records.len() - 1].0 == k);
            } else {
                assert(map_of(init).contains_key(k));
                let i = choose|i: int| 0 <= i < init.len() && (#[trigger] init[i]).0 == k;
                assert(records[i].0 == k);
            }
        }
        assert forall|k: Seq<char>|
            (exists|i: int| 0 <= i < records.len() && (#[trigger] records[i]).0
                == k) implies #[trigger] map_of(records).contains_key(k) by {
            let i = choose|i: int| 0 <= i < records.len() && (#[trigger] records[i]).0 == k;
            if i < records.len() - 1 {
                assert(init[i].0 == k);
                assert(map_of(init).contains_key(k));
            }
        }
        if ascending(records) {
            assert(ascending(init)) by {
                assert forall|i: int, j: int|
                    #![trigger init[i], init[j]]
                    0 <= i < j < init.len() implies crate::ids::id_below(init[i].0, init[j].0) by {
                    assert(init[i] == records[i] && init[j] == records[j]);
                }
            }
            assert forall|i: int| 0 <= i < records.len() implies map_of(records).contains_key(
                (#[trigger] records[i]).0,
            ) && map_of(records)[records[i].0] == records[i].1 by {
                let n = records.len() - 1;
                if i < n {
                    assert(init[i] == records[i]);
                    assert(records[n] == records.last());
                    crate::ids::nodes_are_totally_ordered(records[i].0, records[n].0, records[n].0);
                }
            }
        }
    }
}

/// A map keyed by node, held in node order.
#[derive(Debug, PartialEq, Eq)]
pub struct IdMap<V> {
    entries: Vec<(NodeId, V)>,
}

impl<V> View for IdMap<V> {
    type V = Map<Seq<char>, V>;

    open spec fn view(&self) -> Map<Seq<char>, V> {
        map_of(self.records())
    }
}

spec fn records_of<V>(entries: Seq<(NodeId, V)>) -> Seq<(Seq<char>, V)> {
    entries.map_values(|e: (NodeId, V)| (e.0@, e.1))
}

impl<V> IdMap<V> {
    /// The records in node order.
    pub closed spec fn records(&self) -> Seq<(Seq<char>, V)> {
        records_of(self.entries@)
    }

    #[verifier::type_invariant]
    spec fn in_order(&self) -> bool {
        ascending(self.records())
    }

    /// The empty map.
    pub fn new() -> (r: IdMap<V>)
        ensures
            r.records() == Seq::<(Seq<char>, V)>::empty(),
            r@ == Map::<Seq<char>, V>::empty(),
    {
        let entries: Vec<(NodeId, V)> = Vec::new();
        proof {
            assert(records_of(entries@) =~= Seq::<(Seq<char>, V)>::empty());
        }
        IdMap { entries }
    }

    /// How many nodes the map holds.
    pub fn len(&self) -> (n: usize)
        ensures
            n == self.records().len(),
            ascending(self.records()),
    {
        proof {
            use_type_invariant(self);
        }
        self.entries.len()
    }

    /// Whether the map holds no node.
    pub fn is_empty(&self) -> (r: bool)
        ensures
            r == (self.records().len() == 0),
            r == (self@ == Map::<Seq<char>, V>::empty()),
    {
        proof {
            lemma_map_of(self.records());
            if self.records().len() > 0 {
                let k = self.records()[0].0;
                assert(self@.contains_key(k));
            }
        }
        self.entries.len() == 0
    }

    /// The `i`-th node in node order.
    pub fn key_at(&self, i: usize) -> (r: &NodeId)
        requires
            i < self.records().len(),
        ensures
            r@ == self.records()[i as int].0,
    {
        &self.entries[i].0
    }

    /// The value of the `i`-th node in node order.
    pub fn value_at(&self, i: usize) -> (r: &V)
        requires
            i < self.records().len(),
        ensures
            *r == self.records()[i as int].1,
    {
        &self.entries[i].1
    }

    /// Where `id` stands or would stand: every record before is of a smaller
    /// node, and every record from there on is of a node no smaller.
    fn seat(&self, id: &NodeId) -> (p: usize)
        ensures
            p <= self.records().len(),
            forall|i: int|
                0 <= i < p ==> crate::ids::id_below((#[trigger] self.records()[i]).0, id@),
            forall|i: int|
                p <= i < self.records().len() ==> !crate::ids::id_below(
                    (#[trigger] self.records()[i]).0,
                    id@,
                ),
    {
        proof {
            use_type_invariant(self);
        }
        let mut p: usize = 0;
        while p < self.entries.len() && self.entries[p].0.precedes(id)
            invariant
                p <= self.entries@.len(),
                forall|i: int|
                    0 <= i < p ==> crate::ids::id_below((#[trigger] self.records()[i]).0, id@),
            decreases self.entries@.len() - p,
        {
            p = p + 1;
        }
        proof {
            let recs = self.records();
            assert forall|i: int| p <= i < recs.len() implies !crate::ids::id_below(
                (#[trigger] recs[i]).0,
                id@,
            ) by {
                if p < i {
                    crate::ids::nodes_are_totally_ordered(recs[p as int].0, recs[i].0, id@);
                }
            }
        }
        p
    }

    /// The value of `id`, when the map holds one.
    pub fn get(&self, id: &NodeId) -> (r: Option<&V>)
        ensures
            match r {
                Some(v) => self@.contains_key(id@) && *v == self@[id@],
                None => !self@.contains_key(id@),
            },
    {
        proof {
            use_type_invariant(self);
            lemma_map_of(self.records());
        }
        let p: usize = self.seat(id);
        if p < self.entries.len() && self.entries[p].0 == *id {
            proof {
                assert(self.records()[p as int].0 == id@);
            }
            Some(&self.entries[p].1)
        } else {
            proof {
                if self@.contains_key(id@) {
                    let recs = self.records();
                    let i = choose|i: int| 0 <= i < recs.len() && (#[trigger] recs[i]).0 == id@;
                    crate::ids::nodes_are_totally_ordered(recs[i].0, id@, id@);
                    assert(i >= p);
                    if i > p {
                        crate::ids::nodes_are_totally_ordered(recs[p as int].0, recs[i].0, id@);
                    }
                }
            }
            None
        }
    }

    /// Whether the map holds `id`.
    pub fn contains_key(&self, id: &NodeId) -> (r: bool)
        ensures
            r == self@.contains_key(id@),
    {
        self.get(id).is_some()
    }

    /// Enters `value` for `id`, in place of any value it had.
    pub fn insert(&mut self, id: NodeId, value: V)
        ensures
            final(self)@ == old(self)@.insert(id@, value),
            final(self).records().len() == old(self).records().len() + (if old(
                self,
            )@.contains_key(id@) {
                0int
            } else {
                1int
            }),
    {
        proof {
            use_type_invariant(&*self);
        }
        let ghost before = self.records();
        let p: usize = self.seat(&id);
        let present: bool = p < self.entries.len() && self.entries[p].0 == id;
        let mut entries: Vec<(NodeId, V)> = Vec::new();
        proof {
            assert(ascending(records_of(entries@)));
        }
        std::mem::swap(&mut entries, &mut self.entries);
        let ghost name = id@;
        if present {
            entries.set(p, (id, value));
        } else {
            entries.insert(p, (id, value));
        }
        let ghost after = records_of(entries@);
        proof {
            if present {
                assert(after =~= before.update(p as int, (name, value)));
                lemma_replace(before, p as int, value);
            } else {
                assert(after =~= before.insert(p as int, (name, value)));
                lemma_seat(before, p as int, name, value);
            }
        }
        self.entries = entries;
    }

    /// Takes `id` out, handing back the value it had.
    pub fn remove(&mut self, id: &NodeId) -> (r: Option<V>)
        ensures
            final(self)@ == old(self)@.remove(id@),
            match r {
                Some(v) => old(self)@.contains_key(id@) && v == old(self)@[id@],
                None => !old(self)@.contains_key(id@),
            },
    {
        proof {
            use_type_invariant(&*self);
            lemma_map_of(self.records());
        }
        let ghost before = self.records();
        if self.contains_key(id) {
            let p: usize = self.seat(id);
            proof {
                let i = choose|i: int| 0 <= i < before.len() && (#[trigger] before[i]).0 == id@;
                crate::ids::nodes_are_totally_ordered(before[i].0, id@, id@);
                assert(i >= p);
                if i > p {
                    crate::ids::nodes_are_totally_ordered(before[p as int].0, before[i].0, id@);
                }
            }
            let mut entries: Vec<(NodeId, V)> = Vec::new();
            proof {
                assert(ascending(records_of(entries@)));
            }
            std::mem::swap(&mut entries, &mut self.entries);
            let (_, value) = entries.remove(p);
            proof {
                assert(records_of(entries@) =~= before.remove(p as int));
                lemma_unseat(before, p as int);
            }
            self.entries = entries;
            Some(value)
        } else {
            proof {
                assert(self@.remove(id@) =~= self@);
            }
            None
        }
    }
}

impl<V: Copy> IdMap<V> {
    /// The value of `id`, when the map holds one.
    pub fn get_copy(&self, id: &NodeId) -> (r: Option<V>)
        ensures
            match r {
                Some(v) => self@.contains_key(id@) && v == self@[id@],
                None => !self@.contains_key(id@),
            },
    {
        match self.get(id) {
            Some(v) => Some(*v),
            None => None,
        }
    }
}

impl<V: Copy> Clone for IdMap<V> {
    fn clone(&self) -> (r: IdMap<V>)
        ensures
            r.records() == self.records(),
            r@ == self@,
    {
        proof {
            use_type_invariant(self);
        }
        let mut entries: Vec<(NodeId, V)> = Vec::new();
        let mut i: usize = 0;
        while i < self.entries.len()
            invariant
                i <= self.entries@.len(),
                entries@ == self.entries@.subrange(0, i as int),
            decreases self.entries@.len() - i,
        {
            entries.push((self.entries[i].0.clone(), self.entries[i].1));
            i = i + 1;
        }
        proof {
            assert(entries@ =~= self.entries@);
        }
        IdMap { entries }
    }
}

proof fn lemma_replace<V>(records: Seq<(Seq<char>, V)>, p: int, value: V)
    requires
        ascending(records),
        0 <= p < records.len(),
    ensures
        ascending(records.update(p, (records[p].0, value))),
        map_of(records.update(p, (records[p].0, value))) == map_of(records).insert(
            records[p].0,
            value,
        ),
        map_of(records).contains_key(records[p].0),
{
    let after = records.update(p, (records[p].0, value));
    assert forall|i: int, j: int|
        #![trigger after[i], after[j]]
        0 <= i < j < after.len() implies crate::ids::id_below(after[i].0, after[j].0) by {
        assert(after[i].0 == records[i].0 && after[j].0 == records[j].0);
    }
    lemma_map_of(records);
    lemma_map_of(after);
    let want = map_of(records).insert(records[p].0, value);
    assert(map_of(after) =~= want) by {
        assert forall|k: Seq<char>| #[trigger] map_of(after).contains_key(k) == want.contains_key(
            k,
        ) by {
            if want.contains_key(k) {
                if k == records[p].0 {
                    assert(after[p].0 == k);
                } else {
                    let i = choose|i: int|
                        0 <= i < records.len() && (#[trigger] records[i]).0 == k;
                    assert(after[i].0 == k);
                }
            }
            if map_of(after).contains_key(k) {
                let i = choose|i: int| 0 <= i < after.len() && (#[trigger] after[i]).0 == k;
                assert(records[i].0 == k);
            }
        }
        assert forall|k: Seq<char>| #[trigger] map_of(after).contains_key(k) implies map_of(
            after,
        )[k] == want[k] by {
            let i = choose|i: int| 0 <= i < after.len() && (#[trigger] after[i]).0 == k;
            assert(map_of(after)[after[i].0] == after[i].1);
            assert(map_of(records)[records[i].0] == records[i].1);
            if i != p {
                if i < p {
                    crate::ids::nodes_are_totally_ordered(records[i].0, records[p].0, k);
                } else {
                    crate::ids::nodes_are_totally_ordered(records[p].0, records[i].0, k);
                }
            }
        }
    }
}

proof fn lemma_seat<V>(records: Seq<(Seq<char>, V)>, p: int, name: Seq<char>, value: V)
    requires
        ascending(records),
        0 <= p <= records.len(),
        forall|i: int| 0 <= i < p ==> crate::ids::id_below((#[trigger] records[i]).0, name),
        forall|i: int|
            p <= i < records.len() ==> !crate::ids::id_below((#[trigger] records[i]).0, name),
        p < records.len() ==> records[p].0 != name,
    ensures
        ascending(records.insert(p, (name, value))),
        map_of(records.insert(p, (name, value))) == map_of(records).insert(name, value),
        !map_of(records).contains_key(name),
{
    let after = records.insert(p, (name, value));
    assert forall|i: int| p <= i < records.len() implies crate::ids::id_below(
        name,
        (#[trigger] records[i]).0,
    ) by {
        crate::ids::nodes_are_totally_ordered(name, records[p].0, records[i].0);
        crate::ids::nodes_are_totally_ordered(records[i].0, name, name);
    }
    assert forall|i: int, j: int|
        #![trigger after[i], after[j]]
        0 <= i < j < after.len() implies crate::ids::id_below(after[i].0, after[j].0) by {
        let oi = if i < p { i } else { i - 1 };
        let oj = if j < p { j } else { j - 1 };
        if i != p && j != p {
            assert(after[i] == records[oi] && after[j] == records[oj]);
        } else if i == p {
            assert(after[j] == records[oj]);
        } else {
            assert(after[i] == records[oi]);
        }
    }
    lemma_map_of(records);
    lemma_map_of(after);
    if map_of(records).contains_key(name) {
        let i = choose|i: int| 0 <= i < records.len() && (#[trigger] records[i]).0 == name;
        crate::ids::nodes_are_totally_ordered(name, name, name);
    }
    let want = map_of(records).insert(name, value);
    assert(after[p].0 == name);
    assert(map_of(after) =~= want) by {
        assert forall|k: Seq<char>| #[trigger] map_of(after).contains_key(k) == want.contains_key(
            k,
        ) by {
            if want.contains_key(k) && k != name {
                let i = choose|i: int| 0 <= i < records.len() && (#[trigger] records[i]).0 == k;
                assert(after[if i < p { i } else { i + 1 }].0 == k);
            }
            if map_of(after).contains_key(k) && k != name {
                let i = choose|i: int| 0 <= i < after.len() && (#[trigger] after[i]).0 == k;
                assert(records[if i < p { i } else { i - 1 }].0 == k);
            }
        }
        assert forall|k: Seq<char>| #[trigger] map_of(after).contains_key(k) implies map_of(
            after,
        )[k] == want[k] by {
            let i = choose|i: int| 0 <= i < after.len() && (#[trigger] after[i]).0 == k;
            assert(map_of(after)[after[i].0] == after[i].1);
            if k != name {
                let o = if i < p { i } else { i - 1 };
                assert(records[o] == after[i]);
                assert(map_of(records)[records[o].0] == records[o].1);
            } else {
                assert(map_of(after)[after[p].0] == after[p].1);
            }
        }
    }
}

proof fn lemma_unseat<V>(records: Seq<(Seq<char>, V)>, p: int)
    requires
        ascending(records),
        0 <= p < records.len(),
    ensures
        ascending(records.remove(p)),
        map_of(records.remove(p)) == map_of(records).remove(records[p].0),
        map_of(records).contains_key(records[p].0),
        map_of(records)[records[p].0] == records[p].1,
{
    let after = records.remove(p);
    assert forall|i: int, j: int|
        #![trigger after[i], after[j]]
        0 <= i < j < after.len() implies crate::ids::id_below(after[i].0, after[j].0) by {
        let oi = if i < p { i } else { i + 1 };
        let oj = if j < p { j } else { j + 1 };
        assert(after[i] == records[oi] && after[j] == records[oj]);
    }
    lemma_map_of(records);
    lemma_map_of(after);
    let want = map_of(records).remove(records[p].0);
    assert(map_of(after) =~= want) by {
        assert forall|k: Seq<char>| #[trigger] map_of(after).contains_key(k) == want.contains_key(
            k,
        ) by {
            if want.contains_key(k) {
                let i = choose|i: int| 0 <= i < records.len() && (#[trigger] records[i]).0 == k;
                assert(after[if i < p { i } else { i - 1 }].0 == k);
            }
            if map_of(after).contains_key(k) {
                let i = choose|i: int| 0 <= i < after.len() && (#[trigger] after[i]).0 == k;
                let o = if i < p { i } else { i + 1 };
                assert(records[o].0 == k);
                if o < p {
                    crate::ids::nodes_are_totally_ordered(records[o].0, records[p].0, k);
                } else {
                    crate::ids::nodes_are_totally_ordered(records[p].0, records[o].0, k);
                }
            }
        }
        assert forall|k: Seq<char>| #[trigger] map_of(after).contains_key(k) implies map_of(
            after,
        )[k] == want[k] by {
            let i = choose|i: int| 0 <= i < after.len() && (#[trigger] after[i]).0 == k;
            let o = if i < p { i } else { i + 1 };
            assert(after[i] == records[o]);
            assert(map_of(after)[after[i].0] == after[i].1);
            assert(map_of(records)[records[o].0] == records[o].1);
        }
    }
}

/// A set of nodes, held in node order.
#[derive(Debug, PartialEq, Eq)]
pub struct IdSet {
    ids: IdMap<()>,
}

impl View for IdSet {
    type V = Set<Seq<char>>;

    open spec fn view(&self) -> Set<Seq<char>> {
        map_of(self.rows()).dom()
    }
}

impl IdSet {
    /// The members in node order.
    pub closed spec fn rows(&self) -> Seq<(Seq<char>, ())> {
        self.ids.records()
    }

    /// The empty set.
    pub fn new() -> (r: IdSet)
        ensures
            r@ == Set::<Seq<char>>::empty(),
            r.rows().len() == 0,
    {
        let r = IdSet { ids: IdMap::new() };
        proof {
            assert(r@ =~= Set::<Seq<char>>::empty());
        }
        r
    }

    /// How many nodes the set holds.
    pub fn len(&self) -> (n: usize)
        ensures
            n == self.rows().len(),
            ascending(self.rows()),
    {
        self.ids.len()
    }

    /// Whether the set holds no node.
    pub fn is_empty(&self) -> (r: bool)
        ensures
            r == (self.rows().len() == 0),
            r == (self@ == Set::<Seq<char>>::empty()),
    {
        proof {
            lemma_map_of(self.rows());
            if self.rows().len() > 0 {
                assert(self@.contains(self.rows()[0].0));
            } else {
                assert(self@ =~= Set::<Seq<char>>::empty());
            }
        }
        self.ids.is_empty()
    }

    /// The `i`-th node in node order.
    pub fn at(&self, i: usize) -> (r: &NodeId)
        requires
            i < self.rows().len(),
        ensures
            r@ == self.rows()[i as int].0,
    {
        self.ids.key_at(i)
    }

    /// Whether the set holds `id`.
    pub fn contains(&self, id: &NodeId) -> (r: bool)
        ensures
            r == self@.contains(id@),
    {
        self.ids.contains_key(id)
    }

    /// Puts `id` in.
    pub fn insert(&mut self, id: NodeId)
        ensures
            final(self)@ == old(self)@.insert(id@),
    {
        let ghost before = self@;
        let ghost name = id@;
        self.ids.insert(id, ());
        proof {
            assert(self@ =~= before.insert(name));
        }
    }

    /// Takes `id` out, telling whether it was there.
    pub fn remove(&mut self, id: &NodeId) -> (r: bool)
        ensures
            final(self)@ == old(self)@.remove(id@),
            r == old(self)@.contains(id@),
    {
        let ghost before = self@;
        let r: bool = self.ids.remove(id).is_some();
        proof {
            assert(self@ =~= before.remove(id@));
        }
        r
    }

    /// The set of the nodes in `ids`.
    pub fn of(ids: &[NodeId]) -> (r: IdSet)
        ensures
            r@ == crate::ids::names(ids@).to_set(),
    {
        let mut out: IdSet = IdSet::new();
        let mut i: usize = 0;
        proof {
            assert(crate::ids::names(ids@).subrange(0, 0).to_set() =~= Set::<Seq<char>>::empty());
        }
        while i < ids.len()
            invariant
                i <= ids@.len(),
                out@ == crate::ids::names(ids@).subrange(0, i as int).to_set(),
            decreases ids@.len() - i,
        {
            out.insert(ids[i].clone());
            proof {
                let all = crate::ids::names(ids@);
                let was = all.subrange(0, i as int);
                let now = all.subrange(0, i + 1);
                assert(now =~= was.push(ids@[i as int]@));
                assert(now.to_set() =~= was.to_set().insert(ids@[i as int]@)) by {
                    assert(now[i as int] == ids@[i as int]@);
                    assert forall|k: Seq<char>|
                        was.to_set().insert(ids@[i as int]@).contains(k) implies now.to_set().contains(
                        k,
                    ) by {
                        if k != ids@[i as int]@ {
                            let j = choose|j: int| 0 <= j < was.len() && was[j] == k;
                            assert(now[j] == k);
                        }
                    }
                }
            }
            i = i + 1;
        }
        proof {
            assert(crate::ids::names(ids@).subrange(0, ids@.len() as int) =~= crate::ids::names(
                ids@,
            ));
        }
        out
    }

    /// The members in node order.
    pub fn to_vec(&self) -> (r: Vec<NodeId>)
        ensures
            r@.len() == self.rows().len(),
            forall|i: int| 0 <= i < r@.len() ==> (#[trigger] r@[i])@ == self.rows()[i].0,
            ascending(self.rows()),
            crate::ids::names(r@).to_set() == self@,
            forall|i: int, j: int|
                #![trigger r@[i], r@[j]]
                0 <= i < j < r@.len() ==> crate::ids::id_below(r@[i]@, r@[j]@) && r@[i]@ != r@[j]@,
    {
        let n: usize = self.len();
        let mut out: Vec<NodeId> = Vec::new();
        let mut i: usize = 0;
        while i < n
            invariant
                i <= n,
                n == self.rows().len(),
                out@.len() == i,
                forall|j: int| 0 <= j < i ==> (#[trigger] out@[j])@ == self.rows()[j].0,
            decreases n - i,
        {
            out.push(self.at(i).clone());
            i = i + 1;
        }
        proof {
            lemma_map_of(self.rows());
            let listed = crate::ids::names(out@);
            assert forall|i: int, j: int|
                #![trigger out@[i], out@[j]]
                0 <= i < j < out@.len() implies crate::ids::id_below(out@[i]@, out@[j]@)
                && out@[i]@ != out@[j]@ by {
                assert(self.rows()[i].0 == out@[i]@ && self.rows()[j].0 == out@[j]@);
                crate::ids::nodes_are_totally_ordered(out@[i]@, out@[j]@, out@[j]@);
            }
            assert(listed.to_set() =~= self@) by {
                assert forall|k: Seq<char>| listed.to_set().contains(k) == self@.contains(k) by {
                    if self@.contains(k) {
                        let i = choose|i: int|
                            0 <= i < self.rows().len() && (#[trigger] self.rows()[i]).0 == k;
                        assert(listed[i] == k);
                    }
                    if listed.to_set().contains(k) {
                        let i = choose|i: int| 0 <= i < listed.len() && listed[i] == k;
                        assert(self.rows()[i].0 == k);
                    }
                }
            }
        }
        out
    }
}

impl Clone for IdSet {
    fn clone(&self) -> (r: IdSet)
        ensures
            r@ == self@,
            r.rows() == self.rows(),
    {
        IdSet { ids: self.ids.clone() }
    }
}

} // verus!
