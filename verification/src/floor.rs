//! Externally-typed sequence floors: per-node, per-key watermarks carried in
//! the consumer's own sequence space.
//!
//! One `u64` per node and key, gossiped as an expiring entry and readable by
//! every member. The number's meaning is entirely the consumer's. Absence is
//! the whole design: a node that makes no claim about a key, for whatever
//! reason, tells the caller to fall back, never to read zero.

use crate::group::{EntryWrite, GroupView};
use crate::ids::NodeId;
use core::time::Duration;
use vstd::prelude::*;

verus! {

/// The reserved group entry prefix every floor occupies.
pub const FLOOR_KEY: &'static str = "~floor";

/// The entry-key prefix of a set: `~floor:` for the default set,
/// `~floor:<name>:` for a named one.
pub open spec fn set_prefix(name: Seq<char>) -> Seq<char> {
    if name.len() == 0 {
        FLOOR_KEY@ + seq![':']
    } else {
        FLOOR_KEY@ + seq![':'] + name + seq![':']
    }
}

/// The entry-key prefix of a set.
pub fn prefix_for(name: &str) -> (r: String)
    ensures
        r@ == set_prefix(name@),
{
    let mut out: String = FLOOR_KEY.to_owned();
    proof {
        reveal_strlit(":");
    }
    out.append(":");
    if !name.is_empty() {
        out.append(name);
        out.append(":");
    }
    proof {
        assert(out@ =~= set_prefix(name@));
    }
    out
}

/// The group entry key one floor key occupies within a set.
pub fn entry_key(prefix: &str, key: &str) -> (r: String)
    ensures
        r@ == prefix@ + key@,
{
    let mut out: String = prefix.to_owned();
    out.append(key);
    out
}

/// Distinct keys of one set occupy distinct entries, and so do keys of sets
/// with distinct names: a name holds no colon, so it ends where the first
/// colon behind it stands. Two sets meet in one way only: a key of the default
/// set that is itself a name, a colon and a key.
pub proof fn floors_occupy_distinct_entries(
    n1: Seq<char>,
    k1: Seq<char>,
    n2: Seq<char>,
    k2: Seq<char>,
)
    requires
        !n1.contains(':'),
        !n2.contains(':'),
    ensures
        set_prefix(n1) + k1 == set_prefix(n2) + k2 <==> ({
            ||| n1 == n2 && k1 == k2
            ||| n1.len() == 0 && n2.len() > 0 && k1 == n2 + seq![':'] + k2
            ||| n2.len() == 0 && n1.len() > 0 && k2 == n1 + seq![':'] + k1
        }),
{
    if n1.len() == 0 && n2.len() > 0 {
        lemma_default_meets_named(n2, k1, k2);
    } else if n2.len() == 0 && n1.len() > 0 {
        lemma_default_meets_named(n1, k2, k1);
    } else {
        lemma_names_apart(n1, k1, n2, k2);
    }
}

proof fn lemma_default_meets_named(name: Seq<char>, k1: Seq<char>, k2: Seq<char>)
    requires
        name.len() > 0,
    ensures
        set_prefix(Seq::empty()) + k1 == set_prefix(name) + k2 <==> k1 == name + seq![':'] + k2,
        forall|none: Seq<char>| #[trigger]
            set_prefix(none) == set_prefix(Seq::empty()) <== none.len() == 0,
{
    let base = FLOOR_KEY@ + seq![':'];
    let e1 = base + k1;
    let e2 = set_prefix(name) + k2;
    assert(e2 =~= base + (name + seq![':'] + k2));
    assert(k1 =~= e1.subrange(base.len() as int, e1.len() as int));
    assert(name + seq![':'] + k2 =~= e2.subrange(base.len() as int, e2.len() as int));
}

proof fn lemma_names_apart(n1: Seq<char>, k1: Seq<char>, n2: Seq<char>, k2: Seq<char>)
    requires
        !n1.contains(':'),
        !n2.contains(':'),
        n1.len() == 0 <==> n2.len() == 0,
    ensures
        set_prefix(n1) + k1 == set_prefix(n2) + k2 <==> (n1 == n2 && k1 == k2),
{
    let e1 = set_prefix(n1) + k1;
    let e2 = set_prefix(n2) + k2;
    let base = (FLOOR_KEY@ + seq![':']).len() as int;
    if e1 == e2 {
        if n1.len() == 0 {
            assert(n1 =~= n2);
            assert(k1 =~= e1.subrange(base, e1.len() as int));
            assert(k2 =~= e2.subrange(base, e2.len() as int));
        } else {
            let l1 = n1.len() as int;
            let l2 = n2.len() as int;
            assert(e1[base + l1] == ':');
            assert(e2[base + l2] == ':');
            if l1 < l2 {
                assert(e2[base + l1] == n2[l1]);
                assert(n2.contains(':'));
            }
            if l2 < l1 {
                assert(e1[base + l2] == n1[l2]);
                assert(n1.contains(':'));
            }
            assert(n1 =~= e1.subrange(base, base + l1));
            assert(n2 =~= e2.subrange(base, base + l2));
            assert(k1 =~= e1.subrange(base + l1 + 1, e1.len() as int));
            assert(k2 =~= e2.subrange(base + l2 + 1, e2.len() as int));
        }
    }
}

/// A floor as it is gossiped: one little-endian `u64`.
pub fn encode(floor: u64) -> (r: Vec<u8>)
    ensures
        r@ == crate::codec::le64(floor),
{
    let mut out: Vec<u8> = Vec::new();
    crate::codec::put_u64(&mut out, floor);
    proof {
        assert(out@ =~= crate::codec::le64(floor));
    }
    out
}

/// The floor that `b` spells: nothing unless it is exactly one `u64`.
pub open spec fn parse_floor(b: Seq<u8>) -> Option<u64> {
    if b.len() == 8 {
        crate::codec::get_u64(b, 0)
    } else {
        None
    }
}

/// The floor in `bytes`, or `None` unless they are exactly one `u64`. Short,
/// long and garbled all read as "no claim".
pub fn decode(bytes: &[u8]) -> (r: Option<u64>)
    ensures
        r == parse_floor(bytes@),
{
    if bytes.len() == 8 {
        crate::codec::read_u64(bytes, 0)
    } else {
        None
    }
}

/// A gossiped floor reads back as itself.
pub proof fn floors_read_back(floor: u64)
    ensures
        parse_floor(crate::codec::le64(floor)) == Some(floor),
{
    let b = crate::codec::le64(floor);
    crate::codec::lemma_le64_reads_back(floor);
    assert(b.subrange(0, 8) =~= b);
    crate::codec::lemma_get_u64(b, 0, floor);
}

/// The running maximum advertised per key.
#[derive(Debug)]
pub struct Published {
    list: Vec<(String, u64)>,
}

spec fn published_in(list: Seq<(String, u64)>, key: Seq<char>) -> Option<u64>
    decreases list.len(),
{
    if list.len() == 0 {
        None
    } else if list.last().0@ == key {
        Some(list.last().1)
    } else {
        published_in(list.drop_last(), key)
    }
}

proof fn lemma_absent(list: Seq<(String, u64)>, key: Seq<char>)
    requires
        forall|j: int| 0 <= j < list.len() ==> (#[trigger] list[j]).0@ != key,
    ensures
        published_in(list, key) is None,
    decreases list.len(),
{
    if list.len() > 0 {
        assert(list[list.len() - 1].0@ != key);
        lemma_absent(list.drop_last(), key);
    }
}

proof fn lemma_raised_in_place(list: Seq<(String, u64)>, i: int, value: (String, u64))
    requires
        0 <= i < list.len(),
        value.0@ == list[i].0@,
        forall|j: int| i < j < list.len() ==> (#[trigger] list[j]).0@ != list[i].0@,
    ensures
        published_in(list, list[i].0@) == Some(list[i].1),
        published_in(list.update(i, value), list[i].0@) == Some(value.1),
        forall|k: Seq<char>|
            k != list[i].0@ ==> #[trigger] published_in(list.update(i, value), k) == published_in(
                list,
                k,
            ),
    decreases list.len(),
{
    let n = list.len() - 1;
    let init = list.drop_last();
    let after = list.update(i, value);
    if i < n {
        lemma_raised_in_place(init, i, value);
        assert(after.drop_last() =~= init.update(i, value));
        assert(list[n].0@ != list[i].0@);
    } else {
        assert(after.drop_last() =~= init);
    }
    assert forall|k: Seq<char>| k != list[i].0@ implies #[trigger] published_in(after, k)
        == published_in(list, k) by {
        if i < n {
            assert(published_in(init.update(i, value), k) == published_in(init, k));
            assert(after.last() == list.last());
        }
    }
}

impl Published {
    /// What is advertised for `key`.
    pub closed spec fn value(&self, key: Seq<char>) -> Option<u64> {
        published_in(self.list@, key)
    }

    /// Nothing advertised.
    pub fn new() -> (r: Published)
        ensures
            forall|k: Seq<char>| #[trigger] r.value(k) is None,
    {
        Published { list: Vec::new() }
    }

    /// What is advertised for `key`.
    pub fn get(&self, key: &str) -> (r: Option<u64>)
        ensures
            r == self.value(key@),
    {
        let mut i: usize = self.list.len();
        proof {
            assert(self.list@.subrange(0, i as int) =~= self.list@);
        }
        while i > 0
            invariant
                i <= self.list@.len(),
                published_in(self.list@, key@) == published_in(
                    self.list@.subrange(0, i as int),
                    key@,
                ),
            decreases i,
        {
            i = i - 1;
            proof {
                let part = self.list@.subrange(0, i + 1);
                assert(part.drop_last() =~= self.list@.subrange(0, i as int));
            }
            if crate::group::same_text(self.list[i].0.as_str(), key) {
                return Some(self.list[i].1);
            }
        }
        None
    }
}

/// The higher of what is advertised already and `floor`.
pub open spec fn running_max(current: Option<u64>, floor: u64) -> u64 {
    match current {
        Some(c) => if c >= floor {
            c
        } else {
            floor
        },
        None => floor,
    }
}

/// Folds `floor` into what is published under `key` and hands back the value
/// to advertise: the running maximum.
pub fn fold_max(published: &mut Published, key: &str, floor: u64) -> (r: u64)
    ensures
        r == running_max(old(published).value(key@), floor),
        final(published).value(key@) == Some(r),
        forall|k: Seq<char>|
            k != key@ ==> #[trigger] final(published).value(k) == old(published).value(k),
{
    let ghost before = published.list@;
    let mut i: usize = published.list.len();
    while i > 0
        invariant
            i <= published.list@.len(),
            published.list@ == before,
            before == old(published).list@,
            forall|j: int| i <= j < before.len() ==> (#[trigger] before[j]).0@ != key@,
        decreases i,
    {
        i = i - 1;
        if crate::group::same_text(published.list[i].0.as_str(), key) {
            let current: u64 = published.list[i].1;
            let value: u64 = if current >= floor {
                current
            } else {
                floor
            };
            let entry: (String, u64) = (key.to_owned(), value);
            proof {
                lemma_raised_in_place(before, i as int, entry);
            }
            published.list.set(i, entry);
            return value;
        }
    }
    proof {
        lemma_absent(before, key@);
    }
    published.list.push((key.to_owned(), floor));
    proof {
        assert(published.list@.drop_last() =~= before);
    }
    floor
}

/// A floor never walks backwards, and two publishes come to the same floor
/// in either order.
pub proof fn floors_never_regress(current: Option<u64>, a: u64, b: u64)
    ensures
        running_max(current, a) >= a,
        current matches Some(c) ==> running_max(current, a) >= c,
        running_max(Some(running_max(current, a)), b) == running_max(
            Some(running_max(current, b)),
            a,
        ),
{
}

/// A folded floor is the higher of the two, and one of them.
pub proof fn a_fold_is_the_higher(current: Option<u64>, floor: u64)
    ensures
        current is None ==> running_max(current, floor) == floor,
        current matches Some(c) ==> {
            &&& c >= floor ==> running_max(current, floor) == c
            &&& c < floor ==> running_max(current, floor) == floor
        },
{
}

/// A floor is read from exactly its eight bytes.
pub proof fn a_floor_is_eight_bytes(b: Seq<u8>, floor: u64)
    ensures
        parse_floor(b) == Some(floor) <==> b == crate::codec::le64(floor),
        parse_floor(b) is Some <==> b.len() == 8,
{
    crate::codec::lemma_le64_reads_back(floor);
    crate::codec::lemma_get_u64(b, 0, floor);
    if b.len() == 8 {
        assert(b.subrange(0, 8) =~= b);
    }
}

/// Per-node sequence floors: "node N has applied `key` through `floor`".
#[derive(Debug)]
pub struct SeqFloors {
    prefix: String,
    ttl_ms: u64,
    published: Published,
}

/// The floors of the members listed, in their order; members that make no
/// claim are absent.
pub open spec fn claims(group: GroupView, members: Seq<NodeId>, entry: Seq<char>) -> Seq<
    (NodeId, u64),
>
    decreases members.len(),
{
    if members.len() == 0 {
        Seq::empty()
    } else {
        let init = claims(group, members.drop_last(), entry);
        match claim_of(group, members.last()@, entry) {
            Some(floor) => init.push((members.last(), floor)),
            None => init,
        }
    }
}

/// The floor `node` claims under `entry`.
pub open spec fn claim_of(group: GroupView, node: Seq<char>, entry: Seq<char>) -> Option<u64> {
    match group.entry(node, entry) {
        None => None,
        Some(bytes) => parse_floor(bytes),
    }
}

/// Milliseconds of a time to live: at least one, since zero would mean "never
/// expires".
pub open spec fn ttl_of(ttl: Duration) -> u64 {
    let ms = crate::span::clamp(crate::span::span_ms(ttl));
    if ms == 0 {
        1
    } else {
        ms
    }
}

impl SeqFloors {
    /// The set's entry-key prefix.
    pub closed spec fn prefix(&self) -> Seq<char> {
        self.prefix@
    }

    /// How long an advertised floor lives.
    pub closed spec fn ttl_ms(&self) -> u64 {
        self.ttl_ms
    }

    /// What this node advertises for `key`.
    pub closed spec fn advertised(&self, key: Seq<char>) -> Option<u64> {
        self.published.value(key)
    }

    /// The default floor set, publishing entries that expire `ttl` after each
    /// receiver adopts them; a span under a millisecond is raised to one.
    pub fn new(ttl: Duration) -> (r: SeqFloors)
        ensures
            r.prefix() == set_prefix(Seq::empty()),
            r.ttl_ms() == ttl_of(ttl),
            forall|k: Seq<char>| #[trigger] r.advertised(k) is None,
    {
        proof {
            reveal_strlit("");
            assert(""@ =~= Seq::<char>::empty());
        }
        SeqFloors::build(prefix_for(""), ttl)
    }

    /// A named floor set; the empty name is the default set. A name holds no
    /// colon, which is the layout's own separator.
    pub fn named(name: &str, ttl: Duration) -> (r: SeqFloors)
        requires
            !name@.contains(':'),
        ensures
            r.prefix() == set_prefix(name@),
            r.ttl_ms() == ttl_of(ttl),
            forall|k: Seq<char>| #[trigger] r.advertised(k) is None,
    {
        SeqFloors::build(prefix_for(name), ttl)
    }

    fn build(prefix: String, ttl: Duration) -> (r: SeqFloors)
        ensures
            r.prefix() == prefix@,
            r.ttl_ms() == ttl_of(ttl),
            forall|k: Seq<char>| #[trigger] r.advertised(k) is None,
    {
        let ms: u64 = crate::span::clamp_ms(ttl);
        SeqFloors {
            prefix,
            ttl_ms: if ms == 0 {
                1
            } else {
                ms
            },
            published: Published::new(),
        }
    }

    /// Advertises that this node has reached `floor` for `key`, refreshing
    /// the entry's life: the write to make, which carries the running
    /// maximum. A lower floor never lowers what peers read, and a write that
    /// was rejected is carried again by the next one.
    pub fn publish(&mut self, key: &str, floor: u64) -> (r: EntryWrite)
        ensures
            final(self).prefix() == old(self).prefix(),
            final(self).ttl_ms() == old(self).ttl_ms(),
            final(self).advertised(key@) == Some(running_max(old(self).advertised(key@), floor)),
            forall|k: Seq<char>|
                k != key@ ==> #[trigger] final(self).advertised(k) == old(self).advertised(k),
            r.key@ == old(self).prefix() + key@,
            r.value@ == crate::codec::le64(final(self).advertised(key@)->0),
            r.ttl_ms == Some(old(self).ttl_ms()),
    {
        let value: u64 = fold_max(&mut self.published, key, floor);
        EntryWrite {
            key: entry_key(self.prefix.as_str(), key),
            value: encode(value),
            ttl_ms: Some(self.ttl_ms),
        }
    }

    /// The floor `node` currently advertises for `key` in this set. `None`
    /// covers every flavour of "no claim".
    pub fn floor_of(&self, group: &GroupView, node: &NodeId, key: &str) -> (r: Option<u64>)
        ensures
            r == claim_of(*group, node@, self.prefix() + key@),
    {
        let entry: String = entry_key(self.prefix.as_str(), key);
        match group.node_entry(node, entry.as_str()) {
            None => None,
            Some(bytes) => decode(bytes),
        }
    }

    /// Every live member that advertises a floor for `key` in this set, with
    /// that floor, in node order.
    pub fn floors_for(&self, group: &GroupView, key: &str) -> (r: Vec<(NodeId, u64)>)
        ensures
            r@ == claims(*group, group.members@, self.prefix() + key@),
    {
        let mut out: Vec<(NodeId, u64)> = Vec::new();
        let ghost entry = self.prefix() + key@;
        let mut i: usize = 0;
        while i < group.members.len()
            invariant
                i <= group.members@.len(),
                entry == self.prefix() + key@,
                out@ == claims(*group, group.members@.subrange(0, i as int), entry),
            decreases group.members@.len() - i,
        {
            let node: &NodeId = &group.members[i];
            proof {
                let part = group.members@.subrange(0, i + 1);
                assert(part.drop_last() =~= group.members@.subrange(0, i as int));
            }
            if let Some(floor) = self.floor_of(group, node, key) {
                out.push((node.clone(), floor));
            }
            i = i + 1;
        }
        proof {
            assert(group.members@.subrange(0, i as int) =~= group.members@);
        }
        out
    }
}

/// The floors of a group are read member by member, in member order: each that
/// makes a readable claim is listed with it, and none that does not.
pub proof fn floors_are_listed_member_by_member(
    group: GroupView,
    members: Seq<NodeId>,
    member: NodeId,
    entry: Seq<char>,
)
    ensures
        claims(group, Seq::empty(), entry).len() == 0,
        claims(group, members.push(member), entry) == (match group.entry(member@, entry) {
            Some(bytes) => match parse_floor(bytes) {
                Some(floor) => claims(group, members, entry).push((member, floor)),
                None => claims(group, members, entry),
            },
            None => claims(group, members, entry),
        }),
        claim_of(group, member@, entry) == (match group.entry(member@, entry) {
            Some(bytes) => parse_floor(bytes),
            None => None::<u64>,
        }),
{
    assert(members.push(member).drop_last() =~= members);
}

/// A claim lives for its whole milliseconds, never for none, which would be
/// for ever.
pub proof fn a_claim_always_expires(ttl: Duration)
    ensures
        ttl_of(ttl) >= 1,
        1 <= crate::span::span_nanos(ttl) / 1_000_000 <= u64::MAX ==> ttl_of(ttl)
            == crate::span::span_nanos(ttl) / 1_000_000,
        crate::span::span_nanos(ttl) < 1_000_000 ==> ttl_of(ttl) == 1,
        crate::span::span_nanos(ttl) / 1_000_000 > u64::MAX ==> ttl_of(ttl) == u64::MAX,
{
}

} // verus!
