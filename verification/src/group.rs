//! What a node's own view of its group shows at one instant, as plain
//! values: who is in it, what each member publishes, and who leads.

use crate::idmap::IdMap;
use crate::ids::{GroupId, NodeId};
use vstd::prelude::*;

verus! {

/// What membership believes of one member.
#[derive(Debug, Clone, Copy, PartialEq, Eq, Structural)]
pub enum Status {
    /// Answering.
    Alive,
    /// Not answering, not yet given up.
    Suspect,
    /// Given up.
    Dead,
}

/// The entries one node publishes: values under keys.
#[derive(Debug)]
pub struct Entries {
    list: Vec<(String, Vec<u8>)>,
}

/// What stands under `key` in a list of entries: the first one counts.
pub open spec fn entry_in(list: Seq<(Seq<char>, Seq<u8>)>, key: Seq<char>) -> Option<Seq<u8>>
    decreases list.len(),
{
    if list.len() == 0 {
        None
    } else if list[0].0 == key {
        Some(list[0].1)
    } else {
        entry_in(list.subrange(1, list.len() as int), key)
    }
}

impl View for Entries {
    type V = Seq<(Seq<char>, Seq<u8>)>;

    closed spec fn view(&self) -> Seq<(Seq<char>, Seq<u8>)> {
        self.list@.map_values(|e: (String, Vec<u8>)| (e.0@, e.1@))
    }
}

impl Entries {
    /// No entries.
    pub fn new() -> (r: Entries)
        ensures
            r@ == Seq::<(Seq<char>, Seq<u8>)>::empty(),
    {
        let r = Entries { list: Vec::new() };
        proof {
            assert(r@ =~= Seq::<(Seq<char>, Seq<u8>)>::empty());
        }
        r
    }

    /// Puts `value` under `key`, ahead of anything that stood there.
    pub fn put(&mut self, key: String, value: Vec<u8>)
        ensures
            final(self)@ == seq![(key@, value@)] + old(self)@,
            entry_in(final(self)@, key@) == Some(value@),
    {
        let ghost before = self@;
        let ghost item = (key@, value@);
        self.list.insert(0, (key, value));
        proof {
            assert(self@ =~= seq![item] + before);
        }
    }

    /// What stands under `key`.
    pub fn get(&self, key: &str) -> (r: Option<&[u8]>)
        ensures
            match r {
                Some(v) => entry_in(self@, key@) == Some(v@),
                None => entry_in(self@, key@) is None,
            },
    {
        let mut i: usize = 0;
        proof {
            assert(self@.subrange(0, self@.len() as int) =~= self@);
        }
        while i < self.list.len()
            invariant
                i <= self.list@.len(),
                self@.len() == self.list@.len(),
                entry_in(self@, key@) == entry_in(
                    self@.subrange(i as int, self@.len() as int),
                    key@,
                ),
            decreases self.list@.len() - i,
        {
            let ghost rest = self@.subrange(i as int, self@.len() as int);
            proof {
                assert(rest[0] == (self.list@[i as int].0@, self.list@[i as int].1@));
                assert(rest.subrange(1, rest.len() as int) =~= self@.subrange(
                    i + 1,
                    self@.len() as int,
                ));
            }
            if same_text(self.list[i].0.as_str(), key) {
                return Some(self.list[i].1.as_slice());
            }
            i = i + 1;
        }
        None
    }
}

/// A write to one of this node's own entries, for the group to carry out.
#[derive(Debug, Clone)]
pub struct EntryWrite {
    /// The entry's key.
    pub key: String,
    /// Its new value.
    pub value: Vec<u8>,
    /// How long each receiver keeps it, in milliseconds; forever when absent.
    pub ttl_ms: Option<u64>,
}

/// Whether two texts are the same.
pub(crate) fn same_text(a: &str, b: &str) -> (r: bool)
    ensures
        r == (a@ == b@),
{
    a.to_owned() == b.to_owned()
}

/// A host that may be missing, copied.
pub(crate) fn copied_host(host: &Option<NodeId>) -> (r: Option<NodeId>)
    ensures
        r == *host,
{
    match host {
        Some(h) => Some(h.clone()),
        None => None,
    }
}

/// Who leads the group, as this node believes it: the leadership epoch it has
/// adopted, and the host of that epoch.
#[derive(Debug, Clone)]
pub struct Leadership {
    /// The leadership epoch.
    pub epoch: u64,
    /// The host, when the epoch has one.
    pub host: Option<NodeId>,
}

/// One node's view of its group at one instant.
#[derive(Debug)]
pub struct GroupView {
    /// The group.
    pub id: GroupId,
    /// Every member this node knows, with what membership believes of it.
    pub statuses: IdMap<Status>,
    /// The live members, in node order.
    pub members: Vec<NodeId>,
    /// The capabilities each member advertises.
    pub capabilities: IdMap<Vec<String>>,
    /// The entries each node publishes.
    pub entries: IdMap<Entries>,
    /// Who leads.
    pub leadership: Leadership,
}

/// Whether `cap` is one of the advertised capabilities.
pub open spec fn lists_capability(caps: Seq<String>, cap: Seq<char>) -> bool {
    exists|i: int| 0 <= i < caps.len() && (#[trigger] caps[i])@ == cap
}

impl GroupView {
    /// The value `node` publishes under `key`.
    pub open spec fn entry(&self, node: Seq<char>, key: Seq<char>) -> Option<Seq<u8>> {
        if self.entries@.contains_key(node) {
            entry_in(self.entries@[node]@, key)
        } else {
            None
        }
    }

    /// Whether `node` is believed alive.
    pub open spec fn alive(&self, node: Seq<char>) -> bool {
        self.statuses@.contains_key(node) && self.statuses@[node] == Status::Alive
    }

    /// Whether `node` advertises `cap`.
    pub open spec fn capable(&self, node: Seq<char>, cap: Seq<char>) -> bool {
        self.capabilities@.contains_key(node) && lists_capability(
            self.capabilities@[node]@,
            cap,
        )
    }

    /// A view that shows nothing yet: no member, no entry, no leader.
    pub fn new(id: GroupId) -> (r: GroupView)
        ensures
            r.id == id,
            r.statuses@ == Map::<Seq<char>, Status>::empty(),
            r.members@ == Seq::<NodeId>::empty(),
            r.capabilities@ == Map::<Seq<char>, Vec<String>>::empty(),
            r.entries@ == Map::<Seq<char>, Entries>::empty(),
            r.leadership == (Leadership { epoch: 0, host: None }),
    {
        GroupView {
            id,
            statuses: IdMap::new(),
            members: Vec::new(),
            capabilities: IdMap::new(),
            entries: IdMap::new(),
            leadership: Leadership { epoch: 0, host: None },
        }
    }

    /// The value `node` publishes under `key`.
    pub fn node_entry(&self, node: &NodeId, key: &str) -> (r: Option<&[u8]>)
        ensures
            match r {
                Some(v) => self.entry(node@, key@) == Some(v@),
                None => self.entry(node@, key@) is None,
            },
    {
        match self.entries.get(node) {
            Some(list) => list.get(key),
            None => None,
        }
    }

    /// Whether `node` is believed alive.
    pub fn is_alive(&self, node: &NodeId) -> (r: bool)
        ensures
            r == self.alive(node@),
    {
        match self.statuses.get_copy(node) {
            Some(status) => status == Status::Alive,
            None => false,
        }
    }

    /// Whether `node` advertises `cap`.
    pub fn node_has_capability(&self, node: &NodeId, cap: &str) -> (r: bool)
        ensures
            r == self.capable(node@, cap@),
    {
        match self.capabilities.get(node) {
            None => false,
            Some(caps) => {
                let mut i: usize = 0;
                while i < caps.len()
                    invariant
                        i <= caps@.len(),
                        self.capabilities@.contains_key(node@),
                        *caps == self.capabilities@[node@],
                        forall|j: int| 0 <= j < i ==> (#[trigger] caps@[j])@ != cap@,
                    decreases caps@.len() - i,
                {
                    if same_text(caps[i].as_str(), cap) {
                        return true;
                    }
                    i = i + 1;
                }
                false
            },
        }
    }
}

/// A view believes of its members what its tables hold: one is alive only
/// under that very status, and able to do only what it lists.
pub proof fn the_tables_say_who_is_alive_and_able(
    group: GroupView,
    node: Seq<char>,
    cap: Seq<char>,
)
    ensures
        group.alive(node) <==> group.statuses@.contains_key(node) && group.statuses@[node]
            == Status::Alive,
        group.capable(node, cap) <==> group.capabilities@.contains_key(node) && exists|i: int|
            0 <= i < group.capabilities@[node]@.len() && (
            #[trigger] group.capabilities@[node]@[i])@ == cap,
{
}

/// A value put under a key is what is read there, and what stands under every
/// other key stays; a node that publishes nothing has no entries.
pub proof fn entries_read_back(
    list: Seq<(Seq<char>, Seq<u8>)>,
    key: Seq<char>,
    value: Seq<u8>,
    other: Seq<char>,
    group: GroupView,
    node: Seq<char>,
)
    ensures
        entry_in(seq![(key, value)] + list, key) == Some(value),
        other != key ==> entry_in(seq![(key, value)] + list, other) == entry_in(list, other),
        entry_in(Seq::empty(), key) is None,
        group.entries@.contains_key(node) ==> group.entry(node, key) == entry_in(
            group.entries@[node]@,
            key,
        ),
        !group.entries@.contains_key(node) ==> group.entry(node, key) is None,
{
    let longer = seq![(key, value)] + list;
    assert(longer.subrange(1, longer.len() as int) =~= list);
}

} // verus!
