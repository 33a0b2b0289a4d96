//! The names by which nodes and groups are known, and their order.

use vstd::prelude::*;

verus! {

/// A node's name. Nodes are ordered by the bytes of their names, the order
/// every member of a group agrees on.
#[derive(Debug, Hash)]
pub struct NodeId {
    name: String,
}

impl View for NodeId {
    type V = Seq<char>;

    closed spec fn view(&self) -> Seq<char> {
        self.name@
    }
}

impl NodeId {
    /// The node called `name`.
    pub fn new(name: &str) -> (r: NodeId)
        ensures
            r@ == name@,
    {
        NodeId { name: name.to_owned() }
    }

    /// The node called `name`, taking the string over.
    pub fn from_string(name: String) -> (r: NodeId)
        ensures
            r@ == name@,
    {
        NodeId { name }
    }

    /// The name.
    pub fn as_str(&self) -> (r: &str)
        ensures
            r@ == self@,
    {
        self.name.as_str()
    }

    /// Whether this node stands strictly before `other` in the node order.
    pub fn precedes(&self, other: &NodeId) -> (r: bool)
        ensures
            r == id_below(self@, other@),
    {
        bytes_precede(self.name.as_str().as_bytes(), other.name.as_str().as_bytes())
    }
}

impl Clone for NodeId {
    fn clone(&self) -> (r: NodeId)
        ensures
            r == *self,
    {
        NodeId { name: self.name.clone() }
    }
}

impl PartialEq for NodeId {
    fn eq(&self, other: &NodeId) -> (r: bool) {
        self.name == other.name
    }
}

impl vstd::std_specs::cmp::PartialEqSpecImpl for NodeId {
    open spec fn obeys_eq_spec() -> bool {
        true
    }

    open spec fn eq_spec(&self, other: &NodeId) -> bool {
        self@ == other@
    }
}

impl Eq for NodeId {

}

/// A group's name.
#[derive(Debug, Hash)]
pub struct GroupId {
    name: String,
}

impl View for GroupId {
    type V = Seq<char>;

    closed spec fn view(&self) -> Seq<char> {
        self.name@
    }
}

impl GroupId {
    /// The group called `name`.
    pub fn new(name: &str) -> (r: GroupId)
        ensures
            r@ == name@,
    {
        GroupId { name: name.to_owned() }
    }

    /// The group called `name`, taking the string over.
    pub fn from_string(name: String) -> (r: GroupId)
        ensures
            r@ == name@,
    {
        GroupId { name }
    }

    /// The name.
    pub fn as_str(&self) -> (r: &str)
        ensures
            r@ == self@,
    {
        self.name.as_str()
    }
}

impl Clone for GroupId {
    fn clone(&self) -> (r: GroupId)
        ensures
            r == *self,
    {
        GroupId { name: self.name.clone() }
    }
}

impl PartialEq for GroupId {
    fn eq(&self, other: &GroupId) -> (r: bool) {
        self.name == other.name
    }
}

impl vstd::std_specs::cmp::PartialEqSpecImpl for GroupId {
    open spec fn obeys_eq_spec() -> bool {
        true
    }

    open spec fn eq_spec(&self, other: &GroupId) -> bool {
        self@ == other@
    }
}

impl Eq for GroupId {

}

/// Whether `a` stands strictly before `b` in the lexicographic order of byte
/// strings.
pub open spec fn bytes_below(a: Seq<u8>, b: Seq<u8>) -> bool
    decreases a.len(),
{
    if b.len() == 0 {
        false
    } else if a.len() == 0 {
        true
    } else {
        a[0] < b[0] || (a[0] == b[0] && bytes_below(
            a.subrange(1, a.len() as int),
            b.subrange(1, b.len() as int),
        ))
    }
}

/// Whether the node `a` stands strictly before the node `b`: their names
/// compared byte by byte.
pub open spec fn id_below(a: Seq<char>, b: Seq<char>) -> bool {
    bytes_below(vstd::utf8::encode_utf8(a), vstd::utf8::encode_utf8(b))
}

/// The names of a list of nodes.
pub open spec fn names(ids: Seq<NodeId>) -> Seq<Seq<char>> {
    ids.map_values(|id: NodeId| id@)
}

proof fn lemma_bytes_irreflexive(a: Seq<u8>)
    ensures
        !bytes_below(a, a),
    decreases a.len(),
{
    if a.len() > 0 {
        lemma_bytes_irreflexive(a.subrange(1, a.len() as int));
    }
}

proof fn lemma_bytes_transitive(a: Seq<u8>, b: Seq<u8>, c: Seq<u8>)
    requires
        bytes_below(a, b),
        bytes_below(b, c),
    ensures
        bytes_below(a, c),
    decreases a.len(),
{
    if a.len() > 0 && a[0] == b[0] && b[0] == c[0] {
        lemma_bytes_transitive(
            a.subrange(1, a.len() as int),
            b.subrange(1, b.len() as int),
            c.subrange(1, c.len() as int),
        );
    }
}

proof fn lemma_bytes_total(a: Seq<u8>, b: Seq<u8>)
    ensures
        bytes_below(a, b) || bytes_below(b, a) || a == b,
    decreases a.len(),
{
    if a.len() == 0 || b.len() == 0 {
        if a.len() == 0 && b.len() == 0 {
            assert(a =~= b);
        }
    } else if a[0] == b[0] {
        let a1 = a.subrange(1, a.len() as int);
        let b1 = b.subrange(1, b.len() as int);
        lemma_bytes_total(a1, b1);
        if a1 == b1 {
            assert(a =~= seq![a[0]] + a1);
            assert(b =~= seq![b[0]] + b1);
        }
    }
}

/// Names are compared byte by byte from the front: what they begin with alike
/// decides nothing, the first byte that differs decides, and the shorter of
/// two that differ nowhere stands first.
pub proof fn names_are_compared_from_the_front(p: Seq<u8>, a: Seq<u8>, b: Seq<u8>)
    ensures
        bytes_below(p + a, p + b) <==> bytes_below(a, b),
        a.len() > 0 && b.len() > 0 && a[0] < b[0] ==> bytes_below(a, b),
        a.len() > 0 && b.len() > 0 && a[0] > b[0] ==> !bytes_below(a, b),
        b.len() > 0 ==> bytes_below(Seq::empty(), b),
        !bytes_below(a, Seq::empty()),
    decreases p.len(),
{
    if p.len() > 0 {
        let rest = p.subrange(1, p.len() as int);
        names_are_compared_from_the_front(rest, a, b);
        let pa = p + a;
        let pb = p + b;
        assert(pa.subrange(1, pa.len() as int) =~= rest + a);
        assert(pb.subrange(1, pb.len() as int) =~= rest + b);
    } else {
        assert(p + a =~= a);
        assert(p + b =~= b);
    }
}

/// The node order is a strict total order on names.
pub proof fn nodes_are_totally_ordered(a: Seq<char>, b: Seq<char>, c: Seq<char>)
    ensures
        !id_below(a, a),
        id_below(a, b) && id_below(b, c) ==> id_below(a, c),
        id_below(a, b) || a == b || id_below(b, a),
        id_below(a, b) ==> !id_below(b, a) && a != b,
{
    let ea = vstd::utf8::encode_utf8(a);
    let eb = vstd::utf8::encode_utf8(b);
    let ec = vstd::utf8::encode_utf8(c);
    lemma_bytes_irreflexive(ea);
    if bytes_below(ea, eb) && bytes_below(eb, ec) {
        lemma_bytes_transitive(ea, eb, ec);
    }
    if bytes_below(ea, eb) && bytes_below(eb, ea) {
        lemma_bytes_transitive(ea, eb, ea);
    }
    lemma_bytes_total(ea, eb);
    vstd::utf8::encode_utf8_decode_utf8(a);
    vstd::utf8::encode_utf8_decode_utf8(b);
}

fn bytes_precede(a: &[u8], b: &[u8]) -> (r: bool)
    ensures
        r == bytes_below(a@, b@),
{
    let mut i: usize = 0;
    proof {
        assert(a@.subrange(0, a@.len() as int) =~= a@);
        assert(b@.subrange(0, b@.len() as int) =~= b@);
    }
    while i < a.len() && i < b.len()
        invariant
            i <= a@.len(),
            i <= b@.len(),
            bytes_below(a@, b@) == bytes_below(
                a@.subrange(i as int, a@.len() as int),
                b@.subrange(i as int, b@.len() as int),
            ),
        decreases a@.len() - i,
    {
        let ghost ta = a@.subrange(i as int, a@.len() as int);
        let ghost tb = b@.subrange(i as int, b@.len() as int);
        proof {
            assert(ta.subrange(1, ta.len() as int) =~= a@.subrange(i + 1, a@.len() as int));
            assert(tb.subrange(1, tb.len() as int) =~= b@.subrange(i + 1, b@.len() as int));
        }
        if a[i] < b[i] {
            return true;
        }
        if a[i] > b[i] {
            return false;
        }
        i = i + 1;
    }
    i < b.len()
}

/// Whether the nodes stand in node order, equal ones side by side.
pub open spec fn in_order(ids: Seq<NodeId>) -> bool {
    forall|i: int, j: int|
        #![trigger ids[i], ids[j]]
        0 <= i < j < ids.len() ==> !id_below(ids[j]@, ids[i]@)
}

/// The nodes in node order. None is lost and none is added.
pub(crate) fn sorted(ids: Vec<NodeId>) -> (r: Vec<NodeId>)
    ensures
        in_order(r@),
        names(r@).to_multiset() == names(ids@).to_multiset(),
{
    let mut out: Vec<NodeId> = Vec::new();
    let mut i: usize = 0;
    proof {
        assert(names(ids@).subrange(0, 0) =~= names(out@));
    }
    while i < ids.len()
        invariant
            i <= ids@.len(),
            in_order(out@),
            names(out@).to_multiset() == names(ids@).subrange(0, i as int).to_multiset(),
        decreases ids@.len() - i,
    {
        let id: NodeId = ids[i].clone();
        let mut p: usize = 0;
        while p < out.len() && !id.precedes(&out[p])
            invariant
                p <= out@.len(),
                forall|j: int| 0 <= j < p ==> !id_below(id@, (#[trigger] out@[j])@),
            decreases out@.len() - p,
        {
            p = p + 1;
        }
        let ghost was = out@;
        let ghost added = id;
        out.insert(p, id);
        proof {
            let all = names(ids@);
            assert(all.subrange(0, i + 1) =~= all.subrange(0, i as int).push(added@));
            assert(names(out@) =~= names(was).insert(p as int, added@));
            vstd::seq_lib::to_multiset_build(all.subrange(0, i as int), added@);
            vstd::seq_lib::to_multiset_insert(names(was), p as int, added@);
            assert forall|a: int, b: int|
                #![trigger out@[a], out@[b]]
                0 <= a < b < out@.len() implies !id_below(out@[b]@, out@[a]@) by {
                let oa = if a < p {
                    a
                } else {
                    a - 1
                };
                let ob = if b < p {
                    b
                } else {
                    b - 1
                };
                if a != p {
                    assert(out@[a] == was[oa]);
                }
                if b != p {
                    assert(out@[b] == was[ob]);
                }
                if a == p {
                    nodes_are_totally_ordered(was[ob]@, added@, was[p as int]@);
                    nodes_are_totally_ordered(added@, was[p as int]@, was[ob]@);
                    nodes_are_totally_ordered(was[p as int]@, was[ob]@, added@);
                }
            }
        }
        i = i + 1;
    }
    proof {
        assert(names(ids@).subrange(0, i as int) =~= names(ids@));
    }
    out
}

/// Whether `id` is one of `ids`.
pub fn contains_id(ids: &[NodeId], id: &NodeId) -> (r: bool)
    ensures
        r == names(ids@).contains(id@),
{
    let mut i: usize = 0;
    while i < ids.len()
        invariant
            i <= ids@.len(),
            forall|j: int| 0 <= j < i ==> ids@[j]@ != id@,
        decreases ids@.len() - i,
    {
        if ids[i] == *id {
            proof {
                assert(names(ids@)[i as int] == id@);
            }
            return true;
        }
        i = i + 1;
    }
    false
}

/// A list in order never steps back.
pub proof fn a_list_in_order_never_steps_back(ids: Seq<NodeId>, i: int, j: int)
    requires
        in_order(ids),
        0 <= i < j < ids.len(),
    ensures
        !id_below(ids[j]@, ids[i]@),
{
}

} // verus!
