//! The gossiped representation of a serve-lease: which entries the tier
//! occupies, the renewal id they carry, and the two codecs.

use crate::idmap::IdMap;
use crate::ids::NodeId;
use crate::records::Row;
use core::cmp::Ordering;
use vstd::prelude::*;

verus! {

/// The reserved group entry prefix the tier occupies.
pub const LEASE_KEY: &'static str = "~lease";

/// The entry key of the default set's grant map.
pub const GRANT_KEY: &'static str = "~lease:g";

/// The sub-key that tells a granter's grant map from a reader's renewal:
/// reserved as a set name.
pub const GRANT_TAG: &'static str = "g";

/// One reader's renewal of its right to serve: the reader's lease life
/// (`epoch`) and the renewal's sequence number within it, ordered epoch-major.
#[derive(Debug, Clone, Copy, PartialEq, Eq, Structural, Ord, Hash)]
pub struct RenewalId {
    /// The reader's lease life.
    pub epoch: u64,
    /// The renewal's sequence number within the epoch, starting at 1.
    pub seq: u64,
}

impl RenewalId {
    /// The encoded size of a renewal: two little-endian `u64`s.
    pub const ENCODED_LEN: usize = 16;

    /// Whether this renewal stands strictly below `other`.
    pub open spec fn below(self, other: RenewalId) -> bool {
        self.epoch < other.epoch || (self.epoch == other.epoch && self.seq < other.seq)
    }
}

impl PartialOrd for RenewalId {
    fn partial_cmp(&self, other: &RenewalId) -> (r: Option<Ordering>) {
        if self.epoch < other.epoch {
            Some(Ordering::Less)
        } else if self.epoch > other.epoch {
            Some(Ordering::Greater)
        } else if self.seq < other.seq {
            Some(Ordering::Less)
        } else if self.seq > other.seq {
            Some(Ordering::Greater)
        } else {
            Some(Ordering::Equal)
        }
    }
}

impl vstd::std_specs::cmp::PartialOrdSpecImpl for RenewalId {
    open spec fn obeys_partial_cmp_spec() -> bool {
        true
    }

    open spec fn partial_cmp_spec(&self, other: &RenewalId) -> Option<Ordering> {
        if self.below(*other) {
            Some(Ordering::Less)
        } else if other.below(*self) {
            Some(Ordering::Greater)
        } else {
            Some(Ordering::Equal)
        }
    }
}

/// Renewals are totally ordered, epoch first: any renewal of a newer life
/// beats every renewal of an older one.
pub proof fn renewals_are_totally_ordered(a: RenewalId, b: RenewalId, c: RenewalId)
    ensures
        a.epoch < b.epoch ==> a.below(b),
        a.epoch == b.epoch ==> (a.below(b) <==> a.seq < b.seq),
        !a.below(a),
        a.below(b) && b.below(c) ==> a.below(c),
        a.below(b) || a == b || b.below(a),
{
}

/// Comparing two renewals compares the lives first and the numbers second.
pub proof fn comparing_renewals_is_epoch_major(a: RenewalId, b: RenewalId)
    ensures
        vstd::std_specs::cmp::PartialOrdSpec::partial_cmp_spec(&a, &b) == Some(Ordering::Less)
            <==> a.epoch < b.epoch || (a.epoch == b.epoch && a.seq < b.seq),
        vstd::std_specs::cmp::PartialOrdSpec::partial_cmp_spec(&a, &b) == Some(Ordering::Greater)
            <==> a.epoch > b.epoch || (a.epoch == b.epoch && a.seq > b.seq),
        vstd::std_specs::cmp::PartialOrdSpec::partial_cmp_spec(&a, &b) == Some(Ordering::Equal)
            <==> a == b,
{
}

/// What one granter advertises: the newest renewal it has adopted from each
/// reader it can currently see.
pub type GrantMap = IdMap<RenewalId>;

/// The entry key a reader's renewal occupies: `~lease` for the default set,
/// `~lease:<name>` for a named one.
pub fn renewal_entry_key(name: &str) -> (r: String)
    ensures
        r@ == crate::wire::scoped_key(LEASE_KEY@, name@),
{
    crate::wire::scoped(LEASE_KEY, name)
}

/// The entry key a granter's grant map occupies: `~lease:g` for the default
/// set, `~lease:g:<name>` for a named one.
pub fn grant_entry_key(name: &str) -> (r: String)
    ensures
        r@ == crate::wire::scoped_key(GRANT_KEY@, name@),
{
    crate::wire::scoped(GRANT_KEY, name)
}

/// Whether a set may bear the name: it holds no colon and is not the tag of
/// the grant map.
pub open spec fn legal_name(name: Seq<char>) -> bool {
    !name.contains(':') && name != GRANT_TAG@
}

/// Takes a legal set name and nothing else. A name with a colon would merge
/// with a neighbouring set's key space, and a set called `g` would put its
/// renewals where the default set's grants stand.
pub fn validate_name(name: &str)
    requires
        legal_name(name@),
{
}

/// Whether a set may bear the name.
pub fn is_legal_name(name: &str) -> (r: bool)
    ensures
        r == legal_name(name@),
{
    if crate::group::same_text(name, GRANT_TAG) {
        return false;
    }
    let n: usize = name.unicode_len();
    let mut i: usize = 0;
    while i < n
        invariant
            i <= n,
            n == name@.len(),
            forall|j: int| 0 <= j < i ==> name@[j] != ':',
        decreases n - i,
    {
        if name.get_char(i) == ':' {
            proof {
                assert(name@[i as int] == ':');
            }
            return false;
        }
        i = i + 1;
    }
    true
}

/// The entries of lease sets never collide: two sets never share a renewal
/// entry or a grant entry, and no legally named set's renewals stand where
/// any set's grants do.
pub proof fn lease_sets_occupy_distinct_entries(a: Seq<char>, b: Seq<char>)
    requires
        legal_name(a),
        legal_name(b),
    ensures
        crate::wire::scoped_key(LEASE_KEY@, a) == crate::wire::scoped_key(LEASE_KEY@, b) <==> a
            == b,
        crate::wire::scoped_key(GRANT_KEY@, a) == crate::wire::scoped_key(GRANT_KEY@, b) <==> a
            == b,
        crate::wire::scoped_key(LEASE_KEY@, a) != crate::wire::scoped_key(GRANT_KEY@, b),
{
    crate::wire::names_make_distinct_keys(LEASE_KEY@, a, b);
    crate::wire::names_make_distinct_keys(GRANT_KEY@, a, b);
    reveal_strlit("~lease");
    reveal_strlit("~lease:g");
    reveal_strlit("g");
    let renewal = crate::wire::scoped_key(LEASE_KEY@, a);
    let grant = crate::wire::scoped_key(GRANT_KEY@, b);
    if renewal == grant {
        assert(grant[7] == 'g');
        assert(renewal[7] == a[0]);
        if b.len() == 0 {
            assert(a =~= GRANT_TAG@);
        } else {
            assert(grant.len() == 9 + b.len());
            assert(renewal.len() == 7 + a.len());
            assert(grant[8] == ':');
            assert(renewal[8] == a[1]);
            assert(a.contains(':'));
        }
    }
}

/// A renewal as it is gossiped.
pub open spec fn renewal_bytes(id: RenewalId) -> Seq<u8> {
    crate::codec::le64(id.epoch) + crate::codec::le64(id.seq)
}

/// The renewal that `b` spells: nothing unless it is exactly sixteen bytes.
pub open spec fn parse_renewal(b: Seq<u8>) -> Option<RenewalId> {
    if b.len() != 16 {
        None
    } else {
        match (crate::codec::get_u64(b, 0), crate::codec::get_u64(b, 8)) {
            (Some(epoch), Some(seq)) => Some(RenewalId { epoch, seq }),
            _ => None,
        }
    }
}

/// `(epoch: u64, seq: u64)`, little-endian.
pub fn encode_renewal(id: RenewalId) -> (r: Vec<u8>)
    ensures
        r@ == renewal_bytes(id),
{
    let mut out: Vec<u8> = Vec::new();
    crate::codec::put_u64(&mut out, id.epoch);
    crate::codec::put_u64(&mut out, id.seq);
    proof {
        assert(out@ =~= renewal_bytes(id));
    }
    out
}

/// The renewal in `bytes`, or `None` unless they are exactly one encoded
/// renewal.
pub fn decode_renewal(bytes: &[u8]) -> (r: Option<RenewalId>)
    ensures
        r == parse_renewal(bytes@),
{
    if bytes.len() != RenewalId::ENCODED_LEN {
        return None;
    }
    match (crate::codec::read_u64(bytes, 0), crate::codec::read_u64(bytes, 8)) {
        (Some(epoch), Some(seq)) => Some(RenewalId { epoch, seq }),
        _ => None,
    }
}

/// A renewal takes sixteen bytes and reads back as itself; and every sixteen
/// bytes are a renewal.
pub proof fn renewals_read_back(id: RenewalId, b: Seq<u8>)
    ensures
        renewal_bytes(id).len() == 16,
        parse_renewal(renewal_bytes(id)) == Some(id),
        b.len() == 16 <==> parse_renewal(b) is Some,
{
    let w = renewal_bytes(id);
    crate::codec::lemma_le64_reads_back(id.epoch);
    crate::codec::lemma_le64_reads_back(id.seq);
    assert(w.subrange(0, 16) =~= w);
    crate::codec::lemma_holds_concat(
        w,
        0,
        crate::codec::le64(id.epoch),
        crate::codec::le64(id.seq),
    );
    crate::codec::lemma_get_u64(w, 0, id.epoch);
    crate::codec::lemma_get_u64(w, 8, id.seq);
}

/// The records of a grant map, as they are gossiped.
pub open spec fn grant_rows(records: Seq<(Seq<char>, RenewalId)>) -> Seq<Row> {
    records.map_values(
        |r: (Seq<char>, RenewalId)| Row { name: r.0, epoch: r.1.epoch, seq: r.1.seq },
    )
}

/// The grants that gossiped records spell.
pub open spec fn grants_of(rows: Seq<Row>) -> Seq<(Seq<char>, RenewalId)> {
    rows.map_values(|r: Row| (r.name, RenewalId { epoch: r.epoch, seq: r.seq }))
}

/// The grants in `b`: all of them, or none when any of `b` does not parse.
pub open spec fn parse_grants(b: Seq<u8>) -> Map<Seq<char>, RenewalId> {
    match crate::records::get_rows_to_end(b, 0) {
        Some(rows) => crate::idmap::map_of(grants_of(rows)),
        None => Map::empty(),
    }
}

/// `(reader_len: u32, reader: utf-8, epoch: u64, seq: u64)*`, little-endian,
/// in reader order.
pub fn encode_grants(grants: &GrantMap) -> (r: Vec<u8>)
    ensures
        r@ == crate::records::rows_bytes(grant_rows(grants.records())),
{
    let mut out: Vec<u8> = Vec::new();
    let n: usize = grants.len();
    let ghost rows = grant_rows(grants.records());
    proof {
        assert(rows.subrange(0, rows.len() as int) =~= rows);
        assert(out@ + crate::records::rows_bytes(rows) =~= crate::records::rows_bytes(rows));
    }
    let mut i: usize = 0;
    while i < n
        invariant
            i <= n,
            n == grants.records().len(),
            rows == grant_rows(grants.records()),
            out@ + crate::records::rows_bytes(rows.subrange(i as int, rows.len() as int))
                == crate::records::rows_bytes(rows),
        decreases n - i,
    {
        let ghost was = out@;
        let ghost rest = rows.subrange(i as int, rows.len() as int);
        let id: RenewalId = *grants.value_at(i);
        crate::records::put_row(&mut out, grants.key_at(i).as_str(), id.epoch, id.seq);
        proof {
            let left = rows.subrange(i + 1, rows.len() as int);
            assert(rest.subrange(1, rest.len() as int) =~= left);
            assert(was + crate::records::row_bytes(rest[0]) + crate::records::rows_bytes(left)
                =~= was + (crate::records::row_bytes(rest[0]) + crate::records::rows_bytes(left)));
        }
        i = i + 1;
    }
    proof {
        let none = rows.subrange(i as int, rows.len() as int);
        assert(none =~= Seq::<Row>::empty());
        assert(out@ + crate::records::rows_bytes(none) =~= out@);
    }
    out
}

/// Every grant in an advertisement, or the empty map if the bytes are not a
/// whole, well-formed encoding.
pub fn decode_grants(bytes: &[u8]) -> (r: GrantMap)
    ensures
        r@ == parse_grants(bytes@),
{
    match decode_grants_checked(bytes) {
        Some(grants) => grants,
        None => IdMap::new(),
    }
}

/// The strict half of [`decode_grants`]: `None` the moment anything does not
/// parse, so a half-read map can never pass for a smaller honest one.
fn decode_grants_checked(bytes: &[u8]) -> (r: Option<GrantMap>)
    ensures
        match r {
            Some(grants) => crate::records::get_rows_to_end(bytes@, 0) matches Some(rows)
                && grants@ == crate::idmap::map_of(grants_of(rows)),
            None => crate::records::get_rows_to_end(bytes@, 0) is None,
        },
{
    let mut out: GrantMap = IdMap::new();
    let mut at: usize = 0;
    let ghost mut done: Seq<Row> = Seq::empty();
    let ghost whole = crate::records::get_rows_to_end(bytes@, 0);
    proof {
        assert(grants_of(done) =~= Seq::<(Seq<char>, RenewalId)>::empty());
        if let Some(rows) = whole {
            assert(done + rows =~= rows);
        }
    }
    while at < bytes.len()
        invariant
            at <= bytes@.len(),
            whole == crate::records::get_rows_to_end(bytes@, 0),
            out@ == crate::idmap::map_of(grants_of(done)),
            match crate::records::get_rows_to_end(bytes@, at as int) {
                Some(rest) => whole == Some(done + rest),
                None => whole is None,
            },
        decreases bytes@.len() - at,
    {
        match crate::records::read_row(bytes, at) {
            None => {
                return None;
            },
            Some((name, epoch, seq, next)) => {
                proof {
                    let row = Row { name: name@, epoch, seq };
                    let longer = done.push(row);
                    if let Some(rest) = crate::records::get_rows_to_end(bytes@, next as int) {
                        assert(done + (seq![row] + rest) =~= longer + rest);
                    }
                    assert(grants_of(longer).drop_last() =~= grants_of(done));
                    done = longer;
                }
                out.insert(NodeId::from_string(name), RenewalId { epoch, seq });
                at = next;
            },
        }
    }
    proof {
        assert(done + Seq::<Row>::empty() =~= done);
    }
    Some(out)
}

/// A grant map reads back as itself.
pub proof fn grant_maps_read_back(records: Seq<(Seq<char>, RenewalId)>)
    requires
        crate::records::names_fit(grant_rows(records)),
    ensures
        parse_grants(crate::records::rows_bytes(grant_rows(records))) == crate::idmap::map_of(
            records,
        ),
{
    let rows = grant_rows(records);
    let b = crate::records::rows_bytes(rows);
    assert(b.subrange(0, b.len() as int) =~= b);
    crate::records::lemma_rows_to_end_read_back(b, 0, rows);
    assert(grants_of(rows) =~= records);
}

/// A truncated grant map never invents a grant: what still reads is a part
/// of the whole map, never more.
pub proof fn truncated_grant_maps_never_gain(records: Seq<(Seq<char>, RenewalId)>, cut: int)
    requires
        crate::idmap::ascending(records),
        crate::records::names_fit(grant_rows(records)),
        0 <= cut <= crate::records::rows_bytes(grant_rows(records)).len(),
    ensures
        parse_grants(
            crate::records::rows_bytes(grant_rows(records)).subrange(0, cut),
        ).submap_of(crate::idmap::map_of(records)),
{
    let rows = grant_rows(records);
    let b = crate::records::rows_bytes(rows);
    let short = b.subrange(0, cut);
    assert(b.subrange(0, b.len() as int) =~= b);
    match crate::records::get_rows_to_end(short, 0) {
        None => {
            assert(parse_grants(short) =~= Map::<Seq<char>, RenewalId>::empty());
        },
        Some(part) => {
            lemma_prefix_rows(b, short, 0, rows);
            let n = part.len() as int;
            let some = records.subrange(0, n);
            assert(grants_of(part) =~= some) by {
                assert forall|i: int| 0 <= i < n implies grants_of(part)[i] == some[i] by {
                    assert(part[i] == rows.subrange(0, n)[i]);
                }
            }
            assert(crate::idmap::ascending(some)) by {
                assert forall|i: int, j: int|
                    #![trigger some[i], some[j]]
                    0 <= i < j < some.len() implies crate::ids::id_below(some[i].0, some[j].0) by {
                    assert(some[i] == records[i] && some[j] == records[j]);
                }
            }
            crate::idmap::lemma_map_of(some);
            crate::idmap::lemma_map_of(records);
            let small = crate::idmap::map_of(some);
            let large = crate::idmap::map_of(records);
            assert forall|k: Seq<char>| #[trigger] small.contains_key(k) implies large.contains_key(
                k,
            ) && small[k] == large[k] by {
                let i = choose|i: int| 0 <= i < some.len() && (#[trigger] some[i]).0 == k;
                assert(some[i] == records[i]);
                assert(large[records[i].0] == records[i].1);
                assert(small[some[i].0] == some[i].1);
            }
        },
    }
}

/// A grant map is whole records or it is nothing: one cut anywhere but behind
/// a record reads as empty.
pub proof fn grant_maps_cut_inside_a_record_are_empty(
    records: Seq<(Seq<char>, RenewalId)>,
    cut: int,
)
    requires
        crate::records::names_fit(grant_rows(records)),
        0 <= cut <= crate::records::rows_bytes(grant_rows(records)).len(),
        forall|n: int|
            0 <= n <= records.len() ==> (#[trigger] crate::records::rows_bytes(
                grant_rows(records).subrange(0, n),
            )).len() != cut,
    ensures
        parse_grants(crate::records::rows_bytes(grant_rows(records)).subrange(0, cut)) == Map::<
            Seq<char>,
            RenewalId,
        >::empty(),
{
    let rows = grant_rows(records);
    let b = crate::records::rows_bytes(rows);
    let short = b.subrange(0, cut);
    assert(b.subrange(0, b.len() as int) =~= b);
    if let Some(part) = crate::records::get_rows_to_end(short, 0) {
        lemma_prefix_rows(b, short, 0, rows);
        crate::records::lemma_rows_to_end_stand(short, 0);
        assert(crate::records::rows_bytes(rows.subrange(0, part.len() as int)).len() == cut);
    }
}

/// A grant map with anything behind it that is not records itself, such as
/// less than a record, reads as empty.
pub proof fn grant_maps_with_a_tail_are_empty(
    records: Seq<(Seq<char>, RenewalId)>,
    tail: Seq<u8>,
)
    requires
        crate::records::names_fit(grant_rows(records)),
        0 < tail.len() < 20 || crate::records::get_rows_to_end(tail, 0) is None,
    ensures
        parse_grants(crate::records::rows_bytes(grant_rows(records)) + tail) == Map::<
            Seq<char>,
            RenewalId,
        >::empty(),
{
    let rows = grant_rows(records);
    let whole = crate::records::rows_bytes(rows);
    let b = whole + tail;
    if crate::records::get_rows_to_end(b, 0) is Some {
        assert(b.subrange(0, whole.len() as int) =~= whole);
        lemma_behind_rows(b, 0, rows);
        crate::records::lemma_rows_to_end_stand(b, whole.len() as int);
        let more = crate::records::get_rows_to_end(b, whole.len() as int)->0;
        assert(b.subrange(whole.len() as int, b.len() as int) =~= tail);
        assert(tail.subrange(0, tail.len() as int) =~= tail);
        crate::records::lemma_rows_to_end_read_back(tail, 0, more);
        crate::records::lemma_row_stands(tail, 0);
        if tail.len() < 20 {
            let (row, next) = crate::records::get_row(tail, 0)->0;
            crate::records::lemma_raw_row_len(
                vstd::utf8::encode_utf8(row.name),
                row.epoch,
                row.seq,
            );
        }
    }
}

proof fn lemma_behind_rows(b: Seq<u8>, at: int, rows: Seq<Row>)
    requires
        crate::records::names_fit(rows),
        crate::codec::holds_at(b, at, crate::records::rows_bytes(rows)),
        crate::records::get_rows_to_end(b, at) is Some,
    ensures
        crate::records::get_rows_to_end(b, at + crate::records::rows_bytes(rows).len()) is Some,
    decreases rows.len(),
{
    if rows.len() > 0 {
        let rest = rows.subrange(1, rows.len() as int);
        crate::codec::lemma_holds_concat(
            b,
            at,
            crate::records::row_bytes(rows[0]),
            crate::records::rows_bytes(rest),
        );
        crate::records::lemma_row_reads_back(b, at, rows[0]);
        crate::records::lemma_raw_row_len(
            vstd::utf8::encode_utf8(rows[0].name),
            rows[0].epoch,
            rows[0].seq,
        );
        crate::records::lemma_names_fit_rest(rows);
        lemma_behind_rows(b, at + crate::records::row_bytes(rows[0]).len(), rest);
    }
}

proof fn lemma_prefix_rows(b: Seq<u8>, short: Seq<u8>, at: int, rows: Seq<Row>)
    requires
        crate::records::names_fit(rows),
        crate::codec::holds_at(b, at, crate::records::rows_bytes(rows)),
        at + crate::records::rows_bytes(rows).len() == b.len(),
        0 <= at <= short.len() <= b.len(),
        short == b.subrange(0, short.len() as int),
        crate::records::get_rows_to_end(short, at) is Some,
    ensures
        ({
            let part = crate::records::get_rows_to_end(short, at)->0;
            part.len() <= rows.len() && part == rows.subrange(0, part.len() as int)
        }),
    decreases rows.len(),
{
    let part = crate::records::get_rows_to_end(short, at)->0;
    if at < short.len() {
        crate::records::lemma_row_stands(short, at);
        let (row, next) = crate::records::get_row(short, at)->0;
        let n = crate::records::row_bytes(row).len() as int;
        assert(short.subrange(at, at + n) =~= b.subrange(at, at + n));
        crate::records::lemma_row_reads_back(b, at, row);
        if rows.len() == 0 {
            assert(false);
        }
        let rest = rows.subrange(1, rows.len() as int);
        crate::codec::lemma_holds_concat(
            b,
            at,
            crate::records::row_bytes(rows[0]),
            crate::records::rows_bytes(rest),
        );
        crate::records::lemma_row_reads_back(b, at, rows[0]);
        assert(row == rows[0]);
        crate::records::lemma_names_fit_rest(rows);
        lemma_prefix_rows(b, short, next, rest);
        let after = crate::records::get_rows_to_end(short, next)->0;
        assert(part =~= seq![row] + after);
        assert(part =~= rows.subrange(0, part.len() as int)) by {
            assert forall|i: int| 0 <= i < part.len() implies part[i] == rows.subrange(
                0,
                part.len() as int,
            )[i] by {
                if i > 0 {
                    assert(part[i] == after[i - 1]);
                    assert(after[i - 1] == rest.subrange(0, after.len() as int)[i - 1]);
                }
            }
        }
    } else {
        assert(part =~= rows.subrange(0, 0));
    }
}

/// A renewal is its epoch, then its sequence number.
pub proof fn a_renewal_is_laid_out(id: RenewalId)
    ensures
        renewal_bytes(id).len() == 16,
        renewal_bytes(id).subrange(0, 8) == crate::codec::le64(id.epoch),
        renewal_bytes(id).subrange(8, 16) == crate::codec::le64(id.seq),
{
    crate::codec::lemma_le64_reads_back(id.epoch);
    crate::codec::lemma_le64_reads_back(id.seq);
    assert(renewal_bytes(id).subrange(0, 8) =~= crate::codec::le64(id.epoch));
    assert(renewal_bytes(id).subrange(8, 16) =~= crate::codec::le64(id.seq));
}

/// A lease set may have any name but one with a colon in it, and but the tag
/// that the grants' own key is made with.
pub proof fn which_names_are_legal(name: Seq<char>)
    ensures
        legal_name(name) <==> name != GRANT_TAG@ && forall|i: int|
            0 <= i < name.len() ==> #[trigger] name[i] != ':',
{
    if name.contains(':') {
        let i = choose|i: int| 0 <= i < name.len() && name[i] == ':';
        assert(name[i] == ':');
    }
    if exists|i: int| 0 <= i < name.len() && #[trigger] name[i] == ':' {
        assert(name.contains(':'));
    }
}

} // verus!
