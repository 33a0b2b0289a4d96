//! Applied-watermark acknowledgements: the write-side half of strong cache
//! coherence.
//!
//! Each node publishes, as one gossiped entry, the highest token it has
//! applied from every writer it follows ([`AckLedger`]). A writer that must
//! not respond until its write is invisible-stale anywhere asks
//! [`applied_cluster_wide`] until every member believed alive advertises
//! having applied the token.

use crate::group::{EntryWrite, GroupView, Status};
use crate::idmap::IdMap;
use crate::ids::NodeId;
use crate::records::Row;
use crate::token::WriteToken;
use crate::watermarks::Watermarks;
use vstd::prelude::*;

verus! {

/// The group entry key under which a node's applied watermarks are gossiped.
pub const ACK_KEY: &'static str = "~applied";

/// The token of the first record from `at` on whose name is `name`. Records
/// that cannot be read end the search.
pub open spec fn find_token(b: Seq<u8>, at: int, name: Seq<u8>) -> Option<WriteToken>
    decreases b.len() - at,
{
    if at >= b.len() {
        None
    } else {
        match crate::records::get_raw_row(b, at) {
            None => None,
            Some((n, epoch, seq)) => if n == name {
                Some(WriteToken { epoch, seq })
            } else {
                find_token(b, at + 20 + n.len(), name)
            },
        }
    }
}

/// The first record called `name`.
pub open spec fn first_named(rows: Seq<Row>, name: Seq<char>) -> Option<WriteToken>
    decreases rows.len(),
{
    if rows.len() == 0 {
        None
    } else if rows[0].name == name {
        Some(WriteToken { epoch: rows[0].epoch, seq: rows[0].seq })
    } else {
        first_named(rows.subrange(1, rows.len() as int), name)
    }
}

/// What `member` advertises having applied of `writer`'s feed.
pub open spec fn ack_of(group: GroupView, member: Seq<char>, writer: Seq<char>) -> Option<
    WriteToken,
> {
    match group.entry(member, ACK_KEY@) {
        None => None,
        Some(bytes) => find_token(bytes, 0, vstd::utf8::encode_utf8(writer)),
    }
}

/// Whether the write is still waited for at `member`: it is believed alive,
/// it is not the writer, and it does not advertise having applied the token.
pub open spec fn waits_on(
    group: GroupView,
    member: Seq<char>,
    writer: Seq<char>,
    token: WriteToken,
) -> bool {
    &&& member != writer
    &&& group.alive(member)
    &&& match ack_of(group, member, writer) {
        None => true,
        Some(t) => t.below(token),
    }
}

proof fn lemma_find_first(b: Seq<u8>, at: int, rows: Seq<Row>, name: Seq<char>)
    requires
        crate::codec::holds_at(b, at, crate::records::rows_bytes(rows)),
        at + crate::records::rows_bytes(rows).len() == b.len(),
        crate::records::names_fit(rows),
    ensures
        find_token(b, at, vstd::utf8::encode_utf8(name)) == first_named(rows, name),
    decreases rows.len(),
{
    if rows.len() > 0 {
        let row = rows[0];
        let raw = vstd::utf8::encode_utf8(row.name);
        let rest = rows.subrange(1, rows.len() as int);
        crate::records::lemma_raw_row_len(raw, row.epoch, row.seq);
        crate::codec::lemma_holds_concat(
            b,
            at,
            crate::records::row_bytes(row),
            crate::records::rows_bytes(rest),
        );
        crate::records::lemma_get_raw_row(b, at, raw, row.epoch, row.seq);
        vstd::utf8::encode_utf8_decode_utf8(row.name);
        vstd::utf8::encode_utf8_decode_utf8(name);
        crate::records::lemma_names_fit_rest(rows);
        lemma_find_first(b, at + 20 + raw.len(), rest, name);
    }
}

proof fn lemma_first_named(records: Seq<(Seq<char>, WriteToken)>, name: Seq<char>)
    requires
        crate::idmap::ascending(records),
    ensures
        first_named(crate::watermarks::token_rows(records), name) == (
        if crate::idmap::map_of(records).contains_key(name) {
            Some(crate::idmap::map_of(records)[name])
        } else {
            None
        }),
    decreases records.len(),
{
    let rows = crate::watermarks::token_rows(records);
    crate::idmap::lemma_map_of(records);
    if records.len() > 0 {
        let rest = records.subrange(1, records.len() as int);
        assert(rows.subrange(1, rows.len() as int) =~= crate::watermarks::token_rows(rest));
        assert(crate::idmap::ascending(rest)) by {
            assert forall|i: int, j: int|
                #![trigger rest[i], rest[j]]
                0 <= i < j < rest.len() implies crate::ids::id_below(rest[i].0, rest[j].0) by {
                assert(rest[i] == records[i + 1] && rest[j] == records[j + 1]);
            }
        }
        lemma_first_named(rest, name);
        crate::idmap::lemma_map_of(rest);
        if records[0].0 != name {
            let whole = crate::idmap::map_of(records);
            let part = crate::idmap::map_of(rest);
            if part.contains_key(name) {
                let i = choose|i: int| 0 <= i < rest.len() && (#[trigger] rest[i]).0 == name;
                assert(records[i + 1].0 == name);
                assert(whole[records[i + 1].0] == records[i + 1].1);
                assert(part[rest[i].0] == rest[i].1);
            }
            if whole.contains_key(name) {
                let i = choose|i: int| 0 <= i < records.len() && (#[trigger] records[i]).0 == name;
                assert(rest[i - 1].0 == name);
            }
        }
    } else {
        assert(!crate::idmap::map_of(records).contains_key(name));
    }
}

/// A member's gossiped ledger says of every writer exactly what the member
/// recorded: its watermark, or nothing.
pub proof fn ledgers_read_back(records: Seq<(Seq<char>, WriteToken)>, writer: Seq<char>)
    requires
        crate::idmap::ascending(records),
        crate::records::names_fit(crate::watermarks::token_rows(records)),
    ensures
        find_token(
            crate::records::rows_bytes(crate::watermarks::token_rows(records)),
            0,
            vstd::utf8::encode_utf8(writer),
        ) == (if crate::idmap::map_of(records).contains_key(writer) {
            Some(crate::idmap::map_of(records)[writer])
        } else {
            None
        }),
{
    let rows = crate::watermarks::token_rows(records);
    let b = crate::records::rows_bytes(rows);
    assert(b.subrange(0, b.len() as int) =~= b);
    lemma_find_first(b, 0, rows, writer);
    lemma_first_named(records, writer);
}

proof fn lemma_find_in_front(b: Seq<u8>, cut: int, at: int, name: Seq<u8>)
    requires
        0 <= at,
        0 <= cut <= b.len(),
        find_token(b.subrange(0, cut), at, name) is Some,
    ensures
        find_token(b, at, name) == find_token(b.subrange(0, cut), at, name),
    decreases cut - at,
{
    let short = b.subrange(0, cut);
    if let Some((n, epoch, seq)) = crate::records::get_raw_row(short, at) {
        let row = crate::records::raw_row_bytes(n, epoch, seq);
        crate::records::lemma_raw_row_len(n, epoch, seq);
        crate::records::lemma_get_raw_row(short, at, n, epoch, seq);
        assert(short.subrange(at, at + row.len()) =~= b.subrange(at, at + row.len()));
        crate::records::lemma_get_raw_row(b, at, n, epoch, seq);
        if n != name {
            lemma_find_in_front(b, cut, at + 20 + n.len(), name);
        }
    }
}

/// A ledger that was cut short never yields a token that was not recorded:
/// what it still says of a writer is the writer's watermark.
pub proof fn truncated_ledgers_never_gain(
    records: Seq<(Seq<char>, WriteToken)>,
    cut: int,
    writer: Seq<char>,
)
    requires
        crate::idmap::ascending(records),
        crate::records::names_fit(crate::watermarks::token_rows(records)),
        0 <= cut <= crate::records::rows_bytes(crate::watermarks::token_rows(records)).len(),
    ensures
        find_token(
            crate::records::rows_bytes(crate::watermarks::token_rows(records)).subrange(0, cut),
            0,
            vstd::utf8::encode_utf8(writer),
        ) matches Some(token) ==> crate::idmap::map_of(records).contains_key(writer)
            && crate::idmap::map_of(records)[writer] == token,
{
    let b = crate::records::rows_bytes(crate::watermarks::token_rows(records));
    let name = vstd::utf8::encode_utf8(writer);
    ledgers_read_back(records, writer);
    if find_token(b.subrange(0, cut), 0, name) is Some {
        lemma_find_in_front(b, cut, 0, name);
    }
}

/// Publisher half: this node's applied watermarks, one token per writer.
#[derive(Debug)]
pub struct AckLedger {
    applied: Watermarks,
}

impl View for AckLedger {
    type V = Map<Seq<char>, WriteToken>;

    closed spec fn view(&self) -> Map<Seq<char>, WriteToken> {
        self.applied@
    }
}

impl AckLedger {
    /// The watermarks in node order.
    pub closed spec fn records(&self) -> Seq<(Seq<char>, WriteToken)> {
        self.applied.records()
    }

    /// A ledger with nothing applied.
    pub fn new() -> (r: AckLedger)
        ensures
            r@ == Map::<Seq<char>, WriteToken>::empty(),
    {
        AckLedger { applied: IdMap::new() }
    }

    /// Records that `writer`'s feed has been applied through `token`, handing
    /// back the ledger's new advertisement when the watermark moved. Lower
    /// tokens are ignored. To be called after the application actually
    /// happened.
    pub fn record(&mut self, writer: &NodeId, token: WriteToken) -> (r: Option<EntryWrite>)
        ensures
            final(self)@ == crate::watermarks::raised(old(self)@, writer@, token),
            final(self)@ == crate::idmap::map_of(final(self).records()),
            match r {
                Some(w) => {
                    &&& crate::watermarks::mark(old(self)@, writer@).below(token)
                    &&& w.key@ == ACK_KEY@
                    &&& w.value@ == crate::records::rows_bytes(
                        crate::watermarks::token_rows(final(self).records()),
                    )
                    &&& w.ttl_ms is None
                    &&& crate::idmap::ascending(final(self).records())
                },
                None => !crate::watermarks::mark(old(self)@, writer@).below(token),
            },
    {
        if crate::watermarks::raise(&mut self.applied, writer, token) {
            Some(
                EntryWrite {
                    key: ACK_KEY.to_owned(),
                    value: encode(&self.applied),
                    ttl_ms: None,
                },
            )
        } else {
            None
        }
    }
}

/// `(writer_len, writer, epoch, seq)*`, little-endian.
pub fn encode(applied: &Watermarks) -> (r: Vec<u8>)
    ensures
        r@ == crate::records::rows_bytes(crate::watermarks::token_rows(applied.records())),
        crate::idmap::ascending(applied.records()),
{
    let mut out: Vec<u8> = Vec::new();
    crate::watermarks::put_marks(&mut out, applied);
    out
}

/// The token recorded for `writer`, when the records before it can be read.
pub fn decode_one(bytes: &[u8], writer: &str) -> (r: Option<WriteToken>)
    ensures
        r == find_token(bytes@, 0, vstd::utf8::encode_utf8(writer@)),
{
    let wanted: &[u8] = writer.as_bytes();
    let mut at: usize = 0;
    while at < bytes.len()
        invariant
            wanted@ == vstd::utf8::encode_utf8(writer@),
            find_token(bytes@, 0, wanted@) == find_token(bytes@, at as int, wanted@),
        decreases bytes@.len() - at,
    {
        match crate::records::read_raw_row(bytes, at) {
            None => {
                return None;
            },
            Some((name, epoch, seq)) => {
                if crate::codec::same_bytes(name, wanted) {
                    return Some(WriteToken { epoch, seq });
                }
                at = at + 20 + name.len();
            },
        }
    }
    None
}

/// The highest token of `writer`'s feed that `member` advertises having
/// applied, as gossip currently shows it.
pub fn applied_by(group: &GroupView, member: &NodeId, writer: &NodeId) -> (r: Option<WriteToken>)
    ensures
        r == ack_of(*group, member@, writer@),
{
    match group.node_entry(member, ACK_KEY) {
        None => None,
        Some(bytes) => decode_one(bytes, writer.as_str()),
    }
}

/// One look of the wait for a write to be applied everywhere: `Some(true)`
/// once every member believed alive but the writer advertises having applied
/// `token`, `Some(false)` when that is not so and the time is up, and `None`
/// while the wait goes on. A member that dies drops out of the wait.
pub fn applied_cluster_wide(
    group: &GroupView,
    writer: &NodeId,
    token: WriteToken,
    expired: bool,
) -> (r: Option<bool>)
    ensures
        r == (if !(exists|m: Seq<char>| #[trigger] waits_on(*group, m, writer@, token)) {
            Some(true)
        } else if expired {
            Some(false)
        } else {
            None
        }),
        r == Some(true) <==> forall|m: Seq<char>|
            m != writer@ && #[trigger] group.statuses@.contains_key(m) && group.statuses@[m]
                == Status::Alive ==> has_acked(*group, m, writer@, token),
{
    let n: usize = group.statuses.len();
    let ghost rows = group.statuses.records();
    proof {
        crate::idmap::lemma_map_of(rows);
    }
    let mut i: usize = 0;
    while i < n
        invariant
            i <= n,
            n == rows.len(),
            rows == group.statuses.records(),
            forall|j: int|
                0 <= j < n ==> group.statuses@.contains_key((#[trigger] rows[j]).0)
                    && group.statuses@[rows[j].0] == rows[j].1,
            forall|j: int|
                0 <= j < i ==> !waits_on(*group, (#[trigger] rows[j]).0, writer@, token),
        decreases n - i,
    {
        let member: &NodeId = group.statuses.key_at(i);
        let status: Status = *group.statuses.value_at(i);
        if *member != *writer && status == Status::Alive {
            let behind: bool = match applied_by(group, member, writer) {
                None => true,
                Some(t) => t < token,
            };
            if behind {
                proof {
                    assert(waits_on(*group, member@, writer@, token));
                    everywhere_means_every_live_peer(*group, writer@, token);
                }
                return if expired {
                    Some(false)
                } else {
                    None
                };
            }
        }
        i = i + 1;
    }
    proof {
        assert forall|m: Seq<char>| !(#[trigger] waits_on(*group, m, writer@, token)) by {
            if group.statuses@.contains_key(m) {
                let j = choose|j: int| 0 <= j < rows.len() && (#[trigger] rows[j]).0 == m;
                assert(!waits_on(*group, rows[j].0, writer@, token));
            }
        }
        everywhere_means_every_live_peer(*group, writer@, token);
    }
    Some(true)
}

/// What a member is read to have applied is what its published ledger holds:
/// the watermark it recorded for that writer, and nothing when it recorded
/// none or publishes no ledger.
pub proof fn acks_read_as_recorded(
    group: GroupView,
    member: Seq<char>,
    writer: Seq<char>,
    records: Seq<(Seq<char>, WriteToken)>,
)
    requires
        crate::idmap::ascending(records),
        crate::records::names_fit(crate::watermarks::token_rows(records)),
    ensures
        group.entry(member, ACK_KEY@) is None ==> ack_of(group, member, writer) is None,
        group.entry(member, ACK_KEY@) == Some(
            crate::records::rows_bytes(crate::watermarks::token_rows(records)),
        ) ==> ack_of(group, member, writer) == (if crate::idmap::map_of(records).contains_key(
            writer,
        ) {
            Some(crate::idmap::map_of(records)[writer])
        } else {
            None
        }),
{
    ledgers_read_back(records, writer);
}

/// Whether `member` advertises having applied `writer`'s feed through `token`:
/// its ledger names a token of a newer life, or of the same with a number no
/// lower.
pub open spec fn has_acked(
    group: GroupView,
    member: Seq<char>,
    writer: Seq<char>,
    token: WriteToken,
) -> bool {
    ack_of(group, member, writer) matches Some(t) && (t.epoch > token.epoch || (t.epoch
        == token.epoch && t.seq >= token.seq))
}

/// A write is applied everywhere exactly when each node but the writer that
/// the member table shows alive has acknowledged it: one that has not is
/// waited on, whoever else has, and one that is not alive never is.
pub proof fn everywhere_means_every_live_peer(
    group: GroupView,
    writer: Seq<char>,
    token: WriteToken,
)
    ensures
        !(exists|m: Seq<char>| #[trigger] waits_on(group, m, writer, token)) <==> forall|
            m: Seq<char>,
        |
            m != writer && #[trigger] group.statuses@.contains_key(m) && group.statuses@[m]
                == Status::Alive ==> has_acked(group, m, writer, token),
        forall|m: Seq<char>| #[trigger]
            waits_on(group, m, writer, token) <==> m != writer && group.statuses@.contains_key(m)
                && group.statuses@[m] == Status::Alive && !has_acked(group, m, writer, token),
{
    assert forall|m: Seq<char>|
        m != writer && #[trigger] group.statuses@.contains_key(m) && group.statuses@[m]
            == Status::Alive && !has_acked(group, m, writer, token) implies waits_on(
        group,
        m,
        writer,
        token,
    ) by {}
}

/// What one peer answers is never what all do: while any live peer but the
/// writer lags, no acknowledgement of another's makes the write applied
/// everywhere.
pub proof fn one_laggard_holds_the_write(
    group: GroupView,
    writer: Seq<char>,
    token: WriteToken,
    laggard: Seq<char>,
)
    requires
        laggard != writer,
        group.statuses@.contains_key(laggard),
        group.statuses@[laggard] == Status::Alive,
        match ack_of(group, laggard, writer) {
            None => true,
            Some(t) => t.epoch < token.epoch || (t.epoch == token.epoch && t.seq < token.seq),
        },
    ensures
        exists|m: Seq<char>| #[trigger] waits_on(group, m, writer, token),
{
    assert(waits_on(group, laggard, writer, token));
}

} // verus!
