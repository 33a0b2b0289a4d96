//! The epoch-stamped commit ledger: what a voter publishes, and the readings
//! the commit and recovery rules are fed.
//!
//! Every participant publishes one entry: the leadership epoch it has adopted
//! and a counted map of the highest token it has applied from each writer.
//! Decoding is all-or-nothing: a map that is shorter than its own header, cut
//! off or followed by anything else is no reading at all.

use crate::group::{EntryWrite, GroupView};
use crate::idmap::IdMap;
use crate::ids::NodeId;
use crate::records::Row;
use crate::token::WriteToken;
use crate::watermarks::Watermarks;
use vstd::prelude::*;

verus! {

/// The entry key of the default write path's ledger.
pub const LEDGER_KEY: &'static str = "~hosted:applied";

/// One member's commit-ledger reading: the leadership epoch that member had
/// adopted when it published, and what it had applied by then.
#[derive(Debug, Clone, PartialEq, Eq)]
pub struct Reading {
    /// The leadership epoch the publisher had adopted.
    pub lead_epoch: u64,
    /// The publisher's applied watermark per writer.
    pub applied: Watermarks,
}

/// One member of a commit or recovery decision. The view must be the whole
/// roster: a silent voter belongs in it with no reading.
#[derive(Debug, Clone, PartialEq, Eq)]
pub struct LedgerView {
    /// The member this reading belongs to.
    pub member: NodeId,
    /// Whether membership currently believes it alive.
    pub alive: bool,
    /// Its reading, or `None` when it publishes no readable ledger.
    pub reading: Option<Reading>,
}

/// What a decision knows of one voter: its name, whether it is believed
/// alive, and what its ledger said when it was read.
pub struct VoterState {
    pub member: Seq<char>,
    pub alive: bool,
    pub reading: Option<LedgerState>,
}

impl View for LedgerView {
    type V = VoterState;

    open spec fn view(&self) -> VoterState {
        VoterState {
            member: self.member@,
            alive: self.alive,
            reading: match self.reading {
                None => None,
                Some(reading) => Some(
                    LedgerState { stamp: reading.lead_epoch, applied: reading.applied@ },
                ),
            },
        }
    }
}

/// What a decision knows of each voter in a view.
pub open spec fn voters(view: Seq<LedgerView>) -> Seq<VoterState> {
    view.map_values(|v: LedgerView| v@)
}

/// The entry key a commit ledger occupies: `~hosted:applied` for the default
/// write path, `~hosted:applied:<name>` for a named one.
pub fn ledger_entry_key(name: &str) -> (r: String)
    ensures
        r@ == crate::wire::scoped_key(LEDGER_KEY@, name@),
{
    crate::wire::scoped(LEDGER_KEY, name)
}

/// A counted record map: `(records: u32) (writer_len: u32, writer, epoch: u64,
/// seq: u64)*`, little-endian.
pub open spec fn counted_bytes(records: Seq<(Seq<char>, WriteToken)>) -> Seq<u8> {
    crate::codec::le32(crate::codec::wire_len(records.len())) + crate::records::rows_bytes(
        crate::watermarks::token_rows(records),
    )
}

/// Whether the count and every name fit their prefixes.
pub open spec fn records_fit(records: Seq<(Seq<char>, WriteToken)>) -> bool {
    &&& records.len() <= u32::MAX
    &&& crate::records::names_fit(crate::watermarks::token_rows(records))
}

/// The watermarks that gossiped records spell.
pub open spec fn tokens_of(rows: Seq<Row>) -> Seq<(Seq<char>, WriteToken)> {
    rows.map_values(|r: Row| (r.name, WriteToken { epoch: r.epoch, seq: r.seq }))
}

/// Whether no two records bear the same name.
pub open spec fn distinct(rows: Seq<Row>) -> bool {
    forall|i: int, j: int|
        #![trigger rows[i], rows[j]]
        0 <= i < j < rows.len() ==> rows[i].name != rows[j].name
}

/// The counted record map at `at`, and the offset behind it: every record
/// must be there, and they must name that many distinct writers.
pub open spec fn get_counted(b: Seq<u8>, at: int) -> Option<(Map<Seq<char>, WriteToken>, int)> {
    match crate::codec::get_u32(b, at) {
        None => None,
        Some(n) => match crate::records::get_rows(b, at + 4, n as nat) {
            None => None,
            Some((rows, end)) => if distinct(rows) {
                Some((crate::idmap::map_of(tokens_of(rows)), end))
            } else {
                None
            },
        },
    }
}

/// A ledger entry: the stamp, then the counted record map.
pub open spec fn ledger_bytes(lead_epoch: u64, records: Seq<(Seq<char>, WriteToken)>) -> Seq<u8> {
    crate::codec::le64(lead_epoch) + counted_bytes(records)
}

/// The reading in `b`: the stamp and the map, with nothing left over.
pub open spec fn parse_ledger(b: Seq<u8>) -> Option<LedgerState> {
    match crate::codec::get_u64(b, 0) {
        None => None,
        Some(lead_epoch) => match get_counted(b, 8) {
            None => None,
            Some((applied, end)) => if end == b.len() {
                Some(LedgerState { stamp: lead_epoch, applied })
            } else {
                None
            },
        },
    }
}

/// Appends a counted record map.
pub(crate) fn encode_records(applied: &Watermarks, out: &mut Vec<u8>)
    ensures
        final(out)@ == old(out)@ + counted_bytes(applied.records()),
{
    let ghost before = out@;
    crate::codec::put_u32(out, crate::codec::saturated_len(applied.len()));
    crate::watermarks::put_marks(out, applied);
    proof {
        assert(out@ =~= before + counted_bytes(applied.records()));
    }
}

/// The counted record map at `at`, with the offset behind it, or `None` the
/// moment anything does not parse.
pub(crate) fn decode_records(bytes: &[u8], at: usize) -> (r: Option<(Watermarks, usize)>)
    ensures
        match r {
            Some((applied, end)) => {
                &&& get_counted(bytes@, at as int) == Some((applied@, end as int))
                &&& at <= end <= bytes@.len()
            },
            None => get_counted(bytes@, at as int) is None,
        },
{
    let count: u32 = match crate::codec::read_u32(bytes, at) {
        Some(n) => n,
        None => return None,
    };
    let start: usize = at + 4;
    match read_rows(bytes, start, count) {
        None => None,
        Some((applied, end)) => {
            // A map shorter than its own header holds a duplicated writer.
            if applied.len() as u64 != count as u64 {
                None
            } else {
                Some((applied, end))
            }
        },
    }
}

fn read_rows(bytes: &[u8], start: usize, count: u32) -> (r: Option<(Watermarks, usize)>)
    requires
        start <= bytes@.len(),
    ensures
        match r {
            Some((applied, end)) => {
                &&& crate::records::get_rows(bytes@, start as int, count as nat) matches Some(
                    (rows, e),
                )
                &&& e == end && start <= end <= bytes@.len()
                &&& applied@ == crate::idmap::map_of(tokens_of(rows))
                &&& applied.records().len() <= count
                &&& (applied.records().len() == count <==> distinct(rows))
            },
            None => crate::records::get_rows(bytes@, start as int, count as nat) is None,
        },
{
    let mut applied: Watermarks = IdMap::new();
    let mut at: usize = start;
    let mut i: u32 = 0;
    let ghost mut done: Seq<Row> = Seq::empty();
    let ghost whole = crate::records::get_rows(bytes@, start as int, count as nat);
    proof {
        assert(tokens_of(done) =~= Seq::<(Seq<char>, WriteToken)>::empty());
        if let Some((rows, end)) = whole {
            assert(done + rows =~= rows);
        }
    }
    while i < count
        invariant
            i <= count,
            start <= at <= bytes@.len(),
            done.len() == i,
            whole == crate::records::get_rows(bytes@, start as int, count as nat),
            applied@ == crate::idmap::map_of(tokens_of(done)),
            applied.records().len() <= i,
            applied.records().len() == i <==> distinct(done),
            match crate::records::get_rows(bytes@, at as int, (count - i) as nat) {
                Some((rest, end)) => whole == Some((done + rest, end)),
                None => whole is None,
            },
        decreases count - i,
    {
        match crate::records::read_row(bytes, at) {
            None => {
                return None;
            },
            Some((name, epoch, seq, next)) => {
                let ghost row = Row { name: name@, epoch, seq };
                let ghost longer = done.push(row);
                proof {
                    if let Some((rest, end)) = crate::records::get_rows(
                        bytes@,
                        next as int,
                        (count - i - 1) as nat,
                    ) {
                        assert(done + (seq![row] + rest) =~= longer + rest);
                    }
                    assert(tokens_of(longer).drop_last() =~= tokens_of(done));
                    lemma_distinct_push(done, row);
                }
                applied.insert(NodeId::from_string(name), WriteToken { epoch, seq });
                at = next;
                proof {
                    done = longer;
                }
            },
        }
        i = i + 1;
    }
    proof {
        assert(done + Seq::<Row>::empty() =~= done);
    }
    Some((applied, at))
}

proof fn lemma_distinct_push(rows: Seq<Row>, row: Row)
    ensures
        distinct(rows.push(row)) <==> distinct(rows) && !crate::idmap::map_of(
            tokens_of(rows),
        ).contains_key(row.name),
{
    let all = rows.push(row);
    let n = rows.len() as int;
    let pairs = tokens_of(rows);
    crate::idmap::lemma_map_of(pairs);
    if distinct(all) {
        assert forall|i: int, j: int|
            #![trigger rows[i], rows[j]]
            0 <= i < j < rows.len() implies rows[i].name != rows[j].name by {
            assert(all[i] == rows[i] && all[j] == rows[j]);
        }
        if crate::idmap::map_of(pairs).contains_key(row.name) {
            let i = choose|i: int| 0 <= i < pairs.len() && (#[trigger] pairs[i]).0 == row.name;
            assert(all[i].name == all[n].name);
        }
    }
    if distinct(rows) && !crate::idmap::map_of(pairs).contains_key(row.name) {
        assert forall|i: int, j: int|
            #![trigger all[i], all[j]]
            0 <= i < j < all.len() implies all[i].name != all[j].name by {
            assert(all[i] == rows[i]);
            if j < n {
                assert(all[j] == rows[j]);
            } else {
                assert(pairs[i].0 == rows[i].name);
            }
        }
    }
}

/// `(lead_epoch: u64)` and the counted record map.
pub fn encode_ledger(lead_epoch: u64, applied: &Watermarks) -> (r: Vec<u8>)
    ensures
        r@ == ledger_bytes(lead_epoch, applied.records()),
{
    let mut out: Vec<u8> = Vec::new();
    crate::codec::put_u64(&mut out, lead_epoch);
    encode_records(applied, &mut out);
    proof {
        assert(out@ =~= ledger_bytes(lead_epoch, applied.records()));
    }
    out
}

/// The whole reading in `bytes`, or `None` the moment anything does not
/// parse.
pub fn decode_ledger(bytes: &[u8]) -> (r: Option<Reading>)
    ensures
        match r {
            Some(reading) => parse_ledger(bytes@) == Some(
                LedgerState { stamp: reading.lead_epoch, applied: reading.applied@ },
            ),
            None => parse_ledger(bytes@) is None,
        },
{
    let lead_epoch: u64 = match crate::codec::read_u64(bytes, 0) {
        Some(x) => x,
        None => return None,
    };
    match decode_records(bytes, 8) {
        None => None,
        Some((applied, end)) => if end == bytes.len() {
            Some(Reading { lead_epoch, applied })
        } else {
            None
        },
    }
}

proof fn lemma_counted_parts(b: Seq<u8>, at: int, records: Seq<(Seq<char>, WriteToken)>)
    ensures
        crate::codec::holds_at(b, at, counted_bytes(records)) <==> (crate::codec::holds_at(
            b,
            at,
            crate::codec::le32(crate::codec::wire_len(records.len())),
        ) && crate::codec::holds_at(
            b,
            at + 4,
            crate::records::rows_bytes(crate::watermarks::token_rows(records)),
        )),
        counted_bytes(records).len() == 4 + crate::records::rows_bytes(
            crate::watermarks::token_rows(records),
        ).len(),
{
    crate::codec::lemma_le32_reads_back(crate::codec::wire_len(records.len()));
    crate::codec::lemma_holds_concat(
        b,
        at,
        crate::codec::le32(crate::codec::wire_len(records.len())),
        crate::records::rows_bytes(crate::watermarks::token_rows(records)),
    );
}

/// A counted map is read back where it stands, whatever stands behind it.
pub proof fn lemma_counted_reads_back(
    b: Seq<u8>,
    at: int,
    records: Seq<(Seq<char>, WriteToken)>,
)
    requires
        crate::codec::holds_at(b, at, counted_bytes(records)),
        crate::idmap::ascending(records),
        records_fit(records),
    ensures
        get_counted(b, at) == Some(
            (crate::idmap::map_of(records), at + counted_bytes(records).len()),
        ),
{
    let rows = crate::watermarks::token_rows(records);
    lemma_counted_parts(b, at, records);
    crate::codec::lemma_get_u32(b, at, records.len() as u32);
    crate::records::lemma_rows_read_back(b, at + 4, rows);
    assert(tokens_of(rows) =~= records);
    assert(distinct(rows)) by {
        assert forall|i: int, j: int|
            #![trigger rows[i], rows[j]]
            0 <= i < j < rows.len() implies rows[i].name != rows[j].name by {
            assert(crate::ids::id_below(records[i].0, records[j].0));
            crate::ids::nodes_are_totally_ordered(records[i].0, records[j].0, records[j].0);
        }
    }
}

/// A ledger reads back as itself: the stamp, and every watermark.
pub proof fn readings_read_back(lead_epoch: u64, records: Seq<(Seq<char>, WriteToken)>)
    requires
        crate::idmap::ascending(records),
        records_fit(records),
    ensures
        parse_ledger(ledger_bytes(lead_epoch, records)) == Some(
            LedgerState { stamp: lead_epoch, applied: crate::idmap::map_of(records) },
        ),
{
    let b = ledger_bytes(lead_epoch, records);
    crate::codec::lemma_le64_reads_back(lead_epoch);
    assert(b.subrange(0, b.len() as int) =~= b);
    crate::codec::lemma_holds_concat(b, 0, crate::codec::le64(lead_epoch), counted_bytes(records));
    crate::codec::lemma_get_u64(b, 0, lead_epoch);
    lemma_counted_reads_back(b, 8, records);
}

/// A counted map that reads from a prefix reads the same from the whole.
pub proof fn lemma_counted_extends(short: Seq<u8>, b: Seq<u8>, at: int)
    requires
        0 <= at,
        short.len() <= b.len(),
        short == b.subrange(0, short.len() as int),
        get_counted(short, at) is Some,
    ensures
        get_counted(b, at) == get_counted(short, at),
        at + 4 <= (get_counted(short, at)->0).1 <= short.len(),
{
    let n = crate::codec::get_u32(short, at)->0;
    assert(short.subrange(at, at + 4) =~= b.subrange(at, at + 4));
    crate::records::lemma_rows_stand(short, at + 4, n as nat);
    let (rows, end) = crate::records::get_rows(short, at + 4, n as nat)->0;
    assert(short.subrange(at + 4, end) =~= b.subrange(at + 4, end));
    crate::records::lemma_rows_read_back(b, at + 4, rows);
}

/// No proper prefix of a ledger is a reading, and neither is a ledger with
/// anything behind it: a reading is whole or it is nothing.
pub proof fn partial_ledgers_are_no_readings(
    lead_epoch: u64,
    records: Seq<(Seq<char>, WriteToken)>,
    cut: int,
    tail: Seq<u8>,
)
    requires
        crate::idmap::ascending(records),
        records_fit(records),
        0 <= cut < ledger_bytes(lead_epoch, records).len(),
        tail.len() > 0,
    ensures
        parse_ledger(ledger_bytes(lead_epoch, records).subrange(0, cut)) is None,
        parse_ledger(ledger_bytes(lead_epoch, records) + tail) is None,
{
    let b = ledger_bytes(lead_epoch, records);
    let short = b.subrange(0, cut);
    let long = b + tail;
    crate::codec::lemma_le64_reads_back(lead_epoch);
    assert(b.subrange(0, b.len() as int) =~= b);
    crate::codec::lemma_holds_concat(b, 0, crate::codec::le64(lead_epoch), counted_bytes(records));
    lemma_counted_reads_back(b, 8, records);
    if parse_ledger(short) is Some {
        lemma_counted_extends(short, b, 8);
    }
    assert(long.subrange(0, b.len() as int) =~= b);
    lemma_counted_extends(b, long, 8);
}

/// A ledger begins with its stamp and the number of its records, and ends with
/// the records themselves.
pub proof fn a_ledger_is_laid_out(lead_epoch: u64, records: Seq<(Seq<char>, WriteToken)>)
    requires
        records.len() <= u32::MAX,
    ensures
        ({
            let b = ledger_bytes(lead_epoch, records);
            &&& b.len() >= 12
            &&& b.subrange(0, 8) == crate::codec::le64(lead_epoch)
            &&& b.subrange(8, 12) == crate::codec::le32(records.len() as u32)
            &&& b.subrange(12, b.len() as int) == crate::records::rows_bytes(
                crate::watermarks::token_rows(records),
            )
        }),
        forall|i: int|
            0 <= i < records.len() ==> (#[trigger] crate::watermarks::token_rows(records)[i]).name
                == records[i].0 && crate::watermarks::token_rows(records)[i].epoch
                == records[i].1.epoch && crate::watermarks::token_rows(records)[i].seq
                == records[i].1.seq,
        crate::watermarks::token_rows(records).len() == records.len(),
{
    let b = ledger_bytes(lead_epoch, records);
    let n = crate::codec::wire_len(records.len());
    crate::codec::lemma_le64_reads_back(lead_epoch);
    crate::codec::lemma_le32_reads_back(n);
    assert(b.subrange(0, 8) =~= crate::codec::le64(lead_epoch));
    assert(b.subrange(8, 12) =~= crate::codec::le32(n));
    assert(b.subrange(12, b.len() as int) =~= crate::records::rows_bytes(
        crate::watermarks::token_rows(records),
    ));
}

/// A ledger that names a writer twice is no reading.
pub proof fn a_ledger_names_each_writer_once(
    lead_epoch: u64,
    records: Seq<(Seq<char>, WriteToken)>,
    i: int,
    j: int,
)
    requires
        records_fit(records),
        0 <= i < j < records.len(),
        records[i].0 == records[j].0,
    ensures
        parse_ledger(ledger_bytes(lead_epoch, records)) is None,
{
    let b = ledger_bytes(lead_epoch, records);
    let rows = crate::watermarks::token_rows(records);
    crate::codec::lemma_le64_reads_back(lead_epoch);
    assert(b.subrange(0, b.len() as int) =~= b);
    crate::codec::lemma_holds_concat(b, 0, crate::codec::le64(lead_epoch), counted_bytes(records));
    lemma_counted_parts(b, 8, records);
    crate::codec::lemma_get_u32(b, 8, records.len() as u32);
    crate::records::lemma_rows_read_back(b, 12, rows);
    assert(rows[i].name == rows[j].name);
}

/// The reading `member` publishes under `key`.
pub open spec fn reading_of(group: GroupView, member: Seq<char>, key: Seq<char>) -> Option<
    LedgerState,
> {
    match group.entry(member, key) {
        None => None,
        Some(bytes) => parse_ledger(bytes),
    }
}

/// `member`'s commit-ledger reading for the default write path, as gossip
/// currently shows it.
pub fn commit_reading(group: &GroupView, member: &NodeId) -> (r: Option<Reading>)
    ensures
        match r {
            Some(reading) => reading_of(*group, member@, LEDGER_KEY@) == Some(
                LedgerState { stamp: reading.lead_epoch, applied: reading.applied@ },
            ),
            None => reading_of(*group, member@, LEDGER_KEY@) is None,
        },
{
    proof {
        reveal_strlit("");
    }
    commit_reading_named("", group, member)
}

/// [`commit_reading`] for a named write path.
pub fn commit_reading_named(name: &str, group: &GroupView, member: &NodeId) -> (r: Option<Reading>)
    ensures
        match r {
            Some(reading) => reading_of(
                *group,
                member@,
                crate::wire::scoped_key(LEDGER_KEY@, name@),
            ) == Some(LedgerState { stamp: reading.lead_epoch, applied: reading.applied@ }),
            None => reading_of(
                *group,
                member@,
                crate::wire::scoped_key(LEDGER_KEY@, name@),
            ) is None,
        },
{
    let key: String = ledger_entry_key(name);
    match group.node_entry(member, key.as_str()) {
        None => None,
        Some(bytes) => decode_ledger(bytes),
    }
}

/// The leadership epoch `member` had adopted, paired with the highest token
/// of `writer`'s feed it advertises having applied.
pub fn commit_applied_by(group: &GroupView, member: &NodeId, writer: &NodeId) -> (r: Option<
    (u64, WriteToken),
>)
    ensures
        r == (match reading_of(*group, member@, LEDGER_KEY@) {
            None => None::<(u64, WriteToken)>,
            Some(state) => if state.applied.contains_key(writer@) {
                Some((state.stamp, state.applied[writer@]))
            } else {
                None
            },
        }),
{
    match commit_reading(group, member) {
        None => None,
        Some(reading) => match reading.applied.get_copy(writer) {
            None => None,
            Some(token) => Some((reading.lead_epoch, token)),
        },
    }
}

/// What a ledger holds: the highest leadership epoch it has stamped, and what
/// has been applied.
pub struct LedgerState {
    pub stamp: u64,
    pub applied: Map<Seq<char>, WriteToken>,
}

impl LedgerState {
    /// The ledger once `writer`'s feed has been applied through `token` under
    /// the leadership epoch `lead_epoch`. Neither half ever falls.
    pub open spec fn folded(
        self,
        writer: Seq<char>,
        token: WriteToken,
        lead_epoch: u64,
    ) -> LedgerState {
        LedgerState {
            stamp: self.restamped(lead_epoch).stamp,
            applied: crate::watermarks::raised(self.applied, writer, token),
        }
    }

    /// The ledger once it has adopted `lead_epoch`.
    pub open spec fn restamped(self, lead_epoch: u64) -> LedgerState {
        LedgerState {
            stamp: if lead_epoch > self.stamp {
                lead_epoch
            } else {
                self.stamp
            },
            ..self
        }
    }

    /// Whether this ledger was published no earlier than `earlier` by the
    /// same publisher: nothing in it is lower.
    pub open spec fn follows(self, earlier: LedgerState) -> bool {
        self.stamp >= earlier.stamp && crate::watermarks::at_least(self.applied, earlier.applied)
    }
}

/// Whatever is recorded and whatever the leadership reports, a ledger only
/// moves forward: its stamp and all its watermarks.
pub proof fn ledgers_only_move_forward(
    state: LedgerState,
    writer: Seq<char>,
    token: WriteToken,
    lead_epoch: u64,
)
    ensures
        state.folded(writer, token, lead_epoch).follows(state),
        state.restamped(lead_epoch).follows(state),
        state.folded(writer, token, lead_epoch).stamp >= lead_epoch,
        state.folded(writer, token, lead_epoch).applied[writer].covers(token),
{
}

/// A record moves the one watermark, to the later of the two tokens, and the
/// stamp to the later of the two epochs; a refresh moves the stamp alone.
pub proof fn a_record_moves_one_watermark(
    state: LedgerState,
    writer: Seq<char>,
    token: WriteToken,
    lead_epoch: u64,
    other: Seq<char>,
)
    ensures
        ({
            let now = state.folded(writer, token, lead_epoch);
            let stamped = state.restamped(lead_epoch);
            &&& now.stamp == (if lead_epoch >= state.stamp {
                lead_epoch
            } else {
                state.stamp
            })
            &&& stamped.stamp == now.stamp
            &&& stamped.applied == state.applied
            &&& now.applied.contains_key(writer)
            &&& now.applied[writer] == token || (state.applied.contains_key(writer)
                && now.applied[writer] == state.applied[writer])
            &&& now.applied[writer].epoch > token.epoch || (now.applied[writer].epoch
                == token.epoch && now.applied[writer].seq >= token.seq)
            &&& state.applied.contains_key(writer) ==> now.applied[writer].epoch
                > state.applied[writer].epoch || (now.applied[writer].epoch
                == state.applied[writer].epoch && now.applied[writer].seq
                >= state.applied[writer].seq)
            &&& other != writer ==> (now.applied.contains_key(other)
                <==> state.applied.contains_key(other))
            &&& other != writer && state.applied.contains_key(other) ==> now.applied[other]
                == state.applied[other]
        }),
{
    crate::watermarks::raising_touches_one_watermark(state.applied, writer, token, other);
}

/// What is read of a member is what it published: its stamp, and every
/// watermark under its own writer. A member that publishes nothing is not
/// read.
pub proof fn a_reading_is_what_was_published(
    group: GroupView,
    member: Seq<char>,
    key: Seq<char>,
    stamp: u64,
    records: Seq<(Seq<char>, WriteToken)>,
    i: int,
)
    requires
        crate::idmap::ascending(records),
        records_fit(records),
        0 <= i < records.len(),
    ensures
        group.entry(member, key) == Some(ledger_bytes(stamp, records)) ==> (reading_of(
            group,
            member,
            key,
        ) matches Some(state) && state.stamp == stamp && state.applied.contains_key(records[i].0)
            && state.applied[records[i].0] == records[i].1),
        group.entry(member, key) is None ==> reading_of(group, member, key) is None,
{
    readings_read_back(stamp, records);
    crate::idmap::lemma_map_of(records);
}

/// Raises `writer`'s watermark to `token` and the stamp to `lead_epoch`,
/// telling whether either moved. A stamp advance alone is worth publishing.
pub fn fold(
    stamp: &mut u64,
    applied: &mut Watermarks,
    writer: &NodeId,
    token: WriteToken,
    lead_epoch: u64,
) -> (moved: bool)
    ensures
        *final(stamp) == (if lead_epoch > *old(stamp) {
            lead_epoch
        } else {
            *old(stamp)
        }),
        final(applied)@ == crate::watermarks::raised(old(applied)@, writer@, token),
        moved == (lead_epoch > *old(stamp) || crate::watermarks::mark(
            old(applied)@,
            writer@,
        ).below(token)),
{
    let stamped: bool = lead_epoch > *stamp;
    if stamped {
        *stamp = lead_epoch;
    }
    let advanced: bool = crate::watermarks::raise(applied, writer, token);
    stamped || advanced
}

/// Publisher half: this node's epoch-stamped applied watermarks.
#[derive(Debug)]
pub struct CommitLedger {
    key: String,
    stamp: u64,
    applied: Watermarks,
}

impl View for CommitLedger {
    type V = LedgerState;

    closed spec fn view(&self) -> LedgerState {
        LedgerState { stamp: self.stamp, applied: self.applied@ }
    }
}

impl CommitLedger {
    /// The entry key this ledger publishes under.
    pub closed spec fn key(&self) -> Seq<char> {
        self.key@
    }

    /// The watermarks in node order.
    pub closed spec fn records(&self) -> Seq<(Seq<char>, WriteToken)> {
        self.applied.records()
    }

    /// Whether `w` publishes this ledger: the whole of it, under its key,
    /// never expiring.
    pub open spec fn advertises(&self, w: EntryWrite) -> bool {
        &&& w.key@ == self.key()
        &&& w.value@ == ledger_bytes(self@.stamp, self.records())
        &&& w.ttl_ms is None
        &&& crate::idmap::ascending(self.records())
        &&& self@.applied == crate::idmap::map_of(self.records())
    }

    /// A ledger for the default write path, starting from nothing applied.
    pub fn new() -> (r: CommitLedger)
        ensures
            r.key() == LEDGER_KEY@,
            r@ == (LedgerState { stamp: 0, applied: Map::empty() }),
    {
        proof {
            reveal_strlit("");
        }
        CommitLedger::build("", IdMap::new())
    }

    /// A ledger for a named write path.
    pub fn named(name: &str) -> (r: CommitLedger)
        ensures
            r.key() == crate::wire::scoped_key(LEDGER_KEY@, name@),
            r@ == (LedgerState { stamp: 0, applied: Map::empty() }),
    {
        CommitLedger::build(name, IdMap::new())
    }

    /// A ledger for the default write path, seeded with what durable storage
    /// says this node has already applied. The stamp starts at zero: a store
    /// never records under which leadership epoch something was published.
    pub fn with_recovered(applied: Watermarks) -> (r: CommitLedger)
        ensures
            r.key() == LEDGER_KEY@,
            r@ == (LedgerState { stamp: 0, applied: applied@ }),
    {
        proof {
            reveal_strlit("");
        }
        CommitLedger::build("", applied)
    }

    /// [`with_recovered`](Self::with_recovered) for a named write path.
    pub fn named_with_recovered(name: &str, applied: Watermarks) -> (r: CommitLedger)
        ensures
            r.key() == crate::wire::scoped_key(LEDGER_KEY@, name@),
            r@ == (LedgerState { stamp: 0, applied: applied@ }),
    {
        CommitLedger::build(name, applied)
    }

    fn build(name: &str, applied: Watermarks) -> (r: CommitLedger)
        ensures
            r.key() == crate::wire::scoped_key(LEDGER_KEY@, name@),
            r@ == (LedgerState { stamp: 0, applied: applied@ }),
    {
        CommitLedger { key: ledger_entry_key(name), stamp: 0, applied }
    }

    /// The highest leadership epoch this ledger has stamped so far.
    pub fn stamp(&self) -> (r: u64)
        ensures
            r == self@.stamp,
    {
        self.stamp
    }

    /// The entry key this ledger publishes under.
    pub fn entry_key(&self) -> (r: &str)
        ensures
            r@ == self.key(),
    {
        self.key.as_str()
    }

    /// The highest token of `writer`'s feed this ledger records as applied.
    pub fn applied(&self, writer: &NodeId) -> (r: Option<WriteToken>)
        ensures
            r == (if self@.applied.contains_key(writer@) {
                Some(self@.applied[writer@])
            } else {
                None
            }),
    {
        self.applied.get_copy(writer)
    }

    /// This node's whole applied map, as the recovery rule consumes it.
    pub fn watermarks(&self) -> (r: Watermarks)
        ensures
            r@ == self@.applied,
    {
        self.applied.clone()
    }

    /// Records that `writer`'s feed has been applied through `token`, stamps
    /// the leadership epoch, and hands back the ledger to publish when either
    /// moved.
    pub fn record(&mut self, writer: &NodeId, token: WriteToken, lead_epoch: u64) -> (r: Option<
        EntryWrite,
    >)
        ensures
            final(self).key() == old(self).key(),
            final(self)@ == old(self)@.folded(writer@, token, lead_epoch),
            match r {
                Some(w) => {
                    &&& lead_epoch > old(self)@.stamp || crate::watermarks::mark(
                        old(self)@.applied,
                        writer@,
                    ).below(token)
                    &&& final(self).advertises(w)
                },
                None => lead_epoch <= old(self)@.stamp && !crate::watermarks::mark(
                    old(self)@.applied,
                    writer@,
                ).below(token),
            },
    {
        if fold(&mut self.stamp, &mut self.applied, writer, token, lead_epoch) {
            Some(self.advertisement())
        } else {
            None
        }
    }

    /// Raises every watermark that `more` names.
    pub(crate) fn absorb(&mut self, more: &Watermarks)
        ensures
            final(self).key() == old(self).key(),
            final(self)@ == (LedgerState {
                stamp: old(self)@.stamp,
                applied: crate::watermarks::merged(old(self)@.applied, more@),
            }),
    {
        crate::watermarks::merge(&mut self.applied, more);
    }

    /// Stamps the leadership epoch and hands back the ledger to publish.
    /// Watermarks are untouched.
    pub fn refresh(&mut self, lead_epoch: u64) -> (r: EntryWrite)
        ensures
            final(self).key() == old(self).key(),
            final(self)@ == old(self)@.restamped(lead_epoch),
            final(self).advertises(r),
    {
        if lead_epoch > self.stamp {
            self.stamp = lead_epoch;
        }
        self.advertisement()
    }

    fn advertisement(&self) -> (r: EntryWrite)
        ensures
            self.advertises(r),
    {
        let _n: usize = self.applied.len();
        EntryWrite {
            key: self.key.clone(),
            value: encode_ledger(self.stamp, &self.applied),
            ttl_ms: None,
        }
    }
}

/// An advertised ledger stands under its own key, never expires, and reads as
/// the very ledger.
pub proof fn an_advertised_ledger_reads_back(ledger: CommitLedger, w: EntryWrite)
    requires
        ledger.advertises(w),
        records_fit(ledger.records()),
    ensures
        w.key@ == ledger.key(),
        w.ttl_ms is None,
        parse_ledger(w.value@) == Some(ledger@),
{
    readings_read_back(ledger@.stamp, ledger.records());
}

} // verus!
