//! The `(name, epoch, seq)` record every watermark map is gossiped as.

use vstd::prelude::*;

verus! {

/// One record: a node's name and a position in an epoch-major order.
pub struct Row {
    pub name: Seq<char>,
    pub epoch: u64,
    pub seq: u64,
}

/// The bytes of a record whose name is spelled by `name`.
pub open spec fn raw_row_bytes(name: Seq<u8>, epoch: u64, seq: u64) -> Seq<u8> {
    crate::codec::block(name) + (crate::codec::le64(epoch) + crate::codec::le64(seq))
}

/// `(name_len: u32, name: utf-8, epoch: u64, seq: u64)`, little-endian.
pub open spec fn row_bytes(row: Row) -> Seq<u8> {
    raw_row_bytes(vstd::utf8::encode_utf8(row.name), row.epoch, row.seq)
}

/// The bytes of records written one after the other.
pub open spec fn rows_bytes(rows: Seq<Row>) -> Seq<u8>
    decreases rows.len(),
{
    if rows.len() == 0 {
        Seq::empty()
    } else {
        row_bytes(rows[0]) + rows_bytes(rows.subrange(1, rows.len() as int))
    }
}

/// Whether every name fits the length prefix its record carries.
pub open spec fn names_fit(rows: Seq<Row>) -> bool {
    forall|i: int|
        0 <= i < rows.len() ==> vstd::utf8::encode_utf8((#[trigger] rows[i]).name).len()
            <= u32::MAX
}

/// The record at `at`: the bytes of its name, and its position.
pub open spec fn get_raw_row(b: Seq<u8>, at: int) -> Option<(Seq<u8>, u64, u64)> {
    match crate::codec::get_block(b, at) {
        None => None,
        Some(name) => {
            let mid = at + 4 + name.len();
            match (crate::codec::get_u64(b, mid), crate::codec::get_u64(b, mid + 8)) {
                (Some(epoch), Some(seq)) => Some((name, epoch, seq)),
                _ => None,
            }
        },
    }
}

/// The record at `at` whose name is text, and the offset behind it.
pub open spec fn get_row(b: Seq<u8>, at: int) -> Option<(Row, int)> {
    match get_raw_row(b, at) {
        None => None,
        Some((name, epoch, seq)) => match crate::codec::text(name) {
            None => None,
            Some(name_text) => Some(
                (Row { name: name_text, epoch, seq }, at + 20 + name.len()),
            ),
        },
    }
}

/// The `n` records from `at` on, and the offset behind them.
pub open spec fn get_rows(b: Seq<u8>, at: int, n: nat) -> Option<(Seq<Row>, int)>
    decreases n,
{
    if n == 0 {
        Some((Seq::empty(), at))
    } else {
        match get_row(b, at) {
            None => None,
            Some((row, next)) => match get_rows(b, next, (n - 1) as nat) {
                None => None,
                Some((rest, end)) => Some((seq![row] + rest, end)),
            },
        }
    }
}

/// The records from `at` to the very end of `b`.
pub open spec fn get_rows_to_end(b: Seq<u8>, at: int) -> Option<Seq<Row>>
    decreases b.len() - at,
{
    if at >= b.len() {
        Some(Seq::empty())
    } else {
        match get_row(b, at) {
            None => None,
            Some((row, next)) => if next <= at {
                None
            } else {
                match get_rows_to_end(b, next) {
                    None => None,
                    Some(rest) => Some(seq![row] + rest),
                }
            },
        }
    }
}

/// A record takes twenty bytes more than its name.
pub proof fn lemma_raw_row_len(name: Seq<u8>, epoch: u64, seq: u64)
    ensures
        raw_row_bytes(name, epoch, seq).len() == 20 + name.len(),
{
    crate::codec::lemma_block_len(name);
    crate::codec::lemma_le64_reads_back(epoch);
    crate::codec::lemma_le64_reads_back(seq);
}

/// A record is read at `at` exactly where its bytes stand.
pub proof fn lemma_get_raw_row(b: Seq<u8>, at: int, name: Seq<u8>, epoch: u64, seq: u64)
    ensures
        name.len() <= u32::MAX ==> (get_raw_row(b, at) == Some((name, epoch, seq))
            <==> crate::codec::holds_at(b, at, raw_row_bytes(name, epoch, seq))),
        name.len() > u32::MAX ==> get_raw_row(b, at) != Some((name, epoch, seq)),
{
    let mid = at + 4 + name.len();
    crate::codec::lemma_get_block(b, at, name);
    crate::codec::lemma_block_len(name);
    crate::codec::lemma_le64_reads_back(epoch);
    crate::codec::lemma_get_u64(b, mid, epoch);
    crate::codec::lemma_get_u64(b, mid + 8, seq);
    crate::codec::lemma_holds_concat(
        b,
        mid,
        crate::codec::le64(epoch),
        crate::codec::le64(seq),
    );
    crate::codec::lemma_holds_concat(
        b,
        at,
        crate::codec::block(name),
        crate::codec::le64(epoch) + crate::codec::le64(seq),
    );
}

/// What is read at `at` stands there.
pub proof fn lemma_row_stands(b: Seq<u8>, at: int)
    ensures
        get_row(b, at) matches Some((row, next)) ==> {
            &&& crate::codec::holds_at(b, at, row_bytes(row))
            &&& next == at + row_bytes(row).len()
            &&& vstd::utf8::encode_utf8(row.name).len() <= u32::MAX
            &&& at < next <= b.len()
        },
{
    match get_raw_row(b, at) {
        None => {},
        Some((name, epoch, seq)) => {
            lemma_get_raw_row(b, at, name, epoch, seq);
            lemma_raw_row_len(name, epoch, seq);
            if vstd::utf8::valid_utf8(name) {
                vstd::utf8::decode_utf8_encode_utf8(name);
            }
        },
    }
}

/// A record whose name fits is read back where it stands.
pub proof fn lemma_row_reads_back(b: Seq<u8>, at: int, row: Row)
    requires
        crate::codec::holds_at(b, at, row_bytes(row)),
        vstd::utf8::encode_utf8(row.name).len() <= u32::MAX,
    ensures
        get_row(b, at) == Some((row, at + row_bytes(row).len())),
{
    let name = vstd::utf8::encode_utf8(row.name);
    vstd::utf8::encode_utf8_valid_utf8(row.name);
    vstd::utf8::encode_utf8_decode_utf8(row.name);
    lemma_get_raw_row(b, at, name, row.epoch, row.seq);
    lemma_raw_row_len(name, row.epoch, row.seq);
}

/// Counted records whose names fit are read back where they stand.
pub proof fn lemma_rows_read_back(b: Seq<u8>, at: int, rows: Seq<Row>)
    requires
        crate::codec::holds_at(b, at, rows_bytes(rows)),
        names_fit(rows),
    ensures
        get_rows(b, at, rows.len()) == Some((rows, at + rows_bytes(rows).len())),
    decreases rows.len(),
{
    if rows.len() > 0 {
        let rest = rows.subrange(1, rows.len() as int);
        crate::codec::lemma_holds_concat(b, at, row_bytes(rows[0]), rows_bytes(rest));
        lemma_row_reads_back(b, at, rows[0]);
        lemma_names_fit_rest(rows);
        lemma_rows_read_back(b, at + row_bytes(rows[0]).len(), rest);
        assert(seq![rows[0]] + rest =~= rows);
    } else {
        assert(rows =~= Seq::empty());
    }
}

/// Counted records that are read stand where they are read, and their names
/// fit.
pub proof fn lemma_rows_stand(b: Seq<u8>, at: int, n: nat)
    requires
        0 <= at <= b.len(),
    ensures
        get_rows(b, at, n) matches Some((rows, end)) ==> {
            &&& rows.len() == n
            &&& names_fit(rows)
            &&& crate::codec::holds_at(b, at, rows_bytes(rows))
            &&& end == at + rows_bytes(rows).len()
            &&& at <= end <= b.len()
        },
    decreases n,
{
    if n > 0 {
        lemma_row_stands(b, at);
        match get_row(b, at) {
            None => {},
            Some((row, next)) => {
                lemma_rows_stand(b, next, (n - 1) as nat);
                match get_rows(b, next, (n - 1) as nat) {
                    None => {},
                    Some((rest, end)) => {
                        let rows = seq![row] + rest;
                        assert(rows.subrange(1, rows.len() as int) =~= rest);
                        crate::codec::lemma_holds_concat(b, at, row_bytes(row), rows_bytes(rest));
                        assert forall|i: int| 0 <= i < rows.len() implies vstd::utf8::encode_utf8(
                            (#[trigger] rows[i]).name,
                        ).len() <= u32::MAX by {
                            if i > 0 {
                                assert(rows[i] == rest[i - 1]);
                            }
                        }
                    },
                }
            },
        }
    } else {
        assert(b.subrange(at, at) =~= Seq::<u8>::empty());
    }
}

/// Uncounted records whose names fit are read back, when nothing stands
/// behind them.
pub proof fn lemma_rows_to_end_read_back(b: Seq<u8>, at: int, rows: Seq<Row>)
    requires
        crate::codec::holds_at(b, at, rows_bytes(rows)),
        at + rows_bytes(rows).len() == b.len(),
        names_fit(rows),
    ensures
        get_rows_to_end(b, at) == Some(rows),
    decreases rows.len(),
{
    if rows.len() > 0 {
        let rest = rows.subrange(1, rows.len() as int);
        lemma_raw_row_len(vstd::utf8::encode_utf8(rows[0].name), rows[0].epoch, rows[0].seq);
        crate::codec::lemma_holds_concat(b, at, row_bytes(rows[0]), rows_bytes(rest));
        lemma_row_reads_back(b, at, rows[0]);
        lemma_names_fit_rest(rows);
        lemma_rows_to_end_read_back(b, at + row_bytes(rows[0]).len(), rest);
        assert(seq![rows[0]] + rest =~= rows);
    } else {
        assert(rows =~= Seq::empty());
    }
}

/// Uncounted records that are read stand where they are read, to the end.
pub proof fn lemma_rows_to_end_stand(b: Seq<u8>, at: int)
    requires
        0 <= at <= b.len(),
    ensures
        get_rows_to_end(b, at) matches Some(rows) ==> {
            &&& names_fit(rows)
            &&& crate::codec::holds_at(b, at, rows_bytes(rows))
            &&& at + rows_bytes(rows).len() == b.len()
        },
    decreases b.len() - at,
{
    if at < b.len() {
        lemma_row_stands(b, at);
        match get_row(b, at) {
            None => {},
            Some((row, next)) => {
                lemma_rows_to_end_stand(b, next);
                match get_rows_to_end(b, next) {
                    None => {},
                    Some(rest) => {
                        let rows = seq![row] + rest;
                        assert(rows.subrange(1, rows.len() as int) =~= rest);
                        crate::codec::lemma_holds_concat(b, at, row_bytes(row), rows_bytes(rest));
                        assert forall|i: int| 0 <= i < rows.len() implies vstd::utf8::encode_utf8(
                            (#[trigger] rows[i]).name,
                        ).len() <= u32::MAX by {
                            if i > 0 {
                                assert(rows[i] == rest[i - 1]);
                            }
                        }
                    },
                }
            },
        }
    } else {
        assert(b.subrange(at, at) =~= Seq::<u8>::empty());
    }
}

/// Dropping the first of names that fit leaves names that fit.
pub proof fn lemma_names_fit_rest(rows: Seq<Row>)
    requires
        names_fit(rows),
        rows.len() > 0,
    ensures
        names_fit(rows.subrange(1, rows.len() as int)),
{
    let rest = rows.subrange(1, rows.len() as int);
    assert forall|i: int| 0 <= i < rest.len() implies vstd::utf8::encode_utf8(
        (#[trigger] rest[i]).name,
    ).len() <= u32::MAX by {
        assert(rest[i] == rows[i + 1]);
    }
}

/// Appends one record.
pub(crate) fn put_row(out: &mut Vec<u8>, name: &str, epoch: u64, seq: u64)
    ensures
        final(out)@ == old(out)@ + row_bytes((Row { name: name@, epoch, seq })),
{
    let ghost before = out@;
    crate::codec::put_block(out, name.as_bytes());
    crate::codec::put_u64(out, epoch);
    crate::codec::put_u64(out, seq);
    proof {
        assert(out@ =~= before + row_bytes((Row { name: name@, epoch, seq })));
    }
}

/// Reads the record at `at`: the bytes of its name, and its position.
pub(crate) fn read_raw_row<'a>(bytes: &'a [u8], at: usize) -> (r: Option<(&'a [u8], u64, u64)>)
    ensures
        match r {
            Some((name, epoch, seq)) => {
                &&& get_raw_row(bytes@, at as int) == Some((name@, epoch, seq))
                &&& at + 20 + name@.len() <= bytes@.len() <= usize::MAX
            },
            None => get_raw_row(bytes@, at as int) is None,
        },
{
    match crate::codec::read_block(bytes, at) {
        None => None,
        Some(name) => {
            let mid: usize = at + 4 + name.len();
            match crate::codec::read_u64(bytes, mid) {
                None => None,
                Some(epoch) => match crate::codec::read_u64(bytes, mid + 8) {
                    None => None,
                    Some(seq) => Some((name, epoch, seq)),
                },
            }
        },
    }
}

/// Reads the record at `at`, with the offset behind it.
pub(crate) fn read_row(bytes: &[u8], at: usize) -> (r: Option<(String, u64, u64, usize)>)
    ensures
        match r {
            Some((name, epoch, seq, next)) => {
                &&& get_row(bytes@, at as int) == Some(
                    ((Row { name: name@, epoch, seq }), next as int),
                )
                &&& at < next <= bytes@.len()
            },
            None => get_row(bytes@, at as int) is None,
        },
{
    match read_raw_row(bytes, at) {
        None => None,
        Some((name, epoch, seq)) => {
            let next: usize = at + 20 + name.len();
            match crate::codec::read_text(name) {
                None => None,
                Some(name_text) => Some((name_text, epoch, seq, next)),
            }
        },
    }
}

/// A record is its name behind the name's length, then the epoch, then the
/// sequence number, each lowest byte first.
pub proof fn a_record_is_laid_out(row: Row, rest: Seq<Row>)
    requires
        vstd::utf8::encode_utf8(row.name).len() <= u32::MAX,
    ensures
        ({
            let name = vstd::utf8::encode_utf8(row.name);
            let b = row_bytes(row);
            let n = name.len() as int;
            &&& b.len() == 20 + n
            &&& b.subrange(0, 4) == crate::codec::le32(n as u32)
            &&& b.subrange(4, 4 + n) == name
            &&& b.subrange(4 + n, 12 + n) == crate::codec::le64(row.epoch)
            &&& b.subrange(12 + n, 20 + n) == crate::codec::le64(row.seq)
        }),
        rows_bytes(Seq::empty()).len() == 0,
        rows_bytes(seq![row] + rest) == row_bytes(row) + rows_bytes(rest),
{
    let name = vstd::utf8::encode_utf8(row.name);
    let b = row_bytes(row);
    let n = name.len() as int;
    crate::codec::lemma_le32_reads_back(crate::codec::wire_len(name.len()));
    crate::codec::lemma_le64_reads_back(row.epoch);
    crate::codec::lemma_le64_reads_back(row.seq);
    assert(b.subrange(0, 4) =~= crate::codec::le32(n as u32));
    assert(b.subrange(4, 4 + n) =~= name);
    assert(b.subrange(4 + n, 12 + n) =~= crate::codec::le64(row.epoch));
    assert(b.subrange(12 + n, 20 + n) =~= crate::codec::le64(row.seq));
    let all = seq![row] + rest;
    assert(all.subrange(1, all.len() as int) =~= rest);
}

} // verus!
