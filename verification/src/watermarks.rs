//! Applied watermarks: the highest token of each writer's feed that has been
//! applied somewhere.

use crate::idmap::IdMap;
use crate::ids::NodeId;
use crate::records::Row;
use crate::token::WriteToken;
use vstd::prelude::*;

verus! {

/// One applied watermark per writer, in node order, so that an unchanged map
/// encodes to the same bytes.
pub type Watermarks = IdMap<WriteToken>;

/// The watermark of `writer`, the lowest token when there is none.
pub open spec fn mark(marks: Map<Seq<char>, WriteToken>, writer: Seq<char>) -> WriteToken {
    if marks.contains_key(writer) {
        marks[writer]
    } else {
        WriteToken::origin()
    }
}

/// The watermarks with `writer`'s raised to `token`: it never falls.
pub open spec fn raised(
    marks: Map<Seq<char>, WriteToken>,
    writer: Seq<char>,
    token: WriteToken,
) -> Map<Seq<char>, WriteToken> {
    marks.insert(writer, crate::token::later(mark(marks, writer), token))
}

/// Whether every watermark of `old_marks` stands in `new_marks`, no lower.
pub open spec fn at_least(
    new_marks: Map<Seq<char>, WriteToken>,
    old_marks: Map<Seq<char>, WriteToken>,
) -> bool {
    forall|w: Seq<char>| #[trigger]
        old_marks.contains_key(w) ==> new_marks.contains_key(w) && new_marks[w].covers(
            old_marks[w],
        )
}

/// Raising a watermark lowers none, covers the token raised to, and is the
/// same in either order.
pub proof fn watermarks_only_rise(
    marks: Map<Seq<char>, WriteToken>,
    w1: Seq<char>,
    t1: WriteToken,
    w2: Seq<char>,
    t2: WriteToken,
)
    ensures
        at_least(raised(marks, w1, t1), marks),
        raised(marks, w1, t1)[w1].covers(t1),
        raised(raised(marks, w1, t1), w1, t1) == raised(marks, w1, t1),
        raised(raised(marks, w1, t1), w2, t2) == raised(raised(marks, w2, t2), w1, t1),
{
    assert(raised(raised(marks, w1, t1), w1, t1) =~= raised(marks, w1, t1));
    assert(raised(raised(marks, w1, t1), w2, t2) =~= raised(raised(marks, w2, t2), w1, t1));
}

/// Raises `writer`'s watermark to `token`, telling whether it moved.
pub(crate) fn raise(marks: &mut Watermarks, writer: &NodeId, token: WriteToken) -> (advanced: bool)
    ensures
        final(marks)@ == raised(old(marks)@, writer@, token),
        advanced == mark(old(marks)@, writer@).below(token),
{
    let current: WriteToken = match marks.get_copy(writer) {
        Some(t) => t,
        None => WriteToken { epoch: 0, seq: 0 },
    };
    let advanced: bool = current < token;
    marks.insert(
        writer.clone(),
        if advanced {
            token
        } else {
            current
        },
    );
    advanced
}

/// Two watermark maps as one: the later mark of each writer that either
/// names.
pub open spec fn merged(a: Map<Seq<char>, WriteToken>, b: Map<Seq<char>, WriteToken>) -> Map<
    Seq<char>,
    WriteToken,
> {
    Map::new(
        |w: Seq<char>| a.contains_key(w) || b.contains_key(w),
        |w: Seq<char>|
            crate::token::later(
                mark(a, w),
                mark(b, w),
            ),
    )
}

/// Merging lowers nothing on either side, in either order, and merging again
/// changes nothing.
pub proof fn merging_only_raises(a: Map<Seq<char>, WriteToken>, b: Map<Seq<char>, WriteToken>)
    ensures
        at_least(merged(a, b), a),
        at_least(merged(a, b), b),
        merged(a, b) == merged(b, a),
        merged(merged(a, b), b) == merged(a, b),
{
    assert(merged(a, b) =~= merged(b, a));
    assert(merged(merged(a, b), b) =~= merged(a, b));
}

/// Raises `want` to cover `more`.
pub(crate) fn merge(want: &mut Watermarks, more: &Watermarks)
    ensures
        final(want)@ == merged(old(want)@, more@),
{
    let ghost before = want@;
    let n: usize = more.len();
    let ghost rows = more.records();
    proof {
        crate::idmap::lemma_map_of(rows);
    }
    let mut i: usize = 0;
    while i < n
        invariant
            i <= n,
            n == rows.len(),
            rows == more.records(),
            crate::idmap::ascending(rows),
            forall|j: int|
                0 <= j < n ==> more@.contains_key((#[trigger] rows[j]).0) && more@[rows[j].0]
                    == rows[j].1,
            forall|w: Seq<char>| #[trigger]
                want@.contains_key(w) <==> before.contains_key(w) || listed_before(
                    rows,
                    i as int,
                    w,
                ),
            forall|w: Seq<char>| #[trigger]
                want@.contains_key(w) ==> want@[w] == (if listed_before(rows, i as int, w) {
                    crate::token::later(mark(before, w), more@[w])
                } else {
                    before[w]
                }),
        decreases n - i,
    {
        let writer: &NodeId = more.key_at(i);
        let token: WriteToken = *more.value_at(i);
        proof {
            assert(!listed_before(rows, i as int, writer@)) by {
                if listed_before(rows, i as int, writer@) {
                    let j = choose|j: int| 0 <= j < i && (#[trigger] rows[j]).0 == writer@;
                    crate::ids::nodes_are_totally_ordered(rows[j].0, rows[i as int].0, writer@);
                }
            }
        }
        let _moved: bool = raise(want, writer, token);
        proof {
            assert forall|w: Seq<char>| #[trigger]
                listed_before(rows, i + 1, w) == (listed_before(rows, i as int, w) || w
                    == writer@) by {
                assert(rows[i as int].0 == writer@);
            }
        }
        i = i + 1;
    }
    proof {
        assert forall|w: Seq<char>| #[trigger]
            listed_before(rows, i as int, w) == more@.contains_key(w) by {
            if more@.contains_key(w) {
                let j = choose|j: int| 0 <= j < rows.len() && (#[trigger] rows[j]).0 == w;
                assert(rows[j].0 == w);
            }
        }
        assert(want@ =~= merged(before, more@));
    }
}

spec fn listed_before(rows: Seq<(Seq<char>, WriteToken)>, k: int, w: Seq<char>) -> bool {
    exists|j: int| 0 <= j < k && (#[trigger] rows[j]).0 == w
}

/// The records of a watermark map, as they are gossiped.
pub open spec fn token_rows(records: Seq<(Seq<char>, WriteToken)>) -> Seq<Row> {
    records.map_values(
        |r: (Seq<char>, WriteToken)| Row { name: r.0, epoch: r.1.epoch, seq: r.1.seq },
    )
}

/// Appends the records of a watermark map, in node order.
pub(crate) fn put_marks(out: &mut Vec<u8>, marks: &Watermarks)
    ensures
        final(out)@ == old(out)@ + crate::records::rows_bytes(token_rows(marks.records())),
        crate::idmap::ascending(marks.records()),
{
    let n: usize = marks.len();
    let ghost before = out@;
    let ghost rows = token_rows(marks.records());
    proof {
        assert(rows.subrange(0, rows.len() as int) =~= rows);
    }
    let mut i: usize = 0;
    while i < n
        invariant
            i <= n,
            n == marks.records().len(),
            rows == token_rows(marks.records()),
            out@ + crate::records::rows_bytes(rows.subrange(i as int, rows.len() as int)) == before
                + crate::records::rows_bytes(rows),
        decreases n - i,
    {
        let ghost was = out@;
        let ghost rest = rows.subrange(i as int, rows.len() as int);
        let token: WriteToken = *marks.value_at(i);
        crate::records::put_row(out, marks.key_at(i).as_str(), token.epoch, token.seq);
        proof {
            let left = rows.subrange(i + 1, rows.len() as int);
            assert(rest.subrange(1, rest.len() as int) =~= left);
            assert(was + crate::records::row_bytes(rest[0]) + crate::records::rows_bytes(left)
                =~= was + (crate::records::row_bytes(rest[0]) + crate::records::rows_bytes(left)));
        }
        i = i + 1;
    }
    proof {
        let none = rows.subrange(i as int, rows.len() as int);
        assert(none =~= Seq::<Row>::empty());
        assert(out@ + crate::records::rows_bytes(none) =~= out@);
    }
}

/// Raising touches one watermark: it becomes the token unless it stood higher,
/// and no other writer's moves, comes or goes.
pub proof fn raising_touches_one_watermark(
    marks: Map<Seq<char>, WriteToken>,
    writer: Seq<char>,
    token: WriteToken,
    other: Seq<char>,
)
    ensures
        raised(marks, writer, token).contains_key(other) <==> other == writer
            || marks.contains_key(other),
        other != writer && marks.contains_key(other) ==> raised(marks, writer, token)[other]
            == marks[other],
        !marks.contains_key(writer) ==> raised(marks, writer, token)[writer] == token,
        marks.contains_key(writer) ==> raised(marks, writer, token)[writer] == (
        if marks[writer].epoch > token.epoch || (marks[writer].epoch == token.epoch
            && marks[writer].seq > token.seq) {
            marks[writer]
        } else {
            token
        }),
{
}

/// Merging takes every writer of either side, each with the later of its two
/// watermarks.
pub proof fn merging_takes_the_later(
    a: Map<Seq<char>, WriteToken>,
    b: Map<Seq<char>, WriteToken>,
    w: Seq<char>,
)
    ensures
        merged(a, b).contains_key(w) <==> a.contains_key(w) || b.contains_key(w),
        a.contains_key(w) && !b.contains_key(w) ==> merged(a, b)[w] == a[w],
        b.contains_key(w) && !a.contains_key(w) ==> merged(a, b)[w] == b[w],
        a.contains_key(w) && b.contains_key(w) ==> merged(a, b)[w] == (if a[w].epoch > b[w].epoch
            || (a[w].epoch == b[w].epoch && a[w].seq > b[w].seq) {
            a[w]
        } else {
            b[w]
        }),
{
}

/// One set of watermarks is at least another exactly when it holds every
/// writer of the other at a token that is no earlier.
pub proof fn at_least_means_every_writer(
    new_marks: Map<Seq<char>, WriteToken>,
    old_marks: Map<Seq<char>, WriteToken>,
)
    ensures
        at_least(new_marks, old_marks) <==> forall|w: Seq<char>| #[trigger]
            old_marks.contains_key(w) ==> new_marks.contains_key(w) && (new_marks[w].epoch
                > old_marks[w].epoch || (new_marks[w].epoch == old_marks[w].epoch
                && new_marks[w].seq >= old_marks[w].seq)),
{
}

/// A writer of which nothing has been applied stands before its first write.
pub proof fn an_unknown_writer_stands_at_the_origin(
    marks: Map<Seq<char>, WriteToken>,
    writer: Seq<char>,
)
    ensures
        marks.contains_key(writer) ==> mark(marks, writer) == marks[writer],
        !marks.contains_key(writer) ==> mark(marks, writer).epoch == 0 && mark(marks, writer).seq
            == 0,
{
}

} // verus!
