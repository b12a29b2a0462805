use vstd::prelude::*;
use itertools::Itertools;
use crate::records::{Row, Record, RecordView, records_view, copy_row};

verus! {

/// The rows of the chunks, one after the other.
pub open spec fn joined(cs: Seq<Vec<Row>>) -> Seq<Row>
    decreases cs.len(),
{
    if cs.len() == 0 {
        Seq::empty()
    } else {
        joined(cs.drop_last()) + cs.last()@
    }
}

/// The records of the batches, one after the other.
pub open spec fn joined_records(cs: Seq<Vec<Record>>) -> Seq<RecordView>
    decreases cs.len(),
{
    if cs.len() == 0 {
        Seq::empty()
    } else {
        joined_records(cs.drop_last()) + records_view(cs.last()@)
    }
}

proof fn lemma_joined_split(cs: Seq<Vec<Row>>, k: int)
    requires
        0 <= k <= cs.len(),
    ensures
        joined(cs) == joined(cs.subrange(0, k)) + joined(cs.subrange(k, cs.len() as int)),
    decreases cs.len(),
{
    if k == cs.len() {
        assert(cs.subrange(0, k) =~= cs);
        assert(joined(cs.subrange(k, cs.len() as int)) =~= Seq::<Row>::empty());
        assert(joined(cs) =~= joined(cs) + Seq::<Row>::empty());
    } else {
        lemma_joined_split(cs.drop_last(), k);
        assert(cs.drop_last().subrange(0, k) =~= cs.subrange(0, k));
        assert(cs.subrange(k, cs.len() as int).drop_last() =~= cs.drop_last().subrange(k, cs.len() - 1));
        assert(joined(cs) =~= joined(cs.subrange(0, k)) + joined(cs.subrange(k, cs.len() as int)));
    }
}

proof fn lemma_positives_append(a: Seq<Row>, b: Seq<Row>)
    ensures
        as_positives(a + b) == as_positives(a) + as_positives(b),
{
    assert(as_positives(a + b) =~= as_positives(a) + as_positives(b));
}

/// Relies on itertools::Itertools::chunks: it yields the items in order, in
/// groups of `size`, the last group shorter when the items run out; it panics
/// on a size of zero.
#[verifier::external_body]
fn chunk_rows(rows: Vec<Row>, size: usize) -> (r: Vec<Vec<Row>>)
    requires
        size > 0,
    ensures
        joined(r@) == rows@,
        forall|i: int| 0 <= i < r@.len() ==> 0 < (#[trigger] r@[i])@.len() <= size,
        forall|i: int| 0 <= i < r@.len() - 1 ==> (#[trigger] r@[i])@.len() == size,
{
    let chunks = rows.into_iter().chunks(size);
    let r: Vec<Vec<Row>> = chunks.into_iter().map(|c| c.collect()).collect();
    r
}

/// The number of rows in a replay chunk.
pub const CHUNK_SIZE: usize = 1000;

/// Each row as a positive record.
pub open spec fn as_positives(rows: Seq<Row>) -> Seq<RecordView> {
    rows.map_values(|r: Row| RecordView::Positive(r@))
}

/// Turns rows into positive records, in order.
pub fn positives(rows: Vec<Row>) -> (r: Vec<Record>)
    ensures
        records_view(r@) == as_positives(rows@),
{
    let mut out: Vec<Record> = Vec::new();
    let mut i: usize = 0;
    while i < rows.len()
        invariant
            i <= rows.len(),
            records_view(out@) == as_positives(rows@.subrange(0, i as int)),
        decreases rows.len() - i,
    {
        let ghost before = out@;
        out.push(Record::Positive(copy_row(&rows[i])));
        proof {
            assert(records_view(out@) =~= records_view(before).push(RecordView::Positive(rows@[i as int]@)));
            assert(as_positives(rows@.subrange(0, i + 1)) =~= as_positives(rows@.subrange(0, i as int)).push(RecordView::Positive(rows@[i as int]@)));
        }
        i = i + 1;
    }
    proof {
        assert(rows@.subrange(0, rows.len() as int) =~= rows@);
    }
    out
}

/// Splits rows into replay chunks of positive records: the rows in order,
/// `CHUNK_SIZE` to a chunk, the last chunk shorter when the rows run out.
pub fn chunk_records(rows: Vec<Row>) -> (r: Vec<Vec<Record>>)
    ensures
        joined_records(r@) == as_positives(rows@),
        forall|i: int| 0 <= i < r@.len() ==> 0 < (#[trigger] r@[i])@.len() <= CHUNK_SIZE,
        forall|i: int| 0 <= i < r@.len() - 1 ==> (#[trigger] r@[i])@.len() == CHUNK_SIZE,
{
    let mut chunks = chunk_rows(rows, CHUNK_SIZE);
    let ghost all = chunks@;
    let mut out: Vec<Vec<Record>> = Vec::new();
    proof {
        assert(all.subrange(all.len() as int, all.len() as int) =~= Seq::<Vec<Row>>::empty());
        assert(all.subrange(0, all.len() as int) =~= all);
    }
    while chunks.len() > 0
        invariant
            chunks@.len() <= all.len(),
            chunks@ == all.subrange(0, chunks@.len() as int),
            out@.len() == all.len() - chunks@.len(),
            joined_records(out@) == as_positives(joined(all.subrange(chunks@.len() as int, all.len() as int))),
            forall|i: int| 0 <= i < out@.len() ==> (#[trigger] out@[i])@.len() == all[chunks@.len() + i]@.len(),
        decreases chunks.len(),
    {
        let ghost before = out@;
        let k = chunks.len() - 1;
        let chunk = chunks.pop().unwrap();
        let converted = positives(chunk);
        out.insert(0, converted);
        proof {
            let tail = all.subrange(k as int, all.len() as int);
            lemma_joined_split(tail, 1);
            assert(tail.subrange(0, 1) =~= seq![all[k as int]]);
            assert(tail.subrange(1, tail.len() as int) =~= all.subrange(k + 1, all.len() as int));
            assert(joined(seq![all[k as int]]) =~= all[k as int]@) by {
                let one = seq![all[k as int]];
                assert(one.drop_last() =~= Seq::<Vec<Row>>::empty());
                assert(joined(one.drop_last()) == Seq::<Row>::empty());
                assert(one.last() == all[k as int]);
                assert(Seq::<Row>::empty() + all[k as int]@ =~= all[k as int]@);
            }
            lemma_positives_append(all[k as int]@, joined(all.subrange(k + 1, all.len() as int)));
            lemma_joined_records_front(out@);
            assert(out@.subrange(1, out@.len() as int) =~= before);
        }
    }
    out
}

proof fn lemma_joined_records_front(cs: Seq<Vec<Record>>)
    requires
        cs.len() > 0,
    ensures
        joined_records(cs) == records_view(cs[0]@) + joined_records(cs.subrange(1, cs.len() as int)),
    decreases cs.len(),
{
    if cs.len() == 1 {
        assert(cs.drop_last() =~= Seq::<Vec<Record>>::empty());
        assert(cs.subrange(1, 1) =~= Seq::<Vec<Record>>::empty());
        assert(joined_records(cs.drop_last()) == Seq::<RecordView>::empty());
        assert(joined_records(cs.subrange(1, 1)) == Seq::<RecordView>::empty());
        assert(cs.last() == cs[0]);
        assert(Seq::<RecordView>::empty() + records_view(cs[0]@) =~= records_view(cs[0]@) + Seq::<RecordView>::empty());
    } else {
        lemma_joined_records_front(cs.drop_last());
        assert(cs.drop_last().subrange(1, cs.len() - 1) =~= cs.subrange(1, cs.len() as int).drop_last());
        assert(joined_records(cs) =~= records_view(cs[0]@) + joined_records(cs.subrange(1, cs.len() as int)));
    }
}

} // verus!
