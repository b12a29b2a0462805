use vstd::prelude::*;

verus! {

/// One value of a row.
pub type Value = i64;

/// A row: the values of its columns, in column order.
pub type Row = Vec<Value>;

/// An update: a row that appears (`Positive`) or disappears (`Negative`).
#[derive(Debug)]
pub enum Record {
    Positive(Row),
    Negative(Row),
}

/// Mathematical form of a record.
pub enum RecordView {
    Positive(Seq<Value>),
    Negative(Seq<Value>),
}

impl View for Record {
    type V = RecordView;

    open spec fn view(&self) -> RecordView {
        match self {
            Record::Positive(r) => RecordView::Positive(r@),
            Record::Negative(r) => RecordView::Negative(r@),
        }
    }
}

/// The views of a sequence of records.
pub open spec fn records_view(rs: Seq<Record>) -> Seq<RecordView> {
    rs.map_values(|r: Record| r@)
}

/// Copies a row.
pub fn copy_row(r: &Row) -> (c: Row)
    ensures
        c@ == r@,
{
    let mut c: Row = Vec::new();
    let mut i: usize = 0;
    while i < r.len()
        invariant
            i <= r.len(),
            c@ == r@.subrange(0, i as int),
        decreases r.len() - i,
    {
        c.push(r[i]);
        i = i + 1;
    }
    c
}

/// Copies a record.
pub fn copy_record(r: &Record) -> (c: Record)
    ensures
        c@ == r@,
{
    match r {
        Record::Positive(row) => Record::Positive(copy_row(row)),
        Record::Negative(row) => Record::Negative(copy_row(row)),
    }
}

/// Copies a batch of records.
pub fn copy_records(rs: &Vec<Record>) -> (c: Vec<Record>)
    ensures
        records_view(c@) == records_view(rs@),
{
    let mut c: Vec<Record> = Vec::new();
    let mut i: usize = 0;
    while i < rs.len()
        invariant
            i <= rs.len(),
            records_view(c@) == records_view(rs@.subrange(0, i as int)),
        decreases rs.len() - i,
    {
        let ghost prev = c@;
        c.push(copy_record(&rs[i]));
        proof {
            assert(rs@.subrange(0, i + 1) =~= rs@.subrange(0, i as int).push(rs@[i as int]));
            assert(records_view(c@) =~= records_view(prev).push(rs@[i as int]@));
            assert(records_view(c@) =~= records_view(rs@.subrange(0, i + 1)));
        }
        i = i + 1;
    }
    proof {
        assert(rs@.subrange(0, rs.len() as int) =~= rs@);
    }
    c
}

/// Appends the records of `more` to `rs`, in order.
pub fn append_records(rs: &mut Vec<Record>, more: Vec<Record>)
    ensures
        records_view(final(rs)@) == records_view(old(rs)@) + records_view(more@),
{
    let ghost start = rs@;
    let ghost added = more@;
    let mut more = more;
    rs.append(&mut more);
    proof {
        assert(records_view(rs@) =~= records_view(start) + records_view(added));
    }
}

} // verus!
