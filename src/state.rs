use vstd::prelude::*;
use crate::records::{Value, Row, Record, RecordView, records_view, copy_row};

verus! {

/// Materialized state of one node: its rows, indexed on a primary-key column.
#[derive(Debug)]
pub struct State {
    pkey: Option<usize>,
    base: bool,
    rows: Vec<Row>,
}

/// Mathematical form of a state.
pub struct StateView {
    pub pkey: Option<usize>,
    pub base: bool,
    pub rows: Seq<Seq<Value>>,
}

/// The views of a sequence of rows.
pub open spec fn rows_view(rs: Seq<Row>) -> Seq<Seq<Value>> {
    rs.map_values(|r: Row| r@)
}

/// `s` without the last occurrence of `r` (unchanged where `r` does not occur).
pub open spec fn remove_last(s: Seq<Seq<Value>>, r: Seq<Value>) -> Seq<Seq<Value>>
    decreases s.len(),
{
    if s.len() == 0 {
        s
    } else if s.last() == r {
        s.drop_last()
    } else {
        remove_last(s.drop_last(), r).push(s.last())
    }
}

/// `rows` after one record: a positive record adds its row, a negative one
/// takes out one occurrence of its row.
pub open spec fn apply_record(rows: Seq<Seq<Value>>, r: RecordView) -> Seq<Seq<Value>> {
    match r {
        RecordView::Positive(x) => rows.push(x),
        RecordView::Negative(x) => remove_last(rows, x),
    }
}

/// `rows` after a batch of records, applied in order.
pub open spec fn apply_records(rows: Seq<Seq<Value>>, rs: Seq<RecordView>) -> Seq<Seq<Value>>
    decreases rs.len(),
{
    if rs.len() == 0 {
        rows
    } else {
        apply_record(apply_records(rows, rs.drop_last()), rs.last())
    }
}

impl View for State {
    type V = StateView;

    closed spec fn view(&self) -> StateView {
        StateView { pkey: self.pkey, base: self.base, rows: rows_view(self.rows@) }
    }
}

/// Whether two rows hold the same values.
pub fn rows_equal(a: &Row, b: &Row) -> (r: bool)
    ensures
        r == (a@ == b@),
{
    if a.len() != b.len() {
        return false;
    }
    let mut i: usize = 0;
    while i < a.len()
        invariant
            i <= a.len(),
            a.len() == b.len(),
            a@.subrange(0, i as int) == b@.subrange(0, i as int),
        decreases a.len() - i,
    {
        if a[i] != b[i] {
            assert(a@[i as int] != b@[i as int]);
            return false;
        }
        assert(a@.subrange(0, i + 1) =~= a@.subrange(0, i as int).push(a@[i as int]));
        assert(b@.subrange(0, i + 1) =~= b@.subrange(0, i as int).push(b@[i as int]));
        i = i + 1;
    }
    assert(a@ =~= a@.subrange(0, a.len() as int));
    assert(b@ =~= b@.subrange(0, b.len() as int));
    true
}

proof fn lemma_remove_last_found(s: Seq<Seq<Value>>, r: Seq<Value>, i: int)
    requires
        0 < i <= s.len(),
        s[i - 1] == r,
    ensures
        remove_last(s.subrange(0, i), r) == s.subrange(0, i - 1),
{
    assert(s.subrange(0, i).drop_last() =~= s.subrange(0, i - 1));
}

proof fn lemma_remove_last_step(s: Seq<Seq<Value>>, r: Seq<Value>, i: int)
    requires
        0 < i <= s.len(),
        s[i - 1] != r,
    ensures
        remove_last(s.subrange(0, i), r) == remove_last(s.subrange(0, i - 1), r).push(s[i - 1]),
{
    assert(s.subrange(0, i).drop_last() =~= s.subrange(0, i - 1));
}

impl State {
    /// An empty state of an ordinary node, with no primary key yet.
    pub fn new() -> (s: State)
        ensures
            s@.pkey is None,
            !s@.base,
            s@.rows.len() == 0,
    {
        State { pkey: None, base: false, rows: Vec::new() }
    }

    /// An empty state of a base table, with no primary key yet.
    pub fn base() -> (s: State)
        ensures
            s@.pkey is None,
            s@.base,
            s@.rows.len() == 0,
    {
        State { pkey: None, base: true, rows: Vec::new() }
    }

    /// Whether this is the state of a base table.
    pub fn is_base(&self) -> (r: bool)
        ensures
            r == self@.base,
    {
        self.base
    }

    /// Indexes the state on column `col`.
    pub fn set_pkey(&mut self, col: usize)
        ensures
            final(self)@ == (StateView { pkey: Some(col), ..old(self)@ }),
    {
        self.pkey = Some(col);
    }

    /// The column the state is indexed on, if any.
    pub fn get_pkey(&self) -> (r: Option<usize>)
        ensures
            r == self@.pkey,
    {
        self.pkey
    }

    /// Number of rows held.
    pub fn len(&self) -> (r: usize)
        ensures
            r == self@.rows.len(),
    {
        self.rows.len()
    }

    /// Adds a row.
    pub fn insert(&mut self, r: Row)
        ensures
            final(self)@ == (StateView { rows: old(self)@.rows.push(r@), ..old(self)@ }),
    {
        let ghost before = self.rows@;
        self.rows.push(r);
        proof {
            assert(rows_view(self.rows@) =~= rows_view(before).push(r@));
        }
    }

    /// Takes out the most recently added occurrence of a row; does nothing if
    /// the row is not held.
    pub fn remove(&mut self, r: &Row)
        ensures
            final(self)@ == (StateView { rows: remove_last(old(self)@.rows, r@), ..old(self)@ }),
    {
        let ghost s = rows_view(self.rows@);
        let mut i: usize = self.rows.len();
        proof {
            assert(s.subrange(0, i as int) =~= s);
            assert(s.subrange(i as int, s.len() as int) =~= Seq::<Seq<Value>>::empty());
            assert(remove_last(s, r@) =~= remove_last(s.subrange(0, i as int), r@) + s.subrange(i as int, s.len() as int));
        }
        while i > 0
            invariant
                i <= self.rows.len(),
                s == rows_view(self.rows@),
                self.rows == old(self).rows,
                self.pkey == old(self).pkey,
                self.base == old(self).base,
                remove_last(s, r@) == remove_last(s.subrange(0, i as int), r@) + s.subrange(i as int, s.len() as int),
            decreases i,
        {
            if rows_equal(&self.rows[i - 1], r) {
                proof {
                    lemma_remove_last_found(s, r@, i as int);
                }
                self.rows.remove(i - 1);
                proof {
                    assert(rows_view(self.rows@) =~= s.subrange(0, i - 1) + s.subrange(i as int, s.len() as int));
                }
                return;
            }
            proof {
                lemma_remove_last_step(s, r@, i as int);
                assert(s.subrange(i - 1, s.len() as int) =~= seq![s[i - 1]] + s.subrange(i as int, s.len() as int));
                assert(remove_last(s, r@) =~= remove_last(s.subrange(0, i - 1), r@) + s.subrange(i - 1, s.len() as int));
            }
            i = i - 1;
        }
        proof {
            assert(s.subrange(0, 0) =~= Seq::<Seq<Value>>::empty());
            assert(s.subrange(0, s.len() as int) =~= s);
        }
    }

    /// Applies a batch of records in order: a positive record inserts its
    /// row, a negative one removes it.
    pub fn apply(&mut self, rs: Vec<Record>)
        ensures
            final(self)@ == (StateView { rows: apply_records(old(self)@.rows, records_view(rs@)), ..old(self)@ }),
    {
        let mut i: usize = 0;
        while i < rs.len()
            invariant
                i <= rs.len(),
                self@ == (StateView { rows: apply_records(old(self)@.rows, records_view(rs@.subrange(0, i as int))), ..old(self)@ }),
            decreases rs.len() - i,
        {
            proof {
                let p = records_view(rs@.subrange(0, i + 1));
                assert(p.drop_last() =~= records_view(rs@.subrange(0, i as int)));
                assert(p.last() == rs@[i as int]@);
            }
            match &rs[i] {
                Record::Positive(row) => self.insert(copy_row(row)),
                Record::Negative(row) => self.remove(row),
            }
            i = i + 1;
        }
        proof {
            assert(rs@.subrange(0, rs.len() as int) =~= rs@);
        }
    }

    /// A copy of the state; later changes to either leave the other as it is.
    pub fn snapshot(&self) -> (c: State)
        ensures
            c@ == self@,
    {
        let mut rows: Vec<Row> = Vec::new();
        let mut i: usize = 0;
        while i < self.rows.len()
            invariant
                i <= self.rows.len(),
                rows_view(rows@) == rows_view(self.rows@.subrange(0, i as int)),
            decreases self.rows.len() - i,
        {
            let ghost prev = rows@;
            rows.push(copy_row(&self.rows[i]));
            proof {
                assert(self.rows@.subrange(0, i + 1) =~= self.rows@.subrange(0, i as int).push(self.rows@[i as int]));
                assert(rows_view(rows@) =~= rows_view(prev).push(self.rows@[i as int]@));
                assert(rows_view(rows@) =~= rows_view(self.rows@.subrange(0, i + 1)));
            }
            i = i + 1;
        }
        proof {
            assert(self.rows@.subrange(0, self.rows.len() as int) =~= self.rows@);
        }
        State { pkey: self.pkey, base: self.base, rows }
    }

    /// The rows held, in order.
    pub fn into_rows(self) -> (r: Vec<Row>)
        ensures
            rows_view(r@) == self@.rows,
    {
        self.rows
    }
}

/// Inserting a row and then removing it gives back the state as it was.
pub proof fn lemma_insert_remove(s: StateView, x: Seq<Value>)
    ensures
        remove_last(s.rows.push(x), x) == s.rows,
{
    assert(s.rows.push(x).drop_last() =~= s.rows);
}

} // verus!
