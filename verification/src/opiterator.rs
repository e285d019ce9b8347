//! The pull-based protocol that every query operator follows, and the
//! operators themselves.
use vstd::prelude::*;
use crate::error::CrustyError;
use crate::field::FieldValue;
use crate::tuple::{TableSchema, Tuple};

pub mod aggregate;
pub mod nested_loop_join;
pub mod tuple_iterator;

verus! {

/// A query operator: configured, then opened, then asked for its rows one
/// by one, rewound at will, and closed.
pub trait OpIterator: Sized {
    /// The invariant of the operator. An operator whose `open` failed has
    /// none any more and is not to be used again.
    spec fn wf(&self) -> bool;

    /// Whether the operator is open.
    spec fn is_open(&self) -> bool;

    /// The rows that the operator, configured as it is, yields from the
    /// start once it is open.
    spec fn rows(&self) -> Seq<Seq<FieldValue>>;

    /// The rows that the operator, while open, has yet to yield.
    spec fn pending(&self) -> Seq<Seq<FieldValue>>;

    /// Whether the operator can be opened: every expression in it has a
    /// value on every row that it will meet.
    spec fn ready(&self) -> bool;

    /// Whether opening fails: a computation over the rows has no result.
    spec fn open_fails(&self) -> bool;

    /// The operator as `configure` leaves it.
    spec fn configured(&self, will_rewind: bool) -> Self;

    /// Says whether the caller may rewind the operator once it is open.
    fn configure(&mut self, will_rewind: bool)
        requires
            old(self).wf(),
            !old(self).is_open(),
        ensures
            *final(self) == old(self).configured(will_rewind),
            final(self).wf(),
            !final(self).is_open(),
    ;

    /// Opens the operator: from then on it yields its rows from the
    /// start. An operator that is open starts over.
    fn open(&mut self) -> (opened: Result<(), CrustyError>)
        requires
            old(self).wf(),
            old(self).ready(),
        ensures
            opened is Err <==> old(self).open_fails(),
            opened is Err ==> opened->Err_0 is ExecutionError,
            opened is Ok ==> {
                &&& final(self).wf()
                &&& final(self).is_open()
                &&& final(self).rows() == old(self).rows()
                &&& final(self).pending() == final(self).rows()
            },
    ;

    /// The next row; `None` once all rows are through.
    fn next(&mut self) -> (row: Result<Option<Tuple>, CrustyError>)
        requires
            old(self).wf(),
            old(self).is_open(),
        ensures
            final(self).wf(),
            final(self).is_open(),
            final(self).rows() == old(self).rows(),
            match row {
                Ok(Some(tuple)) => {
                    &&& old(self).pending().len() > 0
                    &&& tuple@ == old(self).pending()[0]
                    &&& final(self).pending() == old(self).pending().drop_first()
                },
                Ok(None) => old(self).pending().len() == 0 && final(self).pending() == old(
                    self,
                ).pending(),
                Err(_) => false,
            },
    ;

    /// Closes the operator.
    fn close(&mut self) -> (closed: Result<(), CrustyError>)
        requires
            old(self).wf(),
            old(self).is_open(),
        ensures
            closed is Ok,
            final(self).wf(),
            !final(self).is_open(),
            final(self).rows() == old(self).rows(),
            final(self).ready() == old(self).ready(),
            final(self).open_fails() == old(self).open_fails(),
    ;

    /// Starts over: the operator yields its rows from the start again.
    fn rewind(&mut self) -> (rewound: Result<(), CrustyError>)
        requires
            old(self).wf(),
            old(self).is_open(),
        ensures
            rewound is Ok,
            final(self).wf(),
            final(self).is_open(),
            final(self).rows() == old(self).rows(),
            final(self).pending() == final(self).rows(),
    ;

    /// The schema that the operator was made with.
    spec fn schema_of(&self) -> TableSchema;

    /// The schema of the rows.
    fn get_schema(&self) -> (schema: &TableSchema)
        ensures
            *schema == self.schema_of(),
    ;
}

/// Draws the rows that an open operator has yet to yield, in order.
pub fn drain<O: OpIterator>(iter: &mut O) -> (drawn: Result<Vec<Tuple>, CrustyError>)
    requires
        old(iter).wf(),
        old(iter).is_open(),
    ensures
        final(iter).wf(),
        final(iter).is_open(),
        final(iter).rows() == old(iter).rows(),
        final(iter).pending().len() == 0,
        drawn is Ok,
        crate::tuple::rows_of(drawn->Ok_0@) == old(iter).pending(),
{
    let mut drawn: Vec<Tuple> = Vec::new();
    let ghost all = iter.pending();
    proof {
        assert(all.skip(0) =~= all);
    }
    loop
        invariant
            iter.wf(),
            iter.is_open(),
            iter.rows() == old(iter).rows(),
            all == old(iter).pending(),
            drawn@.len() <= all.len(),
            iter.pending() == all.skip(drawn@.len() as int),
            crate::tuple::rows_of(drawn@) == all.take(drawn@.len() as int),
        ensures
            iter.wf(),
            iter.is_open(),
            iter.rows() == old(iter).rows(),
            iter.pending().len() == 0,
            crate::tuple::rows_of(drawn@) == old(iter).pending(),
        decreases iter.pending().len(),
    {
        let ghost count = drawn@.len() as int;
        match iter.next() {
            Ok(Some(tuple)) => {
                drawn.push(tuple);
                proof {
                    assert(all.skip(count)[0] == all[count]);
                    assert(all.skip(count).drop_first() =~= all.skip(count + 1));
                    assert(crate::tuple::rows_of(drawn@) =~= all.take(count + 1));
                }
            },
            Ok(None) => {
                proof {
                    assert(all.skip(count).len() == 0);
                    assert(all.take(count) =~= all);
                }
                break ;
            },
            Err(e) => {
                return Err(e);
            },
        }
    }
    Ok(drawn)
}

/// Draws all the rows of an open operator, rewinds it, and draws them
/// again: both runs give the rows of the operator, row for row.
pub fn drain_twice<O: OpIterator>(iter: &mut O) -> (runs: Result<
    (Vec<Tuple>, Vec<Tuple>),
    CrustyError,
>)
    requires
        old(iter).wf(),
        old(iter).is_open(),
        old(iter).pending() == old(iter).rows(),
    ensures
        final(iter).wf(),
        final(iter).is_open(),
        final(iter).rows() == old(iter).rows(),
        runs is Ok,
        crate::tuple::rows_of(runs->Ok_0.0@) == old(iter).rows(),
        crate::tuple::rows_of(runs->Ok_0.1@) == crate::tuple::rows_of(runs->Ok_0.0@),
{
    let first = match drain(iter) {
        Ok(rows) => rows,
        Err(e) => {
            return Err(e);
        },
    };
    match iter.rewind() {
        Ok(_) => {},
        Err(e) => {
            return Err(e);
        },
    }
    let second = match drain(iter) {
        Ok(rows) => rows,
        Err(e) => {
            return Err(e);
        },
    };
    Ok((first, second))
}

} // verus!
