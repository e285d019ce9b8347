//! The operator that yields rows held in memory.
use vstd::prelude::*;
use crate::error::CrustyError;
use crate::field::FieldValue;
use crate::opiterator::OpIterator;
use crate::tuple::{rows_of, TableSchema, Tuple};

verus! {

/// An operator over rows held in memory: it yields them in order.
pub struct TupleIterator {
    /// The rows.
    pub tuples: Vec<Tuple>,
    /// The schema of the rows.
    pub schema: TableSchema,
    /// The position of the next row, while the operator is open.
    pub index: Option<usize>,
}

impl TupleIterator {
    /// The operator over `tuples`, not yet open.
    pub fn new(tuples: Vec<Tuple>, schema: TableSchema) -> (iter: TupleIterator)
        ensures
            iter == (TupleIterator { tuples, schema, index: None }),
    {
        TupleIterator { tuples, schema, index: None }
    }
}

impl OpIterator for TupleIterator {
    open spec fn wf(&self) -> bool {
        match self.index {
            Some(i) => i <= self.tuples@.len(),
            None => true,
        }
    }

    open spec fn is_open(&self) -> bool {
        self.index is Some
    }

    open spec fn rows(&self) -> Seq<Seq<FieldValue>> {
        rows_of(self.tuples@)
    }

    open spec fn pending(&self) -> Seq<Seq<FieldValue>> {
        match self.index {
            Some(i) => rows_of(self.tuples@).skip(i as int),
            None => Seq::empty(),
        }
    }

    open spec fn ready(&self) -> bool {
        true
    }

    open spec fn open_fails(&self) -> bool {
        false
    }

    open spec fn configured(&self, will_rewind: bool) -> Self {
        *self
    }

    fn configure(&mut self, will_rewind: bool) {
    }

    fn open(&mut self) -> (opened: Result<(), CrustyError>) {
        self.index = Some(0);
        assert(rows_of(self.tuples@).skip(0) =~= rows_of(self.tuples@));
        Ok(())
    }

    fn next(&mut self) -> (row: Result<Option<Tuple>, CrustyError>) {
        let i: usize = self.index.unwrap();
        if i < self.tuples.len() {
            let tuple = self.tuples[i].clone();
            self.index = Some(i + 1);
            assert(rows_of(self.tuples@).skip(i as int).drop_first() =~= rows_of(
                self.tuples@,
            ).skip(i + 1));
            Ok(Some(tuple))
        } else {
            Ok(None)
        }
    }

    fn close(&mut self) -> (closed: Result<(), CrustyError>) {
        // an operator that is not open has no position to give up
        let _ = self.index.take().unwrap();
        Ok(())
    }

    fn rewind(&mut self) -> (rewound: Result<(), CrustyError>) {
        // an operator that is not open has no position to leave
        let _ = self.index.take().unwrap();
        self.index = Some(0);
        assert(rows_of(self.tuples@).skip(0) =~= rows_of(self.tuples@));
        Ok(())
    }

    open spec fn schema_of(&self) -> TableSchema {
        self.schema
    }

    fn get_schema(&self) -> (schema: &TableSchema) {
        &self.schema
    }
}

} // verus!
