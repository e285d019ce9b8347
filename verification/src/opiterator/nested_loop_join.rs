//! The nested-loop join: for each row of the left input, in order, the
//! rows of the right input that the join condition pairs with it.
use vstd::prelude::*;
use crate::bytecode_expr::ByteCodeExpr;
use crate::error::CrustyError;
use crate::field::{compare_fields, comparison_holds, BooleanOp, FieldValue};
use crate::opiterator::OpIterator;
use crate::tuple::{TableSchema, Tuple};

verus! {

/// Whether `expr` has a value on each of `rows`.
pub open spec fn has_values(expr: ByteCodeExpr, rows: Seq<Seq<FieldValue>>) -> bool {
    forall|i: int| 0 <= i < rows.len() ==> expr.value_on(#[trigger] rows[i]) is Some
}

/// Whether the join condition pairs the rows `left` and `right`.
pub open spec fn pairs(
    op: BooleanOp,
    left_expr: ByteCodeExpr,
    right_expr: ByteCodeExpr,
    left: Seq<FieldValue>,
    right: Seq<FieldValue>,
) -> bool {
    comparison_holds(op, left_expr.value_on(left)->Some_0, right_expr.value_on(right)->Some_0)
}

/// The rows that `left` gives with those of `rights` that it is paired
/// with, in the order of `rights`: `left` followed by the right row.
pub open spec fn matches_of(
    op: BooleanOp,
    left_expr: ByteCodeExpr,
    right_expr: ByteCodeExpr,
    left: Seq<FieldValue>,
    rights: Seq<Seq<FieldValue>>,
) -> Seq<Seq<FieldValue>>
    decreases rights.len(),
{
    if rights.len() == 0 {
        Seq::empty()
    } else if pairs(op, left_expr, right_expr, left, rights[0]) {
        seq![left + rights[0]] + matches_of(op, left_expr, right_expr, left, rights.drop_first())
    } else {
        matches_of(op, left_expr, right_expr, left, rights.drop_first())
    }
}

/// The join of `lefts` and `rights`: for each left row, in order, its
/// matches.
pub open spec fn join_rows(
    op: BooleanOp,
    left_expr: ByteCodeExpr,
    right_expr: ByteCodeExpr,
    lefts: Seq<Seq<FieldValue>>,
    rights: Seq<Seq<FieldValue>>,
) -> Seq<Seq<FieldValue>>
    decreases lefts.len(),
{
    if lefts.len() == 0 {
        Seq::empty()
    } else {
        matches_of(op, left_expr, right_expr, lefts[0], rights) + join_rows(
            op,
            left_expr,
            right_expr,
            lefts.drop_first(),
            rights,
        )
    }
}

/// The nested-loop join of two operators.
pub struct NestedLoopJoin<L: OpIterator, R: OpIterator> {
    /// The schema of the joined rows.
    pub schema: TableSchema,
    /// The comparison of the join condition.
    pub op: BooleanOp,
    /// The side of the comparison that is taken of the left row.
    pub left_expr: ByteCodeExpr,
    /// The side of the comparison that is taken of the right row.
    pub right_expr: ByteCodeExpr,
    /// The left input.
    pub left_child: L,
    /// The right input, which is rewound for each left row.
    pub right_child: R,
    /// The left row whose matches are being yielded.
    pub current_left: Option<Tuple>,
}

impl<L: OpIterator, R: OpIterator> NestedLoopJoin<L, R> {
    /// The join of `left_child` and `right_child` on
    /// `left_expr op right_expr`, not yet open.
    pub fn new(
        op: BooleanOp,
        left_expr: ByteCodeExpr,
        right_expr: ByteCodeExpr,
        left_child: L,
        right_child: R,
        schema: TableSchema,
    ) -> (join: Self)
        ensures
            join == (NestedLoopJoin {
                schema,
                op,
                left_expr,
                right_expr,
                left_child,
                right_child,
                current_left: None,
            }),
    {
        NestedLoopJoin {
            schema,
            op,
            left_expr,
            right_expr,
            left_child,
            right_child,
            current_left: None,
        }
    }

    /// The matches of the current left row that are yet to come.
    pub open spec fn pending_matches(&self) -> Seq<Seq<FieldValue>> {
        match self.current_left {
            Some(left) => matches_of(
                self.op,
                self.left_expr,
                self.right_expr,
                left@,
                self.right_child.pending(),
            ),
            None => Seq::empty(),
        }
    }
}

impl<L: OpIterator, R: OpIterator> OpIterator for NestedLoopJoin<L, R> {
    open spec fn wf(&self) -> bool {
        &&& self.left_child.wf()
        &&& self.right_child.wf()
        &&& self.left_child.is_open() == self.right_child.is_open()
        &&& self.left_child.is_open() ==> {
            &&& has_values(self.left_expr, self.left_child.pending())
            &&& has_values(self.right_expr, self.right_child.pending())
            &&& has_values(self.right_expr, self.right_child.rows())
            &&& has_values(self.left_expr, self.left_child.rows())
            &&& match self.current_left {
                Some(left) => self.left_expr.value_on(left@) is Some,
                None => true,
            }
        }
    }

    open spec fn is_open(&self) -> bool {
        self.left_child.is_open()
    }

    open spec fn rows(&self) -> Seq<Seq<FieldValue>> {
        join_rows(
            self.op,
            self.left_expr,
            self.right_expr,
            self.left_child.rows(),
            self.right_child.rows(),
        )
    }

    open spec fn pending(&self) -> Seq<Seq<FieldValue>> {
        self.pending_matches() + join_rows(
            self.op,
            self.left_expr,
            self.right_expr,
            self.left_child.pending(),
            self.right_child.rows(),
        )
    }

    open spec fn ready(&self) -> bool {
        &&& self.left_child.ready()
        &&& self.right_child.ready()
        &&& has_values(self.left_expr, self.left_child.rows())
        &&& has_values(self.right_expr, self.right_child.rows())
    }

    open spec fn open_fails(&self) -> bool {
        self.left_child.open_fails() || self.right_child.open_fails()
    }

    open spec fn configured(&self, will_rewind: bool) -> Self {
        NestedLoopJoin {
            schema: self.schema,
            op: self.op,
            left_expr: self.left_expr,
            right_expr: self.right_expr,
            left_child: self.left_child.configured(will_rewind),
            right_child: self.right_child.configured(true),
            current_left: self.current_left,
        }
    }

    fn configure(&mut self, will_rewind: bool) {
        self.left_child.configure(will_rewind);
        // the join rewinds the right input for every left row
        self.right_child.configure(true);
    }

    fn open(&mut self) -> (opened: Result<(), CrustyError>) {
        match self.left_child.open() {
            Ok(_) => {},
            Err(e) => {
                return Err(e);
            },
        }
        match self.right_child.open() {
            Ok(_) => {},
            Err(e) => {
                return Err(e);
            },
        }
        self.current_left = None;
        assert(self.pending_matches() + self.rows() =~= self.rows());
        Ok(())
    }

    fn next(&mut self) -> (row: Result<Option<Tuple>, CrustyError>) {
        loop
            invariant
                self.wf(),
                self.is_open(),
                self.rows() == old(self).rows(),
                self.pending() == old(self).pending(),
            decreases
                    self.left_child.pending().len() + if self.current_left is Some {
                        1int
                    } else {
                        0int
                    },
        {
            let ghost rights = self.right_child.rows();
            // a new left row is fetched if none is at hand
            if self.current_left.is_none() {
                let ghost lefts = self.left_child.pending();
                match self.left_child.next() {
                    Ok(Some(left)) => {
                        self.current_left = Some(left);
                        // the right side starts over for the new left row
                        match self.right_child.rewind() {
                            Ok(_) => {},
                            Err(e) => {
                                return Err(e);
                            },
                        }
                        proof {
                            assert(has_values(self.left_expr, self.left_child.pending())) by {
                                assert forall|i: int|
                                    0 <= i < lefts.drop_first().len() implies self.left_expr.value_on(
                                    #[trigger] lefts.drop_first()[i],
                                ) is Some by {
                                    assert(lefts.drop_first()[i] == lefts[i + 1]);
                                }
                            }
                            assert(self.left_expr.value_on(lefts[0]) is Some);
                            assert(Seq::<Seq<FieldValue>>::empty() + join_rows(
                                self.op,
                                self.left_expr,
                                self.right_expr,
                                lefts,
                                rights,
                            ) =~= join_rows(self.op, self.left_expr, self.right_expr, lefts, rights));
                        }
                    },
                    Ok(None) => {
                        assert(self.pending() =~= Seq::<Seq<FieldValue>>::empty());
                        return Ok(None);
                    },
                    Err(e) => {
                        return Err(e);
                    },
                }
            }
            // the right side is walked for the left row at hand
            let ghost rest = join_rows(
                self.op,
                self.left_expr,
                self.right_expr,
                self.left_child.pending(),
                rights,
            );
            let ghost lefts_to_come = self.left_child.pending();
            loop
                invariant
                    self.left_child.pending() == lefts_to_come,
                    self.wf(),
                    self.is_open(),
                    self.current_left is Some,
                    self.rows() == old(self).rows(),
                    self.pending() == old(self).pending(),
                    rights == self.right_child.rows(),
                    rest == join_rows(
                        self.op,
                        self.left_expr,
                        self.right_expr,
                        self.left_child.pending(),
                        rights,
                    ),
                ensures
                    self.left_child.pending() == lefts_to_come,
                    self.wf(),
                    self.is_open(),
                    self.current_left is Some,
                    self.rows() == old(self).rows(),
                    self.pending() == old(self).pending(),
                    self.right_child.pending().len() == 0,
                decreases self.right_child.pending().len(),
            {
                let ghost pending_rights = self.right_child.pending();
                match self.right_child.next() {
                    Ok(Some(right)) => {
                        proof {
                            assert forall|i: int|
                                0 <= i < pending_rights.drop_first().len() implies self.right_expr.value_on(
                                #[trigger] pending_rights.drop_first()[i],
                            ) is Some by {
                                assert(pending_rights.drop_first()[i] == pending_rights[i + 1]);
                            }
                            assert(self.right_expr.value_on(pending_rights[0]) is Some);
                        }
                        let left = self.current_left.as_ref().unwrap();
                        let lval = self.left_expr.eval(left);
                        let rval = self.right_expr.eval(&right);
                        if compare_fields(self.op, &lval, &rval) {
                            // the rows are paired: the joined row is yielded
                            let joined = left.concat(&right);
                            proof {
                                let more = matches_of(
                                    self.op,
                                    self.left_expr,
                                    self.right_expr,
                                    left@,
                                    pending_rights.drop_first(),
                                );
                                assert(((seq![left@ + right@] + more) + rest).drop_first() =~= more
                                    + rest);
                            }
                            return Ok(Some(joined));
                        }
                    },
                    Ok(None) => {
                        break ;
                    },
                    Err(e) => {
                        return Err(e);
                    },
                }
            }
            // the right side is through: on to the next left row
            self.current_left = None;
            proof {
                assert(Seq::<Seq<FieldValue>>::empty() + rest =~= rest);
            }
        }
    }

    fn close(&mut self) -> (closed: Result<(), CrustyError>) {
        match self.left_child.close() {
            Ok(_) => {},
            Err(e) => {
                return Err(e);
            },
        }
        match self.right_child.close() {
            Ok(_) => {},
            Err(e) => {
                return Err(e);
            },
        }
        self.current_left = None;
        Ok(())
    }

    fn rewind(&mut self) -> (rewound: Result<(), CrustyError>) {
        match self.left_child.rewind() {
            Ok(_) => {},
            Err(e) => {
                return Err(e);
            },
        }
        match self.right_child.rewind() {
            Ok(_) => {},
            Err(e) => {
                return Err(e);
            },
        }
        self.current_left = None;
        assert(self.pending_matches() + self.rows() =~= self.rows());
        Ok(())
    }

    open spec fn schema_of(&self) -> TableSchema {
        self.schema
    }

    /// The schema of the joined rows.
    fn get_schema(&self) -> (schema: &TableSchema) {
        &self.schema
    }
}

} // verus!
