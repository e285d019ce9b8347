//! Grouped aggregation: the rows of the input are put into groups by the
//! values of the group-by expressions, and for each group one accumulator
//! for each aggregate folds the values of its expression.
use vstd::prelude::*;
use crate::bytecode_expr::ByteCodeExpr;
use crate::error::CrustyError;
use crate::field::{field_before, field_sum, AggOp, Field, FieldValue};
use crate::opiterator::OpIterator;
use crate::tuple::{rows_of, values_of, TableSchema, Tuple};

verus! {

/// The greatest scale of a decimal whose mean is taken.
pub const MAX_MEAN_SCALE: u16 = 308;

/// The accumulator of one aggregate for one group.
#[derive(Debug)]
pub enum AggregateState {
    /// How many values were not null.
    Count(i64),
    /// The sum of the values that were not null, if there was one.
    Sum(Option<Field>),
    /// The least of the values that were not null, if there was one.
    Min(Option<Field>),
    /// The greatest of the values that were not null, if there was one.
    Max(Option<Field>),
    /// Sum and number of the values that were not null.
    Avg { sum: Option<Field>, count: i64 },
}

/// What an accumulator holds.
pub enum StateValue {
    Count(i64),
    Sum(Option<FieldValue>),
    Min(Option<FieldValue>),
    Max(Option<FieldValue>),
    Avg { sum: Option<FieldValue>, count: i64 },
}

/// What an optional field holds.
pub open spec fn held(field: Option<Field>) -> Option<FieldValue> {
    match field {
        Some(f) => Some(f@),
        None => None,
    }
}

impl View for AggregateState {
    type V = StateValue;

    open spec fn view(&self) -> StateValue {
        match self {
            AggregateState::Count(c) => StateValue::Count(*c),
            AggregateState::Sum(s) => StateValue::Sum(held(*s)),
            AggregateState::Min(s) => StateValue::Min(held(*s)),
            AggregateState::Max(s) => StateValue::Max(held(*s)),
            AggregateState::Avg { sum, count } => StateValue::Avg { sum: held(*sum), count: *count },
        }
    }
}

/// The accumulators of a sequence of states.
pub open spec fn states_of(states: Seq<AggregateState>) -> Seq<StateValue> {
    Seq::new(states.len(), |i: int| states[i]@)
}

/// The accumulator that an aggregate starts with.
pub open spec fn initial_state(op: AggOp) -> StateValue {
    match op {
        AggOp::Count => StateValue::Count(0),
        AggOp::Sum => StateValue::Sum(None),
        AggOp::Min => StateValue::Min(None),
        AggOp::Max => StateValue::Max(None),
        AggOp::Avg => StateValue::Avg { sum: None, count: 0 },
    }
}

/// The accumulators that a group starts with.
pub open spec fn initial_states(ops: Seq<AggOp>) -> Seq<StateValue> {
    Seq::new(ops.len(), |i: int| initial_state(ops[i]))
}

/// Whether the accumulator is one of the aggregate.
pub open spec fn fits(state: StateValue, op: AggOp) -> bool {
    match (state, op) {
        (StateValue::Count(_), AggOp::Count) => true,
        (StateValue::Sum(_), AggOp::Sum) => true,
        (StateValue::Min(_), AggOp::Min) => true,
        (StateValue::Max(_), AggOp::Max) => true,
        (StateValue::Avg { .. }, AggOp::Avg) => true,
        _ => false,
    }
}

/// Whether the accumulators are those of the aggregates, one for one.
pub open spec fn all_fit(states: Seq<StateValue>, ops: Seq<AggOp>) -> bool {
    &&& states.len() == ops.len()
    &&& forall|i: int| 0 <= i < states.len() ==> fits(#[trigger] states[i], ops[i])
}

/// The sum so far with one more value.
pub open spec fn sum_with(sum: Option<FieldValue>, value: FieldValue) -> Option<
    Option<FieldValue>,
> {
    match sum {
        Some(prev) => match field_sum(prev, value) {
            Some(next) => Some(Some(next)),
            None => None,
        },
        None => Some(Some(value)),
    }
}

/// The accumulator after one more value: unchanged by null; nothing where
/// a sum does not exist or a count is too large to hold.
pub open spec fn merged_state(state: StateValue, value: FieldValue) -> Option<StateValue> {
    if value is Null {
        Some(state)
    } else {
        match state {
            StateValue::Count(c) => if c < i64::MAX {
                Some(StateValue::Count((c + 1) as i64))
            } else {
                None
            },
            StateValue::Sum(sum) => match sum_with(sum, value) {
                Some(next) => Some(StateValue::Sum(next)),
                None => None,
            },
            StateValue::Min(least) => match least {
                Some(prev) => if field_before(value, prev) {
                    Some(StateValue::Min(Some(value)))
                } else {
                    Some(state)
                },
                None => Some(StateValue::Min(Some(value))),
            },
            StateValue::Max(greatest) => match greatest {
                Some(prev) => if field_before(prev, value) {
                    Some(StateValue::Max(Some(value)))
                } else {
                    Some(state)
                },
                None => Some(StateValue::Max(Some(value))),
            },
            StateValue::Avg { sum, count } => match sum_with(sum, value) {
                Some(next) => if count < i64::MAX {
                    Some(StateValue::Avg { sum: next, count: (count + 1) as i64 })
                } else {
                    None
                },
                None => None,
            },
        }
    }
}

/// Whether each of the first `count` accumulators takes its value.
pub open spec fn all_merge(states: Seq<StateValue>, values: Seq<FieldValue>, count: int) -> bool {
    forall|i: int| 0 <= i < count ==> merged_state(#[trigger] states[i], values[i]) is Some
}

/// The accumulators of a group after one more row, each with the value of
/// its expression; nothing where one of them takes none.
pub open spec fn merged_states(states: Seq<StateValue>, values: Seq<FieldValue>) -> Option<
    Seq<StateValue>,
> {
    if all_merge(states, values, states.len() as int) {
        Some(Seq::new(states.len(), |i: int| merged_state(states[i], values[i])->Some_0))
    } else {
        None
    }
}

/// A group: the values of the group-by expressions, and the accumulators.
pub struct GroupValue {
    pub key: Seq<FieldValue>,
    pub states: Seq<StateValue>,
}

/// The first group at or behind `from` with the given key, or the number
/// of groups if there is none.
pub open spec fn group_index(groups: Seq<GroupValue>, key: Seq<FieldValue>, from: int) -> int
    decreases groups.len() - from,
{
    if from < 0 || from >= groups.len() {
        groups.len() as int
    } else if groups[from].key == key {
        from
    } else {
        group_index(groups, key, from + 1)
    }
}

/// The groups after one more row with the given key and values: the row
/// is folded into the group of its key, which is made, behind the others,
/// if the key is new. Nothing where an accumulator takes no value.
pub open spec fn merged_groups(
    groups: Seq<GroupValue>,
    key: Seq<FieldValue>,
    values: Seq<FieldValue>,
    ops: Seq<AggOp>,
) -> Option<Seq<GroupValue>> {
    let at = group_index(groups, key, 0);
    let states = if at < groups.len() {
        groups[at].states
    } else {
        initial_states(ops)
    };
    match merged_states(states, values) {
        Some(next) => Some(
            if at < groups.len() {
                groups.update(at, GroupValue { key, states: next })
            } else {
                groups.push(GroupValue { key, states: next })
            },
        ),
        None => None,
    }
}

/// Whether each of `exprs` has a value on `row`.
pub open spec fn have_values(exprs: Seq<ByteCodeExpr>, row: Seq<FieldValue>) -> bool {
    forall|i: int| 0 <= i < exprs.len() ==> (#[trigger] exprs[i]).value_on(row) is Some
}

/// Whether each of `exprs` has a value on each of `rows`.
pub open spec fn have_values_on_all(exprs: Seq<ByteCodeExpr>, rows: Seq<Seq<FieldValue>>) -> bool {
    forall|k: int| 0 <= k < rows.len() ==> have_values(exprs, #[trigger] rows[k])
}

/// The values of `exprs` on `row`.
pub open spec fn values_on(exprs: Seq<ByteCodeExpr>, row: Seq<FieldValue>) -> Seq<FieldValue> {
    Seq::new(exprs.len(), |i: int| exprs[i].value_on(row)->Some_0)
}

/// The groups of `rows`, in the order in which their keys first occur;
/// nothing where an accumulator takes no value.
pub open spec fn groups_of(
    groupby: Seq<ByteCodeExpr>,
    aggregated: Seq<ByteCodeExpr>,
    ops: Seq<AggOp>,
    rows: Seq<Seq<FieldValue>>,
) -> Option<Seq<GroupValue>>
    decreases rows.len(),
{
    if rows.len() == 0 {
        Some(Seq::empty())
    } else {
        match groups_of(groupby, aggregated, ops, rows.drop_last()) {
            Some(groups) => merged_groups(
                groups,
                values_on(groupby, rows.last()),
                values_on(aggregated, rows.last()),
                ops,
            ),
            None => None,
        }
    }
}

/// Whether `mean` can stand for the division of a decimal by a count: it
/// takes every mantissa, every scale up to `MAX_MEAN_SCALE` and every
/// count but zero, and gives one result for each.
pub open spec fn is_mean<F: Fn(i128, u16, i64) -> Field>(mean: F) -> bool {
    &&& forall|m: i128, s: u16, c: i64|
        s <= MAX_MEAN_SCALE && c != 0 ==> #[trigger] call_requires(mean, (m, s, c))
    &&& forall|m: i128, s: u16, c: i64, a: Field, b: Field|
        #[trigger] call_ensures(mean, (m, s, c), a) && #[trigger] call_ensures(mean, (m, s, c), b)
            ==> a@ == b@
}

/// What `mean` gives for `mantissa * 10^-scale / count`.
pub open spec fn mean_of<F: Fn(i128, u16, i64) -> Field>(
    mean: F,
    mantissa: i128,
    scale: u16,
    count: i64,
) -> FieldValue {
    (choose|r: Field| call_ensures(mean, (mantissa, scale, count), r))@
}

/// What an accumulator comes to in the end. Nothing where it is not one
/// of the aggregate, or where a mean is asked of what is no number or of
/// a decimal whose scale is above `MAX_MEAN_SCALE`.
pub open spec fn finalized<F: Fn(i128, u16, i64) -> Field>(
    state: StateValue,
    op: AggOp,
    mean: F,
) -> Option<FieldValue> {
    match (state, op) {
        (StateValue::Count(c), AggOp::Count) => Some(FieldValue::Int(c)),
        (StateValue::Sum(s), AggOp::Sum) => Some(
            match s {
                Some(v) => v,
                None => FieldValue::Null,
            },
        ),
        (StateValue::Min(s), AggOp::Min) => Some(
            match s {
                Some(v) => v,
                None => FieldValue::Null,
            },
        ),
        (StateValue::Max(s), AggOp::Max) => Some(
            match s {
                Some(v) => v,
                None => FieldValue::Null,
            },
        ),
        (StateValue::Avg { sum, count }, AggOp::Avg) => if count == 0 {
            Some(FieldValue::Null)
        } else {
            match sum {
                Some(FieldValue::Int(i)) => Some(mean_of(mean, i as i128, 0, count)),
                Some(FieldValue::Decimal(m, s)) => if s <= MAX_MEAN_SCALE {
                    Some(mean_of(mean, m, s, count))
                } else {
                    None
                },
                Some(_) => None,
                None => Some(FieldValue::Null),
            }
        },
        _ => None,
    }
}

/// The lesser of two lengths.
pub open spec fn lesser(a: int, b: int) -> int {
    if a <= b {
        a
    } else {
        b
    }
}

/// Whether each of the first `count` accumulators comes to something.
pub open spec fn all_finalize<F: Fn(i128, u16, i64) -> Field>(
    states: Seq<StateValue>,
    ops: Seq<AggOp>,
    mean: F,
    count: int,
) -> bool {
    forall|i: int| 0 <= i < count ==> finalized(#[trigger] states[i], ops[i], mean) is Some
}

/// The row of a group: its key, then what each accumulator comes to, as
/// far as accumulators and aggregates go side by side. Nothing where one
/// of them comes to nothing.
pub open spec fn finalized_row<F: Fn(i128, u16, i64) -> Field>(
    key: Seq<FieldValue>,
    states: Seq<StateValue>,
    ops: Seq<AggOp>,
    mean: F,
) -> Option<Seq<FieldValue>> {
    let count = lesser(states.len() as int, ops.len() as int);
    if all_finalize(states, ops, mean, count) {
        Some(key + Seq::new(count as nat, |i: int| finalized(states[i], ops[i], mean)->Some_0))
    } else {
        None
    }
}

/// Whether each of the first `count` groups has a row.
pub open spec fn all_have_rows<F: Fn(i128, u16, i64) -> Field>(
    groups: Seq<GroupValue>,
    ops: Seq<AggOp>,
    mean: F,
    count: int,
) -> bool {
    forall|g: int|
        0 <= g < count ==> finalized_row(
            (#[trigger] groups[g]).key,
            groups[g].states,
            ops,
            mean,
        ) is Some
}

/// The rows of the groups, in the order of the groups; nothing where a
/// group has no row.
pub open spec fn result_rows<F: Fn(i128, u16, i64) -> Field>(
    groups: Seq<GroupValue>,
    ops: Seq<AggOp>,
    mean: F,
) -> Option<Seq<Seq<FieldValue>>> {
    if all_have_rows(groups, ops, mean, groups.len() as int) {
        Some(
            Seq::new(
                groups.len(),
                |g: int| finalized_row(groups[g].key, groups[g].states, ops, mean)->Some_0,
            ),
        )
    } else {
        None
    }
}

/// The rows of the aggregation over `rows`: one for each group, in the
/// order in which the keys first occur. Nothing where the aggregation
/// fails.
pub open spec fn aggregate_rows<F: Fn(i128, u16, i64) -> Field>(
    groupby: Seq<ByteCodeExpr>,
    aggregated: Seq<ByteCodeExpr>,
    ops: Seq<AggOp>,
    mean: F,
    rows: Seq<Seq<FieldValue>>,
) -> Option<Seq<Seq<FieldValue>>> {
    match groups_of(groupby, aggregated, ops, rows) {
        Some(groups) => result_rows(groups, ops, mean),
        None => None,
    }
}

/// The sum so far with one more value.
fn add_to(sum: Option<Field>, value: &Field) -> (next: Result<Option<Field>, CrustyError>)
    ensures
        match next {
            Ok(n) => sum_with(held(sum), value@) == Some(held(n)),
            Err(e) => sum_with(held(sum), value@) is None && e is ExecutionError,
        },
{
    match sum {
        Some(prev) => {
            match prev.plus(value) {
                Ok(total) => Ok(Some(total)),
                Err(e) => Err(e),
            }
        },
        None => Ok(Some(value.clone())),
    }
}

impl AggregateState {
    /// The accumulator that an aggregate starts with.
    pub fn initial(op: AggOp) -> (state: AggregateState)
        ensures
            state@ == initial_state(op),
    {
        match op {
            AggOp::Count => AggregateState::Count(0),
            AggOp::Sum => AggregateState::Sum(None),
            AggOp::Min => AggregateState::Min(None),
            AggOp::Max => AggregateState::Max(None),
            AggOp::Avg => AggregateState::Avg { sum: None, count: 0 },
        }
    }

    /// The accumulator after one more value. Null changes nothing. Fails
    /// where a sum does not exist or a count is too large to hold.
    pub fn merge(self, value: &Field) -> (next: Result<AggregateState, CrustyError>)
        ensures
            match next {
                Ok(state) => merged_state(self@, value@) == Some(state@),
                Err(e) => merged_state(self@, value@) is None && e is ExecutionError,
            },
    {
        if value.is_null() {
            return Ok(self);
        }
        match self {
            AggregateState::Count(cnt) => {
                if cnt < i64::MAX {
                    Ok(AggregateState::Count(cnt + 1))
                } else {
                    Err(CrustyError::ExecutionError("count is too large".to_owned()))
                }
            },
            AggregateState::Sum(opt) => {
                match add_to(opt, value) {
                    Ok(next) => Ok(AggregateState::Sum(next)),
                    Err(e) => Err(e),
                }
            },
            AggregateState::Min(opt) => {
                match opt {
                    Some(prev) => {
                        if value.before(&prev) {
                            Ok(AggregateState::Min(Some(value.clone())))
                        } else {
                            Ok(AggregateState::Min(Some(prev)))
                        }
                    },
                    None => Ok(AggregateState::Min(Some(value.clone()))),
                }
            },
            AggregateState::Max(opt) => {
                match opt {
                    Some(prev) => {
                        if prev.before(value) {
                            Ok(AggregateState::Max(Some(value.clone())))
                        } else {
                            Ok(AggregateState::Max(Some(prev)))
                        }
                    },
                    None => Ok(AggregateState::Max(Some(value.clone()))),
                }
            },
            AggregateState::Avg { sum, count } => {
                match add_to(sum, value) {
                    Ok(next) => {
                        if count < i64::MAX {
                            Ok(AggregateState::Avg { sum: next, count: count + 1 })
                        } else {
                            Err(CrustyError::ExecutionError("count is too large".to_owned()))
                        }
                    },
                    Err(e) => Err(e),
                }
            },
        }
    }
}

/// The accumulators that a group starts with.
fn initial_states_for(ops: &Vec<AggOp>) -> (states: Vec<AggregateState>)
    ensures
        states_of(states@) == initial_states(ops@),
{
    let mut states: Vec<AggregateState> = Vec::new();
    let mut i: usize = 0;
    while i < ops.len()
        invariant
            i <= ops@.len(),
            states@.len() == i,
            forall|j: int| 0 <= j < i ==> (#[trigger] states@[j])@ == initial_state(ops@[j]),
        decreases ops@.len() - i,
    {
        states.push(AggregateState::initial(ops[i]));
        i += 1;
    }
    assert(states_of(states@) =~= initial_states(ops@));
    states
}

/// The values of `exprs` on `tuple`.
fn eval_all(exprs: &Vec<ByteCodeExpr>, tuple: &Tuple) -> (values: Vec<Field>)
    requires
        have_values(exprs@, tuple@),
    ensures
        values_of(values@) == values_on(exprs@, tuple@),
{
    let mut values: Vec<Field> = Vec::new();
    let mut i: usize = 0;
    while i < exprs.len()
        invariant
            i <= exprs@.len(),
            values@.len() == i,
            have_values(exprs@, tuple@),
            forall|j: int|
                0 <= j < i ==> Some((#[trigger] values@[j])@) == exprs@[j].value_on(tuple@),
        decreases exprs@.len() - i,
    {
        values.push(exprs[i].eval(tuple));
        i += 1;
    }
    assert(values_of(values@) =~= values_on(exprs@, tuple@));
    values
}

/// Whether two keys hold the same, field for field.
fn same_key(a: &Vec<Field>, b: &Vec<Field>) -> (same: bool)
    ensures
        same == (values_of(a@) == values_of(b@)),
{
    if a.len() != b.len() {
        assert(values_of(a@).len() != values_of(b@).len());
        return false;
    }
    let mut i: usize = 0;
    while i < a.len()
        invariant
            i <= a@.len(),
            a@.len() == b@.len(),
            forall|j: int| 0 <= j < i ==> (#[trigger] a@[j])@ == b@[j]@,
        decreases a@.len() - i,
    {
        if !a[i].same(&b[i]) {
            assert(values_of(a@)[i as int] != values_of(b@)[i as int]);
            return false;
        }
        i += 1;
    }
    assert(values_of(a@) =~= values_of(b@));
    true
}

/// The accumulators of a group after one more row, each with the value of
/// its expression.
fn merge_states(states: Vec<AggregateState>, values: &Vec<Field>) -> (next: Result<
    Vec<AggregateState>,
    CrustyError,
>)
    requires
        states@.len() == values@.len(),
    ensures
        match next {
            Ok(n) => merged_states(states_of(states@), values_of(values@)) == Some(states_of(n@)),
            Err(e) => merged_states(states_of(states@), values_of(values@)) is None
                && e is ExecutionError,
        },
{
    let ghost before = states_of(states@);
    let ghost given = values_of(values@);
    let mut rest = states;
    let mut next: Vec<AggregateState> = Vec::new();
    let mut i: usize = 0;
    while i < values.len()
        invariant
            i <= values@.len(),
            before.len() == values@.len(),
            before == states_of(states@),
            given == values_of(values@),
            next@.len() == i,
            rest@.len() == values@.len() - i,
            forall|j: int| 0 <= j < rest@.len() ==> (#[trigger] rest@[j])@ == before[i + j],
            forall|j: int|
                0 <= j < i ==> merged_state(before[j], given[j]) == Some((#[trigger] next@[j])@),
        decreases values@.len() - i,
    {
        let state = rest.remove(0);
        assert(state@ == before[i as int]);
        assert(values@[i as int]@ == given[i as int]);
        match state.merge(&values[i]) {
            Ok(merged) => {
                next.push(merged);
            },
            Err(e) => {
                assert(merged_state(before[i as int], given[i as int]) is None);
                return Err(e);
            },
        }
        i += 1;
    }
    assert forall|j: int| 0 <= j < before.len() implies merged_state(
        #[trigger] before[j],
        given[j],
    ) is Some by {
        assert(merged_state(before[j], given[j]) == Some(next@[j]@));
    }
    assert(states_of(next@) =~= merged_states(before, given)->Some_0);
    Ok(next)
}

/// What `mean` gives is what `mean_of` names.
proof fn lemma_mean_of<F: Fn(i128, u16, i64) -> Field>(
    mean: F,
    mantissa: i128,
    scale: u16,
    count: i64,
    result: Field,
)
    requires
        is_mean(mean),
        call_ensures(mean, (mantissa, scale, count), result),
    ensures
        result@ == mean_of(mean, mantissa, scale, count),
{
    let chosen = choose|r: Field| call_ensures(mean, (mantissa, scale, count), r);
    assert(call_ensures(mean, (mantissa, scale, count), chosen));
}

/// What an accumulator comes to in the end. Fails where it is not one of
/// the aggregate, and where a mean is asked of what is no number or of a
/// decimal whose scale is above `MAX_MEAN_SCALE`.
fn finalize_state<F: Fn(i128, u16, i64) -> Field>(state: AggregateState, op: AggOp, mean: &F) -> (cell:
    Result<Field, CrustyError>)
    requires
        is_mean(*mean),
    ensures
        match cell {
            Ok(f) => finalized(state@, op, *mean) == Some(f@),
            Err(e) => finalized(state@, op, *mean) is None && (fits(state@, op)
                ==> e is ExecutionError),
        },
{
    match (state, op) {
        (AggregateState::Count(cnt), AggOp::Count) => Ok(Field::Int(cnt)),
        (AggregateState::Sum(opt), AggOp::Sum) => Ok(
            match opt {
                Some(f) => f,
                None => Field::Null,
            },
        ),
        (AggregateState::Min(opt), AggOp::Min) => Ok(
            match opt {
                Some(f) => f,
                None => Field::Null,
            },
        ),
        (AggregateState::Max(opt), AggOp::Max) => Ok(
            match opt {
                Some(f) => f,
                None => Field::Null,
            },
        ),
        (AggregateState::Avg { sum, count }, AggOp::Avg) => {
            if count == 0 {
                Ok(Field::Null)
            } else {
                match sum {
                    Some(Field::Int(i)) => {
                        let quotient = mean(i as i128, 0, count);
                        proof {
                            lemma_mean_of(*mean, i as i128, 0, count, quotient);
                        }
                        Ok(quotient)
                    },
                    Some(Field::Decimal(v, s)) => {
                        if s <= MAX_MEAN_SCALE {
                            let quotient = mean(v, s, count);
                            proof {
                                lemma_mean_of(*mean, v, s, count, quotient);
                            }
                            Ok(quotient)
                        } else {
                            Err(CrustyError::ExecutionError("AVG non-numeric".to_owned()))
                        }
                    },
                    Some(_) => Err(CrustyError::ExecutionError("AVG non-numeric".to_owned())),
                    None => Ok(Field::Null),
                }
            }
        },
        _ => Err(CrustyError::CrustyError("State/op mismatch".to_owned())),
    }
}

/// A group: the values of the group-by expressions, and one accumulator
/// for each aggregate.
#[derive(Debug)]
pub struct Group {
    pub key: Vec<Field>,
    pub states: Vec<AggregateState>,
}

impl View for Group {
    type V = GroupValue;

    open spec fn view(&self) -> GroupValue {
        GroupValue { key: values_of(self.key@), states: states_of(self.states@) }
    }
}

/// What the groups hold.
pub open spec fn groups_view(groups: Seq<Group>) -> Seq<GroupValue> {
    Seq::new(groups.len(), |g: int| groups[g]@)
}

/// Whether the accumulators of every group are those of the aggregates.
pub open spec fn groups_fit(groups: Seq<GroupValue>, ops: Seq<AggOp>) -> bool {
    forall|g: int| 0 <= g < groups.len() ==> all_fit((#[trigger] groups[g]).states, ops)
}

/// `group_index` gives a group with the key, none of whose predecessors
/// from `from` on has it, or the number of groups.
pub proof fn lemma_group_index(groups: Seq<GroupValue>, key: Seq<FieldValue>, from: int)
    requires
        0 <= from <= groups.len(),
    ensures
        from <= group_index(groups, key, from) <= groups.len(),
        group_index(groups, key, from) < groups.len() ==> groups[group_index(
            groups,
            key,
            from,
        )].key == key,
        forall|g: int| from <= g < group_index(groups, key, from) ==> groups[g].key != key,
    decreases groups.len() - from,
{
    if from < groups.len() && groups[from].key != key {
        lemma_group_index(groups, key, from + 1);
    }
}

/// The first group with the given key, or the number of groups if there
/// is none.
fn find_group(groups: &Vec<Group>, key: &Vec<Field>) -> (at: usize)
    ensures
        at == group_index(groups_view(groups@), values_of(key@), 0),
{
    let ghost view = groups_view(groups@);
    let mut at: usize = 0;
    proof {
        lemma_group_index(view, values_of(key@), 0);
    }
    while at < groups.len()
        invariant
            at <= groups@.len(),
            view == groups_view(groups@),
            group_index(view, values_of(key@), at as int) == group_index(
                view,
                values_of(key@),
                0,
            ),
        decreases groups@.len() - at,
    {
        if same_key(&groups[at].key, key) {
            return at;
        }
        at += 1;
    }
    at
}

/// The aggregation of the rows of an operator.
pub struct Aggregate<C: OpIterator, F: Fn(i128, u16, i64) -> Field> {
    /// The schema of the rows of the aggregation.
    pub schema: TableSchema,
    /// The expressions whose values make the key of a group.
    pub groupby_expr: Vec<ByteCodeExpr>,
    /// The expressions whose values are aggregated.
    pub agg_expr: Vec<ByteCodeExpr>,
    /// The aggregates, one for each of `agg_expr`.
    pub ops: Vec<AggOp>,
    /// The input.
    pub child: C,
    /// The division of a decimal `mantissa * 10^-scale` by a count, which
    /// gives the mean that `Avg` comes to.
    pub mean: F,
    /// Whether the caller said that it may rewind.
    pub will_rewind: bool,
    /// The groups, while rows are folded.
    pub groups: Vec<Group>,
    /// The rows of the aggregation, while the operator is open.
    pub result_buffer: Option<Vec<Tuple>>,
    /// The position of the next row in `result_buffer`.
    pub buffer_iterator_idx: usize,
    /// Whether the operator is open.
    pub open: bool,
}

impl<C: OpIterator, F: Fn(i128, u16, i64) -> Field> Aggregate<C, F> {
    /// Whether `other` differs from `self` in its groups at most.
    pub open spec fn same_but_groups(&self, other: &Self) -> bool {
        &&& other.schema == self.schema
        &&& other.groupby_expr == self.groupby_expr
        &&& other.agg_expr == self.agg_expr
        &&& other.ops == self.ops
        &&& other.child == self.child
        &&& other.mean == self.mean
        &&& other.will_rewind == self.will_rewind
        &&& other.result_buffer == self.result_buffer
        &&& other.buffer_iterator_idx == self.buffer_iterator_idx
        &&& other.open == self.open
    }

    /// The aggregation, not yet open, of the rows of `child`: grouped by
    /// the values of `groupby_expr`, with the aggregate `ops[i]` over the
    /// values of `agg_expr[i]`. `mean` divides a decimal by a count.
    pub fn new(
        groupby_expr: Vec<ByteCodeExpr>,
        agg_expr: Vec<ByteCodeExpr>,
        ops: Vec<AggOp>,
        schema: TableSchema,
        child: C,
        mean: F,
    ) -> (aggregate: Self)
        requires
            ops@.len() == agg_expr@.len(),
        ensures
            aggregate.schema == schema,
            aggregate.groupby_expr == groupby_expr,
            aggregate.agg_expr == agg_expr,
            aggregate.ops == ops,
            aggregate.child == child,
            aggregate.mean == mean,
            !aggregate.will_rewind,
            aggregate.groups@.len() == 0,
            aggregate.result_buffer is None,
            aggregate.buffer_iterator_idx == 0,
            !aggregate.open,
    {
        Aggregate {
            schema,
            groupby_expr,
            agg_expr,
            ops,
            child,
            mean,
            will_rewind: false,
            groups: Vec::new(),
            result_buffer: None,
            buffer_iterator_idx: 0,
            open: false,
        }
    }

    /// The row of a group: its key, then what each accumulator comes to,
    /// as far as accumulators and aggregates go side by side. Fails where
    /// an accumulator is not one of its aggregate, and where a mean is
    /// asked of what is no number or of a decimal whose scale is above
    /// `MAX_MEAN_SCALE`.
    pub fn finalize_group(key: Vec<Field>, states: Vec<AggregateState>, ops: &[AggOp], mean: &F) -> (row:
        Result<Tuple, CrustyError>)
        requires
            is_mean(*mean),
        ensures
            match row {
                Ok(tuple) => finalized_row(values_of(key@), states_of(states@), ops@, *mean)
                    == Some(tuple@),
                Err(e) => finalized_row(values_of(key@), states_of(states@), ops@, *mean) is None
                    && (all_fit(states_of(states@), ops@) ==> e is ExecutionError),
            },
    {
        let ghost before = states_of(states@);
        let ghost key_values = values_of(key@);
        let count: usize = if states.len() <= ops.len() {
            states.len()
        } else {
            ops.len()
        };
        let mut row = key;
        let mut rest = states;
        let mut i: usize = 0;
        while i < count
            invariant
                i <= count,
                count == lesser(before.len() as int, ops@.len() as int),
                before == states_of(states@),
                is_mean(*mean),
                rest@.len() == before.len() - i,
                row@.len() == key_values.len() + i,
                forall|j: int| 0 <= j < rest@.len() ==> (#[trigger] rest@[j])@ == before[i + j],
                forall|j: int| 0 <= j < key_values.len() ==> (#[trigger] row@[j])@ == key_values[j],
                forall|j: int|
                    0 <= j < i ==> finalized(before[j], ops@[j], *mean) == Some(
                        (#[trigger] row@[key_values.len() + j])@,
                    ),
            decreases count - i,
        {
            let state = rest.remove(0);
            assert(state@ == before[i as int]);
            match finalize_state(state, ops[i], mean) {
                Ok(cell) => {
                    row.push(cell);
                },
                Err(e) => {
                    assert(finalized(before[i as int], ops@[i as int], *mean) is None);
                    return Err(e);
                },
            }
            i += 1;
        }
        let tuple = Tuple::new(row);
        proof {
            assert forall|j: int| 0 <= j < count implies finalized(
                #[trigger] before[j],
                ops@[j],
                *mean,
            ) is Some by {
                assert(finalized(before[j], ops@[j], *mean) == Some(row@[key_values.len() + j]@));
            }
            let wanted = finalized_row(key_values, before, ops@, *mean)->Some_0;
            assert forall|j: int| 0 <= j < tuple@.len() implies tuple@[j] == wanted[j] by {
                if j < key_values.len() {
                    assert(row@[j]@ == key_values[j]);
                } else {
                    let k = j - key_values.len();
                    assert(finalized(before[k], ops@[k], *mean) == Some(
                        row@[key_values.len() + k]@,
                    ));
                }
            }
            assert(tuple@ =~= wanted);
        }
        Ok(tuple)
    }

    /// Turns the groups into the rows of the aggregation, in the order of
    /// the groups, and empties the groups. Fails where a group has no row.
    pub fn produce_results(&mut self) -> (produced: Result<(), CrustyError>)
        requires
            is_mean(old(self).mean),
        ensures
            final(self).schema == old(self).schema,
            final(self).groupby_expr == old(self).groupby_expr,
            final(self).agg_expr == old(self).agg_expr,
            final(self).ops == old(self).ops,
            final(self).child == old(self).child,
            final(self).mean == old(self).mean,
            final(self).will_rewind == old(self).will_rewind,
            final(self).open == old(self).open,
            final(self).groups@.len() == 0,
            match produced {
                Ok(_) => {
                    &&& final(self).result_buffer is Some
                    &&& final(self).buffer_iterator_idx == 0
                    &&& result_rows(groups_view(old(self).groups@), old(self).ops@, old(self).mean)
                        == Some(rows_of(final(self).result_buffer->Some_0@))
                },
                Err(e) => result_rows(
                    groups_view(old(self).groups@),
                    old(self).ops@,
                    old(self).mean,
                ) is None && (groups_fit(groups_view(old(self).groups@), old(self).ops@)
                    ==> e is ExecutionError),
            },
    {
        let ghost before = groups_view(self.groups@);
        let mut buf: Vec<Tuple> = Vec::new();
        while self.groups.len() > 0
            invariant
                self.schema == old(self).schema,
                self.groupby_expr == old(self).groupby_expr,
                self.agg_expr == old(self).agg_expr,
                self.ops == old(self).ops,
                self.child == old(self).child,
                self.mean == old(self).mean,
                self.will_rewind == old(self).will_rewind,
                self.open == old(self).open,
                is_mean(self.mean),
                before == groups_view(old(self).groups@),
                buf@.len() + self.groups@.len() == before.len(),
                forall|g: int|
                    0 <= g < self.groups@.len() ==> (#[trigger] self.groups@[g])@ == before[buf@.len()
                        + g],
                forall|g: int|
                    0 <= g < buf@.len() ==> finalized_row(
                        before[g].key,
                        before[g].states,
                        self.ops@,
                        self.mean,
                    ) == Some((#[trigger] buf@[g])@),
            decreases self.groups@.len(),
        {
            let group = self.groups.remove(0);
            assert(group@ == before[buf@.len() as int]);
            let Group { key, states } = group;
            match Self::finalize_group(key, states, self.ops.as_slice(), &self.mean) {
                Ok(tuple) => {
                    buf.push(tuple);
                },
                Err(e) => {
                    let ghost failed = buf@.len() as int;
                    assert(finalized_row(
                        before[failed].key,
                        before[failed].states,
                        self.ops@,
                        self.mean,
                    ) is None);
                    assert(groups_fit(before, self.ops@) ==> all_fit(
                        before[failed].states,
                        self.ops@,
                    ));
                    self.groups.clear();
                    return Err(e);
                },
            }
        }
        proof {
            assert forall|g: int| 0 <= g < before.len() implies finalized_row(
                (#[trigger] before[g]).key,
                before[g].states,
                self.ops@,
                self.mean,
            ) is Some by {
                assert(finalized_row(before[g].key, before[g].states, self.ops@, self.mean)
                    == Some(buf@[g]@));
            }
            assert(rows_of(buf@) =~= result_rows(before, self.ops@, self.mean)->Some_0);
        }
        self.result_buffer = Some(buf);
        self.buffer_iterator_idx = 0;
        Ok(())
    }

    /// Folds one row into the group of its key, which is made, behind the
    /// others, if the key is new. Fails where an accumulator takes no
    /// value: a sum does not exist, or a count is too large to hold.
    pub fn merge_tuple_into_group(&mut self, tuple: &Tuple) -> (merged: Result<(), CrustyError>)
        requires
            old(self).ops@.len() == old(self).agg_expr@.len(),
            groups_fit(groups_view(old(self).groups@), old(self).ops@),
            have_values(old(self).groupby_expr@, tuple@),
            have_values(old(self).agg_expr@, tuple@),
        ensures
            old(self).same_but_groups(final(self)),
            match merged {
                Ok(_) => {
                    &&& merged_groups(
                        groups_view(old(self).groups@),
                        values_on(old(self).groupby_expr@, tuple@),
                        values_on(old(self).agg_expr@, tuple@),
                        old(self).ops@,
                    ) == Some(groups_view(final(self).groups@))
                    &&& groups_fit(groups_view(final(self).groups@), final(self).ops@)
                },
                Err(e) => merged_groups(
                    groups_view(old(self).groups@),
                    values_on(old(self).groupby_expr@, tuple@),
                    values_on(old(self).agg_expr@, tuple@),
                    old(self).ops@,
                ) is None && e is ExecutionError,
            },
    {
        let key = eval_all(&self.groupby_expr, tuple);
        let values = eval_all(&self.agg_expr, tuple);
        let ghost before = groups_view(self.groups@);
        let at: usize = find_group(&self.groups, &key);
        proof {
            lemma_group_index(before, values_of(key@), 0);
        }
        let group = if at < self.groups.len() {
            self.groups.remove(at)
        } else {
            Group { key, states: initial_states_for(&self.ops) }
        };
        let Group { key: group_key, states } = group;
        proof {
            if at < before.len() {
                assert(group@ == before[at as int]);
                assert(all_fit(before[at as int].states, self.ops@));
            }
            assert(states_of(states@).len() == self.ops@.len());
            assert(values_of(values@).len() == self.agg_expr@.len());
        }
        match merge_states(states, &values) {
            Ok(next) => {
                let ghost removed = self.groups@;
                self.groups.insert(at, Group { key: group_key, states: next });
                proof {
                    let after = groups_view(self.groups@);
                    let wanted = merged_groups(
                        before,
                        values_of(key@),
                        values_of(values@),
                        self.ops@,
                    )->Some_0;
                    assert(after =~= wanted);
                    assert forall|g: int| 0 <= g < after.len() implies all_fit(
                        (#[trigger] after[g]).states,
                        self.ops@,
                    ) by {
                        if g != at {
                            assert(after[g] == before[g]);
                        }
                    }
                }
                Ok(())
            },
            Err(e) => Err(e),
        }
    }
}

/// Where folding fails on the first rows, it fails on all of them.
pub proof fn lemma_groups_of_prefix(
    groupby: Seq<ByteCodeExpr>,
    aggregated: Seq<ByteCodeExpr>,
    ops: Seq<AggOp>,
    rows: Seq<Seq<FieldValue>>,
    count: int,
)
    requires
        0 <= count <= rows.len(),
        groups_of(groupby, aggregated, ops, rows.take(count)) is None,
    ensures
        groups_of(groupby, aggregated, ops, rows) is None,
    decreases rows.len(),
{
    if count < rows.len() {
        assert(rows.drop_last().take(count) =~= rows.take(count));
        lemma_groups_of_prefix(groupby, aggregated, ops, rows.drop_last(), count);
    } else {
        assert(rows.take(count) =~= rows);
    }
}

/// Whether no two of the groups have the same key.
pub open spec fn keys_differ(groups: Seq<GroupValue>) -> bool {
    forall|g: int, h: int|
        0 <= g < groups.len() && 0 <= h < groups.len() && g != h ==> (#[trigger] groups[g]).key
            != (#[trigger] groups[h]).key
}

/// Whether one of the groups has the key.
pub open spec fn has_group(groups: Seq<GroupValue>, key: Seq<FieldValue>) -> bool {
    exists|g: int| 0 <= g < groups.len() && (#[trigger] groups[g]).key == key
}

/// Rows with the same key are folded into one group: no two groups of an
/// aggregation have the same key, and the key of every row is the key of
/// a group. The groups, and so the rows that the aggregation yields, are
/// a function of the rows that it is given.
pub proof fn lemma_one_group_for_each_key(
    groupby: Seq<ByteCodeExpr>,
    aggregated: Seq<ByteCodeExpr>,
    ops: Seq<AggOp>,
    rows: Seq<Seq<FieldValue>>,
)
    requires
        groups_of(groupby, aggregated, ops, rows) is Some,
    ensures
        keys_differ(groups_of(groupby, aggregated, ops, rows)->Some_0),
        forall|k: int|
            0 <= k < rows.len() ==> has_group(
                groups_of(groupby, aggregated, ops, rows)->Some_0,
                values_on(groupby, #[trigger] rows[k]),
            ),
    decreases rows.len(),
{
    if rows.len() > 0 {
        let earlier = rows.drop_last();
        lemma_one_group_for_each_key(groupby, aggregated, ops, earlier);
        let before = groups_of(groupby, aggregated, ops, earlier)->Some_0;
        let after = groups_of(groupby, aggregated, ops, rows)->Some_0;
        let key = values_on(groupby, rows.last());
        let at = group_index(before, key, 0);
        lemma_group_index(before, key, 0);
        assert forall|g: int, h: int|
            0 <= g < after.len() && 0 <= h < after.len() && g != h implies (#[trigger] after[g]).key
            != (#[trigger] after[h]).key by {
            if g < before.len() && h < before.len() {
                assert(before[g].key != before[h].key);
            }
        }
        assert forall|k: int| 0 <= k < rows.len() implies has_group(
            after,
            values_on(groupby, #[trigger] rows[k]),
        ) by {
            if k < rows.len() - 1 {
                assert(earlier[k] == rows[k]);
                let wanted = values_on(groupby, rows[k]);
                assert(has_group(before, wanted));
                let g = choose|g: int| 0 <= g < before.len() && (#[trigger] before[g]).key == wanted;
                assert(after[g].key == wanted);
            } else {
                assert(after[at].key == key);
            }
        }
    }
}

impl<C: OpIterator, F: Fn(i128, u16, i64) -> Field> Aggregate<C, F> {
    /// The rows of the aggregation over the rows of the input, if it has
    /// any.
    pub open spec fn results(&self) -> Option<Seq<Seq<FieldValue>>> {
        aggregate_rows(self.groupby_expr@, self.agg_expr@, self.ops@, self.mean, self.child.rows())
    }
}

impl<C: OpIterator, F: Fn(i128, u16, i64) -> Field> OpIterator for Aggregate<C, F> {
    open spec fn wf(&self) -> bool {
        &&& self.ops@.len() == self.agg_expr@.len()
        &&& is_mean(self.mean)
        &&& self.child.wf()
        &&& !self.child.is_open()
        &&& self.groups@.len() == 0
        &&& self.open ==> {
            &&& self.result_buffer is Some
            &&& self.buffer_iterator_idx <= self.result_buffer->Some_0@.len()
            &&& self.results() == Some(rows_of(self.result_buffer->Some_0@))
        }
    }

    open spec fn is_open(&self) -> bool {
        self.open
    }

    /// The rows of the aggregation, unless the caller said that it may
    /// rewind: then the operator yields nothing.
    open spec fn rows(&self) -> Seq<Seq<FieldValue>> {
        if self.will_rewind {
            Seq::empty()
        } else {
            match self.results() {
                Some(rows) => rows,
                None => Seq::empty(),
            }
        }
    }

    open spec fn pending(&self) -> Seq<Seq<FieldValue>> {
        if self.will_rewind {
            Seq::empty()
        } else {
            match self.result_buffer {
                Some(buf) => rows_of(buf@).skip(self.buffer_iterator_idx as int),
                None => Seq::empty(),
            }
        }
    }

    open spec fn ready(&self) -> bool {
        &&& self.child.ready()
        &&& !self.child.open_fails() ==> have_values_on_all(self.groupby_expr@, self.child.rows())
            && have_values_on_all(self.agg_expr@, self.child.rows())
    }

    open spec fn open_fails(&self) -> bool {
        self.child.open_fails() || self.results() is None
    }

    open spec fn configured(&self, will_rewind: bool) -> Self {
        Aggregate {
            schema: self.schema,
            groupby_expr: self.groupby_expr,
            agg_expr: self.agg_expr,
            ops: self.ops,
            child: self.child.configured(false),
            mean: self.mean,
            will_rewind,
            groups: self.groups,
            result_buffer: self.result_buffer,
            buffer_iterator_idx: self.buffer_iterator_idx,
            open: self.open,
        }
    }

    fn configure(&mut self, will_rewind: bool) {
        self.will_rewind = will_rewind;
        self.child.configure(false);
    }

    /// Draws all the rows of the input, folds them into groups and turns
    /// the groups into the rows that `next` then yields.
    fn open(&mut self) -> (opened: Result<(), CrustyError>) {
        match self.child.open() {
            Ok(_) => {},
            Err(e) => {
                return Err(e);
            },
        }
        let ghost rows = self.child.rows();
        let ghost consumed: int = 0;
        proof {
            assert(rows.skip(0) =~= rows);
            assert(groups_view(self.groups@) =~= Seq::<GroupValue>::empty());
        }
        loop
            invariant
                self.schema == old(self).schema,
                self.groupby_expr == old(self).groupby_expr,
                self.agg_expr == old(self).agg_expr,
                self.ops == old(self).ops,
                self.mean == old(self).mean,
                self.will_rewind == old(self).will_rewind,
                self.open == old(self).open,
                self.ops@.len() == self.agg_expr@.len(),
                is_mean(self.mean),
                self.child.wf(),
                self.child.is_open(),
                self.child.rows() == rows,
                rows == old(self).child.rows(),
                have_values_on_all(self.groupby_expr@, rows),
                have_values_on_all(self.agg_expr@, rows),
                0 <= consumed <= rows.len(),
                self.child.pending() == rows.skip(consumed),
                groups_fit(groups_view(self.groups@), self.ops@),
                groups_of(self.groupby_expr@, self.agg_expr@, self.ops@, rows.take(consumed))
                    == Some(groups_view(self.groups@)),
            ensures
                self.schema == old(self).schema,
                self.groupby_expr == old(self).groupby_expr,
                self.agg_expr == old(self).agg_expr,
                self.ops == old(self).ops,
                self.mean == old(self).mean,
                self.will_rewind == old(self).will_rewind,
                self.ops@.len() == self.agg_expr@.len(),
                is_mean(self.mean),
                self.child.wf(),
                self.child.is_open(),
                self.child.rows() == rows,
                rows == old(self).child.rows(),
                groups_fit(groups_view(self.groups@), self.ops@),
                groups_of(self.groupby_expr@, self.agg_expr@, self.ops@, rows) == Some(
                    groups_view(self.groups@),
                ),
            decreases self.child.pending().len(),
        {
            match self.child.next() {
                Ok(Some(t)) => {
                    proof {
                        assert(rows.skip(consumed)[0] == rows[consumed]);
                        assert(t@ == rows[consumed]);
                        assert(rows.skip(consumed).drop_first() =~= rows.skip(consumed + 1));
                        assert(rows.take(consumed + 1).drop_last() =~= rows.take(consumed));
                        assert(rows.take(consumed + 1).last() == rows[consumed]);
                    }
                    match self.merge_tuple_into_group(&t) {
                        Ok(_) => {},
                        Err(e) => {
                            proof {
                                lemma_groups_of_prefix(
                                    self.groupby_expr@,
                                    self.agg_expr@,
                                    self.ops@,
                                    rows,
                                    consumed + 1,
                                );
                            }
                            return Err(e);
                        },
                    }
                    proof {
                        consumed = consumed + 1;
                    }
                },
                Ok(None) => {
                    proof {
                        assert(rows.take(consumed) =~= rows);
                    }
                    break ;
                },
                Err(e) => {
                    return Err(e);
                },
            }
        }
        match self.child.close() {
            Ok(_) => {},
            Err(e) => {
                return Err(e);
            },
        }
        match self.produce_results() {
            Ok(_) => {},
            Err(e) => {
                return Err(e);
            },
        }
        self.open = true;
        proof {
            let buf = self.result_buffer->Some_0;
            assert(rows_of(buf@).skip(0) =~= rows_of(buf@));
        }
        Ok(())
    }

    /// The next row of the aggregation; `None` once all are through, and
    /// at once where the caller said that it may rewind.
    fn next(&mut self) -> (row: Result<Option<Tuple>, CrustyError>) {
        // an operator that is not open has no rows to yield from
        let buf: &Vec<Tuple> = self.result_buffer.as_ref().unwrap();
        if !self.will_rewind {
            let idx: usize = self.buffer_iterator_idx;
            if idx < buf.len() {
                let t = buf[idx].clone();
                self.buffer_iterator_idx = idx + 1;
                proof {
                    assert(rows_of(buf@).skip(idx as int).drop_first() =~= rows_of(buf@).skip(
                        idx + 1,
                    ));
                }
                Ok(Some(t))
            } else {
                Ok(None)
            }
        } else {
            Ok(None)
        }
    }

    fn close(&mut self) -> (closed: Result<(), CrustyError>) {
        // an operator that is not open has no rows to drop
        let _ = self.result_buffer.take().unwrap();
        self.open = false;
        Ok(())
    }

    fn rewind(&mut self) -> (rewound: Result<(), CrustyError>) {
        // an operator that is not open has no rows to start over with
        let buf: &Vec<Tuple> = self.result_buffer.as_ref().unwrap();
        proof {
            assert(rows_of(buf@).skip(0) =~= rows_of(buf@));
        }
        self.buffer_iterator_idx = 0;
        Ok(())
    }

    open spec fn schema_of(&self) -> TableSchema {
        self.schema
    }

    /// The schema of the rows of the aggregation.
    fn get_schema(&self) -> (schema: &TableSchema) {
        &self.schema
    }
}

} // verus!
