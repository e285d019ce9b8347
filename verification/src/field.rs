//! Fields: the typed scalar values that tuples are made of.
use vstd::prelude::*;
use crate::error::CrustyError;

verus! {

/// A typed scalar value.
#[derive(Debug, PartialEq, Eq, PartialOrd, Ord)]
pub enum Field {
    /// No value.
    Null,
    /// A whole number.
    Int(i64),
    /// The number `mantissa * 10^-scale`.
    Decimal(i128, u16),
    /// A text.
    String(String),
}

/// What a field holds, with a text taken as its characters.
pub enum FieldValue {
    Null,
    Int(i64),
    Decimal(i128, u16),
    String(Seq<char>),
}

impl View for Field {
    type V = FieldValue;

    open spec fn view(&self) -> FieldValue {
        match self {
            Field::Null => FieldValue::Null,
            Field::Int(i) => FieldValue::Int(*i),
            Field::Decimal(m, s) => FieldValue::Decimal(*m, *s),
            Field::String(t) => FieldValue::String(t@),
        }
    }
}

/// Whether `a` comes before `b` in the order of byte strings: by the first
/// byte in which they differ, a proper prefix first.
pub open spec fn bytes_before(a: Seq<u8>, b: Seq<u8>) -> bool
    decreases a.len(),
{
    if b.len() == 0 {
        false
    } else if a.len() == 0 {
        true
    } else if a[0] != b[0] {
        a[0] < b[0]
    } else {
        bytes_before(a.drop_first(), b.drop_first())
    }
}

/// The rank of the kind of a field in the order of fields.
pub open spec fn kind_rank(v: FieldValue) -> int {
    match v {
        FieldValue::Null => 0,
        FieldValue::Int(_) => 1,
        FieldValue::Decimal(_, _) => 2,
        FieldValue::String(_) => 3,
    }
}

/// The order of fields: `Null` first, then the whole numbers, then the
/// decimals by mantissa and then by scale, then the texts by their bytes.
pub open spec fn field_before(a: FieldValue, b: FieldValue) -> bool {
    match (a, b) {
        (FieldValue::Int(x), FieldValue::Int(y)) => x < y,
        (FieldValue::Decimal(m, s), FieldValue::Decimal(n, t)) => m < n || (m == n && s < t),
        (FieldValue::String(x), FieldValue::String(y)) => bytes_before(
            vstd::utf8::encode_utf8(x),
            vstd::utf8::encode_utf8(y),
        ),
        _ => kind_rank(a) < kind_rank(b),
    }
}

/// Ten to the power of `exp`.
pub open spec fn pow10(exp: nat) -> int
    decreases exp,
{
    if exp == 0 {
        1
    } else {
        10 * pow10((exp - 1) as nat)
    }
}

/// The mantissa of a decimal when its scale is raised by `by`.
pub open spec fn rescaled(mantissa: int, by: nat) -> int {
    mantissa * pow10(by)
}

/// The sum of two fields, where they have one: two whole numbers, or two
/// decimals, the one of lower scale then raised to the scale of the
/// other. No sum where the kinds do not allow it, nor where it, or a
/// raised mantissa, is too large to hold.
pub open spec fn field_sum(a: FieldValue, b: FieldValue) -> Option<FieldValue> {
    match (a, b) {
        (FieldValue::Int(x), FieldValue::Int(y)) => if i64::MIN <= x + y <= i64::MAX {
            Some(FieldValue::Int((x + y) as i64))
        } else {
            None
        },
        (FieldValue::Decimal(m, s), FieldValue::Decimal(n, t)) => {
            let scale = if s >= t {
                s
            } else {
                t
            };
            let left = rescaled(m as int, (scale - s) as nat);
            let right = rescaled(n as int, (scale - t) as nat);
            if i128::MIN <= left <= i128::MAX && i128::MIN <= right <= i128::MAX && i128::MIN
                <= left + right <= i128::MAX {
                Some(FieldValue::Decimal((left + right) as i128, scale))
            } else {
                None
            }
        },
        _ => None,
    }
}

/// Of two byte strings, either one comes before the other or they are
/// the same, and only one of the three.
pub proof fn lemma_bytes_order_is_total(a: Seq<u8>, b: Seq<u8>)
    ensures
        bytes_before(a, b) || a == b || bytes_before(b, a),
        !(bytes_before(a, b) && bytes_before(b, a)),
        !(bytes_before(a, b) && a == b),
    decreases a.len(),
{
    if a.len() > 0 && b.len() > 0 && a[0] == b[0] {
        lemma_bytes_order_is_total(a.drop_first(), b.drop_first());
        if a.drop_first() == b.drop_first() {
            assert(a =~= seq![a[0]] + a.drop_first());
            assert(b =~= seq![b[0]] + b.drop_first());
        }
    } else if a.len() == 0 && b.len() == 0 {
        assert(a =~= b);
    }
}

/// What comes before something that comes before a third comes before
/// the third.
pub proof fn lemma_bytes_order_is_transitive(a: Seq<u8>, b: Seq<u8>, c: Seq<u8>)
    requires
        bytes_before(a, b),
        bytes_before(b, c),
    ensures
        bytes_before(a, c),
    decreases a.len(),
{
    if a.len() > 0 && a[0] == b[0] && b[0] == c[0] {
        lemma_bytes_order_is_transitive(a.drop_first(), b.drop_first(), c.drop_first());
    }
}

/// The order of fields is total: of two fields, either one comes before
/// the other or they hold the same, and only one of the three.
pub proof fn lemma_field_order_is_total(a: FieldValue, b: FieldValue)
    ensures
        field_before(a, b) || a == b || field_before(b, a),
        !(field_before(a, b) && field_before(b, a)),
        !(field_before(a, b) && a == b),
{
    match (a, b) {
        (FieldValue::String(x), FieldValue::String(y)) => {
            lemma_bytes_order_is_total(vstd::utf8::encode_utf8(x), vstd::utf8::encode_utf8(y));
            vstd::utf8::encode_utf8_decode_utf8(x);
            vstd::utf8::encode_utf8_decode_utf8(y);
        },
        _ => {},
    }
}

/// The order of fields is transitive.
pub proof fn lemma_field_order_is_transitive(a: FieldValue, b: FieldValue, c: FieldValue)
    requires
        field_before(a, b),
        field_before(b, c),
    ensures
        field_before(a, c),
{
    match (a, b, c) {
        (FieldValue::String(x), FieldValue::String(y), FieldValue::String(z)) => {
            lemma_bytes_order_is_transitive(
                vstd::utf8::encode_utf8(x),
                vstd::utf8::encode_utf8(y),
                vstd::utf8::encode_utf8(z),
            );
        },
        _ => {},
    }
}

/// Whether the byte string `a` comes before `b`.
fn bytes_lt(a: &[u8], b: &[u8]) -> (before: bool)
    ensures
        before == bytes_before(a@, b@),
{
    let mut i: usize = 0;
    proof {
        assert(a@.skip(0) =~= a@);
        assert(b@.skip(0) =~= b@);
    }
    while i < a.len() && i < b.len()
        invariant
            i <= a@.len(),
            i <= b@.len(),
            bytes_before(a@, b@) == bytes_before(a@.skip(i as int), b@.skip(i as int)),
        decreases a@.len() - i,
    {
        proof {
            assert(a@.skip(i as int)[0] == a@[i as int]);
            assert(b@.skip(i as int)[0] == b@[i as int]);
            assert(a@.skip(i as int).drop_first() =~= a@.skip(i + 1));
            assert(b@.skip(i as int).drop_first() =~= b@.skip(i + 1));
        }
        if a[i] != b[i] {
            return a[i] < b[i];
        }
        i += 1;
    }
    i < b.len()
}

/// `mantissa * 10^by`, if that can be held.
fn rescale(mantissa: i128, by: u16) -> (raised: Option<i128>)
    ensures
        match raised {
            Some(r) => r == rescaled(mantissa as int, by as nat),
            None => !(i128::MIN <= rescaled(mantissa as int, by as nat) <= i128::MAX),
        },
{
    let mut value: i128 = mantissa;
    let mut k: u16 = 0;
    while k < by
        invariant
            k <= by,
            value == rescaled(mantissa as int, k as nat),
        decreases by - k,
    {
        proof {
            assert(rescaled(mantissa as int, (k + 1) as nat) == 10 * rescaled(
                mantissa as int,
                k as nat,
            )) by (nonlinear_arith)
                requires
                    pow10((k + 1) as nat) == 10 * pow10(k as nat),
            ;
        }
        match value.checked_mul(10) {
            Some(next) => {
                value = next;
            },
            None => {
                proof {
                    let power = pow10((k + 1) as nat);
                    lemma_pow10_positive((k + 1) as nat);
                    assert(mantissa <= 0 ==> mantissa * power <= 0) by (nonlinear_arith)
                        requires
                            power > 0,
                    ;
                    assert(mantissa >= 0 ==> mantissa * power >= 0) by (nonlinear_arith)
                        requires
                            power > 0,
                    ;
                    lemma_rescaled_grows(mantissa as int, (k + 1) as nat, by as nat);
                }
                return None;
            },
        }
        k += 1;
    }
    Some(value)
}

/// Raising the scale further moves a mantissa further from zero.
proof fn lemma_rescaled_grows(mantissa: int, low: nat, high: nat)
    requires
        low <= high,
    ensures
        mantissa >= 0 ==> rescaled(mantissa, high) >= rescaled(mantissa, low),
        mantissa <= 0 ==> rescaled(mantissa, high) <= rescaled(mantissa, low),
    decreases high - low,
{
    if low < high {
        lemma_rescaled_grows(mantissa, low, (high - 1) as nat);
        lemma_pow10_positive((high - 1) as nat);
        assert(pow10(high) == 10 * pow10((high - 1) as nat));
        assert(mantissa >= 0 ==> mantissa * (10 * pow10((high - 1) as nat)) >= mantissa * pow10(
            (high - 1) as nat,
        )) by (nonlinear_arith)
            requires
                pow10((high - 1) as nat) > 0,
        ;
        assert(mantissa <= 0 ==> mantissa * (10 * pow10((high - 1) as nat)) <= mantissa * pow10(
            (high - 1) as nat,
        )) by (nonlinear_arith)
            requires
                pow10((high - 1) as nat) > 0,
        ;
    }
}

/// Powers of ten are positive.
proof fn lemma_pow10_positive(exp: nat)
    ensures
        pow10(exp) > 0,
    decreases exp,
{
    if exp > 0 {
        lemma_pow10_positive((exp - 1) as nat);
    }
}

impl Clone for Field {
    fn clone(&self) -> (copy: Self)
        ensures
            copy@ == self@,
    {
        match self {
            Field::Null => Field::Null,
            Field::Int(i) => Field::Int(*i),
            Field::Decimal(m, s) => Field::Decimal(*m, *s),
            Field::String(t) => Field::String(t.clone()),
        }
    }
}

impl Field {
    /// Whether the field holds no value.
    pub fn is_null(&self) -> (null: bool)
        ensures
            null == (self@ is Null),
    {
        match self {
            Field::Null => true,
            _ => false,
        }
    }

    /// Whether two fields hold the same.
    pub fn same(&self, other: &Field) -> (same: bool)
        ensures
            same == (self@ == other@),
    {
        match (self, other) {
            (Field::Null, Field::Null) => true,
            (Field::Int(x), Field::Int(y)) => *x == *y,
            (Field::Decimal(m, s), Field::Decimal(n, t)) => *m == *n && *s == *t,
            (Field::String(x), Field::String(y)) => {
                let same = *x == *y;
                proof {
                    if same {
                        assert(x@ =~= y@);
                    }
                }
                same
            },
            _ => false,
        }
    }

    /// Whether the field comes before `other` in the order of fields.
    pub fn before(&self, other: &Field) -> (before: bool)
        ensures
            before == field_before(self@, other@),
    {
        match (self, other) {
            (Field::Int(x), Field::Int(y)) => *x < *y,
            (Field::Decimal(m, s), Field::Decimal(n, t)) => *m < *n || (*m == *n && *s < *t),
            (Field::String(x), Field::String(y)) => bytes_lt(
                x.as_str().as_bytes(),
                y.as_str().as_bytes(),
            ),
            _ => self.rank() < other.rank(),
        }
    }

    /// The rank of the kind of the field in the order of fields.
    fn rank(&self) -> (rank: u8)
        ensures
            rank == kind_rank(self@),
    {
        match self {
            Field::Null => 0,
            Field::Int(_) => 1,
            Field::Decimal(_, _) => 2,
            Field::String(_) => 3,
        }
    }

    /// The sum of two fields. Fails where they have none: where the kinds
    /// do not allow it, or a number is too large to hold.
    pub fn plus(&self, other: &Field) -> (sum: Result<Field, CrustyError>)
        ensures
            match sum {
                Ok(f) => field_sum(self@, other@) == Some(f@),
                Err(e) => field_sum(self@, other@) is None && e is ExecutionError,
            },
    {
        match (self, other) {
            (Field::Int(x), Field::Int(y)) => {
                match x.checked_add(*y) {
                    Some(z) => Ok(Field::Int(z)),
                    None => Err(CrustyError::ExecutionError("Int sum is too large".to_owned())),
                }
            },
            (Field::Decimal(m, s), Field::Decimal(n, t)) => {
                let scale: u16 = if *s >= *t {
                    *s
                } else {
                    *t
                };
                let left = rescale(*m, scale - *s);
                let right = rescale(*n, scale - *t);
                if left.is_some() && right.is_some() {
                    match left.unwrap().checked_add(right.unwrap()) {
                        Some(z) => {
                            return Ok(Field::Decimal(z, scale));
                        },
                        None => {},
                    }
                }
                Err(CrustyError::ExecutionError("Decimal sum is too large".to_owned()))
            },
            _ => Err(CrustyError::ExecutionError("fields cannot be added".to_owned())),
        }
    }
}

/// A comparison between two fields.
#[derive(Debug, Clone, Copy, PartialEq, Eq, Structural)]
pub enum BooleanOp {
    Eq,
    Neq,
    Gt,
    Gte,
    Lt,
    Lte,
}

/// What a comparison says of two fields, under the order of fields.
pub open spec fn comparison_holds(op: BooleanOp, left: FieldValue, right: FieldValue) -> bool {
    match op {
        BooleanOp::Eq => left == right,
        BooleanOp::Neq => left != right,
        BooleanOp::Gt => field_before(right, left),
        BooleanOp::Gte => !field_before(left, right),
        BooleanOp::Lt => field_before(left, right),
        BooleanOp::Lte => !field_before(right, left),
    }
}

/// Whether the comparison holds of the two fields.
pub fn compare_fields(op: BooleanOp, left: &Field, right: &Field) -> (holds: bool)
    ensures
        holds == comparison_holds(op, left@, right@),
{
    match op {
        BooleanOp::Eq => left.same(right),
        BooleanOp::Neq => !left.same(right),
        BooleanOp::Gt => right.before(left),
        BooleanOp::Gte => !left.before(right),
        BooleanOp::Lt => left.before(right),
        BooleanOp::Lte => !right.before(left),
    }
}

/// An aggregate function.
#[derive(Debug, Clone, Copy, PartialEq, Eq, Structural)]
pub enum AggOp {
    Avg,
    Count,
    Max,
    Min,
    Sum,
}

} // verus!
