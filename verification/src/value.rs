//! Data values and their total order.
//!
//! A [`DataValue`] is the executable representation; its deep view, a
//! [`Value`], is the mathematical object that every contract speaks of.
//! Values of different kinds are ordered by kind (`Null` least, `Bot`
//! greatest); values of one kind are ordered naturally, strings and lists
//! lexicographically.

use vstd::prelude::*;

verus! {

broadcast use vstd::std_specs::vec::group_vec_axioms;

/// The mathematical model of a data value.
pub enum Value {
    Null,
    Bool(bool),
    Int(int),
    Str(Seq<u8>),
    List(Seq<Value>),
    Validity { timestamp: int, is_assert: bool },
    Bot,
}

/// A row in the model: a finite sequence of values.
pub type Row = Seq<Value>;

/// The outcome of a three-way comparison.
#[derive(Clone, Copy, Debug, PartialEq, Eq, Structural)]
pub enum Comparison {
    Less,
    Equal,
    Greater,
}

/// A point in validity time together with the assert/retract flag.
#[derive(Clone, Copy, Debug, PartialEq, Eq, Structural)]
pub struct Validity {
    pub timestamp: i64,
    pub is_assert: bool,
}

/// An executable data value.
#[derive(Debug, PartialEq, Eq)]
pub enum DataValue {
    Null,
    Bool(bool),
    Int(i64),
    Str(String),
    List(Vec<DataValue>),
    Validity(Validity),
    Bot,
}

/// An executable row.
pub type Tuple = Vec<DataValue>;

impl DeepView for DataValue {
    type V = Value;

    open spec fn deep_view(&self) -> Value
        decreases self,
    {
        match self {
            DataValue::Null => Value::Null,
            DataValue::Bool(b) => Value::Bool(*b),
            DataValue::Int(i) => Value::Int(*i as int),
            DataValue::Str(s) => Value::Str(vstd::utf8::encode_utf8(s@)),
            DataValue::List(l) => Value::List(
                Seq::new(
                    l@.len(),
                    |i: int|
                        if 0 <= i < l@.len() {
                            l@[i].deep_view()
                        } else {
                            Value::Null
                        },
                ),
            ),
            DataValue::Validity(v) => Value::Validity {
                timestamp: v.timestamp as int,
                is_assert: v.is_assert,
            },
            DataValue::Bot => Value::Bot,
        }
    }
}

/// The position of a value's kind in the order of kinds.
pub open spec fn rank(v: Value) -> int {
    match v {
        Value::Null => 0,
        Value::Bool(_) => 1,
        Value::Int(_) => 2,
        Value::Str(_) => 3,
        Value::List(_) => 4,
        Value::Validity { .. } => 5,
        Value::Bot => 6,
    }
}

pub open spec fn compare_ints(a: int, b: int) -> Comparison {
    if a < b {
        Comparison::Less
    } else if a == b {
        Comparison::Equal
    } else {
        Comparison::Greater
    }
}

pub open spec fn compare_bools(a: bool, b: bool) -> Comparison {
    compare_ints(if a { 1 } else { 0 }, if b { 1 } else { 0 })
}

/// Validity sorts later timestamps first, and at one timestamp an assertion
/// before a retraction.
pub open spec fn compare_validity(t1: int, a1: bool, t2: int, a2: bool) -> Comparison {
    if t1 != t2 {
        compare_ints(t2, t1)
    } else {
        compare_bools(a2, a1)
    }
}

/// Lexicographic comparison of two byte strings from position `i` on.
pub open spec fn compare_bytes_from(a: Seq<u8>, b: Seq<u8>, i: int) -> Comparison
    decreases a.len() - i,
{
    if i < 0 {
        Comparison::Equal
    } else if i >= a.len() {
        if i >= b.len() {
            Comparison::Equal
        } else {
            Comparison::Less
        }
    } else if i >= b.len() {
        Comparison::Greater
    } else if a[i] != b[i] {
        compare_ints(a[i] as int, b[i] as int)
    } else {
        compare_bytes_from(a, b, i + 1)
    }
}

/// The total order on values.
pub open spec fn compare_values(a: Value, b: Value) -> Comparison
    decreases a, 0int,
{
    match a {
        Value::Bool(x) => match b {
            Value::Bool(y) => compare_bools(x, y),
            _ => compare_ints(rank(a), rank(b)),
        },
        Value::Int(x) => match b {
            Value::Int(y) => compare_ints(x, y),
            _ => compare_ints(rank(a), rank(b)),
        },
        Value::Str(x) => match b {
            Value::Str(y) => compare_bytes_from(x, y, 0),
            _ => compare_ints(rank(a), rank(b)),
        },
        Value::List(x) => match b {
            Value::List(y) => compare_rows_from(x, y, 0),
            _ => compare_ints(rank(a), rank(b)),
        },
        Value::Validity { timestamp: t1, is_assert: a1 } => match b {
            Value::Validity { timestamp: t2, is_assert: a2 } => compare_validity(t1, a1, t2, a2),
            _ => compare_ints(rank(a), rank(b)),
        },
        _ => compare_ints(rank(a), rank(b)),
    }
}

/// Lexicographic comparison of two rows from position `i` on.
pub open spec fn compare_rows_from(a: Seq<Value>, b: Seq<Value>, i: int) -> Comparison
    decreases a, a.len() - i,
{
    if i < 0 {
        Comparison::Equal
    } else if i >= a.len() {
        if i >= b.len() {
            Comparison::Equal
        } else {
            Comparison::Less
        }
    } else if i >= b.len() {
        Comparison::Greater
    } else {
        match compare_values(a[i], b[i]) {
            Comparison::Equal => compare_rows_from(a, b, i + 1),
            other => other,
        }
    }
}

/// The lexicographic order on rows.
pub open spec fn compare_rows(a: Seq<Value>, b: Seq<Value>) -> Comparison {
    compare_rows_from(a, b, 0)
}

pub open spec fn flip(c: Comparison) -> Comparison {
    match c {
        Comparison::Less => Comparison::Greater,
        Comparison::Equal => Comparison::Equal,
        Comparison::Greater => Comparison::Less,
    }
}

/// `a` precedes `b` strictly.
pub open spec fn row_lt(a: Seq<Value>, b: Seq<Value>) -> bool {
    compare_rows(a, b) == Comparison::Less
}

/// `a` precedes `b` or equals it.
pub open spec fn row_le(a: Seq<Value>, b: Seq<Value>) -> bool {
    compare_rows(a, b) != Comparison::Greater
}

// ---------------------------------------------------------------------
// The order is total: reflexive, antisymmetric, transitive.
// ---------------------------------------------------------------------

pub proof fn lemma_bytes_equal(a: Seq<u8>, b: Seq<u8>, i: int)
    requires
        0 <= i <= a.len(),
        i <= b.len(),
    ensures
        compare_bytes_from(a, b, i) == Comparison::Equal <==> (a.len() == b.len() && forall|j: int|
            i <= j < a.len() ==> a[j] == b[j]),
    decreases a.len() - i,
{
    if i < a.len() && i < b.len() {
        if a[i] == b[i] {
            lemma_bytes_equal(a, b, i + 1);
        }
    }
}

pub proof fn lemma_bytes_flip(a: Seq<u8>, b: Seq<u8>, i: int)
    requires
        0 <= i,
    ensures
        compare_bytes_from(b, a, i) == flip(compare_bytes_from(a, b, i)),
    decreases a.len() - i,
{
    if i < a.len() && i < b.len() {
        if a[i] == b[i] {
            lemma_bytes_flip(a, b, i + 1);
        }
    }
}

pub proof fn lemma_bytes_trans(a: Seq<u8>, b: Seq<u8>, c: Seq<u8>, i: int)
    requires
        0 <= i,
        compare_bytes_from(a, b, i) != Comparison::Greater,
        compare_bytes_from(b, c, i) != Comparison::Greater,
    ensures
        compare_bytes_from(a, c, i) != Comparison::Greater,
        (compare_bytes_from(a, b, i) == Comparison::Less || compare_bytes_from(b, c, i)
            == Comparison::Less) ==> compare_bytes_from(a, c, i) == Comparison::Less,
    decreases a.len() - i,
{
    if i < a.len() && i < b.len() && i < c.len() {
        if a[i] == b[i] && b[i] == c[i] {
            lemma_bytes_trans(a, b, c, i + 1);
        }
    }
}

/// Two values compare equal exactly when they are the same value.
pub proof fn lemma_compare_equal(a: Value, b: Value)
    ensures
        compare_values(a, b) == Comparison::Equal <==> a == b,
    decreases a, 0int,
{
    match a {
        Value::Str(x) => match b {
            Value::Str(y) => {
                lemma_bytes_equal(x, y, 0);
                if compare_values(a, b) == Comparison::Equal {
                    assert(x =~= y);
                }
            },
            _ => {},
        },
        Value::List(x) => match b {
            Value::List(y) => {
                lemma_rows_equal(x, y, 0);
                if compare_values(a, b) == Comparison::Equal {
                    assert(x =~= y);
                }
            },
            _ => {},
        },
        _ => {},
    }
}

pub proof fn lemma_rows_equal(a: Seq<Value>, b: Seq<Value>, i: int)
    requires
        0 <= i <= a.len(),
        i <= b.len(),
    ensures
        compare_rows_from(a, b, i) == Comparison::Equal <==> (a.len() == b.len() && forall|j: int|
            i <= j < a.len() ==> a[j] == b[j]),
    decreases a, a.len() - i,
{
    if i < a.len() && i < b.len() {
        lemma_compare_equal(a[i], b[i]);
        if a[i] == b[i] {
            lemma_rows_equal(a, b, i + 1);
        }
    }
}

/// Swapping the arguments of a comparison flips its outcome.
pub proof fn lemma_compare_flip(a: Value, b: Value)
    ensures
        compare_values(b, a) == flip(compare_values(a, b)),
    decreases a, 0int,
{
    match a {
        Value::Str(x) => match b {
            Value::Str(y) => {
                lemma_bytes_flip(x, y, 0);
            },
            _ => {},
        },
        Value::List(x) => match b {
            Value::List(y) => {
                lemma_rows_flip(x, y, 0);
            },
            _ => {},
        },
        _ => {},
    }
}

pub proof fn lemma_rows_flip(a: Seq<Value>, b: Seq<Value>, i: int)
    requires
        0 <= i,
    ensures
        compare_rows_from(b, a, i) == flip(compare_rows_from(a, b, i)),
    decreases a, a.len() - i,
{
    if i < a.len() && i < b.len() {
        lemma_compare_flip(a[i], b[i]);
        lemma_rows_flip(a, b, i + 1);
    }
}

/// The order on values is transitive, strictly so when one step is strict.
pub proof fn lemma_compare_trans(a: Value, b: Value, c: Value)
    requires
        compare_values(a, b) != Comparison::Greater,
        compare_values(b, c) != Comparison::Greater,
    ensures
        compare_values(a, c) != Comparison::Greater,
        (compare_values(a, b) == Comparison::Less || compare_values(b, c) == Comparison::Less)
            ==> compare_values(a, c) == Comparison::Less,
    decreases a, 0int,
{
    match a {
        Value::Str(x) => match b {
            Value::Str(y) => match c {
                Value::Str(z) => {
                    lemma_bytes_trans(x, y, z, 0);
                },
                _ => {},
            },
            _ => {},
        },
        Value::List(x) => match b {
            Value::List(y) => match c {
                Value::List(z) => {
                    lemma_rows_trans(x, y, z, 0);
                },
                _ => {},
            },
            _ => {},
        },
        _ => {},
    }
}

pub proof fn lemma_rows_trans(a: Seq<Value>, b: Seq<Value>, c: Seq<Value>, i: int)
    requires
        0 <= i,
        compare_rows_from(a, b, i) != Comparison::Greater,
        compare_rows_from(b, c, i) != Comparison::Greater,
    ensures
        compare_rows_from(a, c, i) != Comparison::Greater,
        (compare_rows_from(a, b, i) == Comparison::Less || compare_rows_from(b, c, i)
            == Comparison::Less) ==> compare_rows_from(a, c, i) == Comparison::Less,
    decreases a, a.len() - i,
{
    if i < a.len() && i < b.len() && i < c.len() {
        lemma_compare_equal(a[i], b[i]);
        lemma_compare_equal(b[i], c[i]);
        lemma_compare_equal(a[i], c[i]);
        lemma_compare_trans(a[i], b[i], c[i]);
        if a[i] == b[i] && b[i] == c[i] {
            lemma_rows_trans(a, b, c, i + 1);
        }
    }
}

/// Rows compare equal exactly when they are the same row.
pub proof fn lemma_compare_rows_equal(a: Seq<Value>, b: Seq<Value>)
    ensures
        compare_rows(a, b) == Comparison::Equal <==> a == b,
{
    lemma_rows_equal(a, b, 0);
    if compare_rows(a, b) == Comparison::Equal {
        assert(a =~= b);
    }
}

/// The order on rows is antisymmetric.
pub proof fn lemma_compare_rows_flip(a: Seq<Value>, b: Seq<Value>)
    ensures
        compare_rows(b, a) == flip(compare_rows(a, b)),
{
    lemma_rows_flip(a, b, 0);
}

/// The order on rows is transitive, strictly so when one step is strict.
pub proof fn lemma_compare_rows_trans(a: Seq<Value>, b: Seq<Value>, c: Seq<Value>)
    requires
        row_le(a, b),
        row_le(b, c),
    ensures
        row_le(a, c),
        (row_lt(a, b) || row_lt(b, c)) ==> row_lt(a, c),
{
    lemma_rows_trans(a, b, c, 0);
}

// ---------------------------------------------------------------------
// Executable comparison
// ---------------------------------------------------------------------

/// The view of a list of values, element by element.
pub proof fn lemma_tuple_view(t: &Vec<DataValue>)
    ensures
        t.deep_view().len() == t@.len(),
        forall|i: int| 0 <= i < t@.len() ==> #[trigger] t.deep_view()[i] == t@[i].deep_view(),
        DataValue::List(*t).deep_view() == Value::List(t.deep_view()),
{
    assert(DataValue::List(*t).deep_view()->List_0 =~= t.deep_view());
}

fn compare_i64(a: i64, b: i64) -> (r: Comparison)
    ensures
        r == compare_ints(a as int, b as int),
{
    if a < b {
        Comparison::Less
    } else if a == b {
        Comparison::Equal
    } else {
        Comparison::Greater
    }
}

fn compare_bool(a: bool, b: bool) -> (r: Comparison)
    ensures
        r == compare_bools(a, b),
{
    if a == b {
        Comparison::Equal
    } else if b {
        Comparison::Less
    } else {
        Comparison::Greater
    }
}

fn compare_byte_slices(a: &[u8], b: &[u8]) -> (r: Comparison)
    ensures
        r == compare_bytes_from(a@, b@, 0),
{
    let mut i: usize = 0;
    while i < a.len() && i < b.len()
        invariant
            0 <= i <= a@.len(),
            i <= b@.len(),
            compare_bytes_from(a@, b@, 0) == compare_bytes_from(a@, b@, i as int),
        decreases a@.len() - i,
    {
        if a[i] < b[i] {
            return Comparison::Less;
        }
        if a[i] > b[i] {
            return Comparison::Greater;
        }
        i = i + 1;
    }
    if i < b.len() {
        Comparison::Less
    } else if i < a.len() {
        Comparison::Greater
    } else {
        Comparison::Equal
    }
}

impl Validity {
    /// Three-way comparison in the order in which validity is stored.
    pub fn compare(&self, other: &Validity) -> (r: Comparison)
        ensures
            r == compare_validity(
                self.timestamp as int,
                self.is_assert,
                other.timestamp as int,
                other.is_assert,
            ),
    {
        if self.timestamp != other.timestamp {
            compare_i64(other.timestamp, self.timestamp)
        } else {
            compare_bool(other.is_assert, self.is_assert)
        }
    }
}

impl DataValue {
    /// The position of this value's kind in the order of kinds.
    pub fn kind_rank(&self) -> (r: u8)
        ensures
            r as int == rank(self.deep_view()),
    {
        match self {
            DataValue::Null => 0,
            DataValue::Bool(_) => 1,
            DataValue::Int(_) => 2,
            DataValue::Str(_) => 3,
            DataValue::List(_) => 4,
            DataValue::Validity(_) => 5,
            DataValue::Bot => 6,
        }
    }

    /// Three-way comparison in the total order on values.
    pub fn compare(&self, other: &DataValue) -> (r: Comparison)
        ensures
            r == compare_values(self.deep_view(), other.deep_view()),
        decreases self, 0int,
    {
        match self {
            DataValue::Bool(x) => {
                if let DataValue::Bool(y) = other {
                    return compare_bool(*x, *y);
                }
            },
            DataValue::Int(x) => {
                if let DataValue::Int(y) = other {
                    return compare_i64(*x, *y);
                }
            },
            DataValue::Str(x) => {
                if let DataValue::Str(y) = other {
                    return compare_byte_slices(x.as_str().as_bytes(), y.as_str().as_bytes());
                }
            },
            DataValue::List(x) => {
                if let DataValue::List(y) = other {
                    proof {
                        lemma_tuple_view(x);
                        lemma_tuple_view(y);
                    }
                    return compare_tuples(x, y);
                }
            },
            DataValue::Validity(x) => {
                if let DataValue::Validity(y) = other {
                    return x.compare(y);
                }
            },
            _ => {},
        }
        let ra = self.kind_rank();
        let rb = other.kind_rank();
        if ra < rb {
            Comparison::Less
        } else if ra == rb {
            Comparison::Equal
        } else {
            Comparison::Greater
        }
    }

    /// Whether two values are the same value.
    pub fn same(&self, other: &DataValue) -> (r: bool)
        ensures
            r == (self.deep_view() == other.deep_view()),
    {
        proof {
            lemma_compare_equal(self.deep_view(), other.deep_view());
        }
        self.compare(other) == Comparison::Equal
    }

    /// Whether this is the least value.
    pub fn is_null(&self) -> (r: bool)
        ensures
            r == (self.deep_view() == Value::Null),
    {
        match self {
            DataValue::Null => true,
            _ => false,
        }
    }

    /// Whether this is the greatest value.
    pub fn is_bot(&self) -> (r: bool)
        ensures
            r == (self.deep_view() == Value::Bot),
    {
        match self {
            DataValue::Bot => true,
            _ => false,
        }
    }
}

/// Three-way lexicographic comparison of two rows.
pub fn compare_tuples(a: &Vec<DataValue>, b: &Vec<DataValue>) -> (r: Comparison)
    ensures
        r == compare_rows(a.deep_view(), b.deep_view()),
    decreases a, 1int,
{
    let mut i: usize = 0;
    while i < a.len() && i < b.len()
        invariant
            0 <= i <= a@.len(),
            i <= b@.len(),
            compare_rows(a.deep_view(), b.deep_view()) == compare_rows_from(
                a.deep_view(),
                b.deep_view(),
                i as int,
            ),
        decreases a@.len() - i,
    {
        let c = a[i].compare(&b[i]);
        match c {
            Comparison::Equal => {},
            _ => {
                return c;
            },
        }
        i = i + 1;
    }
    if i < b.len() {
        Comparison::Less
    } else if i < a.len() {
        Comparison::Greater
    } else {
        Comparison::Equal
    }
}

/// Whether two rows are the same row.
pub fn same_tuple(a: &Vec<DataValue>, b: &Vec<DataValue>) -> (r: bool)
    ensures
        r == (a.deep_view() == b.deep_view()),
{
    proof {
        lemma_compare_rows_equal(a.deep_view(), b.deep_view());
    }
    compare_tuples(a, b) == Comparison::Equal
}

impl Clone for DataValue {
    fn clone(&self) -> (r: DataValue)
        ensures
            r.deep_view() == self.deep_view(),
        decreases self, 0int,
    {
        match self {
            DataValue::Null => DataValue::Null,
            DataValue::Bool(b) => DataValue::Bool(*b),
            DataValue::Int(i) => DataValue::Int(*i),
            DataValue::Str(s) => DataValue::Str(s.clone()),
            DataValue::List(l) => {
                let out = clone_tuple(l);
                proof {
                    lemma_tuple_view(&out);
                    lemma_tuple_view(l);
                }
                DataValue::List(out)
            },
            DataValue::Validity(v) => DataValue::Validity(*v),
            DataValue::Bot => DataValue::Bot,
        }
    }
}

/// A copy of a row.
pub fn clone_tuple(t: &Vec<DataValue>) -> (r: Vec<DataValue>)
    ensures
        r.deep_view() == t.deep_view(),
    decreases t, 1int,
{
    let mut out: Vec<DataValue> = Vec::new();
    let mut i: usize = 0;
    while i < t.len()
        invariant
            0 <= i <= t@.len(),
            out@.len() == i,
            forall|j: int| 0 <= j < i ==> out@[j].deep_view() == t@[j].deep_view(),
        decreases t@.len() - i,
    {
        out.push(t[i].clone());
        i = i + 1;
    }
    assert(out.deep_view() =~= t.deep_view());
    out
}

} // verus!
