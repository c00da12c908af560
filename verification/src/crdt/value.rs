//! SQL values that are bound to statements.

use crate::json::JsonValue;
use crate::json::JsonView;
use vstd::prelude::*;

verus! {

/// A value of SQLite.
#[derive(Clone, Debug)]
pub enum SqlValue {
    Null,
    Integer(i64),
    /// A floating-point number, held as the decimal text that reads as it.
    Real(String),
    Text(String),
    Blob(Vec<u8>),
}

/// What a [`SqlValue`] stands for.
pub enum SqlView {
    Null,
    Integer(i64),
    Real(Seq<char>),
    Text(Seq<char>),
    Blob(Seq<u8>),
}

impl View for SqlValue {
    type V = SqlView;

    open spec fn view(&self) -> SqlView {
        match self {
            SqlValue::Null => SqlView::Null,
            SqlValue::Integer(i) => SqlView::Integer(*i),
            SqlValue::Real(s) => SqlView::Real(s@),
            SqlValue::Text(s) => SqlView::Text(s@),
            SqlValue::Blob(b) => SqlView::Blob(b@),
        }
    }
}

/// What a list of values stands for.
pub open spec fn sql_views(v: Seq<SqlValue>) -> Seq<SqlView> {
    v.map_values(|x: SqlValue| x@)
}

/// How a JSON value is stored and looked up: booleans as 0 and 1, integers of
/// 64 bits as integers, other numbers as floating point, strings as text, and
/// arrays and objects as their compact text.
pub open spec fn sql_of_json(v: JsonView) -> SqlView {
    match v {
        JsonView::Null => SqlView::Null,
        JsonView::Bool(b) => SqlView::Integer(if b {
            1
        } else {
            0
        }),
        JsonView::Number { text, integer } => match integer {
            Some(i) => SqlView::Integer(i),
            None => SqlView::Real(text),
        },
        JsonView::Text(s) => SqlView::Text(s),
        JsonView::Composite(s) => SqlView::Text(s),
    }
}

/// The SQL value that a JSON value is bound as.
pub fn value_of_json(v: &JsonValue) -> (r: SqlValue)
    ensures
        r@ == sql_of_json(v@),
{
    match v {
        JsonValue::Null => SqlValue::Null,
        JsonValue::Bool(b) => SqlValue::Integer(
            if *b {
                1
            } else {
                0
            },
        ),
        JsonValue::Number { text, integer } => match integer {
            Some(i) => SqlValue::Integer(*i),
            None => SqlValue::Real(text.clone()),
        },
        JsonValue::Text(s) => SqlValue::Text(s.clone()),
        JsonValue::Composite(s) => SqlValue::Text(s.clone()),
    }
}

impl SqlValue {
    /// A value that stands for the same.
    pub fn copy(&self) -> (r: SqlValue)
        ensures
            r@ == self@,
    {
        match self {
            SqlValue::Null => SqlValue::Null,
            SqlValue::Integer(i) => SqlValue::Integer(*i),
            SqlValue::Real(s) => SqlValue::Real(s.clone()),
            SqlValue::Text(s) => SqlValue::Text(s.clone()),
            SqlValue::Blob(b) => {
                let bytes = vstd::slice::slice_to_vec(b.as_slice());
                SqlValue::Blob(bytes)
            },
        }
    }
}

/// Values that stand for the same.
pub fn copy_values(values: &[SqlValue]) -> (r: Vec<SqlValue>)
    ensures
        sql_views(r@) == sql_views(values@),
{
    let mut out: Vec<SqlValue> = Vec::new();
    let mut i: usize = 0;
    while i < values.len()
        invariant
            i <= values@.len(),
            out@.len() == i,
            forall|k: int| 0 <= k < i ==> (#[trigger] out@[k])@ == values@[k]@,
        decreases values.len() - i,
    {
        out.push(values[i].copy());
        i += 1;
    }
    assert(sql_views(out@) =~= sql_views(values@));
    out
}

/// What is stored of a value tells what it was: a null is stored as null and
/// nothing else is, truth as 1 and falsehood as 0, and two integers, two strings
/// or two other numbers are stored alike only where they are the same.
pub proof fn lemma_stored_values_stay_apart(a: JsonView, b: JsonView)
    ensures
        sql_of_json(a) is Null <==> a is Null,
        a == JsonView::Bool(true) ==> sql_of_json(a) == SqlView::Integer(1),
        a == JsonView::Bool(false) ==> sql_of_json(a) == SqlView::Integer(0),
        (a matches JsonView::Number { integer: Some(i), .. } && b matches JsonView::Number {
            integer: Some(j),
            ..
        }) ==> (sql_of_json(a) == sql_of_json(b) <==> a->integer == b->integer),
        a is Text && b is Text ==> (sql_of_json(a) == sql_of_json(b) <==> a == b),
        a is Text ==> sql_of_json(a) is Text,
        (a matches JsonView::Number { integer: Some(i), .. }) ==> sql_of_json(a) is Integer,
        (a matches JsonView::Number { integer: None, .. }) ==> sql_of_json(a) is Real,
{
}

} // verus!
