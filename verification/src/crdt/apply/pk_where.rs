//! The `WHERE` clause that matches one row by its primary key.

use crate::crdt::identifier::is_safe_identifier;
use crate::crdt::identifier::safe_identifier;
use crate::crdt::value::sql_of_json;
use crate::crdt::value::sql_views;
use crate::crdt::value::value_of_json;
use crate::crdt::value::SqlValue;
use crate::crdt::value::SqlView;
use crate::json::JsonObject;
use crate::json::JsonValue;
use crate::json::JsonView;
use crate::text::join_texts;
use crate::text::joined;
use crate::text::texts;
use vstd::prelude::*;

verus! {

/// One column of the key: equality with a parameter, or `IS NULL`.
pub open spec fn pk_condition(m: (Seq<char>, JsonView)) -> Seq<char> {
    if m.1 is Null {
        "\""@ + m.0 + "\" IS NULL"@
    } else {
        "\""@ + m.0 + "\" = ?"@
    }
}

/// The conditions of a key, one for each column.
pub open spec fn pk_conditions(row_pks: Seq<(Seq<char>, JsonView)>) -> Seq<Seq<char>> {
    row_pks.map_values(|m: (Seq<char>, JsonView)| pk_condition(m))
}

/// The clause that matches exactly the row with this key.
pub open spec fn pk_clause(row_pks: Seq<(Seq<char>, JsonView)>) -> Seq<char> {
    joined(pk_conditions(row_pks), " AND "@)
}

/// The values of the key that are bound as parameters: those that are not
/// null, in order.
pub open spec fn pk_bound(row_pks: Seq<(Seq<char>, JsonView)>) -> Seq<JsonView>
    decreases row_pks.len(),
{
    if row_pks.len() == 0 {
        Seq::empty()
    } else if row_pks.last().1 is Null {
        pk_bound(row_pks.drop_last())
    } else {
        pk_bound(row_pks.drop_last()).push(row_pks.last().1)
    }
}

/// A clause can be built: the key is not empty and every column name is safe.
pub open spec fn pk_usable(row_pks: Seq<(Seq<char>, JsonView)>) -> bool {
    row_pks.len() > 0 && forall|i: int|
        0 <= i < row_pks.len() ==> safe_identifier((#[trigger] row_pks[i]).0)
}

/// What a list of JSON values stands for.
pub open spec fn json_views(v: Seq<JsonValue>) -> Seq<JsonView> {
    v.map_values(|x: JsonValue| x@)
}

/// The clause for the row with this primary key, and the values to bind.
/// `None` if the key is empty or any column name is unsafe: leaving single
/// columns out would match more than the one row.
pub fn build_pk_where_from_map(row_pks: &JsonObject) -> (r: Option<(String, Vec<JsonValue>)>)
    ensures
        match r {
            Some((clause, values)) => {
                &&& pk_usable(row_pks@)
                &&& clause@ == pk_clause(row_pks@)
                &&& json_views(values@) == pk_bound(row_pks@)
            },
            None => !pk_usable(row_pks@),
        },
{
    let n: usize = row_pks.len();
    if n == 0 {
        return None;
    }
    let mut parts: Vec<String> = Vec::new();
    let mut values: Vec<JsonValue> = Vec::new();
    let mut i: usize = 0;
    assert(texts(parts@) =~= pk_conditions(row_pks@.take(0)));
    assert(json_views(values@) =~= pk_bound(row_pks@.take(0)));
    while i < n
        invariant
            n == row_pks@.len(),
            i <= n,
            forall|j: int| 0 <= j < i ==> safe_identifier((#[trigger] row_pks@[j]).0),
            texts(parts@) == pk_conditions(row_pks@.take(i as int)),
            json_views(values@) == pk_bound(row_pks@.take(i as int)),
        decreases n - i,
    {
        let name = row_pks.key_at(i);
        let value = row_pks.value_at(i);
        if !is_safe_identifier(name) {
            assert(!safe_identifier(row_pks@[i as int].0));
            return None;
        }
        let ghost next = row_pks@.take(i + 1);
        let ghost before = texts(parts@);
        let ghost bound = json_views(values@);
        assert(next.drop_last() =~= row_pks@.take(i as int));
        let mut part = "\"".to_owned();
        part.push_str(name);
        let null: bool = match value {
            JsonValue::Null => true,
            _ => false,
        };
        if null {
            part.push_str("\" IS NULL");
        } else {
            part.push_str("\" = ?");
            values.push(value.copy());
            assert(json_views(values@) =~= bound.push(row_pks@[i as int].1));
        }
        assert(part@ == pk_condition(row_pks@[i as int]));
        parts.push(part);
        assert(texts(parts@) =~= before.push(pk_condition(row_pks@[i as int])));
        assert(pk_conditions(next) =~= before.push(pk_condition(row_pks@[i as int])));
        i += 1;
    }
    assert(row_pks@.take(n as int) =~= row_pks@);
    let clause = join_texts(parts.as_slice(), " AND ");
    Some((clause, values))
}

/// The SQL values to bind for a key.
pub open spec fn pk_params(row_pks: Seq<(Seq<char>, JsonView)>) -> Seq<SqlView> {
    pk_bound(row_pks).map_values(|v: JsonView| sql_of_json(v))
}

/// The SQL values to bind for key values.
pub fn bind_pk_values(values: &[JsonValue]) -> (r: Vec<SqlValue>)
    ensures
        sql_views(r@) == json_views(values@).map_values(|v: JsonView| sql_of_json(v)),
{
    let mut out: Vec<SqlValue> = Vec::new();
    let mut i: usize = 0;
    while i < values.len()
        invariant
            i <= values.len(),
            out.len() == i,
            forall|j: int| 0 <= j < i ==> (#[trigger] out@[j])@ == sql_of_json(values@[j]@),
        decreases values.len() - i,
    {
        out.push(value_of_json(&values[i]));
        i += 1;
    }
    assert(sql_views(out@) =~= json_views(values@).map_values(|v: JsonView| sql_of_json(v)));
    out
}

/// Every condition of a usable key is in the clause, and a placeholder stands
/// for each bound value: one per column that is not null.
pub proof fn lemma_pk_bound_counts(row_pks: Seq<(Seq<char>, JsonView)>)
    ensures
        pk_conditions(row_pks).len() == row_pks.len(),
        pk_bound(row_pks).len() <= row_pks.len(),
        (forall|i: int| 0 <= i < row_pks.len() ==> !((#[trigger] row_pks[i]).1 is Null))
            ==> pk_bound(row_pks).len() == row_pks.len(),
    decreases row_pks.len(),
{
    if row_pks.len() > 0 {
        let rest = row_pks.drop_last();
        lemma_pk_bound_counts(rest);
        if forall|i: int| 0 <= i < row_pks.len() ==> !((#[trigger] row_pks[i]).1 is Null) {
            assert forall|i: int| 0 <= i < rest.len() implies !((#[trigger] rest[i]).1 is Null) by {
                assert(rest[i] == row_pks[i]);
            }
            assert(!(row_pks[row_pks.len() - 1].1 is Null));
        }
    }
}

} // verus!
