//! Table schemas as SQLite reports them.

use crate::crdt::columns::is_synced_column;
use crate::crdt::columns::names_synced_column;
use crate::text::texts;
use vstd::prelude::*;

verus! {

/// One column of a table.
#[derive(Clone, Debug, PartialEq, Eq)]
pub struct ColumnInfo {
    /// Name as SQLite reports it.
    pub name: String,
    /// Declared type.
    pub column_type: String,
    /// Whether the column is part of the primary key.
    pub is_pk: bool,
}

/// What a [`ColumnInfo`] stands for.
pub struct ColumnView {
    pub name: Seq<char>,
    pub column_type: Seq<char>,
    pub is_pk: bool,
}

impl View for ColumnInfo {
    type V = ColumnView;

    open spec fn view(&self) -> ColumnView {
        ColumnView { name: self.name@, column_type: self.column_type@, is_pk: self.is_pk }
    }
}

/// What a schema stands for.
pub open spec fn schema_view(schema: Seq<ColumnInfo>) -> Seq<ColumnView> {
    schema.map_values(|c: ColumnInfo| c@)
}

/// Every column name, in declaration order.
pub open spec fn column_names(schema: Seq<ColumnView>) -> Seq<Seq<char>> {
    schema.map_values(|c: ColumnView| c.name)
}

/// The primary-key columns, in declaration order.
pub open spec fn pk_names(schema: Seq<ColumnView>) -> Seq<Seq<char>>
    decreases schema.len(),
{
    if schema.len() == 0 {
        Seq::empty()
    } else if schema.last().is_pk {
        pk_names(schema.drop_last()).push(schema.last().name)
    } else {
        pk_names(schema.drop_last())
    }
}

/// The columns that take part in sync, in declaration order: neither primary
/// key nor suffixed.
pub open spec fn data_names(schema: Seq<ColumnView>) -> Seq<Seq<char>>
    decreases schema.len(),
{
    if schema.len() == 0 {
        Seq::empty()
    } else if !schema.last().is_pk && is_synced_column(schema.last().name) {
        data_names(schema.drop_last()).push(schema.last().name)
    } else {
        data_names(schema.drop_last())
    }
}

/// `name` is a column.
pub open spec fn has_column(schema: Seq<ColumnView>, name: Seq<char>) -> bool {
    exists|i: int| 0 <= i < schema.len() && #[trigger] schema[i].name == name
}

/// True if the schema has a column called `name`.
pub fn schema_has_column(schema: &[ColumnInfo], name: &str) -> (r: bool)
    ensures
        r == has_column(schema_view(schema@), name@),
{
    let mut i: usize = 0;
    while i < schema.len()
        invariant
            i <= schema.len(),
            forall|j: int| 0 <= j < i ==> (#[trigger] schema@[j]).name@ != name@,
        decreases schema.len() - i,
    {
        if schema[i].name.as_str().eq(name) {
            assert(schema_view(schema@)[i as int].name == name@);
            return true;
        }
        i += 1;
    }
    assert forall|j: int| 0 <= j < schema_view(schema@).len() implies #[trigger] schema_view(
        schema@,
    )[j].name != name@ by {
        assert(schema@[j].name@ != name@);
    }
    false
}

/// The primary-key columns, in declaration order.
pub fn pk_columns(schema: &[ColumnInfo]) -> (r: Vec<String>)
    ensures
        texts(r@) == pk_names(schema_view(schema@)),
{
    let mut out: Vec<String> = Vec::new();
    let mut i: usize = 0;
    assert(texts(out@) =~= pk_names(schema_view(schema@).take(0)));
    while i < schema.len()
        invariant
            i <= schema.len(),
            texts(out@) == pk_names(schema_view(schema@).take(i as int)),
        decreases schema.len() - i,
    {
        let ghost next = schema_view(schema@).take(i + 1);
        assert(next.drop_last() =~= schema_view(schema@).take(i as int));
        if schema[i].is_pk {
            let ghost before = texts(out@);
            out.push(schema[i].name.clone());
            assert(texts(out@) =~= before.push(schema@[i as int].name@));
        }
        i += 1;
    }
    assert(schema_view(schema@).take(i as int) =~= schema_view(schema@));
    out
}

/// The columns that take part in sync, in declaration order.
pub fn data_columns(schema: &[ColumnInfo]) -> (r: Vec<String>)
    ensures
        texts(r@) == data_names(schema_view(schema@)),
{
    let mut out: Vec<String> = Vec::new();
    let mut i: usize = 0;
    assert(texts(out@) =~= data_names(schema_view(schema@).take(0)));
    while i < schema.len()
        invariant
            i <= schema.len(),
            texts(out@) == data_names(schema_view(schema@).take(i as int)),
        decreases schema.len() - i,
    {
        let ghost next = schema_view(schema@).take(i + 1);
        assert(next.drop_last() =~= schema_view(schema@).take(i as int));
        if !schema[i].is_pk && names_synced_column(schema[i].name.as_str()) {
            let ghost before = texts(out@);
            out.push(schema[i].name.clone());
            assert(texts(out@) =~= before.push(schema@[i as int].name@));
        }
        i += 1;
    }
    assert(schema_view(schema@).take(i as int) =~= schema_view(schema@));
    out
}

/// Splits a schema into the primary key and the columns that take part in
/// sync.
pub fn partition_columns(schema: &[ColumnInfo]) -> (r: (Vec<String>, Vec<String>))
    ensures
        texts(r.0@) == pk_names(schema_view(schema@)),
        texts(r.1@) == data_names(schema_view(schema@)),
{
    (pk_columns(schema), data_columns(schema))
}

/// `names` are the names of exactly the columns that are picked, each once and in
/// declaration order; `at` are their positions.
pub open spec fn picked_in_order(
    schema: Seq<ColumnView>,
    pick: spec_fn(ColumnView) -> bool,
    names: Seq<Seq<char>>,
    at: Seq<int>,
) -> bool {
    &&& at.len() == names.len()
    &&& forall|i: int, j: int|
        #![trigger at[i], at[j]]
        0 <= i < j < at.len() ==> at[i] < at[j]
    &&& forall|i: int|
        0 <= i < at.len() ==> 0 <= #[trigger] at[i] < schema.len() && pick(schema[at[i]])
            && names[i] == schema[at[i]].name
    &&& forall|k: int|
        0 <= k < schema.len() && pick(#[trigger] schema[k]) ==> at.contains(k)
}

/// A list that grows as the columns are looked at one by one picks in order.
pub proof fn lemma_picked_step(
    schema: Seq<ColumnView>,
    pick: spec_fn(ColumnView) -> bool,
    names: Seq<Seq<char>>,
    at: Seq<int>,
) -> (next: Seq<int>)
    requires
        schema.len() > 0,
        picked_in_order(schema.drop_last(), pick, names, at),
    ensures
        pick(schema.last()) ==> picked_in_order(
            schema,
            pick,
            names.push(schema.last().name),
            next,
        ),
        !pick(schema.last()) ==> picked_in_order(schema, pick, names, next),
{
    let rest = schema.drop_last();
    let n = schema.len() - 1;
    let next = if pick(schema.last()) {
        at.push(n)
    } else {
        at
    };
    let all = if pick(schema.last()) {
        names.push(schema.last().name)
    } else {
        names
    };
    assert forall|i: int| 0 <= i < next.len() implies 0 <= #[trigger] next[i] < schema.len()
        && pick(schema[next[i]]) && all[i] == schema[next[i]].name by {
        if i < at.len() {
            assert(next[i] == at[i]);
            assert(rest[at[i]] == schema[at[i]]);
        }
    }
    assert forall|k: int| 0 <= k < schema.len() && pick(
        #[trigger] schema[k],
    ) implies next.contains(k) by {
        if k < n {
            assert(rest[k] == schema[k]);
            assert(at.contains(k));
            let i = choose|i: int| 0 <= i < at.len() && at[i] == k;
            assert(next[i] == k);
        } else {
            assert(next[next.len() - 1] == k);
        }
    }
    next
}

/// The column is part of the primary key.
pub open spec fn is_key_column(c: ColumnView) -> bool {
    c.is_pk
}

/// The column carries data that takes part in sync: it is no part of the primary
/// key, and its name lacks the suffix.
pub open spec fn is_data_column(c: ColumnView) -> bool {
    !c.is_pk && !exists|stem: Seq<char>|
        c.name == #[trigger] crate::crdt::columns::local_name(stem)
}

/// The primary-key names are those of the primary-key columns, and the data names
/// those of the data columns: all of them, each once, in declaration order.
pub proof fn lemma_columns_are_told_apart(schema: Seq<ColumnView>) -> (r: (Seq<int>, Seq<int>))
    ensures
        picked_in_order(schema, |c: ColumnView| is_key_column(c), pk_names(schema), r.0),
        picked_in_order(schema, |c: ColumnView| is_data_column(c), data_names(schema), r.1),
    decreases schema.len(),
{
    if schema.len() == 0 {
        (Seq::empty(), Seq::empty())
    } else {
        let (a, b) = lemma_columns_are_told_apart(schema.drop_last());
        crate::crdt::columns::lemma_suffix_rule(schema.last().name);
        (
            lemma_picked_step(
                schema,
                |c: ColumnView| is_key_column(c),
                pk_names(schema.drop_last()),
                a,
            ),
            lemma_picked_step(
                schema,
                |c: ColumnView| is_data_column(c),
                data_names(schema.drop_last()),
                b,
            ),
        )
    }
}

/// Whoever is a data column is a column, takes part in sync and is no metadata
/// column; and every such column that is no primary key is one.
pub proof fn lemma_data_names(schema: Seq<ColumnView>, name: Seq<char>)
    ensures
        data_names(schema).contains(name) <==> exists|i: int|
            0 <= i < schema.len() && (#[trigger] schema[i]).name == name && !schema[i].is_pk
                && is_synced_column(name),
        data_names(schema).contains(name) ==> !crate::crdt::columns::is_metadata_column(name),
    decreases schema.len(),
{
    if crate::crdt::columns::is_metadata_column(name) {
        crate::crdt::columns::lemma_metadata_is_not_synced(name);
    }
    if schema.len() > 0 {
        let rest = schema.drop_last();
        lemma_data_names(rest, name);
        let last = schema.last();
        let names = data_names(rest);
        if !last.is_pk && is_synced_column(last.name) {
            assert(names.push(last.name).contains(name) <==> names.contains(name) || last.name
                == name) by {
                if names.contains(name) {
                    let k = choose|k: int| 0 <= k < names.len() && names[k] == name;
                    assert(names.push(last.name)[k] == name);
                }
                if last.name == name {
                    assert(names.push(last.name)[names.len() as int] == name);
                }
            }
        }
        if exists|i: int|
            0 <= i < rest.len() && (#[trigger] rest[i]).name == name && !rest[i].is_pk
                && is_synced_column(name) {
            let i = choose|i: int|
                0 <= i < rest.len() && (#[trigger] rest[i]).name == name && !rest[i].is_pk
                    && is_synced_column(name);
            assert(schema[i] == rest[i]);
        }
        if exists|i: int|
            0 <= i < schema.len() && (#[trigger] schema[i]).name == name && !schema[i].is_pk
                && is_synced_column(name) {
            let i = choose|i: int|
                0 <= i < schema.len() && (#[trigger] schema[i]).name == name && !schema[i].is_pk
                    && is_synced_column(name);
            if i < rest.len() {
                assert(rest[i] == schema[i]);
            }
        }
        if !last.is_pk && is_synced_column(last.name) && last.name == name {
            assert(schema[schema.len() - 1].name == name);
        }
    }
}

} // verus!
