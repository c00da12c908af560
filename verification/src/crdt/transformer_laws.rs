//! What the rewriting of statements keeps and what it adds.

use crate::crdt::cells::Cell;
use crate::crdt::columns::lemma_metadata_columns_differ;
use crate::crdt::columns::lemma_suffix_rule;
use crate::crdt::columns::local_name;
use crate::crdt::columns::COLUMN_HLCS_COLUMN;
use crate::crdt::columns::COLUMN_SIGS_COLUMN;
use crate::crdt::columns::HLC_TIMESTAMP_COLUMN;
use crate::crdt::insert_transformer::column_index;
use crate::crdt::insert_transformer::insert_plan;
use crate::crdt::insert_transformer::lemma_column_index;
use crate::crdt::insert_transformer::InsertPlanView;
use crate::crdt::sql::statement_shape;
use crate::crdt::sql::InsertView;
use crate::crdt::sql::ShapeView;
use crate::crdt::sql::SourceView;
use crate::crdt::sql::TargetView;
use crate::crdt::transformer::ddl_changed;
use crate::crdt::transformer::ddl_changes;
use crate::crdt::transformer::ddl_refused;
use crate::crdt::transformer::ddl_texts;
use crate::crdt::transformer::is_sync_target;
use crate::crdt::transformer::metadata_columns;
use crate::crdt::transformer::statement_outcome;
use crate::crdt::transformer::statement_plan;
use crate::crdt::transformer::staying_columns;
use crate::crdt::transformer::table_of;
use crate::crdt::transformer::unquoted;
use crate::crdt::transformer::StatementPlanView;
use crate::crdt::transformer::Transformed;
use crate::error::DatabaseError;
use crate::text::trimmed;
use crate::text::trimmed_end;
use crate::text::trimmed_start;
use vstd::prelude::*;

verus! {

/// `keep` lists the positions of the columns that are none of the three metadata
/// columns: every one of them, once, in order.
pub open spec fn keeps_the_rest(names: Seq<Seq<char>>, keep: Seq<usize>) -> bool {
    &&& forall|i: int, j: int|
        #![trigger keep[i], keep[j]]
        0 <= i < j < keep.len() ==> keep[i] < keep[j]
    &&& forall|i: int|
        0 <= i < keep.len() ==> (#[trigger] keep[i]) < names.len() && names[keep[i] as int]
            != HLC_TIMESTAMP_COLUMN@ && names[keep[i] as int] != COLUMN_HLCS_COLUMN@
            && names[keep[i] as int] != COLUMN_SIGS_COLUMN@
    &&& forall|p: int|
        0 <= p < names.len() && #[trigger] names[p] != HLC_TIMESTAMP_COLUMN@ && names[p]
            != COLUMN_HLCS_COLUMN@ && names[p] != COLUMN_SIGS_COLUMN@ ==> keep.contains(p as usize)
}

/// A CREATE TABLE keeps every column of the caller but the three metadata
/// columns, each once and in its order: a column that merely takes no part in
/// sync stays.
pub proof fn lemma_create_table_keeps_the_rest(names: Seq<Seq<char>>)
    requires
        names.len() <= usize::MAX,
    ensures
        keeps_the_rest(names, staying_columns(names)),
    decreases names.len(),
{
    if names.len() > 0 {
        let rest = names.drop_last();
        let n = names.len() - 1;
        let before = staying_columns(rest);
        let keep = staying_columns(names);
        lemma_create_table_keeps_the_rest(rest);
        assert(names[n] == names.last());
        assert forall|i: int| 0 <= i < keep.len() implies (#[trigger] keep[i]) < names.len()
            && names[keep[i] as int] != HLC_TIMESTAMP_COLUMN@ && names[keep[i] as int]
            != COLUMN_HLCS_COLUMN@ && names[keep[i] as int] != COLUMN_SIGS_COLUMN@ by {
            if i < before.len() {
                assert(keep[i] == before[i]);
                assert(rest[before[i] as int] == names[before[i] as int]);
            }
        }
        assert forall|i: int, j: int|
            #![trigger keep[i], keep[j]]
            0 <= i < j < keep.len() implies keep[i] < keep[j] by {
            assert(keep[i] == before[i]);
            if j < before.len() {
                assert(keep[j] == before[j]);
            }
        }
        assert forall|p: int|
            0 <= p < names.len() && #[trigger] names[p] != HLC_TIMESTAMP_COLUMN@ && names[p]
                != COLUMN_HLCS_COLUMN@ && names[p] != COLUMN_SIGS_COLUMN@ implies keep.contains(
            p as usize,
        ) by {
            if p < n {
                assert(rest[p] == names[p]);
                assert(before.contains(p as usize));
                let k = choose|k: int| 0 <= k < before.len() && before[k] == p as usize;
                assert(keep[k] == p as usize);
            } else {
                assert(keep[keep.len() - 1] == p as usize);
            }
        }
    }
}

/// The name of the table says that it takes no part in sync.
pub open spec fn is_local(t: TargetView) -> bool {
    exists|stem: Seq<char>| table_of(t) == #[trigger] local_name(stem)
}

proof fn lemma_is_local(t: TargetView)
    ensures
        is_local(t) <==> !is_sync_target(t),
{
    lemma_suffix_rule(table_of(t));
}

/// Every old place stays where it was, and the timestamp comes last.
pub open spec fn stamp_comes_last(cells: Seq<Cell>, width: nat) -> bool {
    &&& cells.len() == width + 1
    &&& forall|k: int| 0 <= k < width ==> #[trigger] cells[k] == Some(k as usize)
    &&& cells[width as int] is None
}

/// What becomes of a statement: on a table that takes part in sync a CREATE
/// TABLE keeps its columns and names the table, unless it takes its rows from a
/// query, an UPDATE keeps its assignments and sets the timestamp last, an INSERT
/// is stamped, and an ALTER TABLE names the table. Everything else stays.
pub proof fn lemma_what_becomes_of_a_statement(shape: ShapeView)
    requires
        shape matches ShapeView::CreateTable { create, .. } ==> create.columns.len() <= usize::MAX,
    ensures
        match shape {
            ShapeView::CreateTable { target, create } => if is_local(target) {
                statement_plan(shape) is Keep
            } else if create.has_query {
                statement_plan(shape) is RefuseQuery
            } else {
                statement_plan(shape) matches StatementPlanView::CreateTable { table, keep }
                    && table == table_of(target) && keeps_the_rest(create.columns, keep)
            },
            ShapeView::Update { target, assignments } => if is_local(target) {
                statement_plan(shape) is Keep
            } else {
                statement_plan(shape) matches StatementPlanView::Update { assignments: cells }
                    && stamp_comes_last(cells, assignments as nat)
            },
            ShapeView::Insert { target, insert } => if is_local(target) {
                statement_plan(shape) is Keep
            } else {
                statement_plan(shape) == StatementPlanView::Insert(
                    insert_plan(insert, HLC_TIMESTAMP_COLUMN@),
                )
            },
            ShapeView::AlterTable { target } => if is_local(target) {
                statement_plan(shape) is Keep
            } else {
                statement_plan(shape) matches StatementPlanView::KeepFor { table } && table
                    == table_of(target)
            },
            ShapeView::Other => statement_plan(shape) is Keep,
        },
{
    match shape {
        ShapeView::CreateTable { target, create } => {
            lemma_is_local(target);
            lemma_create_table_keeps_the_rest(create.columns);
        },
        ShapeView::Update { target, .. } => {
            lemma_is_local(target);
        },
        ShapeView::Insert { target, .. } => {
            lemma_is_local(target);
        },
        ShapeView::AlterTable { target } => {
            lemma_is_local(target);
        },
        ShapeView::Other => {},
    }
}

/// The columns that are added are the three metadata columns, each once. They hold
/// text, and a row that says nothing of its signatures has none.
pub proof fn lemma_metadata_columns_are_added(name: Seq<char>)
    ensures
        metadata_columns().len() == 3,
        (name == HLC_TIMESTAMP_COLUMN@ || name == COLUMN_HLCS_COLUMN@ || name
            == COLUMN_SIGS_COLUMN@) <==> exists|i: int|
            0 <= i < 3 && (#[trigger] metadata_columns()[i]).name == name,
        forall|i: int|
            0 <= i < 3 ==> (#[trigger] metadata_columns()[i]).declared == if metadata_columns()[i].name
                == COLUMN_SIGS_COLUMN@ {
                "STRING NOT NULL DEFAULT '{}'"@
            } else {
                "STRING"@
            },
{
    lemma_metadata_columns_differ();
    let m = metadata_columns();
    assert(m[0].name == HLC_TIMESTAMP_COLUMN@);
    assert(m[1].name == COLUMN_HLCS_COLUMN@);
    assert(m[2].name == COLUMN_SIGS_COLUMN@);
}

/// `index` is where the timestamp column stands in the list, or its end where the
/// list has no such column.
pub open spec fn stands_at(
    columns: Seq<Option<Seq<char>>>,
    name: Seq<char>,
    index: nat,
) -> bool {
    &&& index <= columns.len()
    &&& index < columns.len() ==> columns[index as int] == Some(name)
    &&& forall|j: int| 0 <= j < index ==> #[trigger] columns[j] != Some(name)
}

/// A row of `width` places with the timestamp at `index`, in place of what stood
/// there, or at its end where it is shorter; every other place is as it was.
pub open spec fn stamped_at(cells: Seq<Cell>, width: nat, index: nat) -> bool {
    let place = if index < width {
        index
    } else {
        width
    };
    &&& cells.len() == if index < width {
        width
    } else {
        width + 1
    }
    &&& cells[place as int] is None
    &&& forall|k: int|
        0 <= k < width && k != place ==> #[trigger] cells[k] == Some(k as usize)
}

/// An INSERT is stamped in the timestamp column and nowhere else: the column is
/// added where the list lacks it, and each row, or the SELECT, has the timestamp
/// at the place of that column. One that has a conflict clause, names no
/// columns, selects a wildcard or has another source is refused.
pub proof fn lemma_insert_is_stamped_in_its_column(shape: InsertView, name: Seq<char>)
    requires
        shape.columns.len() < usize::MAX,
    ensures
        ({
            let plan = insert_plan(shape, name);
            if shape.conflict || shape.columns.len() == 0 || (
            shape.source matches SourceView::Select(stars) && exists|i: int|
                0 <= i < stars.len() && #[trigger] stars[i]) {
                plan is Refuse
            } else {
                exists|index: nat| #[trigger]
                    stands_at(shape.columns, name, index) && match (shape.source, plan) {
                        (
                            SourceView::Values(widths),
                            InsertPlanView::Values { columns, rows },
                        ) => {
                            &&& lists_columns(columns, shape.columns.len(), index)
                            &&& rows.len() == widths.len()
                            &&& forall|i: int|
                                0 <= i < rows.len() ==> stamped_at(
                                    #[trigger] rows[i],
                                    widths[i] as nat,
                                    index,
                                )
                        },
                        (
                            SourceView::Select(stars),
                            InsertPlanView::Select { columns, items },
                        ) => lists_columns(columns, shape.columns.len(), index) && stamped_at(
                            items,
                            stars.len(),
                            index,
                        ),
                        (SourceView::Unsupported, InsertPlanView::RefuseWith { .. }) => true,
                        (SourceView::Missing, InsertPlanView::RefuseWith { .. }) => true,
                        _ => false,
                    }
            }
        }),
{
    lemma_column_index(shape.columns, name);
    let index = column_index(shape.columns, name);
    assert(stands_at(shape.columns, name, index));
    if let SourceView::Select(stars) = shape.source {
        if stars.contains(true) {
            let i = choose|i: int| 0 <= i < stars.len() && stars[i] == true;
            assert(stars[i]);
        }
    }
    if let SourceView::Values(widths) = shape.source {
        if let InsertPlanView::Values { columns, rows } = insert_plan(shape, name) {
            assert forall|i: int| 0 <= i < rows.len() implies stamped_at(
                #[trigger] rows[i],
                widths[i] as nat,
                index,
            ) by {}
        }
    }
}

/// The columns as they were, with the timestamp column behind them where `index`
/// is their number.
pub open spec fn lists_columns(columns: Seq<Cell>, width: nat, index: nat) -> bool {
    if index < width {
        columns.len() == width && forall|k: int|
            0 <= k < width ==> #[trigger] columns[k] == Some(k as usize)
    } else {
        stamp_comes_last(columns, width)
    }
}

/// Neither end of the text is this character.
pub open spec fn bare_of(s: Seq<char>, c: char) -> bool {
    s.len() > 0 ==> s[0] != c && s.last() != c
}

proof fn lemma_trimmed_pair(name: Seq<char>, c: char)
    requires
        bare_of(name, c),
    ensures
        trimmed(name, c) == name,
        trimmed(seq![c] + name + seq![c], c) == name,
{
    let s = seq![c] + name + seq![c];
    assert(s[0] == c);
    assert(s.drop_first() =~= name + seq![c]);
    if name.len() == 0 {
        assert(s.drop_first().drop_first() =~= name);
        reveal_with_fuel(trimmed_start, 4);
        reveal_with_fuel(trimmed_end, 2);
    } else {
        assert((name + seq![c])[0] == name[0]);
        assert((name + seq![c]).drop_last() =~= name);
        assert((name + seq![c]).last() == c);
        reveal_with_fuel(trimmed_start, 3);
        reveal_with_fuel(trimmed_end, 3);
    }
}

/// A name means the same bare, in double quotes and in backticks.
pub proof fn lemma_quotes_are_dropped(name: Seq<char>)
    requires
        bare_of(name, '`'),
        bare_of(name, '"'),
    ensures
        unquoted(name) == name,
        unquoted(seq!['"'] + name + seq!['"']) == name,
        unquoted(seq!['`'] + name + seq!['`']) == name,
{
    lemma_trimmed_pair(name, '`');
    lemma_trimmed_pair(name, '"');
    let quoted = seq!['"'] + name + seq!['"'];
    assert(quoted[0] == '"' && quoted.last() == '"');
    lemma_trimmed_pair(quoted, '`');
}

/// A statement of a script is rewritten exactly where it makes a table that takes
/// part in sync out of columns, and is refused exactly where it makes one out of a
/// query. Every other statement stays as it is.
pub proof fn lemma_which_statements_of_a_script_change(
    sql: Seq<char>,
    statements: Seq<Seq<char>>,
    i: int,
)
    requires
        0 <= i < statements.len() <= usize::MAX,
    ensures
        ({
            let shape = statement_shape(sql, i as usize);
            let makes = shape matches ShapeView::CreateTable { target, .. } && !is_local(target);
            let queried = shape matches ShapeView::CreateTable { create, .. } && create.has_query;
            &&& ddl_changes(sql, i) <==> makes && !queried
            &&& ddl_refused(sql, i) <==> makes && queried
            &&& !ddl_changes(sql, i) ==> ddl_texts(sql, statements)[i] == statements[i]
            &&& ddl_changes(sql, i) ==> ddl_changed(sql, statements.len())
        }),
{
    match statement_shape(sql, i as usize) {
        ShapeView::CreateTable { target, .. } => {
            lemma_is_local(target);
        },
        _ => {},
    }
}

/// What comes back for a statement. One that is left alone comes back as it is,
/// and names a table only where it alters one that takes part in sync; one that
/// makes such a table names it; an UPDATE and an INSERT name none.
pub proof fn lemma_what_comes_back_for_a_statement(
    sql: Seq<char>,
    at: usize,
    text: Seq<char>,
    shape: ShapeView,
    value: Seq<char>,
    r: Result<Transformed, DatabaseError>,
)
    requires
        statement_outcome(sql, at, text, statement_plan(shape), value, r),
    ensures
        match shape {
            ShapeView::Other => r matches Ok(t) && t.sql@ == text && t.schema_table is None,
            ShapeView::AlterTable { target } => r matches Ok(t) && t.sql@ == text && (
            if is_local(target) {
                t.schema_table is None
            } else {
                t.schema_table matches Some(table) && table@ == table_of(target)
            }),
            ShapeView::CreateTable { target, create } => if is_local(target) {
                r matches Ok(t) && t.sql@ == text && t.schema_table is None
            } else if create.has_query {
                r is Err
            } else {
                r matches Ok(t) && (t.schema_table matches Some(table) && table@ == table_of(
                    target,
                ))
            },
            ShapeView::Update { target, .. } => r matches Ok(t) && t.schema_table is None && (
            is_local(target) ==> t.sql@ == text),
            ShapeView::Insert { target, .. } => (r matches Ok(t) ==> t.schema_table is None) && (
            is_local(target) ==> (r matches Ok(t) && t.sql@ == text)),
        },
{
    match shape {
        ShapeView::CreateTable { target, .. } => {
            lemma_is_local(target);
        },
        ShapeView::Update { target, .. } => {
            lemma_is_local(target);
        },
        ShapeView::Insert { target, .. } => {
            lemma_is_local(target);
        },
        ShapeView::AlterTable { target } => {
            lemma_is_local(target);
        },
        ShapeView::Other => {},
    }
}

} // verus!
