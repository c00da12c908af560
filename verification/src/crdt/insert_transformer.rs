//! Stamping an INSERT.
//!
//! The timestamp column is added to the column list unless it is there, and
//! its place in every row or in the SELECT items is filled. What the caller
//! wrote there is replaced: the timestamp is never the caller's to choose.

use crate::crdt::cells::cell_rows;
use crate::crdt::cells::cells_in;
use crate::crdt::cells::given;
use crate::crdt::cells::given_cells;
use crate::crdt::cells::lemma_stamped;
use crate::crdt::cells::stamped;
use crate::crdt::cells::stamped_cells;
use crate::crdt::cells::Cell;
use crate::crdt::columns::HLC_TIMESTAMP_COLUMN;
use crate::crdt::hlc::timestamp_text;
use crate::crdt::hlc::HlcTimestamp;
use crate::crdt::sql::insert_select_text;
use crate::crdt::sql::insert_shape;
use crate::crdt::sql::insert_values_text;
use crate::crdt::sql::items_fit;
use crate::crdt::sql::opt_names;
use crate::crdt::sql::read_insert;
use crate::crdt::sql::read_kind;
use crate::crdt::sql::read_statements;
use crate::crdt::sql::rows_fit;
use crate::crdt::sql::sql_statements;
use crate::crdt::sql::statement_kind;
use crate::crdt::sql::write_insert_select;
use crate::crdt::sql::write_insert_values;
use crate::crdt::sql::InsertShape;
use crate::crdt::sql::InsertSource;
use crate::crdt::sql::InsertView;
use crate::crdt::sql::SourceView;
use crate::crdt::sql::StatementKind;
use crate::error::DatabaseError;
use crate::text::texts;
use vstd::prelude::*;

verus! {

/// Position of the first column called `name`, or the number of columns.
pub open spec fn column_index(columns: Seq<Option<Seq<char>>>, name: Seq<char>) -> nat
    decreases columns.len(),
{
    if columns.len() == 0 || columns[0] == Some(name) {
        0
    } else {
        1 + column_index(columns.drop_first(), name)
    }
}

pub proof fn lemma_column_index(columns: Seq<Option<Seq<char>>>, name: Seq<char>)
    ensures
        column_index(columns, name) <= columns.len(),
        column_index(columns, name) < columns.len() ==> columns[column_index(
            columns,
            name,
        ) as int] == Some(name),
        forall|j: int|
            0 <= j < column_index(columns, name) ==> #[trigger] columns[j] != Some(name),
    decreases columns.len(),
{
    if columns.len() > 0 && columns[0] != Some(name) {
        let rest = columns.drop_first();
        lemma_column_index(rest, name);
        let p = column_index(columns, name);
        assert forall|j: int| 0 <= j < p implies #[trigger] columns[j] != Some(name) by {
            if j > 0 {
                assert(rest[j - 1] == columns[j]);
            }
        }
        if p < columns.len() {
            assert(rest[p - 1] == columns[p as int]);
        }
    }
}

/// The columns of the stamped INSERT: the timestamp column is added, unless it
/// is there.
pub open spec fn stamped_columns(columns: Seq<Option<Seq<char>>>, name: Seq<char>) -> Seq<Cell> {
    if column_index(columns, name) < columns.len() {
        given(columns.len())
    } else {
        given(columns.len()).push(None)
    }
}

/// The rows of the stamped INSERT: each with the timestamp at `index`, or at its
/// end where it is shorter.
pub open spec fn stamped_rows(widths: Seq<usize>, index: nat) -> Seq<Seq<Cell>> {
    widths.map_values(|w: usize| stamped(w as nat, index))
}

/// Why an INSERT cannot be stamped at all, if it cannot.
pub open spec fn insert_refusal(shape: InsertView) -> Option<Seq<char>> {
    if shape.conflict {
        Some("INSERT with a conflict clause is not supported"@)
    } else if shape.columns.len() == 0 {
        Some("INSERT without an explicit column list is not supported"@)
    } else if shape.source matches SourceView::Select(wildcards) && wildcards.contains(true) {
        Some("INSERT SELECT with a wildcard projection is not supported"@)
    } else {
        None
    }
}

/// How an INSERT is stamped.
#[derive(Debug)]
pub enum InsertPlan {
    /// Not at all.
    Refuse { reason: &'static str },
    /// Not at all; the report shows the INSERT with these columns.
    RefuseWith { columns: Vec<Cell>, reason: &'static str },
    /// With these columns and rows.
    Values { columns: Vec<Cell>, rows: Vec<Vec<Cell>> },
    /// With these columns and SELECT items.
    Select { columns: Vec<Cell>, items: Vec<Cell> },
}

/// What an [`InsertPlan`] stands for.
pub enum InsertPlanView {
    Refuse { reason: Seq<char> },
    RefuseWith { columns: Seq<Cell>, reason: Seq<char> },
    Values { columns: Seq<Cell>, rows: Seq<Seq<Cell>> },
    Select { columns: Seq<Cell>, items: Seq<Cell> },
}

impl View for InsertPlan {
    type V = InsertPlanView;

    open spec fn view(&self) -> InsertPlanView {
        match self {
            InsertPlan::Refuse { reason } => InsertPlanView::Refuse { reason: reason@ },
            InsertPlan::RefuseWith { columns, reason } => InsertPlanView::RefuseWith {
                columns: columns@,
                reason: reason@,
            },
            InsertPlan::Values { columns, rows } => InsertPlanView::Values {
                columns: columns@,
                rows: cell_rows(rows@),
            },
            InsertPlan::Select { columns, items } => InsertPlanView::Select {
                columns: columns@,
                items: items@,
            },
        }
    }
}

/// How an INSERT of this shape is stamped in column `name`.
pub open spec fn insert_plan(shape: InsertView, name: Seq<char>) -> InsertPlanView {
    match insert_refusal(shape) {
        Some(reason) => InsertPlanView::Refuse { reason },
        None => {
            let columns = stamped_columns(shape.columns, name);
            let index = column_index(shape.columns, name);
            match shape.source {
                SourceView::Values(widths) => InsertPlanView::Values {
                    columns,
                    rows: stamped_rows(widths, index),
                },
                SourceView::Select(wildcards) => InsertPlanView::Select {
                    columns,
                    items: stamped(wildcards.len(), index),
                },
                SourceView::Unsupported => InsertPlanView::RefuseWith {
                    columns,
                    reason: "INSERT with unsupported source type"@,
                },
                SourceView::Missing => InsertPlanView::RefuseWith {
                    columns,
                    reason: "INSERT statement has no source"@,
                },
            }
        },
    }
}

/// In a row that fills its columns, a stamped INSERT carries the timestamp at
/// the place of the timestamp column and leaves everything else to the caller:
/// what the caller wrote for the timestamp is gone.
pub proof fn lemma_row_is_stamped(shape: InsertView, name: Seq<char>, i: int)
    requires
        insert_refusal(shape) is None,
        shape.source matches SourceView::Values(widths) && 0 <= i < widths.len()
            && column_index(shape.columns, name) <= widths[i],
    ensures
        ({
            let index = column_index(shape.columns, name);
            let width = shape.source->Values_0[i];
            &&& insert_plan(shape, name) matches InsertPlanView::Values { columns, rows }
            &&& rows.len() == shape.source->Values_0.len()
            &&& rows[i][index as int] == None::<usize>
            &&& forall|k: int|
                0 <= k < width && k != index ==> #[trigger] rows[i][k] == Some(k as usize)
            &&& index == shape.columns.len() ==> columns[index as int] == None::<usize>
            &&& forall|k: int|
                0 <= k < shape.columns.len() ==> #[trigger] columns[k] == Some(k as usize)
        }),
{
    lemma_column_index(shape.columns, name);
    lemma_stamped(shape.source->Values_0[i] as nat, column_index(shape.columns, name));
}

/// Stamps INSERT statements.
#[derive(Clone, Copy, Debug)]
pub struct InsertTransformer {
    hlc_timestamp_column: &'static str,
}

impl Default for InsertTransformer {
    fn default() -> (r: Self)
        ensures
            r.column() == HLC_TIMESTAMP_COLUMN@,
    {
        InsertTransformer::new()
    }
}

/// What became of an INSERT whose column `name` is stamped with `value`: the
/// stamped statement, or the error.
pub open spec fn insert_outcome(
    sql: Seq<char>,
    at: usize,
    text: Seq<char>,
    plan: InsertPlanView,
    name: Seq<char>,
    value: Seq<char>,
    r: Result<String, DatabaseError>,
) -> bool {
    match plan {
        InsertPlanView::Refuse { reason } => r matches Err(
            DatabaseError::UnsupportedStatement { sql: s, reason: w },
        ) && s@ == text && w@ == reason,
        InsertPlanView::RefuseWith { columns, reason } => r matches Err(
            DatabaseError::UnsupportedStatement { sql: s, reason: w },
        ) && s@ == insert_values_text(sql, at, columns, Seq::empty(), name, value) && w@ == reason,
        InsertPlanView::Values { columns, rows } => r matches Ok(s) && s@ == insert_values_text(
            sql,
            at,
            columns,
            rows,
            name,
            value,
        ),
        InsertPlanView::Select { columns, items } => r matches Ok(s) && s@ == insert_select_text(
            sql,
            at,
            columns,
            items,
            name,
            value,
        ),
    }
}

impl InsertTransformer {
    /// The column that is stamped.
    pub closed spec fn column(&self) -> Seq<char> {
        self.hlc_timestamp_column@
    }

    /// Stamps the row timestamp column.
    pub fn new() -> (r: Self)
        ensures
            r.column() == HLC_TIMESTAMP_COLUMN@,
    {
        InsertTransformer { hlc_timestamp_column: HLC_TIMESTAMP_COLUMN }
    }

    fn find_column(&self, columns: &[Option<String>]) -> (r: usize)
        ensures
            r == column_index(opt_names(columns@), self.column()),
            r <= columns@.len(),
    {
        let ghost names = opt_names(columns@);
        proof {
            lemma_column_index(names, self.column());
        }
        let mut i: usize = 0;
        while i < columns.len()
            invariant
                i <= columns.len(),
                names == opt_names(columns@),
                i <= column_index(names, self.column()) <= names.len(),
                column_index(names, self.column()) < names.len() ==> names[column_index(
                    names,
                    self.column(),
                ) as int] == Some(self.column()),
                forall|j: int|
                    0 <= j < column_index(names, self.column()) ==> #[trigger] names[j] != Some(
                        self.column(),
                    ),
            decreases columns.len() - i,
        {
            assert(names[i as int] == match columns@[i as int] {
                Some(t) => Some(t@),
                None => None::<Seq<char>>,
            });
            match &columns[i] {
                Some(name) => {
                    if name.as_str().eq(self.hlc_timestamp_column) {
                        return i;
                    }
                },
                None => {},
            }
            i += 1;
        }
        i
    }

    /// Plans how an INSERT of this shape is stamped.
    pub fn plan(&self, shape: &InsertShape) -> (r: InsertPlan)
        ensures
            r@ == insert_plan(shape@, self.column()),
            plan_fits(r@, shape@),
    {
        if shape.conflict {
            return InsertPlan::Refuse { reason: "INSERT with a conflict clause is not supported" };
        }
        if shape.columns.len() == 0 {
            return InsertPlan::Refuse {
                reason: "INSERT without an explicit column list is not supported",
            };
        }
        match &shape.source {
            InsertSource::Select(wildcards) => {
                let mut i: usize = 0;
                while i < wildcards.len()
                    invariant
                        i <= wildcards.len(),
                        shape.source matches InsertSource::Select(w) && w == *wildcards,
                        !shape.conflict,
                        shape.columns@.len() > 0,
                        forall|j: int| 0 <= j < i ==> !(#[trigger] wildcards@[j]),
                    decreases wildcards.len() - i,
                {
                    if wildcards[i] {
                        assert(wildcards@.contains(true));
                        return InsertPlan::Refuse {
                            reason: "INSERT SELECT with a wildcard projection is not supported",
                        };
                    }
                    i += 1;
                }
                assert(!wildcards@.contains(true));
            },
            _ => {},
        }
        assert(insert_refusal(shape@) is None);
        let index: usize = self.find_column(shape.columns.as_slice());
        let mut columns = given_cells(shape.columns.len());
        if index == shape.columns.len() {
            columns.push(None);
        }
        assert(shape@.columns.len() == shape.columns@.len());
        match &shape.source {
            InsertSource::Values(widths) => {
                let mut rows: Vec<Vec<Cell>> = Vec::new();
                let mut i: usize = 0;
                while i < widths.len()
                    invariant
                        i <= widths.len(),
                        rows@.len() == i,
                        forall|j: int|
                            0 <= j < i ==> (#[trigger] rows@[j])@ == stamped(
                                widths@[j] as nat,
                                index as nat,
                            ) && cells_in(rows@[j]@, widths@[j] as nat),
                    decreases widths.len() - i,
                {
                    rows.push(stamped_cells(widths[i], index));
                    i += 1;
                }
                assert(cell_rows(rows@) =~= stamped_rows(widths@, index as nat));
                InsertPlan::Values { columns, rows }
            },
            InsertSource::Select(wildcards) => {
                let items = stamped_cells(wildcards.len(), index);
                InsertPlan::Select { columns, items }
            },
            InsertSource::Unsupported => InsertPlan::RefuseWith {
                columns,
                reason: "INSERT with unsupported source type",
            },
            InsertSource::Missing => InsertPlan::RefuseWith {
                columns,
                reason: "INSERT statement has no source",
            },
        }
    }

    /// Stamps an INSERT. Refused are a text that cannot be read or is not one
    /// INSERT, a conflict clause, a missing column list, a wildcard, and a
    /// source that is neither VALUES nor SELECT.
    pub fn transform_insert(&self, sql: &str, timestamp: HlcTimestamp) -> (r: Result<
        String,
        DatabaseError,
    >)
        requires
            timestamp.node != 0,
        ensures
            match sql_statements(sql@) {
                Err(message) => r matches Err(DatabaseError::ParseError { reason, sql: s })
                    && reason@ == message && s@ == sql@,
                Ok(statements) => match insert_shape(sql@, 0) {
                    Some(shape) if statements.len() == 1 && statement_kind(sql@, 0)
                        == StatementKind::Insert => insert_outcome(
                        sql@,
                        0,
                        statements[0],
                        insert_plan(shape, self.column()),
                        self.column(),
                        timestamp_text(timestamp),
                        r,
                    ),
                    _ => r matches Err(DatabaseError::UnsupportedStatement { sql: s, reason })
                        && s@ == sql@ && reason@ == "not an INSERT statement"@,
                },
            },
    {
        let statements = match read_statements(sql) {
            Ok(statements) => statements,
            Err(reason) => {
                return Err(DatabaseError::ParseError { reason, sql: sql.to_owned() });
            },
        };
        assert(texts(statements@).len() == statements@.len());
        if statements.len() == 1 && read_kind(sql, 0) == StatementKind::Insert {
            if let Some(shape) = read_insert(sql, 0) {
                assert(texts(statements@)[0] == statements@[0]@);
                let plan = self.plan(&shape);
                return self.write_planned(sql, 0, statements[0].as_str(), plan, timestamp);
            }
        }
        Err(
            DatabaseError::UnsupportedStatement {
                sql: sql.to_owned(),
                reason: "not an INSERT statement".to_owned(),
            },
        )
    }

    /// Carries out a plan for the INSERT at a position of a SQL text; `text` is how
    /// the parser prints it.
    pub(crate) fn write_planned(
        &self,
        sql: &str,
        at: usize,
        text: &str,
        plan: InsertPlan,
        timestamp: HlcTimestamp,
    ) -> (r: Result<String, DatabaseError>)
        requires
            timestamp.node != 0,
            statement_kind(sql@, at) == StatementKind::Insert,
            insert_shape(sql@, at) matches Some(shape) && plan_fits(plan@, shape),
        ensures
            insert_outcome(
                sql@,
                at,
                text@,
                plan@,
                self.column(),
                timestamp_text(timestamp),
                r,
            ),
    {
        let value = timestamp.to_text();
        let name = self.hlc_timestamp_column;
        match plan {
            InsertPlan::Refuse { reason } => Err(
                DatabaseError::UnsupportedStatement {
                    sql: text.to_owned(),
                    reason: reason.to_owned(),
                },
            ),
            InsertPlan::RefuseWith { columns, reason } => {
                let none: Vec<Vec<Cell>> = Vec::new();
                assert(cell_rows(none@) =~= Seq::<Seq<Cell>>::empty());
                Err(
                    DatabaseError::UnsupportedStatement {
                        sql: write_insert_values(
                            sql,
                            at,
                            columns.as_slice(),
                            none.as_slice(),
                            name,
                            value.as_str(),
                        ),
                        reason: reason.to_owned(),
                    },
                )
            },
            InsertPlan::Values { columns, rows } => Ok(
                write_insert_values(
                    sql,
                    at,
                    columns.as_slice(),
                    rows.as_slice(),
                    name,
                    value.as_str(),
                ),
            ),
            InsertPlan::Select { columns, items } => Ok(
                write_insert_select(
                    sql,
                    at,
                    columns.as_slice(),
                    items.as_slice(),
                    name,
                    value.as_str(),
                ),
            ),
        }
    }
}

/// The plan fits an INSERT of this shape.
pub open spec fn plan_fits(plan: InsertPlanView, shape: InsertView) -> bool {
    match plan {
        InsertPlanView::Refuse { .. } => true,
        InsertPlanView::RefuseWith { columns, .. } => cells_in(columns, shape.columns.len())
            && rows_fit(Seq::empty(), shape.source),
        InsertPlanView::Values { columns, rows } => cells_in(columns, shape.columns.len())
            && rows_fit(rows, shape.source),
        InsertPlanView::Select { columns, items } => cells_in(columns, shape.columns.len())
            && items_fit(items, shape.source),
    }
}

} // verus!
