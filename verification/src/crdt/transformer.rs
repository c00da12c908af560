//! Rewriting statements for tables that take part in sync.
//!
//! A CREATE TABLE gains the metadata columns, an INSERT and an UPDATE are
//! stamped. Deletes, queries, indexes and everything else stay as they are, and
//! so does every statement on a table whose name says that it takes no part.

use crate::crdt::cells::cells_in;
use crate::crdt::cells::given;
use crate::crdt::cells::given_cells;
use crate::crdt::cells::Cell;
use crate::crdt::columns::is_metadata_column;
use crate::crdt::columns::is_synced_column;
use crate::crdt::columns::names_metadata_column;
use crate::crdt::columns::names_synced_column;
use crate::crdt::columns::COLUMN_HLCS_COLUMN;
use crate::crdt::columns::COLUMN_SIGS_COLUMN;
use crate::crdt::columns::HLC_TIMESTAMP_COLUMN;
use crate::crdt::hlc::timestamp_text;
use crate::crdt::hlc::HlcTimestamp;
use crate::crdt::insert_transformer::insert_outcome;
use crate::crdt::insert_transformer::insert_plan;
use crate::crdt::insert_transformer::plan_fits;
use crate::crdt::insert_transformer::InsertPlan;
use crate::crdt::insert_transformer::InsertPlanView;
use crate::crdt::insert_transformer::InsertTransformer;
use crate::crdt::sql::create_table_text;
use crate::crdt::sql::has_columns;
use crate::crdt::sql::lower_case;
use crate::crdt::sql::new_column_views;
use crate::crdt::sql::read_shape;
use crate::crdt::sql::read_statements;
use crate::crdt::sql::sql_statements;
use crate::crdt::sql::statement_shape;
use crate::crdt::sql::to_lower_case;
use crate::crdt::sql::update_text;
use crate::crdt::sql::write_create_table;
use crate::crdt::sql::write_update;
use crate::crdt::sql::NewColumn;
use crate::crdt::sql::NewColumnView;
use crate::crdt::sql::ShapeView;
use crate::crdt::sql::StatementShape;
use crate::crdt::sql::TargetName;
use crate::crdt::sql::TargetView;
use crate::error::DatabaseError;
use crate::text::join_texts;
use crate::text::joined;
use crate::text::texts;
use crate::text::trim_char;
use crate::text::trimmed;
use vstd::prelude::*;

verus! {

/// A lower-case name without the quotes that it may be wrapped in: first
/// backticks, then double quotes.
pub open spec fn unquoted(lower: Seq<char>) -> Seq<char> {
    trimmed(trimmed(lower, '`'), '"')
}

/// Takes the quotes off a lower-case name.
pub fn unquote(lower: &str) -> (r: String)
    ensures
        r@ == unquoted(lower@),
{
    let inner = trim_char(lower, '`');
    trim_char(inner.as_str(), '"')
}

/// The name of a target as the rules see it: its last part in lower case,
/// without quotes.
pub open spec fn table_of(t: TargetView) -> Seq<char> {
    unquoted(
        lower_case(
            match t.last {
                Some(part) => part,
                None => t.full,
            },
        ),
    )
}

/// The name of a target as the rules see it.
pub fn normalize_table_name(name: &TargetName) -> (r: String)
    ensures
        r@ == table_of(name@),
{
    let lower = match &name.last {
        Some(part) => to_lower_case(part.as_str()),
        None => to_lower_case(name.full.as_str()),
    };
    unquote(lower.as_str())
}

/// The table takes part in sync: its name does not say otherwise.
pub open spec fn is_sync_target(t: TargetView) -> bool {
    is_synced_column(table_of(t))
}

/// The columns of a CREATE TABLE that stay: all but the metadata columns, which
/// are added anew.
pub open spec fn staying_columns(names: Seq<Seq<char>>) -> Seq<usize>
    decreases names.len(),
{
    if names.len() == 0 {
        Seq::empty()
    } else {
        let before = staying_columns(names.drop_last());
        if is_metadata_column(names.last()) {
            before
        } else {
            before.push((names.len() - 1) as usize)
        }
    }
}

/// The columns that stay, by position.
pub fn plan_columns(names: &[String]) -> (r: Vec<usize>)
    ensures
        r@ == staying_columns(texts(names@)),
        forall|i: int| 0 <= i < r@.len() ==> (#[trigger] r@[i]) < names@.len(),
{
    let ghost all = texts(names@);
    let mut out: Vec<usize> = Vec::new();
    let mut i: usize = 0;
    assert(all.take(0) =~= Seq::<Seq<char>>::empty());
    while i < names.len()
        invariant
            i <= names.len(),
            all == texts(names@),
            out@ == staying_columns(all.take(i as int)),
            forall|k: int| 0 <= k < out@.len() ==> (#[trigger] out@[k]) < i,
        decreases names.len() - i,
    {
        let ghost next = all.take(i + 1);
        assert(next.drop_last() =~= all.take(i as int));
        assert(next.last() == names@[i as int]@);
        if !names_metadata_column(names[i].as_str()) {
            out.push(i);
        }
        i += 1;
    }
    assert(all.take(i as int) =~= all);
    out
}

/// The metadata columns as they are added: the two timestamp columns, and the
/// signature map, which starts out empty.
pub open spec fn metadata_columns() -> Seq<NewColumnView> {
    seq![
        NewColumnView { name: HLC_TIMESTAMP_COLUMN@, declared: "STRING"@ },
        NewColumnView { name: COLUMN_HLCS_COLUMN@, declared: "STRING"@ },
        NewColumnView { name: COLUMN_SIGS_COLUMN@, declared: "STRING NOT NULL DEFAULT '{}'"@ },
    ]
}

fn list_metadata_columns() -> (r: Vec<NewColumn>)
    ensures
        new_column_views(r@) == metadata_columns(),
{
    let mut out: Vec<NewColumn> = Vec::new();
    out.push(
        NewColumn { name: HLC_TIMESTAMP_COLUMN.to_owned(), declared: "STRING".to_owned() },
    );
    out.push(NewColumn { name: COLUMN_HLCS_COLUMN.to_owned(), declared: "STRING".to_owned() });
    out.push(
        NewColumn {
            name: COLUMN_SIGS_COLUMN.to_owned(),
            declared: "STRING NOT NULL DEFAULT '{}'".to_owned(),
        },
    );
    assert(new_column_views(out@) =~= metadata_columns());
    out
}

/// No metadata column of the caller stays: whatever a CREATE TABLE declares
/// under such a name is replaced.
pub proof fn lemma_no_metadata_column_stays(names: Seq<Seq<char>>, i: int)
    requires
        0 <= i < staying_columns(names).len(),
        names.len() <= usize::MAX,
    ensures
        staying_columns(names)[i] < names.len(),
        !is_metadata_column(names[staying_columns(names)[i] as int]),
    decreases names.len(),
{
    let before = staying_columns(names.drop_last());
    if i < before.len() {
        lemma_no_metadata_column_stays(names.drop_last(), i);
        assert(names.drop_last()[before[i] as int] == names[before[i] as int]);
    }
}

/// What becomes of a statement.
#[derive(Debug)]
pub enum StatementPlan {
    /// It stays as it is.
    Keep,
    /// It stays as it is, and changes the shape of this table.
    KeepFor { table: String },
    /// A CREATE TABLE: these of its columns stay, and the metadata columns are
    /// added.
    CreateTable { table: String, keep: Vec<usize> },
    /// A CREATE TABLE that takes its rows from a query is refused: they would
    /// carry no timestamps.
    RefuseQuery,
    /// An INSERT is stamped.
    Insert(InsertPlan),
    /// An UPDATE is stamped: it has these assignments.
    Update { assignments: Vec<Cell> },
}

/// What a [`StatementPlan`] stands for.
pub enum StatementPlanView {
    Keep,
    KeepFor { table: Seq<char> },
    CreateTable { table: Seq<char>, keep: Seq<usize> },
    RefuseQuery,
    Insert(InsertPlanView),
    Update { assignments: Seq<Cell> },
}

impl View for StatementPlan {
    type V = StatementPlanView;

    open spec fn view(&self) -> StatementPlanView {
        match self {
            StatementPlan::Keep => StatementPlanView::Keep,
            StatementPlan::KeepFor { table } => StatementPlanView::KeepFor { table: table@ },
            StatementPlan::CreateTable { table, keep } => StatementPlanView::CreateTable {
                table: table@,
                keep: keep@,
            },
            StatementPlan::RefuseQuery => StatementPlanView::RefuseQuery,
            StatementPlan::Insert(plan) => StatementPlanView::Insert(plan@),
            StatementPlan::Update { assignments } => StatementPlanView::Update {
                assignments: assignments@,
            },
        }
    }
}

/// What becomes of a statement of this shape: everything on a table that takes
/// no part in sync stays, and so does what is neither a CREATE TABLE, an INSERT
/// nor an UPDATE.
pub open spec fn statement_plan(shape: ShapeView) -> StatementPlanView {
    match shape {
        ShapeView::CreateTable { target, create } if is_sync_target(target) => {
            if create.has_query {
                StatementPlanView::RefuseQuery
            } else {
                StatementPlanView::CreateTable {
                    table: table_of(target),
                    keep: staying_columns(create.columns),
                }
            }
        },
        ShapeView::Insert { target, insert } if is_sync_target(target) => {
            StatementPlanView::Insert(insert_plan(insert, HLC_TIMESTAMP_COLUMN@))
        },
        ShapeView::Update { target, assignments } if is_sync_target(target) => {
            StatementPlanView::Update { assignments: given(assignments as nat).push(None) }
        },
        ShapeView::AlterTable { target } if is_sync_target(target) => {
            StatementPlanView::KeepFor { table: table_of(target) }
        },
        _ => StatementPlanView::Keep,
    }
}

/// The plan fits a statement of this shape.
pub open spec fn statement_plan_fits(plan: StatementPlanView, shape: ShapeView) -> bool {
    match plan {
        StatementPlanView::CreateTable { keep, .. } => shape matches ShapeView::CreateTable {
            create,
            ..
        } && has_columns(create, keep),
        StatementPlanView::Insert(p) => shape matches ShapeView::Insert { insert, .. }
            && plan_fits(p, insert),
        StatementPlanView::Update { assignments } => shape matches ShapeView::Update {
            assignments: width,
            ..
        } && cells_in(assignments, width as nat),
        _ => true,
    }
}

/// The CREATE TABLE with the metadata columns in it.
pub open spec fn managed_table_text(sql: Seq<char>, at: usize, keep: Seq<usize>) -> Seq<char> {
    create_table_text(sql, at, keep, metadata_columns())
}

/// The report of a CREATE TABLE that takes its rows from a query.
pub open spec fn is_ctas_error(e: DatabaseError, text: Seq<char>) -> bool {
    e matches DatabaseError::UnsupportedStatement { sql, reason } && sql@ == text && reason@
        == "CREATE TABLE ... AS SELECT is not supported for CRDT-synced tables"@
}

fn refuse_query(text: &str) -> (r: DatabaseError)
    ensures
        is_ctas_error(r, text@),
{
    DatabaseError::UnsupportedStatement {
        sql: text.to_owned(),
        reason: "CREATE TABLE ... AS SELECT is not supported for CRDT-synced tables".to_owned(),
    }
}

/// A rewritten statement, and the table whose shape it changes, if it does.
#[derive(Debug)]
pub struct Transformed {
    pub sql: String,
    pub schema_table: Option<String>,
}

/// What a [`Transformed`] stands for.
pub struct TransformedView {
    pub sql: Seq<char>,
    pub schema_table: Option<Seq<char>>,
}

impl View for Transformed {
    type V = TransformedView;

    open spec fn view(&self) -> TransformedView {
        TransformedView {
            sql: self.sql@,
            schema_table: match self.schema_table {
                Some(t) => Some(t@),
                None => None,
            },
        }
    }
}

/// The statement becomes `sql`, and changes the shape of `table` where one is
/// given.
pub open spec fn becomes(
    r: Result<Transformed, DatabaseError>,
    sql: Seq<char>,
    table: Option<Seq<char>>,
) -> bool {
    r matches Ok(t) && t@ == (TransformedView { sql, schema_table: table })
}

/// What a plan makes of the statement at a position of a SQL text, printed
/// `text`, when it is stamped with `value`.
pub open spec fn statement_outcome(
    sql: Seq<char>,
    at: usize,
    text: Seq<char>,
    plan: StatementPlanView,
    value: Seq<char>,
    r: Result<Transformed, DatabaseError>,
) -> bool {
    match plan {
        StatementPlanView::Keep => becomes(r, text, None),
        StatementPlanView::KeepFor { table } => becomes(r, text, Some(table)),
        StatementPlanView::CreateTable { table, keep } => becomes(
            r,
            managed_table_text(sql, at, keep),
            Some(table),
        ),
        StatementPlanView::RefuseQuery => r matches Err(e) && is_ctas_error(e, text),
        StatementPlanView::Insert(plan) => exists|inner: Result<String, DatabaseError>|
            {
                &&& #[trigger] insert_outcome(
                    sql,
                    at,
                    text,
                    plan,
                    HLC_TIMESTAMP_COLUMN@,
                    value,
                    inner,
                )
                &&& match inner {
                    Ok(s) => becomes(r, s@, None),
                    Err(e) => r matches Err(f) && e == f,
                }
            },
        StatementPlanView::Update { assignments } => becomes(
            r,
            update_text(sql, at, assignments, HLC_TIMESTAMP_COLUMN@, value),
            None,
        ),
    }
}

/// Rewrites statements for tables that take part in sync.
#[derive(Clone, Copy, Debug)]
pub struct CrdtTransformer {
    insert: InsertTransformer,
}

impl Default for CrdtTransformer {
    fn default() -> (r: Self)
        ensures
            r.stamps() == HLC_TIMESTAMP_COLUMN@,
    {
        CrdtTransformer::new()
    }
}

/// How a statement of a script is written: anew where it has to be, else as
/// the parser prints it.
pub open spec fn ddl_statement(sql: Seq<char>, at: int, text: Seq<char>) -> Seq<char> {
    match statement_plan(statement_shape(sql, at as usize)) {
        StatementPlanView::CreateTable { keep, .. } => managed_table_text(sql, at as usize, keep),
        _ => text,
    }
}

/// The statement is a CREATE TABLE that gains the metadata columns.
pub open spec fn ddl_changes(sql: Seq<char>, at: int) -> bool {
    statement_plan(statement_shape(sql, at as usize)) is CreateTable
}

/// The statement is one that cannot be rewritten.
pub open spec fn ddl_refused(sql: Seq<char>, at: int) -> bool {
    statement_plan(statement_shape(sql, at as usize)) is RefuseQuery
}

/// Some statement of the script is rewritten.
pub open spec fn ddl_changed(sql: Seq<char>, n: nat) -> bool {
    exists|i: int| 0 <= i < n && #[trigger] ddl_changes(sql, i)
}

/// The statements of a script, rewritten where they have to be.
pub open spec fn ddl_texts(sql: Seq<char>, texts: Seq<Seq<char>>) -> Seq<Seq<char>> {
    Seq::new(texts.len(), |i: int| ddl_statement(sql, i, texts[i]))
}

impl CrdtTransformer {
    #[verifier::type_invariant]
    closed spec fn wf(self) -> bool {
        self.insert.column() == HLC_TIMESTAMP_COLUMN@
    }

    /// The column that is stamped.
    pub closed spec fn stamps(&self) -> Seq<char> {
        self.insert.column()
    }

    /// Stamps the row timestamp column.
    pub fn new() -> (r: Self)
        ensures
            r.stamps() == HLC_TIMESTAMP_COLUMN@,
    {
        CrdtTransformer { insert: InsertTransformer::new() }
    }

    /// Whether the table takes part in sync.
    pub fn is_crdt_sync_table(&self, name: &TargetName) -> (r: bool)
        ensures
            r == is_sync_target(name@),
    {
        let table = normalize_table_name(name);
        names_synced_column(table.as_str())
    }

    /// A query stays as it is: deleted rows are gone, so there is nothing to
    /// filter out.
    pub fn transform_query(&self, query: String) -> (r: String)
        ensures
            r == query,
    {
        query
    }

    /// Decides what becomes of a statement of this shape.
    pub fn plan_statement(&self, shape: &StatementShape) -> (r: StatementPlan)
        ensures
            r@ == statement_plan(shape@),
            statement_plan_fits(r@, shape@),
    {
        proof {
            use_type_invariant(&*self);
        }
        match shape {
            StatementShape::CreateTable { target, create } => {
                if !self.is_crdt_sync_table(target) {
                    return StatementPlan::Keep;
                }
                if create.has_query {
                    return StatementPlan::RefuseQuery;
                }
                assert(texts(create.columns@).len() == create.columns@.len());
                StatementPlan::CreateTable {
                    table: normalize_table_name(target),
                    keep: plan_columns(create.columns.as_slice()),
                }
            },
            StatementShape::Insert { target, insert } => if self.is_crdt_sync_table(target) {
                StatementPlan::Insert(self.insert.plan(insert))
            } else {
                StatementPlan::Keep
            },
            StatementShape::Update { target, assignments } => {
                if !self.is_crdt_sync_table(target) {
                    return StatementPlan::Keep;
                }
                let mut cells = given_cells(*assignments);
                cells.push(None);
                StatementPlan::Update { assignments: cells }
            },
            StatementShape::AlterTable { target } => if self.is_crdt_sync_table(target) {
                StatementPlan::KeepFor { table: normalize_table_name(target) }
            } else {
                StatementPlan::Keep
            },
            StatementShape::Other => StatementPlan::Keep,
        }
    }

    /// Carries out a plan for the statement at a position of a SQL text; `text`
    /// is how the parser prints it.
    fn write_planned(
        &self,
        sql: &str,
        at: usize,
        text: String,
        plan: StatementPlan,
        timestamp: HlcTimestamp,
    ) -> (r: Result<Transformed, DatabaseError>)
        requires
            timestamp.node != 0,
            statement_plan_fits(plan@, statement_shape(sql@, at)),
        ensures
            statement_outcome(sql@, at, text@, plan@, timestamp_text(timestamp), r),
    {
        proof {
            use_type_invariant(&*self);
        }
        match plan {
            StatementPlan::Keep => Ok(Transformed { sql: text, schema_table: None }),
            StatementPlan::KeepFor { table } => Ok(
                Transformed { sql: text, schema_table: Some(table) },
            ),
            StatementPlan::CreateTable { table, keep } => {
                let added = list_metadata_columns();
                Ok(
                    Transformed {
                        sql: write_create_table(sql, at, keep.as_slice(), added.as_slice()),
                        schema_table: Some(table),
                    },
                )
            },
            StatementPlan::RefuseQuery => Err(refuse_query(text.as_str())),
            StatementPlan::Insert(plan) => {
                let ghost planned = plan@;
                let inner = self.insert.write_planned(sql, at, text.as_str(), plan, timestamp);
                assert(insert_outcome(
                    sql@,
                    at,
                    text@,
                    planned,
                    HLC_TIMESTAMP_COLUMN@,
                    timestamp_text(timestamp),
                    inner,
                ));
                match inner {
                    Ok(s) => Ok(Transformed { sql: s, schema_table: None }),
                    Err(e) => Err(e),
                }
            },
            StatementPlan::Update { assignments } => {
                let value = timestamp.to_text();
                Ok(
                    Transformed {
                        sql: write_update(
                            sql,
                            at,
                            assignments.as_slice(),
                            HLC_TIMESTAMP_COLUMN,
                            value.as_str(),
                        ),
                        schema_table: None,
                    },
                )
            },
        }
    }

    /// Rewrites one statement and stamps it. The result names the table whose
    /// shape the statement changes, if it is one that takes part in sync.
    pub fn transform_execute_statement(&self, sql: &str, timestamp: HlcTimestamp) -> (r: Result<
        Transformed,
        DatabaseError,
    >)
        requires
            timestamp.node != 0,
        ensures
            match sql_statements(sql@) {
                Err(message) => r matches Err(DatabaseError::ParseError { reason, sql: s })
                    && reason@ == message && s@ == sql@,
                Ok(statements) => if statements.len() == 1 {
                    statement_outcome(
                        sql@,
                        0,
                        statements[0],
                        statement_plan(statement_shape(sql@, 0)),
                        timestamp_text(timestamp),
                        r,
                    )
                } else {
                    r matches Err(DatabaseError::ParseError { reason, sql: s }) && reason@
                        == "expected one statement"@ && s@ == sql@
                },
            },
    {
        let mut statements = match read_statements(sql) {
            Ok(statements) => statements,
            Err(reason) => {
                return Err(DatabaseError::ParseError { reason, sql: sql.to_owned() });
            },
        };
        assert(texts(statements@).len() == statements@.len());
        if statements.len() != 1 {
            return Err(
                DatabaseError::ParseError {
                    reason: "expected one statement".to_owned(),
                    sql: sql.to_owned(),
                },
            );
        }
        assert(texts(statements@)[0] == statements@[0]@);
        let text = statements.remove(0);
        let plan = self.plan_statement(&read_shape(sql, 0));
        self.write_planned(sql, 0, text, plan, timestamp)
    }

    /// Adds the metadata columns to every CREATE TABLE of a script. A script
    /// that needs no change is returned as it came.
    pub fn transform_ddl_statement(&self, sql: &str) -> (r: Result<String, DatabaseError>)
        ensures
            match sql_statements(sql@) {
                Err(message) => r matches Err(DatabaseError::ParseError { reason, sql: s })
                    && reason@ == message && s@ == sql@,
                Ok(statements) => {
                    &&& (forall|i: int|
                        0 <= i < statements.len() ==> !#[trigger] ddl_refused(sql@, i)) ==> (
                    r matches Ok(s) && s@ == if ddl_changed(sql@, statements.len()) {
                        joined(ddl_texts(sql@, statements), "; "@)
                    } else {
                        sql@
                    })
                    &&& (exists|i: int|
                        0 <= i < statements.len() && #[trigger] ddl_refused(sql@, i)) ==> (
                    r matches Err(e) && ddl_error(sql@, statements, e))
                },
            },
    {
        let statements = match read_statements(sql) {
            Ok(statements) => statements,
            Err(reason) => {
                return Err(DatabaseError::ParseError { reason, sql: sql.to_owned() });
            },
        };
        let ghost printed = texts(statements@);
        let mut out: Vec<String> = Vec::new();
        let mut changed = false;
        let mut i: usize = 0;
        while i < statements.len()
            invariant
                i <= statements.len(),
                printed == texts(statements@),
                sql_statements(sql@) == Ok::<Seq<Seq<char>>, Seq<char>>(printed),
                out@.len() == i,
                forall|j: int|
                    0 <= j < i ==> (#[trigger] out@[j])@ == ddl_statement(sql@, j, printed[j]),
                changed == ddl_changed(sql@, i as nat),
                forall|j: int| 0 <= j < i ==> !#[trigger] ddl_refused(sql@, j),
            decreases statements.len() - i,
        {
            assert(printed[i as int] == statements@[i as int]@);
            let ghost at = i as int;
            let plan = self.plan_statement(&read_shape(sql, i));
            assert(ddl_changes(sql@, at) == plan@ is CreateTable);
            match plan {
                StatementPlan::CreateTable { keep, .. } => {
                    let added = list_metadata_columns();
                    out.push(write_create_table(sql, i, keep.as_slice(), added.as_slice()));
                    changed = true;
                },
                StatementPlan::RefuseQuery => {
                    let e = refuse_query(statements[i].as_str());
                    assert(ddl_error_at(sql@, printed, e, at));
                    return Err(e);
                },
                _ => {
                    out.push(statements[i].clone());
                },
            }
            proof {
                if ddl_changed(sql@, i as nat) {
                    let k = choose|k: int| 0 <= k < i && #[trigger] ddl_changes(sql@, k);
                    assert(ddl_changes(sql@, k));
                }
            }
            i += 1;
        }
        assert(printed.len() == statements@.len());
        if !changed {
            return Ok(sql.to_owned());
        }
        assert(texts(out@) =~= ddl_texts(sql@, printed));
        Ok(join_texts(out.as_slice(), "; "))
    }
}

/// The error names the statement at `at`, and none before it is refused.
pub open spec fn ddl_error_at(
    sql: Seq<char>,
    statements: Seq<Seq<char>>,
    e: DatabaseError,
    at: int,
) -> bool {
    &&& 0 <= at < statements.len()
    &&& ddl_refused(sql, at)
    &&& is_ctas_error(e, statements[at])
    &&& forall|j: int| 0 <= j < at ==> !#[trigger] ddl_refused(sql, j)
}

/// The error names the first statement that cannot be rewritten.
pub open spec fn ddl_error(sql: Seq<char>, statements: Seq<Seq<char>>, e: DatabaseError) -> bool {
    exists|at: int| #[trigger] ddl_error_at(sql, statements, e, at)
}

} // verus!
