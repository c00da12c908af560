//! What is read of a SQL statement, and how it is written anew.
//!
//! Statements are read and written by an SQL parser. The rewriting rules see
//! only what is read here: the kind of a statement, its target, the columns of
//! a CREATE TABLE, the shape of an INSERT.

use crate::crdt::cells::cell_rows;
use crate::crdt::cells::cells_in;
use crate::crdt::cells::rows_in;
use crate::crdt::cells::Cell;
use crate::text::texts;
use sqlparser::ast::Assignment;
use sqlparser::ast::AssignmentTarget;
use sqlparser::ast::ColumnDef;
use sqlparser::ast::DataType;
use sqlparser::ast::Expr;
use sqlparser::ast::Ident;
use sqlparser::ast::ObjectName;
use sqlparser::ast::ObjectNamePart;
use sqlparser::ast::SelectItem;
use sqlparser::ast::SetExpr;
use sqlparser::ast::Statement;
use sqlparser::ast::TableFactor;
use sqlparser::ast::TableObject;
use sqlparser::ast::Value::SingleQuotedString;
use sqlparser::dialect::SQLiteDialect;
use sqlparser::parser::Parser;
use vstd::prelude::*;

verus! {

/// The kinds of statements that the rewriting rules tell apart.
#[derive(Clone, Copy, Debug, PartialEq, Eq, Structural)]
pub enum StatementKind {
    CreateTable,
    Insert,
    Update,
    AlterTable,
    Other,
}

/// The name of the table that a statement is about: the whole name, and its
/// last part without quotes.
#[derive(Debug)]
pub struct TargetName {
    pub full: String,
    pub last: Option<String>,
}

/// What a [`TargetName`] stands for.
pub struct TargetView {
    pub full: Seq<char>,
    pub last: Option<Seq<char>>,
}

impl View for TargetName {
    type V = TargetView;

    open spec fn view(&self) -> TargetView {
        TargetView {
            full: self.full@,
            last: match self.last {
                Some(s) => Some(s@),
                None => None,
            },
        }
    }
}

/// The columns of a CREATE TABLE by name, and whether it takes its rows from a
/// query.
#[derive(Debug)]
pub struct CreateShape {
    pub columns: Vec<String>,
    pub has_query: bool,
}

/// What a [`CreateShape`] stands for.
pub struct CreateView {
    pub columns: Seq<Seq<char>>,
    pub has_query: bool,
}

impl View for CreateShape {
    type V = CreateView;

    open spec fn view(&self) -> CreateView {
        CreateView { columns: texts(self.columns@), has_query: self.has_query }
    }
}

/// Where the rows of an INSERT come from: rows of so many values, a SELECT
/// whose items are wildcards or not, something else, or nowhere.
#[derive(Debug)]
pub enum InsertSource {
    Values(Vec<usize>),
    Select(Vec<bool>),
    Unsupported,
    Missing,
}

/// What an [`InsertSource`] stands for.
pub enum SourceView {
    Values(Seq<usize>),
    Select(Seq<bool>),
    Unsupported,
    Missing,
}

impl View for InsertSource {
    type V = SourceView;

    open spec fn view(&self) -> SourceView {
        match self {
            InsertSource::Values(v) => SourceView::Values(v@),
            InsertSource::Select(v) => SourceView::Select(v@),
            InsertSource::Unsupported => SourceView::Unsupported,
            InsertSource::Missing => SourceView::Missing,
        }
    }
}

/// An INSERT: whether it has a conflict clause, the last part of each column
/// name, and where its rows come from.
#[derive(Debug)]
pub struct InsertShape {
    pub conflict: bool,
    pub columns: Vec<Option<String>>,
    pub source: InsertSource,
}

/// What an [`InsertShape`] stands for.
pub struct InsertView {
    pub conflict: bool,
    pub columns: Seq<Option<Seq<char>>>,
    pub source: SourceView,
}

/// What a list of optional names stands for.
pub open spec fn opt_names(v: Seq<Option<String>>) -> Seq<Option<Seq<char>>> {
    v.map_values(
        |s: Option<String>|
            match s {
                Some(t) => Some(t@),
                None => None::<Seq<char>>,
            },
    )
}

impl View for InsertShape {
    type V = InsertView;

    open spec fn view(&self) -> InsertView {
        InsertView {
            conflict: self.conflict,
            columns: opt_names(self.columns@),
            source: self.source@,
        }
    }
}

/// A column that is added to a table: its name, and what is declared of it, type
/// and constraints as they are written behind the name.
#[derive(Debug)]
pub struct NewColumn {
    pub name: String,
    pub declared: String,
}

/// What a [`NewColumn`] stands for.
pub struct NewColumnView {
    pub name: Seq<char>,
    pub declared: Seq<char>,
}

impl View for NewColumn {
    type V = NewColumnView;

    open spec fn view(&self) -> NewColumnView {
        NewColumnView { name: self.name@, declared: self.declared@ }
    }
}

/// What a list of new columns stands for.
pub open spec fn new_column_views(v: Seq<NewColumn>) -> Seq<NewColumnView> {
    v.map_values(|c: NewColumn| c@)
}

/// The statements of a SQL text, each in the parser's own text, or the
/// parser's message where the text cannot be read.
pub uninterp spec fn sql_statements(sql: Seq<char>) -> Result<Seq<Seq<char>>, Seq<char>>;

/// Reads a SQL text with `sqlparser`'s `Parser::parse_sql` in the SQLite
/// dialect and prints each statement. The contract claims that the result
/// depends on the text alone.
#[verifier::external_body]
pub(crate) fn read_statements(sql: &str) -> (r: Result<Vec<String>, String>)
    ensures
        match (r, sql_statements(sql@)) {
            (Ok(got), Ok(want)) => texts(got@) == want,
            (Err(got), Err(want)) => got@ == want,
            _ => false,
        },
{
    match Parser::parse_sql(&SQLiteDialect {}, sql) {
        Ok(statements) => Ok(statements.iter().map(|s| s.to_string()).collect()),
        Err(e) => Err(e.to_string()),
    }
}

/// The kind of the statement at a position of a SQL text.
pub uninterp spec fn statement_kind(sql: Seq<char>, at: usize) -> StatementKind;

/// Tells the variants of `sqlparser`'s `Statement` apart. The contract claims
/// that the result depends on the text and the position alone.
#[verifier::external_body]
pub(crate) fn read_kind(sql: &str, at: usize) -> (r: StatementKind)
    ensures
        r == statement_kind(sql@, at),
{
    match Parser::parse_sql(&SQLiteDialect {}, sql).unwrap_or_default().get(at) {
        Some(Statement::CreateTable(_)) => StatementKind::CreateTable,
        Some(Statement::Insert(_)) => StatementKind::Insert,
        Some(Statement::Update(_)) => StatementKind::Update,
        Some(Statement::AlterTable(_)) => StatementKind::AlterTable,
        _ => StatementKind::Other,
    }
}

/// The table that a CREATE TABLE, ALTER TABLE, INSERT or UPDATE is about, if it
/// is given by name.
pub uninterp spec fn statement_target(sql: Seq<char>, at: usize) -> Option<TargetView>;

/// Reads the `ObjectName` of a statement that `sqlparser` parsed. The contract
/// claims that the result depends on the text and the position alone.
#[verifier::external_body]
fn read_target(sql: &str, at: usize) -> (r: Option<TargetName>)
    ensures
        match (r, statement_target(sql@, at)) {
            (Some(got), Some(want)) => got@ == want,
            (None, None) => true,
            _ => false,
        },
{
    let name = match Parser::parse_sql(&SQLiteDialect {}, sql).ok()?.into_iter().nth(at)? {
        Statement::CreateTable(t) => t.name,
        Statement::AlterTable(t) => t.name,
        Statement::Insert(sqlparser::ast::Insert { table: TableObject::TableName(n), .. }) => n,
        Statement::Update(u) => match u.table.relation {
            TableFactor::Table { name, .. } => name,
            _ => return None,
        },
        _ => return None,
    };
    let last = name.0.last().map(|p| match p {
        ObjectNamePart::Identifier(i) => i.value.clone(),
        ObjectNamePart::Function(f) => f.name.to_string(),
    });
    Some(TargetName { full: name.to_string(), last })
}

/// The shape of the CREATE TABLE at a position of a SQL text.
pub uninterp spec fn create_shape(sql: Seq<char>, at: usize) -> Option<CreateView>;

/// Reads the columns and the query of a `CreateTable` that `sqlparser` parsed.
/// The contract claims that the result depends on the text and the position
/// alone.
#[verifier::external_body]
fn read_create(sql: &str, at: usize) -> (r: Option<CreateShape>)
    ensures
        match (r, create_shape(sql@, at)) {
            (Some(got), Some(want)) => got@ == want,
            (None, None) => true,
            _ => false,
        },
{
    match Parser::parse_sql(&SQLiteDialect {}, sql).ok()?.into_iter().nth(at)? {
        Statement::CreateTable(t) => Some(
            CreateShape {
                columns: t.columns.iter().map(|c| c.name.value.clone()).collect(),
                has_query: t.query.is_some(),
            },
        ),
        _ => None,
    }
}

/// Whether the INSERT at a position of a SQL text has a conflict clause, and
/// the last part of each of its column names.
pub uninterp spec fn insert_head(sql: Seq<char>, at: usize) -> Option<
    (bool, Seq<Option<Seq<char>>>),
>;

/// Reads the conflict clause and the columns of an `Insert` that `sqlparser`
/// parsed. The contract claims that the result depends on the text and the
/// position alone.
#[verifier::external_body]
fn read_insert_head(sql: &str, at: usize) -> (r: Option<(bool, Vec<Option<String>>)>)
    ensures
        match (r, insert_head(sql@, at)) {
            (Some(got), Some(want)) => got.0 == want.0 && opt_names(got.1@) == want.1,
            (None, None) => true,
            _ => false,
        },
{
    match Parser::parse_sql(&SQLiteDialect {}, sql).ok()?.into_iter().nth(at)? {
        Statement::Insert(i) => {
            let last = |c: &ObjectName| c.0.last()?.as_ident().map(|n| n.value.clone());
            Some((i.on.is_some(), i.columns.iter().map(last).collect()))
        },
        _ => None,
    }
}

/// Where the rows of the INSERT at a position of a SQL text come from.
pub uninterp spec fn insert_source(sql: Seq<char>, at: usize) -> Option<SourceView>;

/// Reads the source of an `Insert` that `sqlparser` parsed. The contract claims
/// that the result depends on the text and the position alone.
#[verifier::external_body]
fn read_insert_source(sql: &str, at: usize) -> (r: Option<InsertSource>)
    ensures
        match (r, insert_source(sql@, at)) {
            (Some(got), Some(want)) => got@ == want,
            (None, None) => true,
            _ => false,
        },
{
    let statement = Parser::parse_sql(&SQLiteDialect {}, sql).ok()?.into_iter().nth(at)?;
    let Statement::Insert(i) = statement else { return None };
    Some(match i.source.as_ref().map(|q| &*q.body) {
        None => InsertSource::Missing,
        Some(SetExpr::Values(v)) => InsertSource::Values(v.rows.iter().map(|r| r.len()).collect()),
        Some(SetExpr::Select(s)) => InsertSource::Select(s.projection.iter().map(|p| matches!(
            p, SelectItem::Wildcard(_) | SelectItem::QualifiedWildcard(_, _)
        )).collect()),
        Some(_) => InsertSource::Unsupported,
    })
}

/// The shape of the INSERT at a position of a SQL text.
pub open spec fn insert_shape(sql: Seq<char>, at: usize) -> Option<InsertView> {
    match (insert_head(sql, at), insert_source(sql, at)) {
        (Some((conflict, columns)), Some(source)) => Some(
            InsertView { conflict, columns, source },
        ),
        _ => None,
    }
}

/// Reads the shape of an INSERT.
pub(crate) fn read_insert(sql: &str, at: usize) -> (r: Option<InsertShape>)
    ensures
        match (r, insert_shape(sql@, at)) {
            (Some(got), Some(want)) => got@ == want,
            (None, None) => true,
            _ => false,
        },
{
    match (read_insert_head(sql, at), read_insert_source(sql, at)) {
        (Some((conflict, columns)), Some(source)) => Some(
            InsertShape { conflict, columns, source },
        ),
        _ => None,
    }
}

/// Number of assignments of the UPDATE at a position of a SQL text.
pub uninterp spec fn update_width(sql: Seq<char>, at: usize) -> Option<usize>;

/// Counts the assignments of an `Update` that `sqlparser` parsed. The contract
/// claims that the result depends on the text and the position alone.
#[verifier::external_body]
fn read_update(sql: &str, at: usize) -> (r: Option<usize>)
    ensures
        r == update_width(sql@, at),
{
    match Parser::parse_sql(&SQLiteDialect {}, sql).ok()?.into_iter().nth(at)? {
        Statement::Update(u) => Some(u.assignments.len()),
        _ => None,
    }
}

/// What is read of a statement on a table that is given by name.
#[derive(Debug)]
pub enum StatementShape {
    CreateTable { target: TargetName, create: CreateShape },
    Insert { target: TargetName, insert: InsertShape },
    /// With this many assignments.
    Update { target: TargetName, assignments: usize },
    AlterTable { target: TargetName },
    /// Any other statement.
    Other,
}

/// What a [`StatementShape`] stands for.
pub enum ShapeView {
    CreateTable { target: TargetView, create: CreateView },
    Insert { target: TargetView, insert: InsertView },
    Update { target: TargetView, assignments: usize },
    AlterTable { target: TargetView },
    Other,
}

impl View for StatementShape {
    type V = ShapeView;

    open spec fn view(&self) -> ShapeView {
        match self {
            StatementShape::CreateTable { target, create } => ShapeView::CreateTable {
                target: target@,
                create: create@,
            },
            StatementShape::Insert { target, insert } => ShapeView::Insert {
                target: target@,
                insert: insert@,
            },
            StatementShape::Update { target, assignments } => ShapeView::Update {
                target: target@,
                assignments: *assignments,
            },
            StatementShape::AlterTable { target } => ShapeView::AlterTable { target: target@ },
            StatementShape::Other => ShapeView::Other,
        }
    }
}

/// What is read of the statement at a position of a SQL text.
pub open spec fn statement_shape(sql: Seq<char>, at: usize) -> ShapeView {
    match statement_target(sql, at) {
        Some(target) => match statement_kind(sql, at) {
            StatementKind::CreateTable => match create_shape(sql, at) {
                Some(create) => ShapeView::CreateTable { target, create },
                None => ShapeView::Other,
            },
            StatementKind::Insert => match insert_shape(sql, at) {
                Some(insert) => ShapeView::Insert { target, insert },
                None => ShapeView::Other,
            },
            StatementKind::Update => match update_width(sql, at) {
                Some(assignments) => ShapeView::Update { target, assignments },
                None => ShapeView::Other,
            },
            StatementKind::AlterTable => ShapeView::AlterTable { target },
            StatementKind::Other => ShapeView::Other,
        },
        None => ShapeView::Other,
    }
}

/// Reads a statement.
pub(crate) fn read_shape(sql: &str, at: usize) -> (r: StatementShape)
    ensures
        r@ == statement_shape(sql@, at),
{
    let target = match read_target(sql, at) {
        Some(target) => target,
        None => {
            return StatementShape::Other;
        },
    };
    match read_kind(sql, at) {
        StatementKind::CreateTable => match read_create(sql, at) {
            Some(create) => StatementShape::CreateTable { target, create },
            None => StatementShape::Other,
        },
        StatementKind::Insert => match read_insert(sql, at) {
            Some(insert) => StatementShape::Insert { target, insert },
            None => StatementShape::Other,
        },
        StatementKind::Update => match read_update(sql, at) {
            Some(assignments) => StatementShape::Update { target, assignments },
            None => StatementShape::Other,
        },
        StatementKind::AlterTable => StatementShape::AlterTable { target },
        StatementKind::Other => StatementShape::Other,
    }
}

/// The table has a column at each of these positions.
pub open spec fn has_columns(shape: CreateView, positions: Seq<usize>) -> bool {
    forall|i: int| 0 <= i < positions.len() ==> (#[trigger] positions[i]) < shape.columns.len()
}

/// The rows take from the rows of this source, which has none where it is not
/// a list of rows.
pub open spec fn rows_fit(rows: Seq<Seq<Cell>>, source: SourceView) -> bool {
    match source {
        SourceView::Values(widths) => rows_in(rows, widths),
        _ => rows.len() == 0,
    }
}

/// The items take from the SELECT items of this source.
pub open spec fn items_fit(items: Seq<Cell>, source: SourceView) -> bool {
    source matches SourceView::Select(wildcards) && cells_in(items, wildcards.len())
}

/// The CREATE TABLE with these of its columns, then these new ones.
pub uninterp spec fn create_table_text(
    sql: Seq<char>,
    at: usize,
    keep: Seq<usize>,
    added: Seq<NewColumnView>,
) -> Seq<char>;

/// Prints a `CreateTable` that `sqlparser` parsed, with these of its columns and
/// these new ones. What is declared of a new column stands where the parser keeps
/// a type of its own name, and is printed as it is. The contract claims that the
/// result depends on the text, the position, the kept columns and the new ones
/// alone.
#[verifier::external_body]
pub(crate) fn write_create_table(
    sql: &str,
    at: usize,
    keep: &[usize],
    added: &[NewColumn],
) -> (r: String)
    requires
        statement_kind(sql@, at) == StatementKind::CreateTable,
        create_shape(sql@, at) matches Some(shape) && has_columns(shape, keep@),
    ensures
        r@ == create_table_text(sql@, at, keep@, new_column_views(added@)),
{
    let mut statement = Parser::parse_sql(&SQLiteDialect {}, sql).unwrap().swap_remove(at);
    if let Statement::CreateTable(t) = &mut statement {
        let added = added.iter().map(|n| ColumnDef {
            name: Ident::new(n.name.as_str()),
            data_type: DataType::Custom(Ident::new(n.declared.as_str()).into(), vec![]),
            options: vec![],
        });
        t.columns = keep.iter().map(|k| t.columns[*k].clone()).chain(added).collect();
    }
    statement.to_string()
}

/// The INSERT with these columns and rows: what stays of its own, `name` for the
/// timestamp column, and `value` quoted for the timestamp.
pub uninterp spec fn insert_values_text(
    sql: Seq<char>,
    at: usize,
    columns: Seq<Cell>,
    rows: Seq<Seq<Cell>>,
    name: Seq<char>,
    value: Seq<char>,
) -> Seq<char>;

/// Prints an `Insert` that `sqlparser` parsed, with these columns and rows. The
/// contract claims that the result depends on the text, the position, the
/// columns, the rows, the name and the value alone.
#[verifier::external_body]
pub(crate) fn write_insert_values(
    sql: &str,
    at: usize,
    columns: &[Cell],
    rows: &[Vec<Cell>],
    name: &str,
    value: &str,
) -> (r: String)
    requires
        statement_kind(sql@, at) == StatementKind::Insert,
        insert_shape(sql@, at) matches Some(shape) && cells_in(columns@, shape.columns.len())
            && rows_fit(cell_rows(rows@), shape.source),
    ensures
        r@ == insert_values_text(sql@, at, columns@, cell_rows(rows@), name@, value@),
{
    let mut statement = Parser::parse_sql(&SQLiteDialect {}, sql).unwrap().swap_remove(at);
    if let Statement::Insert(i) = &mut statement {
        i.columns = columns.iter().map(
            |c| c.map_or(Ident::new(name).into(), |k| i.columns[k].clone())
        ).collect();
        if let Some(SetExpr::Values(v)) = i.source.as_mut().map(|q| &mut *q.body) {
            for (row, cells) in v.rows.iter_mut().zip(rows) {
                **row = cells.iter().map(
                    |c| c.map_or(Expr::value(SingleQuotedString(value.into())), |k| row[k].clone())
                ).collect();
            }
        }
    }
    statement.to_string()
}

/// The INSERT with these columns and SELECT items: what stays of its own, `name`
/// for the timestamp column, and `value` quoted for the timestamp.
pub uninterp spec fn insert_select_text(
    sql: Seq<char>,
    at: usize,
    columns: Seq<Cell>,
    items: Seq<Cell>,
    name: Seq<char>,
    value: Seq<char>,
) -> Seq<char>;

/// Prints an `Insert` that `sqlparser` parsed, with these columns and SELECT
/// items. The contract claims that the result depends on the text, the position,
/// the columns, the items, the name and the value alone.
#[verifier::external_body]
pub(crate) fn write_insert_select(
    sql: &str,
    at: usize,
    columns: &[Cell],
    items: &[Cell],
    name: &str,
    value: &str,
) -> (r: String)
    requires
        statement_kind(sql@, at) == StatementKind::Insert,
        insert_shape(sql@, at) matches Some(shape) && cells_in(columns@, shape.columns.len())
            && items_fit(items@, shape.source),
    ensures
        r@ == insert_select_text(sql@, at, columns@, items@, name@, value@),
{
    let mut statement = Parser::parse_sql(&SQLiteDialect {}, sql).unwrap().swap_remove(at);
    if let Statement::Insert(i) = &mut statement {
        i.columns = columns.iter().map(
            |c| c.map_or(Ident::new(name).into(), |k| i.columns[k].clone())
        ).collect();
        if let Some(SetExpr::Select(s)) = i.source.as_mut().map(|q| &mut *q.body) {
            let value = SelectItem::UnnamedExpr(Expr::value(SingleQuotedString(value.into())));
            s.projection = items.iter().map(
                |c| c.map_or(value.clone(), |k| s.projection[k].clone()),
            ).collect();
        }
    }
    statement.to_string()
}

/// The UPDATE with these assignments: what stays of its own, and `value` quoted,
/// assigned to `name`, for the timestamp.
pub uninterp spec fn update_text(
    sql: Seq<char>,
    at: usize,
    assignments: Seq<Cell>,
    name: Seq<char>,
    value: Seq<char>,
) -> Seq<char>;

/// Prints an `Update` that `sqlparser` parsed, with these assignments. The
/// contract claims that the result depends on the text, the position, the
/// assignments, the name and the value alone.
#[verifier::external_body]
pub(crate) fn write_update(
    sql: &str,
    at: usize,
    assignments: &[Cell],
    name: &str,
    value: &str,
) -> (r: String)
    requires
        statement_kind(sql@, at) == StatementKind::Update,
        update_width(sql@, at) matches Some(width) && cells_in(assignments@, width as nat),
    ensures
        r@ == update_text(sql@, at, assignments@, name@, value@),
{
    let mut statement = Parser::parse_sql(&SQLiteDialect {}, sql).unwrap().swap_remove(at);
    if let Statement::Update(u) = &mut statement {
        let stamp = Assignment {
            target: AssignmentTarget::ColumnName(Ident::new(name).into()),
            value: Expr::value(SingleQuotedString(value.into())),
        };
        u.assignments = assignments.iter().map(
            |c| c.map_or(stamp.clone(), |k| u.assignments[k].clone()),
        ).collect();
    }
    statement.to_string()
}

/// A text in lower case.
pub uninterp spec fn lower_case(s: Seq<char>) -> Seq<char>;

/// Puts a text in lower case with `str::to_lowercase`. The contract claims that
/// the result depends on the text alone.
#[verifier::external_body]
pub(crate) fn to_lower_case(s: &str) -> (r: String)
    ensures
        r@ == lower_case(s@),
{
    s.to_lowercase()
}

} // verus!
