//! Triggers that keep a table's column timestamps, log its deletes and mark it
//! as having something to send.

use crate::crdt::columns::is_synced_column;
use crate::crdt::columns::lemma_suffix_rule;
use crate::crdt::columns::names_synced_column;
use crate::crdt::columns::COLUMN_HLCS_COLUMN;
use crate::crdt::columns::COLUMN_SIGS_COLUMN;
use crate::crdt::columns::DELETED_ROWS_TABLE;
use crate::crdt::columns::HLC_FUNCTION_NAME;
use crate::crdt::columns::HLC_TIMESTAMP_COLUMN;
use crate::crdt::columns::TABLE_CRDT_CONFIGS;
use crate::crdt::columns::TABLE_CRDT_DIRTY_TABLES;
use crate::crdt::columns::UUID_FUNCTION_NAME;
use crate::crdt::identifier::is_safe_identifier;
use crate::crdt::identifier::safe_identifier;
use crate::crdt::schema::data_names;
use crate::crdt::schema::has_column;
use crate::crdt::schema::is_data_column;
use crate::crdt::schema::lemma_picked_step;
use crate::crdt::schema::picked_in_order;
use crate::crdt::schema::pk_columns;
use crate::crdt::schema::pk_names;
use crate::crdt::schema::schema_has_column;
use crate::crdt::schema::schema_view;
use crate::crdt::schema::ColumnInfo;
use crate::crdt::schema::ColumnView;
use crate::error::DatabaseError;
use crate::text::double_each;
use crate::text::doubled_each;
use crate::text::join_texts;
use crate::text::joined;
use crate::text::list_contains;
use crate::text::texts;
use crate::text::wrap_each;
use crate::text::wrapped_each;
use vstd::prelude::*;

verus! {

/// Why a table cannot be given triggers.
#[derive(Debug)]
pub enum CrdtSetupError {
    /// The name of the table cannot stand in SQL.
    UnsafeTable { table_name: String },
    HlcColumnMissing { table_name: String, column_name: String },
    PrimaryKeyMissing { table_name: String },
    /// The name of a column cannot stand in SQL.
    UnsafeIdentifier { name: String },
}

/// The message of a setup error.
pub open spec fn setup_message(e: CrdtSetupError) -> Seq<char> {
    match e {
        CrdtSetupError::UnsafeTable { table_name } =>
            "database error: Invalid parameter name: Invalid or unsafe table name provided: "@
            + table_name@,
        CrdtSetupError::HlcColumnMissing { table_name, column_name } => "table '"@ + table_name@
            + "' is missing the required hlc column '"@ + column_name@ + "'"@,
        CrdtSetupError::PrimaryKeyMissing { table_name } => "table '"@ + table_name@
            + "' has no primary key"@,
        CrdtSetupError::UnsafeIdentifier { name } => "column '"@ + name@
            + "' is not a safe SQL identifier"@,
    }
}

impl CrdtSetupError {
    /// What went wrong, in words.
    pub fn message(&self) -> (r: String)
        ensures
            r@ == setup_message(*self),
    {
        match self {
            CrdtSetupError::UnsafeTable { table_name } => {
                let mut s =
                    "database error: Invalid parameter name: Invalid or unsafe table name provided: ".to_owned();
                s.push_str(table_name.as_str());
                s
            },
            CrdtSetupError::HlcColumnMissing { table_name, column_name } => {
                let mut s = "table '".to_owned();
                s.push_str(table_name.as_str());
                s.push_str("' is missing the required hlc column '");
                s.push_str(column_name.as_str());
                s.push_str("'");
                s
            },
            CrdtSetupError::PrimaryKeyMissing { table_name } => {
                let mut s = "table '".to_owned();
                s.push_str(table_name.as_str());
                s.push_str("' has no primary key");
                s
            },
            CrdtSetupError::UnsafeIdentifier { name } => {
                let mut s = "column '".to_owned();
                s.push_str(name.as_str());
                s.push_str("' is not a safe SQL identifier");
                s
            },
        }
    }

    /// The error as one of the database.
    pub fn into_database_error(self) -> (r: DatabaseError)
        ensures
            r matches DatabaseError::CrdtSetup(m) && m@ == setup_message(self),
    {
        DatabaseError::CrdtSetup(self.message())
    }
}

impl From<CrdtSetupError> for DatabaseError {
    fn from(err: CrdtSetupError) -> (r: Self)
        ensures
            r matches DatabaseError::CrdtSetup(m) && m@ == setup_message(err),
    {
        err.into_database_error()
    }
}

/// Nothing is added here: what a conversion gives is said by `from` itself.
impl vstd::std_specs::convert::FromSpecImpl<CrdtSetupError> for DatabaseError {
    open spec fn obeys_from_spec() -> bool {
        false
    }

    open spec fn from_spec(v: CrdtSetupError) -> Self {
        arbitrary()
    }
}

/// What became of an attempt to give a table triggers.
#[derive(Clone, Copy, Debug, PartialEq, Eq, Structural)]
pub enum TriggerSetupResult {
    Success,
    /// There is no such table.
    TableNotFound,
}

/// What a consumer may choose about the triggers.
#[derive(Debug)]
pub struct TriggerInstallerConfig {
    /// Columns that are not followed, besides primary keys and suffixed ones.
    pub additional_skip_columns: Vec<String>,
}

impl Default for TriggerInstallerConfig {
    fn default() -> (r: Self)
        ensures
            r.additional_skip_columns@.len() == 0,
    {
        TriggerInstallerConfig { additional_skip_columns: Vec::new() }
    }
}

/// The columns that the triggers follow, in declaration order.
pub open spec fn followed_names(schema: Seq<ColumnView>, skips: Seq<Seq<char>>) -> Seq<Seq<char>>
    decreases schema.len(),
{
    if schema.len() == 0 {
        Seq::empty()
    } else {
        let before = followed_names(schema.drop_last(), skips);
        let c = schema.last();
        if !c.is_pk && is_synced_column(c.name) && !skips.contains(c.name) {
            before.push(c.name)
        } else {
            before
        }
    }
}

/// Without further choices the triggers follow exactly the columns that a scan
/// sends.
pub proof fn lemma_followed_is_sent(schema: Seq<ColumnView>)
    ensures
        followed_names(schema, Seq::empty()) == data_names(schema),
    decreases schema.len(),
{
    if schema.len() > 0 {
        lemma_followed_is_sent(schema.drop_last());
    }
}

/// A consumer can take columns out, never put one in: whatever the choices,
/// every followed column is one that a scan sends, and none of those taken out.
pub proof fn lemma_choices_only_take_out(schema: Seq<ColumnView>, skips: Seq<Seq<char>>, i: int)
    requires
        0 <= i < followed_names(schema, skips).len(),
    ensures
        data_names(schema).contains(followed_names(schema, skips)[i]),
        !skips.contains(followed_names(schema, skips)[i]),
    decreases schema.len(),
{
    let rest = schema.drop_last();
    let name = followed_names(schema, skips)[i];
    let before = followed_names(rest, skips);
    if i < before.len() {
        lemma_choices_only_take_out(rest, skips, i);
        let k = choose|k: int| 0 <= k < data_names(rest).len() && data_names(rest)[k] == name;
        assert(data_names(schema)[k] == name);
    } else {
        let all = data_names(schema);
        assert(all[all.len() - 1] == name);
    }
}

/// The followed columns are the data columns that are not taken out: all of them,
/// each once, in declaration order.
pub proof fn lemma_followed_columns(schema: Seq<ColumnView>, skips: Seq<Seq<char>>) -> (at: Seq<
    int,
>)
    ensures
        picked_in_order(
            schema,
            |c: ColumnView| is_data_column(c) && !skips.contains(c.name),
            followed_names(schema, skips),
            at,
        ),
    decreases schema.len(),
{
    if schema.len() == 0 {
        Seq::empty()
    } else {
        let before = lemma_followed_columns(schema.drop_last(), skips);
        lemma_suffix_rule(schema.last().name);
        lemma_picked_step(
            schema,
            |c: ColumnView| is_data_column(c) && !skips.contains(c.name),
            followed_names(schema.drop_last(), skips),
            before,
        )
    }
}

/// The columns that the triggers follow.
pub fn followed_columns(schema: &[ColumnInfo], config: &TriggerInstallerConfig) -> (r: Vec<String>)
    ensures
        texts(r@) == followed_names(schema_view(schema@), texts(config.additional_skip_columns@)),
{
    let ghost sv = schema_view(schema@);
    let ghost skips = texts(config.additional_skip_columns@);
    let mut out: Vec<String> = Vec::new();
    let mut i: usize = 0;
    assert(texts(out@) =~= followed_names(sv.take(0), skips));
    while i < schema.len()
        invariant
            i <= schema.len(),
            sv == schema_view(schema@),
            skips == texts(config.additional_skip_columns@),
            texts(out@) == followed_names(sv.take(i as int), skips),
        decreases schema.len() - i,
    {
        let ghost next = sv.take(i + 1);
        assert(next.drop_last() =~= sv.take(i as int));
        assert(next.last() == schema@[i as int]@);
        let c = &schema[i];
        let ghost before = texts(out@);
        if !c.is_pk && names_synced_column(c.name.as_str()) && !list_contains(
            config.additional_skip_columns.as_slice(),
            c.name.as_str(),
        ) {
            out.push(c.name.clone());
            assert(texts(out@) =~= before.push(c.name@));
        }
        i += 1;
    }
    assert(sv.take(i as int) =~= sv);
    out
}

/// The name of a table's trigger for one kind of event.
pub open spec fn trigger_name(table: Seq<char>, event: Seq<char>) -> Seq<char> {
    "z_dirty_"@ + table + "_"@ + event
}

fn write_trigger_name(table_name: &str, event: &str) -> (r: String)
    ensures
        r@ == trigger_name(table_name@, event@),
{
    let mut s = "z_dirty_".to_owned();
    s.push_str(table_name);
    s.push_str("_");
    s.push_str(event);
    s
}

/// The row of the event, by its primary key.
pub open spec fn new_row_clause(pks: Seq<Seq<char>>) -> Seq<char> {
    if pks.len() == 0 {
        "rowid = NEW.rowid"@
    } else {
        joined(doubled_each(pks, "\""@, "\" = NEW.\""@, "\""@), " AND "@)
    }
}

fn write_new_row_clause(pks: &[String]) -> (r: String)
    ensures
        r@ == new_row_clause(texts(pks@)),
{
    assert(texts(pks@).len() == pks@.len());
    if pks.len() == 0 {
        "rowid = NEW.rowid".to_owned()
    } else {
        join_texts(double_each(pks, "\"", "\" = NEW.\"", "\"").as_slice(), " AND ")
    }
}

/// The condition under which triggers work: the row carries a timestamp and
/// triggers are not turned off.
pub open spec fn when_stamped() -> Seq<char> {
    "\n            FOR EACH ROW\n            WHEN NEW."@ + HLC_TIMESTAMP_COLUMN@
        + " IS NOT NULL\n                AND COALESCE((SELECT value FROM "@ + TABLE_CRDT_CONFIGS@
        + " WHERE key = 'triggers_enabled'), '1') = '1'\n            BEGIN\n            "@
}

fn write_when_stamped() -> (r: String)
    ensures
        r@ == when_stamped(),
{
    let mut s = "\n            FOR EACH ROW\n            WHEN NEW.".to_owned();
    s.push_str(HLC_TIMESTAMP_COLUMN);
    s.push_str(" IS NOT NULL\n                AND COALESCE((SELECT value FROM ");
    s.push_str(TABLE_CRDT_CONFIGS);
    s.push_str(" WHERE key = 'triggers_enabled'), '1') = '1'\n            BEGIN\n            ");
    s
}

/// The start of a statement that marks a table as having something to send.
pub open spec fn mark_dirty_head() -> Seq<char> {
    "INSERT INTO "@ + TABLE_CRDT_DIRTY_TABLES@ + " (table_name, last_modified)\n            "@
}

/// The end of such a statement: a table that is marked already has its time
/// renewed.
pub open spec fn mark_dirty_tail() -> Seq<char> {
    "\n            ON CONFLICT(table_name) DO UPDATE SET last_modified = excluded.last_modified;\n            END;"@
}

fn push_mark_dirty_head(s: &mut String)
    ensures
        final(s)@ == old(s)@ + mark_dirty_head(),
{
    s.push_str("INSERT INTO ");
    s.push_str(TABLE_CRDT_DIRTY_TABLES);
    s.push_str(" (table_name, last_modified)\n            ");
    assert(s@ =~= old(s)@ + mark_dirty_head());
}

fn push_mark_dirty_tail(s: &mut String)
    ensures
        final(s)@ == old(s)@ + mark_dirty_tail(),
{
    s.push_str(
        "\n            ON CONFLICT(table_name) DO UPDATE SET last_modified = excluded.last_modified;\n            END;",
    );
}

/// The timestamp map of a fresh row: every followed column with the row's
/// timestamp.
pub open spec fn fresh_map(cols: Seq<Seq<char>>) -> Seq<char> {
    if cols.len() == 0 {
        "'{}'"@
    } else {
        "json_object("@ + joined(
            wrapped_each(cols, "'"@, "', NEW.\""@ + HLC_TIMESTAMP_COLUMN@ + "\""@),
            ", "@,
        ) + ")"@
    }
}

fn write_fresh_map(cols: &[String]) -> (r: String)
    ensures
        r@ == fresh_map(texts(cols@)),
{
    assert(texts(cols@).len() == cols@.len());
    if cols.len() == 0 {
        return "'{}'".to_owned();
    }
    let mut post = "', NEW.\"".to_owned();
    post.push_str(HLC_TIMESTAMP_COLUMN);
    post.push_str("\"");
    let mut s = "json_object(".to_owned();
    s.push_str(join_texts(wrap_each(cols, "'", post.as_str()).as_slice(), ", ").as_str());
    s.push_str(")");
    s
}

/// The trigger that fills the timestamp map of a fresh row.
pub open spec fn insert_trigger_sql(
    table: Seq<char>,
    cols: Seq<Seq<char>>,
    pks: Seq<Seq<char>>,
) -> Seq<char> {
    "CREATE TRIGGER IF NOT EXISTS \""@ + trigger_name(table, "insert"@)
        + "\"\n            AFTER INSERT ON \""@ + table + "\""@ + when_stamped() + "UPDATE \""@
        + table + "\"\n            SET "@ + COLUMN_HLCS_COLUMN@ + " = "@ + fresh_map(cols)
        + "\n            WHERE "@ + new_row_clause(pks) + ";\n\n            "@ + mark_dirty_head()
        + "VALUES ('"@ + table + "', datetime('now'))"@ + mark_dirty_tail()
}

/// Writes the trigger that fills the timestamp map of a fresh row.
pub fn generate_insert_trigger_sql(
    table_name: &str,
    cols_to_track: &[String],
    primary_key_columns: &[String],
) -> (r: String)
    ensures
        r@ == insert_trigger_sql(table_name@, texts(cols_to_track@), texts(primary_key_columns@)),
{
    let mut s = "CREATE TRIGGER IF NOT EXISTS \"".to_owned();
    s.push_str(write_trigger_name(table_name, "insert").as_str());
    s.push_str("\"\n            AFTER INSERT ON \"");
    s.push_str(table_name);
    s.push_str("\"");
    s.push_str(write_when_stamped().as_str());
    s.push_str("UPDATE \"");
    s.push_str(table_name);
    s.push_str("\"\n            SET ");
    s.push_str(COLUMN_HLCS_COLUMN);
    s.push_str(" = ");
    s.push_str(write_fresh_map(cols_to_track).as_str());
    s.push_str("\n            WHERE ");
    s.push_str(write_new_row_clause(primary_key_columns).as_str());
    s.push_str(";\n\n            ");
    push_mark_dirty_head(&mut s);
    s.push_str("VALUES ('");
    s.push_str(table_name);
    s.push_str("', datetime('now'))");
    push_mark_dirty_tail(&mut s);
    s
}

/// The statement that moves one column's timestamp on where the column
/// changed.
pub open spec fn column_update(table: Seq<char>, pks: Seq<Seq<char>>, col: Seq<char>) -> Seq<char> {
    "UPDATE \""@ + table + "\"\n            SET "@ + COLUMN_HLCS_COLUMN@ + " = json_set("@
        + COLUMN_HLCS_COLUMN@ + ", '$."@ + col + "', NEW.\""@ + HLC_TIMESTAMP_COLUMN@
        + "\")\n            WHERE "@ + new_row_clause(pks) + " AND NEW.\""@ + col
        + "\" IS NOT OLD.\""@ + col + "\";"@
}

/// One such statement for each followed column.
pub open spec fn column_updates(
    table: Seq<char>,
    pks: Seq<Seq<char>>,
    cols: Seq<Seq<char>>,
) -> Seq<Seq<char>> {
    cols.map_values(|c: Seq<char>| column_update(table, pks, c))
}

fn write_column_updates(table_name: &str, pks: &[String], cols: &[String]) -> (r: Vec<String>)
    ensures
        texts(r@) == column_updates(table_name@, texts(pks@), texts(cols@)),
{
    let clause = write_new_row_clause(pks);
    let mut out: Vec<String> = Vec::new();
    let mut i: usize = 0;
    while i < cols.len()
        invariant
            i <= cols.len(),
            clause@ == new_row_clause(texts(pks@)),
            out@.len() == i,
            forall|j: int|
                0 <= j < i ==> (#[trigger] out@[j])@ == column_update(
                    table_name@,
                    texts(pks@),
                    cols@[j]@,
                ),
        decreases cols.len() - i,
    {
        let col = cols[i].as_str();
        let mut s = "UPDATE \"".to_owned();
        s.push_str(table_name);
        s.push_str("\"\n            SET ");
        s.push_str(COLUMN_HLCS_COLUMN);
        s.push_str(" = json_set(");
        s.push_str(COLUMN_HLCS_COLUMN);
        s.push_str(", '$.");
        s.push_str(col);
        s.push_str("', NEW.\"");
        s.push_str(HLC_TIMESTAMP_COLUMN);
        s.push_str("\")\n            WHERE ");
        s.push_str(clause.as_str());
        s.push_str(" AND NEW.\"");
        s.push_str(col);
        s.push_str("\" IS NOT OLD.\"");
        s.push_str(col);
        s.push_str("\";");
        out.push(s);
        i += 1;
    }
    assert(texts(out@) =~= column_updates(table_name@, texts(pks@), texts(cols@)));
    out
}

/// Some followed column changed.
pub open spec fn any_changed(cols: Seq<Seq<char>>) -> Seq<char> {
    if cols.len() == 0 {
        "0"@
    } else {
        joined(doubled_each(cols, "NEW.\""@, "\" IS NOT OLD.\""@, "\""@), " OR "@)
    }
}

/// The updates that the trigger looks at: those of a followed column.
pub open spec fn update_event(table: Seq<char>, cols: Seq<Seq<char>>) -> Seq<char> {
    if cols.len() == 0 {
        "AFTER UPDATE ON \""@ + table + "\""@
    } else {
        "AFTER UPDATE OF "@ + joined(wrapped_each(cols, "\""@, "\""@), ", "@) + " ON \""@ + table
            + "\""@
    }
}

fn write_update_event(table_name: &str, cols: &[String]) -> (r: String)
    ensures
        r@ == update_event(table_name@, texts(cols@)),
{
    assert(texts(cols@).len() == cols@.len());
    if cols.len() == 0 {
        let mut s = "AFTER UPDATE ON \"".to_owned();
        s.push_str(table_name);
        s.push_str("\"");
        s
    } else {
        let mut s = "AFTER UPDATE OF ".to_owned();
        s.push_str(join_texts(wrap_each(cols, "\"", "\"").as_slice(), ", ").as_str());
        s.push_str(" ON \"");
        s.push_str(table_name);
        s.push_str("\"");
        s
    }
}

/// The trigger that moves the timestamps of changed columns on.
pub open spec fn update_trigger_sql(
    table: Seq<char>,
    cols: Seq<Seq<char>>,
    pks: Seq<Seq<char>>,
) -> Seq<char> {
    "CREATE TRIGGER IF NOT EXISTS \""@ + trigger_name(table, "update"@) + "\"\n            "@
        + update_event(table, cols) + when_stamped() + joined(
        column_updates(table, pks, cols),
        "\n            "@,
    ) + "\n\n            "@ + mark_dirty_head() + "SELECT '"@ + table
        + "', datetime('now')\n            WHERE ("@ + any_changed(cols) + ")"@ + mark_dirty_tail()
}

/// Writes the trigger that moves the timestamps of changed columns on.
pub fn generate_update_trigger_sql(
    table_name: &str,
    cols_to_track: &[String],
    primary_key_columns: &[String],
) -> (r: String)
    ensures
        r@ == update_trigger_sql(table_name@, texts(cols_to_track@), texts(primary_key_columns@)),
{
    assert(texts(cols_to_track@).len() == cols_to_track@.len());
    let changed = if cols_to_track.len() == 0 {
        "0".to_owned()
    } else {
        join_texts(
            double_each(cols_to_track, "NEW.\"", "\" IS NOT OLD.\"", "\"").as_slice(),
            " OR ",
        )
    };
    let updates = write_column_updates(table_name, primary_key_columns, cols_to_track);
    let mut s = "CREATE TRIGGER IF NOT EXISTS \"".to_owned();
    s.push_str(write_trigger_name(table_name, "update").as_str());
    s.push_str("\"\n            ");
    s.push_str(write_update_event(table_name, cols_to_track).as_str());
    s.push_str(write_when_stamped().as_str());
    s.push_str(join_texts(updates.as_slice(), "\n            ").as_str());
    s.push_str("\n\n            ");
    push_mark_dirty_head(&mut s);
    s.push_str("SELECT '");
    s.push_str(table_name);
    s.push_str("', datetime('now')\n            WHERE (");
    s.push_str(changed.as_str());
    s.push_str(")");
    push_mark_dirty_tail(&mut s);
    s
}

/// The trigger that logs a delete.
pub open spec fn delete_trigger_sql(table: Seq<char>, pks: Seq<Seq<char>>) -> Seq<char> {
    "CREATE TRIGGER IF NOT EXISTS \""@ + trigger_name(table, "delete"@)
        + "\"\n            BEFORE DELETE ON \""@ + table
        + "\"\n            FOR EACH ROW\n            WHEN COALESCE((SELECT value FROM "@
        + TABLE_CRDT_CONFIGS@
        + " WHERE key = 'triggers_enabled'), '1') = '1'\n            BEGIN\n            INSERT INTO "@
        + DELETED_ROWS_TABLE@ + " (id, table_name, row_pks, "@ + HLC_TIMESTAMP_COLUMN@ + ", "@
        + COLUMN_HLCS_COLUMN@ + ")\n            VALUES ("@ + UUID_FUNCTION_NAME@ + "(), '"@ + table
        + "', json_object("@ + joined(doubled_each(pks, "'"@, "', OLD.\""@, "\""@), ", "@) + "), "@
        + HLC_FUNCTION_NAME@ + "(), '{}');\n            "@ + mark_dirty_head() + "VALUES ('"@
        + DELETED_ROWS_TABLE@ + "', datetime('now'))"@ + mark_dirty_tail()
}

/// Writes the trigger that logs a delete.
pub fn generate_delete_trigger_sql(table_name: &str, pks: &[String]) -> (r: String)
    ensures
        r@ == delete_trigger_sql(table_name@, texts(pks@)),
{
    let mut s = "CREATE TRIGGER IF NOT EXISTS \"".to_owned();
    s.push_str(write_trigger_name(table_name, "delete").as_str());
    s.push_str("\"\n            BEFORE DELETE ON \"");
    s.push_str(table_name);
    s.push_str("\"\n            FOR EACH ROW\n            WHEN COALESCE((SELECT value FROM ");
    s.push_str(TABLE_CRDT_CONFIGS);
    s.push_str(
        " WHERE key = 'triggers_enabled'), '1') = '1'\n            BEGIN\n            INSERT INTO ",
    );
    s.push_str(DELETED_ROWS_TABLE);
    s.push_str(" (id, table_name, row_pks, ");
    s.push_str(HLC_TIMESTAMP_COLUMN);
    s.push_str(", ");
    s.push_str(COLUMN_HLCS_COLUMN);
    s.push_str(")\n            VALUES (");
    s.push_str(UUID_FUNCTION_NAME);
    s.push_str("(), '");
    s.push_str(table_name);
    s.push_str("', json_object(");
    s.push_str(join_texts(double_each(pks, "'", "', OLD.\"", "\"").as_slice(), ", ").as_str());
    s.push_str("), ");
    s.push_str(HLC_FUNCTION_NAME);
    s.push_str("(), '{}');\n            ");
    push_mark_dirty_head(&mut s);
    s.push_str("VALUES ('");
    s.push_str(DELETED_ROWS_TABLE);
    s.push_str("', datetime('now'))");
    push_mark_dirty_tail(&mut s);
    s
}

/// The statement that drops a trigger.
pub open spec fn drop_sql(name: Seq<char>) -> Seq<char> {
    "DROP TRIGGER IF EXISTS \""@ + name + "\";"@
}

/// Writes the statement that drops a trigger.
pub fn drop_trigger_sql(trigger_name: &str) -> (r: String)
    ensures
        r@ == drop_sql(trigger_name@),
{
    let mut s = "DROP TRIGGER IF EXISTS \"".to_owned();
    s.push_str(trigger_name);
    s.push_str("\";");
    s
}

/// The statements that drop a table's triggers.
pub open spec fn drop_all_sql(table: Seq<char>) -> Seq<char> {
    drop_sql(trigger_name(table, "insert"@)) + "\n"@ + drop_sql(trigger_name(table, "update"@))
        + "\n"@ + drop_sql(trigger_name(table, "delete"@))
}

/// Writes the statements that drop a table's triggers. A name that cannot stand
/// in SQL is refused.
pub fn drop_triggers_sql(table_name: &str) -> (r: Result<String, CrdtSetupError>)
    ensures
        match r {
            Ok(sql) => safe_identifier(table_name@) && sql@ == drop_all_sql(table_name@),
            Err(e) => !safe_identifier(table_name@) && (e matches CrdtSetupError::UnsafeTable {
                table_name: t,
            } && t@ == table_name@),
        },
{
    if !is_safe_identifier(table_name) {
        return Err(CrdtSetupError::UnsafeTable { table_name: table_name.to_owned() });
    }
    let mut s = drop_trigger_sql(write_trigger_name(table_name, "insert").as_str());
    s.push_str("\n");
    s.push_str(drop_trigger_sql(write_trigger_name(table_name, "update").as_str()).as_str());
    s.push_str("\n");
    s.push_str(drop_trigger_sql(write_trigger_name(table_name, "delete").as_str()).as_str());
    Ok(s)
}

/// The query for a table's columns.
pub open spec fn schema_sql(table: Seq<char>) -> Seq<char> {
    "PRAGMA table_info(\""@ + table + "\");"@
}

/// The query for a table's columns. A name that cannot stand in SQL is refused.
pub fn table_schema_sql(table_name: &str) -> (r: Result<String, CrdtSetupError>)
    ensures
        match r {
            Ok(sql) => safe_identifier(table_name@) && sql@ == schema_sql(table_name@),
            Err(e) => !safe_identifier(table_name@) && (e matches CrdtSetupError::UnsafeTable {
                table_name: t,
            } && t@ == table_name@),
        },
{
    if !is_safe_identifier(table_name) {
        return Err(CrdtSetupError::UnsafeTable { table_name: table_name.to_owned() });
    }
    let mut s = "PRAGMA table_info(\"".to_owned();
    s.push_str(table_name);
    s.push_str("\");");
    Ok(s)
}

/// A name that cannot stand in SQL.
pub open spec fn some_unsafe(names: Seq<Seq<char>>) -> bool {
    exists|i: int| 0 <= i < names.len() && !safe_identifier(#[trigger] names[i])
}

/// `name` is the first name that cannot stand in SQL.
pub open spec fn first_unsafe(names: Seq<Seq<char>>, name: Seq<char>) -> bool {
    exists|i: int|
        #![trigger names[i]]
        0 <= i < names.len() && names[i] == name && !safe_identifier(names[i]) && forall|j: int|
            0 <= j < i ==> safe_identifier(#[trigger] names[j])
}

/// Position of the first name that cannot stand in SQL, or the number of names.
fn find_unsafe(names: &[String]) -> (r: usize)
    ensures
        r <= names@.len(),
        r < names@.len() ==> !safe_identifier(texts(names@)[r as int]),
        forall|j: int| 0 <= j < r ==> safe_identifier(#[trigger] texts(names@)[j]),
{
    let mut i: usize = 0;
    while i < names.len()
        invariant
            i <= names@.len(),
            forall|j: int| 0 <= j < i ==> safe_identifier(#[trigger] texts(names@)[j]),
        decreases names.len() - i,
    {
        assert(texts(names@)[i as int] == names@[i as int]@);
        if !is_safe_identifier(names[i].as_str()) {
            return i;
        }
        i += 1;
    }
    i
}

/// The statements that give a table its triggers, in order. Existing ones are
/// dropped first where that is wanted. The delete log gets no delete trigger:
/// clearing the log is not logged.
pub open spec fn install_statements(
    table: Seq<char>,
    cols: Seq<Seq<char>>,
    pks: Seq<Seq<char>>,
    recreate: bool,
) -> Seq<Seq<char>> {
    let first = if recreate {
        seq![drop_all_sql(table)]
    } else {
        Seq::empty()
    };
    let two = first.push(insert_trigger_sql(table, cols, pks)).push(
        update_trigger_sql(table, cols, pks),
    );
    if table == DELETED_ROWS_TABLE@ {
        two
    } else {
        two.push(delete_trigger_sql(table, pks))
    }
}

/// Plans the triggers of a table, given its columns: nothing where there is no
/// table, an error where the table lacks its timestamp column or a primary key,
/// or has a name that cannot stand in SQL.
pub fn plan_triggers(
    table_name: &str,
    schema: &[ColumnInfo],
    recreate: bool,
    config: &TriggerInstallerConfig,
) -> (r: Result<Option<Vec<String>>, CrdtSetupError>)
    ensures
        ({
            let sv = schema_view(schema@);
            let pks = pk_names(sv);
            let cols = followed_names(sv, texts(config.additional_skip_columns@));
            if !safe_identifier(table_name@) {
                r matches Err(CrdtSetupError::UnsafeTable { table_name: t }) && t@ == table_name@
            } else if sv.len() == 0 {
                r matches Ok(None)
            } else if !has_column(sv, HLC_TIMESTAMP_COLUMN@) {
                r matches Err(CrdtSetupError::HlcColumnMissing { table_name: t, column_name: c })
                    && t@ == table_name@ && c@ == HLC_TIMESTAMP_COLUMN@
            } else if pks.len() == 0 {
                r matches Err(CrdtSetupError::PrimaryKeyMissing { table_name: t }) && t@
                    == table_name@
            } else if some_unsafe(pks + cols) {
                r matches Err(CrdtSetupError::UnsafeIdentifier { name }) && first_unsafe(
                    pks + cols,
                    name@,
                )
            } else {
                r matches Ok(Some(statements)) && texts(statements@) == install_statements(
                    table_name@,
                    cols,
                    pks,
                    recreate,
                )
            }
        }),
{
    if !is_safe_identifier(table_name) {
        return Err(CrdtSetupError::UnsafeTable { table_name: table_name.to_owned() });
    }
    if schema.len() == 0 {
        return Ok(None);
    }
    if !schema_has_column(schema, HLC_TIMESTAMP_COLUMN) {
        return Err(
            CrdtSetupError::HlcColumnMissing {
                table_name: table_name.to_owned(),
                column_name: HLC_TIMESTAMP_COLUMN.to_owned(),
            },
        );
    }
    let pks = pk_columns(schema);
    assert(texts(pks@).len() == pks@.len());
    if pks.len() == 0 {
        return Err(CrdtSetupError::PrimaryKeyMissing { table_name: table_name.to_owned() });
    }
    let cols = followed_columns(schema, config);
    let ghost names = texts(pks@) + texts(cols@);
    let bad: usize = find_unsafe(pks.as_slice());
    if bad < pks.len() {
        proof {
            assert(names[bad as int] == texts(pks@)[bad as int]);
            assert forall|j: int| 0 <= j < bad implies safe_identifier(#[trigger] names[j]) by {
                assert(names[j] == texts(pks@)[j]);
            }
        }
        return Err(CrdtSetupError::UnsafeIdentifier { name: pks[bad].clone() });
    }
    let bad: usize = find_unsafe(cols.as_slice());
    if bad < cols.len() {
        proof {
            assert(names[pks@.len() + bad] == texts(cols@)[bad as int]);
            assert forall|j: int| 0 <= j < pks@.len() + bad implies safe_identifier(
                #[trigger] names[j],
            ) by {
                if j < pks@.len() {
                    assert(names[j] == texts(pks@)[j]);
                } else {
                    assert(names[j] == texts(cols@)[j - pks@.len()]);
                }
            }
        }
        return Err(CrdtSetupError::UnsafeIdentifier { name: cols[bad].clone() });
    }
    assert forall|j: int| 0 <= j < names.len() implies safe_identifier(#[trigger] names[j]) by {
        if j < pks@.len() {
            assert(names[j] == texts(pks@)[j]);
        } else {
            assert(names[j] == texts(cols@)[j - pks@.len()]);
        }
    }
    let mut out: Vec<String> = Vec::new();
    if recreate {
        match drop_triggers_sql(table_name) {
            Ok(sql) => {
                out.push(sql);
            },
            Err(e) => {
                return Err(e);
            },
        }
    }
    out.push(generate_insert_trigger_sql(table_name, cols.as_slice(), pks.as_slice()));
    out.push(generate_update_trigger_sql(table_name, cols.as_slice(), pks.as_slice()));
    if !table_name.eq(DELETED_ROWS_TABLE) {
        out.push(generate_delete_trigger_sql(table_name, pks.as_slice()));
    }
    assert(texts(out@) =~= install_statements(table_name@, texts(cols@), texts(pks@), recreate));
    Ok(Some(out))
}

/// The statement that adds a metadata column.
pub open spec fn add_column_sql(table: Seq<char>, column: Seq<char>, decl: Seq<char>) -> Seq<char> {
    "ALTER TABLE \""@ + table + "\" ADD COLUMN \""@ + column + "\" "@ + decl
}

fn write_add_column(table_name: &str, column: &str, decl: &str) -> (r: String)
    ensures
        r@ == add_column_sql(table_name@, column@, decl@),
{
    let mut s = "ALTER TABLE \"".to_owned();
    s.push_str(table_name);
    s.push_str("\" ADD COLUMN \"");
    s.push_str(column);
    s.push_str("\" ");
    s.push_str(decl);
    s
}

/// The statements that add the metadata columns a table lacks.
pub open spec fn missing_columns_sql(table: Seq<char>, schema: Seq<ColumnView>) -> Seq<Seq<char>> {
    let map = "TEXT NOT NULL DEFAULT '{}'"@;
    let none = Seq::<Seq<char>>::empty();
    if schema.len() == 0 {
        none
    } else {
        let a = if has_column(schema, HLC_TIMESTAMP_COLUMN@) {
            none
        } else {
            seq![add_column_sql(table, HLC_TIMESTAMP_COLUMN@, "TEXT"@)]
        };
        let b = if has_column(schema, COLUMN_HLCS_COLUMN@) {
            a
        } else {
            a.push(add_column_sql(table, COLUMN_HLCS_COLUMN@, map))
        };
        if has_column(schema, COLUMN_SIGS_COLUMN@) {
            b
        } else {
            b.push(add_column_sql(table, COLUMN_SIGS_COLUMN@, map))
        }
    }
}

/// Plans the metadata columns of a table: one statement for each that it
/// lacks, none where there is no table.
pub fn plan_crdt_columns(table_name: &str, schema: &[ColumnInfo]) -> (r: Vec<String>)
    ensures
        texts(r@) == missing_columns_sql(table_name@, schema_view(schema@)),
{
    let mut out: Vec<String> = Vec::new();
    if schema.len() == 0 {
        assert(texts(out@) =~= missing_columns_sql(table_name@, schema_view(schema@)));
        return out;
    }
    if !schema_has_column(schema, HLC_TIMESTAMP_COLUMN) {
        out.push(write_add_column(table_name, HLC_TIMESTAMP_COLUMN, "TEXT"));
    }
    if !schema_has_column(schema, COLUMN_HLCS_COLUMN) {
        out.push(write_add_column(table_name, COLUMN_HLCS_COLUMN, "TEXT NOT NULL DEFAULT '{}'"));
    }
    if !schema_has_column(schema, COLUMN_SIGS_COLUMN) {
        out.push(write_add_column(table_name, COLUMN_SIGS_COLUMN, "TEXT NOT NULL DEFAULT '{}'"));
    }
    assert(texts(out@) =~= missing_columns_sql(table_name@, schema_view(schema@)));
    out
}

/// A table that has all three metadata columns is left alone.
pub proof fn lemma_columns_are_added_once(table: Seq<char>, schema: Seq<ColumnView>)
    requires
        has_column(schema, HLC_TIMESTAMP_COLUMN@),
        has_column(schema, COLUMN_HLCS_COLUMN@),
        has_column(schema, COLUMN_SIGS_COLUMN@),
    ensures
        missing_columns_sql(table, schema).len() == 0,
{
}

/// The triggers that a table must have.
pub open spec fn required_triggers(table: Seq<char>) -> Seq<Seq<char>> {
    let two = seq![trigger_name(table, "insert"@), trigger_name(table, "update"@)];
    if table == DELETED_ROWS_TABLE@ {
        two
    } else {
        two.push(trigger_name(table, "delete"@))
    }
}

/// The names of the triggers that a table must have.
pub fn required_trigger_names(table_name: &str) -> (r: Vec<String>)
    ensures
        texts(r@) == required_triggers(table_name@),
{
    let mut out: Vec<String> = Vec::new();
    out.push(write_trigger_name(table_name, "insert"));
    out.push(write_trigger_name(table_name, "update"));
    if !table_name.eq(DELETED_ROWS_TABLE) {
        out.push(write_trigger_name(table_name, "delete"));
    }
    assert(texts(out@) =~= required_triggers(table_name@));
    out
}

/// Whether a table lacks one of its triggers, given those that there are.
pub fn lacks_trigger(table_name: &str, installed: &[String]) -> (r: bool)
    ensures
        r == exists|i: int|
            0 <= i < required_triggers(table_name@).len() && !texts(installed@).contains(
                #[trigger] required_triggers(table_name@)[i],
            ),
{
    let names = required_trigger_names(table_name);
    let ghost want = required_triggers(table_name@);
    let mut i: usize = 0;
    while i < names.len()
        invariant
            i <= names.len(),
            want == required_triggers(table_name@),
            texts(names@) == want,
            forall|j: int| 0 <= j < i ==> texts(installed@).contains(#[trigger] want[j]),
        decreases names.len() - i,
    {
        assert(texts(names@)[i as int] == names@[i as int]@);
        if !list_contains(installed, names[i].as_str()) {
            assert(!texts(installed@).contains(want[i as int]));
            return true;
        }
        i += 1;
    }
    assert(texts(names@).len() == names@.len());
    false
}

} // verus!
