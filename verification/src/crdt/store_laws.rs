//! What the statements on the library's own tables do: the settings, the list of
//! tables that have something to send, the delete log and the list of managed
//! tables.

use crate::crdt::apply::delete_propagation::delete_log_sql;
use crate::crdt::apply::engine::toggle_sql;
use crate::crdt::cleanup::managed_tables_query;
use crate::crdt::clock::load_sql;
use crate::crdt::clock::persist_sql;
use crate::crdt::columns::local_name;
use crate::crdt::columns::DELETED_ROWS_TABLE;
use crate::crdt::columns::HLC_TIMESTAMP_COLUMN;
use crate::crdt::columns::TABLE_CRDT_CONFIGS;
use crate::crdt::columns::TABLE_CRDT_DIRTY_TABLES;
use crate::crdt::scanner::plan::dirty_tables_sql;
use crate::crdt::sql_meaning::all_hold;
use crate::crdt::sql_meaning::all_text;
use crate::crdt::sql_meaning::cond_holds;
use crate::crdt::sql_meaning::cond_texts;
use crate::crdt::sql_meaning::expr_text;
use crate::crdt::sql_meaning::scene;
use crate::crdt::sql_meaning::select_text;
use crate::crdt::sql_meaning::Cond;
use crate::crdt::sql_meaning::Expr;
use crate::crdt::value::SqlView;
use crate::database::install::mark_dirty_query;
use crate::text::joined;
use crate::text::text_before;
use vstd::prelude::*;

verus! {

/// What a column is filled with.
pub enum Source {
    /// The first bound value.
    First,
    /// The second bound value.
    Second,
    /// A text.
    Literal(Seq<char>),
    /// The time.
    Now,
    /// What the row that could not be added would have held.
    Excluded(Seq<char>),
}

/// How a source is written.
pub open spec fn source_text(e: Source) -> Seq<char> {
    match e {
        Source::First => "?1"@,
        Source::Second => "?2"@,
        Source::Literal(t) => "'"@ + t + "'"@,
        Source::Now => "datetime('now')"@,
        Source::Excluded(c) => "excluded."@ + c,
    }
}

/// The value of a source at the time `now`; `new` is the row to be added.
pub open spec fn source_value(
    e: Source,
    params: Seq<SqlView>,
    now: SqlView,
    new: Map<Seq<char>, SqlView>,
) -> SqlView {
    match e {
        Source::First => params[0],
        Source::Second => params[1],
        Source::Literal(t) => SqlView::Text(t),
        Source::Now => now,
        Source::Excluded(c) => new[c],
    }
}

/// A statement that adds a row, or sets one column of the row that has its key
/// already.
pub struct Upsert {
    pub table: Seq<char>,
    pub columns: Seq<Seq<char>>,
    pub values: Seq<Source>,
    pub key: Seq<char>,
    pub set: Seq<char>,
    pub to: Source,
}

/// The texts of some sources.
pub open spec fn source_texts(es: Seq<Source>) -> Seq<Seq<char>> {
    es.map_values(|e: Source| source_text(e))
}

/// How such a statement is written.
pub open spec fn upsert_text(u: Upsert) -> Seq<char> {
    "INSERT INTO "@ + u.table + " ("@ + joined(u.columns, ", "@) + ") VALUES ("@ + joined(
        source_texts(u.values),
        ", "@,
    ) + ") ON CONFLICT("@ + u.key + ") DO UPDATE SET "@ + u.set + " = "@ + source_text(u.to)
}

/// The row that it would add.
pub open spec fn added(u: Upsert, n: nat, params: Seq<SqlView>, now: SqlView) -> Map<
    Seq<char>,
    SqlView,
>
    decreases n,
{
    if n == 0 {
        Map::empty()
    } else {
        added(u, (n - 1) as nat, params, now).insert(
            u.columns[n - 1],
            source_value(u.values[n - 1], params, now, Map::empty()),
        )
    }
}

/// The row that it leaves, given the row that had its key before.
pub open spec fn left_by(
    u: Upsert,
    before: Option<Map<Seq<char>, SqlView>>,
    params: Seq<SqlView>,
    now: SqlView,
) -> Map<Seq<char>, SqlView> {
    let new = added(u, u.columns.len(), params, now);
    match before {
        None => new,
        Some(row) => row.insert(u.set, source_value(u.to, params, now, new)),
    }
}

/// The statement puts the given value into a column, on the settings or elsewhere:
/// whether the row was there or not, it holds the value, and of a row that was
/// there nothing else changes.
pub open spec fn puts(
    u: Upsert,
    set: Seq<char>,
    before: Option<Map<Seq<char>, SqlView>>,
    params: Seq<SqlView>,
    now: SqlView,
    v: SqlView,
) -> bool {
    let after = left_by(u, before, params, now);
    &&& after[set] == v
    &&& before matches Some(row) ==> forall|c: Seq<char>|
        c != set ==> #[trigger] after[c] == row[c]
}

proof fn lemma_three(parts: Seq<Seq<char>>, sep: Seq<char>)
    requires
        parts.len() == 3,
    ensures
        joined(parts, sep) == parts[0] + sep + parts[1] + sep + parts[2],
{
    reveal_with_fuel(joined, 4);
}

proof fn lemma_two(parts: Seq<Seq<char>>, sep: Seq<char>)
    requires
        parts.len() == 2,
    ensures
        joined(parts, sep) == parts[0] + sep + parts[1],
{
    reveal_with_fuel(joined, 3);
}

proof fn lemma_names_differ()
    ensures
        "key"@ != "value"@,
        "type"@ != "value"@,
        "key"@ != "type"@,
        "table_name"@ != "last_modified"@,
{
    reveal_strlit("key");
    reveal_strlit("value");
    reveal_strlit("type");
    reveal_strlit("table_name");
    reveal_strlit("last_modified");
    assert("key"@.len() == 3 && "value"@.len() == 5 && "type"@.len() == 4);
    assert("table_name"@.len() == 10 && "last_modified"@.len() == 13);
}

spec fn setting(values: Seq<Source>, to: Source) -> Upsert {
    Upsert {
        table: TABLE_CRDT_CONFIGS@,
        columns: seq!["key"@, "type"@, "value"@],
        values,
        key: "key"@,
        set: "value"@,
        to,
    }
}

#[verifier::rlimit(60)]
#[verifier::spinoff_prover]
proof fn lemma_setting_text(values: Seq<Source>, to: Source, list: Seq<char>)
    requires
        joined(source_texts(values), ", "@) == list,
    ensures
        upsert_text(setting(values, to)) == "INSERT INTO "@ + TABLE_CRDT_CONFIGS@ + (
        " (key, type, value) VALUES ("@ + list + ") ON CONFLICT(key) DO UPDATE SET value = "@
            + source_text(to)),
{
    let u = setting(values, to);
    lemma_three(u.columns, ", "@);
    assert(" ("@ + joined(u.columns, ", "@) + ") VALUES ("@ =~= " (key, type, value) VALUES ("@)
        by {
        reveal_strlit(" (");
        reveal_strlit("key");
        reveal_strlit(", ");
        reveal_strlit("type");
        reveal_strlit("value");
        reveal_strlit(") VALUES (");
        reveal_strlit(" (key, type, value) VALUES (");
    }
    assert(") ON CONFLICT("@ + "key"@ + ") DO UPDATE SET "@ + "value"@ + " = "@
        =~= ") ON CONFLICT(key) DO UPDATE SET value = "@) by {
        reveal_strlit(") ON CONFLICT(");
        reveal_strlit("key");
        reveal_strlit(") DO UPDATE SET ");
        reveal_strlit("value");
        reveal_strlit(" = ");
        reveal_strlit(") ON CONFLICT(key) DO UPDATE SET value = ");
    }
    let head = "INSERT INTO "@ + u.table;
    let a = " ("@ + joined(u.columns, ", "@) + ") VALUES ("@;
    let b = ") ON CONFLICT("@ + u.key + ") DO UPDATE SET "@ + u.set + " = "@;
    assert(upsert_text(u) =~= head + (a + list + b + source_text(to)));
}

proof fn lemma_setting(values: Seq<Source>, to: Source, params: Seq<SqlView>, now: SqlView)
    requires
        values.len() == 3,
    ensures
        ({
            let u = setting(values, to);
            let none = Map::<Seq<char>, SqlView>::empty();
            let new = added(u, 3, params, now);
            &&& new["key"@] == source_value(values[0], params, now, none)
            &&& new["type"@] == source_value(values[1], params, now, none)
            &&& new["value"@] == source_value(values[2], params, now, none)
        }),
{
    lemma_names_differ();
    reveal_with_fuel(added, 4);
}

/// Turning triggers on or off stores the bound text as the switch that the
/// triggers look at, and changes nothing else of it.
#[verifier::rlimit(60)]
#[verifier::spinoff_prover]
pub proof fn lemma_switch_is_stored() -> (u: Upsert)
    ensures
        upsert_text(u) == toggle_sql(),
        u.table == TABLE_CRDT_CONFIGS@ && u.key == "key"@,
        forall|
            before: Option<Map<Seq<char>, SqlView>>,
            params: Seq<SqlView>,
            now: SqlView,
        | #[trigger]
            puts(u, "value"@, before, params, now, params[0]),
        forall|params: Seq<SqlView>, now: SqlView|
            {
                let fresh = #[trigger] left_by(u, None, params, now);
                fresh["key"@] == SqlView::Text("triggers_enabled"@) && fresh["type"@]
                    == SqlView::Text("system"@)
            },
{
    let values = seq![
        Source::Literal("triggers_enabled"@),
        Source::Literal("system"@),
        Source::First,
    ];
    let u = setting(values, Source::First);
    let list = "'triggers_enabled', 'system', ?1"@;
    assert(joined(source_texts(values), ", "@) =~= list) by {
        lemma_three(source_texts(values), ", "@);
        reveal_strlit("'");
        reveal_strlit("triggers_enabled");
        reveal_strlit("system");
        reveal_strlit("?1");
        reveal_strlit(", ");
        reveal_strlit("'triggers_enabled', 'system', ?1");
    }
    lemma_setting_text(values, Source::First, list);
    assert(" (key, type, value) VALUES ("@ + list + ") ON CONFLICT(key) DO UPDATE SET value = "@
        + "?1"@
        =~= " (key, type, value) VALUES ('triggers_enabled', 'system', ?1) ON CONFLICT(key) DO UPDATE SET value = ?1"@)
        by {
        reveal_strlit(" (key, type, value) VALUES (");
        reveal_strlit("'triggers_enabled', 'system', ?1");
        reveal_strlit(") ON CONFLICT(key) DO UPDATE SET value = ");
        reveal_strlit("?1");
        reveal_strlit(
            " (key, type, value) VALUES ('triggers_enabled', 'system', ?1) ON CONFLICT(key) DO UPDATE SET value = ?1",
        );
    }
    assert forall|
        before: Option<Map<Seq<char>, SqlView>>,
        params: Seq<SqlView>,
        now: SqlView,
    | #[trigger] puts(u, "value"@, before, params, now, params[0]) by {
        lemma_setting(values, Source::First, params, now);
    }
    assert forall|params: Seq<SqlView>, now: SqlView|
        {
            let fresh = #[trigger] left_by(u, None, params, now);
            fresh["key"@] == SqlView::Text("triggers_enabled"@) && fresh["type"@] == SqlView::Text(
                "system"@,
            )
        } by {
        lemma_setting(values, Source::First, params, now);
    }
    u
}

/// A query for one column of the rows of a table, without quotes, where all
/// conditions hold.
pub open spec fn read_text(column: Seq<char>, table: Seq<char>, cs: Seq<Cond>) -> Seq<char> {
    "SELECT "@ + column + " FROM "@ + table + " WHERE "@ + all_text(cs)
}

/// The row that stored this clock state under this key.
pub open spec fn is_clock_row(row: Map<Seq<char>, SqlView>, key: Seq<char>) -> bool {
    row["key"@] == SqlView::Text(key) && row["type"@] == SqlView::Text("hlc"@)
}

/// Storing the clock state puts the second bound value under the first, as a
/// timestamp, whatever was stored there before.
#[verifier::rlimit(60)]
#[verifier::spinoff_prover]
pub proof fn lemma_clock_state_is_stored() -> (u: Upsert)
    ensures
        upsert_text(u) == persist_sql(),
        u.table == TABLE_CRDT_CONFIGS@ && u.key == "key"@,
        forall|
            before: Option<Map<Seq<char>, SqlView>>,
            params: Seq<SqlView>,
            now: SqlView,
        | #[trigger]
            puts(u, "value"@, before, params, now, params[1]),
        forall|params: Seq<SqlView>, now: SqlView, key: Seq<char>|
            params[0] == SqlView::Text(key) ==> #[trigger] is_clock_row(
                left_by(u, None, params, now),
                key,
            ),
{
    let values = seq![Source::First, Source::Literal("hlc"@), Source::Second];
    let to = Source::Excluded("value"@);
    let u = setting(values, to);
    let list = "?1, 'hlc', ?2"@;
    assert(joined(source_texts(values), ", "@) =~= list) by {
        lemma_three(source_texts(values), ", "@);
        reveal_strlit("'");
        reveal_strlit("hlc");
        reveal_strlit("?1");
        reveal_strlit("?2");
        reveal_strlit(", ");
        reveal_strlit("?1, 'hlc', ?2");
    }
    lemma_setting_text(values, to, list);
    assert(" (key, type, value) VALUES ("@ + list + ") ON CONFLICT(key) DO UPDATE SET value = "@ + (
    "excluded."@ + "value"@)
        =~= " (key, type, value) VALUES (?1, 'hlc', ?2) ON CONFLICT(key) DO UPDATE SET value = excluded.value"@)
        by {
        reveal_strlit(" (key, type, value) VALUES (");
        reveal_strlit("?1, 'hlc', ?2");
        reveal_strlit(") ON CONFLICT(key) DO UPDATE SET value = ");
        reveal_strlit("excluded.");
        reveal_strlit("value");
        reveal_strlit(
            " (key, type, value) VALUES (?1, 'hlc', ?2) ON CONFLICT(key) DO UPDATE SET value = excluded.value",
        );
    }
    assert forall|
        before: Option<Map<Seq<char>, SqlView>>,
        params: Seq<SqlView>,
        now: SqlView,
    | #[trigger] puts(u, "value"@, before, params, now, params[1]) by {
        lemma_setting(values, to, params, now);
    }
    assert forall|params: Seq<SqlView>, now: SqlView, key: Seq<char>|
        params[0] == SqlView::Text(key) implies #[trigger] is_clock_row(
        left_by(u, None, params, now),
        key,
    ) by {
        lemma_setting(values, to, params, now);
    }
    u
}

/// The clock state is read of exactly the row that stored it.
#[verifier::rlimit(60)]
#[verifier::spinoff_prover]
pub proof fn lemma_clock_state_is_read() -> (cs: Seq<Cond>)
    ensures
        read_text("value"@, TABLE_CRDT_CONFIGS@, cs) == load_sql(),
        forall|row: Map<Seq<char>, SqlView>, key: Seq<char>| #[trigger]
            all_hold(cs, scene(row, seq![SqlView::Text(key)])) <==> is_clock_row(row, key),
{
    let cs = seq![
        Cond::Equals(Expr::Bare("key"@), Expr::First),
        Cond::Equals(Expr::Bare("type"@), Expr::Literal("hlc"@)),
    ];
    assert(all_text(cs) =~= "key = ?1 AND type = 'hlc'"@) by {
        lemma_two(cond_texts(cs), " AND "@);
        reveal_strlit("key");
        reveal_strlit(" = ");
        reveal_strlit("?1");
        reveal_strlit(" AND ");
        reveal_strlit("type");
        reveal_strlit("'");
        reveal_strlit("hlc");
        reveal_strlit("key = ?1 AND type = 'hlc'");
    }
    assert(read_text("value"@, TABLE_CRDT_CONFIGS@, cs) =~= load_sql()) by {
        reveal_strlit("SELECT ");
        reveal_strlit("value");
        reveal_strlit(" FROM ");
        reveal_strlit(" WHERE ");
        reveal_strlit("SELECT value FROM ");
        reveal_strlit("key = ?1 AND type = 'hlc'");
        reveal_strlit(" WHERE key = ?1 AND type = 'hlc'");
    }
    assert forall|row: Map<Seq<char>, SqlView>, key: Seq<char>| #[trigger]
        all_hold(cs, scene(row, seq![SqlView::Text(key)])) <==> is_clock_row(row, key) by {
        let s = scene(row, seq![SqlView::Text(key)]);
        assert(all_hold(cs, s) ==> cond_holds(cs, 0, s) && cond_holds(cs, 1, s));
    }
    cs
}

/// Marking a table as having something to send lists it with the time of the
/// mark, once.
#[verifier::rlimit(60)]
#[verifier::spinoff_prover]
pub proof fn lemma_mark_lists_the_table() -> (u: Upsert)
    ensures
        upsert_text(u) == mark_dirty_query(),
        u.table == TABLE_CRDT_DIRTY_TABLES@ && u.key == "table_name"@,
        forall|
            before: Option<Map<Seq<char>, SqlView>>,
            params: Seq<SqlView>,
            now: SqlView,
        | #[trigger]
            puts(u, "last_modified"@, before, params, now, now),
        forall|params: Seq<SqlView>, now: SqlView|
            (#[trigger] left_by(u, None, params, now))["table_name"@] == params[0],
{
    let values = seq![Source::First, Source::Now];
    let to = Source::Excluded("last_modified"@);
    let u = Upsert {
        table: TABLE_CRDT_DIRTY_TABLES@,
        columns: seq!["table_name"@, "last_modified"@],
        values,
        key: "table_name"@,
        set: "last_modified"@,
        to,
    };
    lemma_names_differ();
    let a = " ("@ + joined(u.columns, ", "@) + ") VALUES ("@;
    let list = joined(source_texts(values), ", "@);
    let b = ") ON CONFLICT("@ + u.key + ") DO UPDATE SET "@ + u.set + " = "@;
    assert(a =~= " (table_name, last_modified) VALUES ("@) by {
        lemma_two(u.columns, ", "@);
        reveal_strlit(" (");
        reveal_strlit("table_name");
        reveal_strlit(", ");
        reveal_strlit("last_modified");
        reveal_strlit(") VALUES (");
        reveal_strlit(" (table_name, last_modified) VALUES (");
    }
    assert(list =~= "?1, datetime('now')"@) by {
        lemma_two(source_texts(values), ", "@);
        reveal_strlit("?1");
        reveal_strlit(", ");
        reveal_strlit("datetime('now')");
        reveal_strlit("?1, datetime('now')");
    }
    assert(b + source_text(to)
        =~= ") ON CONFLICT(table_name) DO UPDATE SET last_modified = excluded.last_modified"@) by {
        reveal_strlit(") ON CONFLICT(");
        reveal_strlit("table_name");
        reveal_strlit(") DO UPDATE SET ");
        reveal_strlit("last_modified");
        reveal_strlit(" = ");
        reveal_strlit("excluded.");
        reveal_strlit(
            ") ON CONFLICT(table_name) DO UPDATE SET last_modified = excluded.last_modified",
        );
    }
    assert(a + list + (b + source_text(to))
        =~= " (table_name, last_modified) VALUES (?1, datetime('now')) ON CONFLICT(table_name) DO UPDATE SET last_modified = excluded.last_modified"@)
        by {
        reveal_strlit(" (table_name, last_modified) VALUES (");
        reveal_strlit("?1, datetime('now')");
        reveal_strlit(
            ") ON CONFLICT(table_name) DO UPDATE SET last_modified = excluded.last_modified",
        );
        reveal_strlit(
            " (table_name, last_modified) VALUES (?1, datetime('now')) ON CONFLICT(table_name) DO UPDATE SET last_modified = excluded.last_modified",
        );
    }
    let head = "INSERT INTO "@ + u.table;
    assert(upsert_text(u) =~= head + (a + list + (b + source_text(to))));
    assert forall|
        before: Option<Map<Seq<char>, SqlView>>,
        params: Seq<SqlView>,
        now: SqlView,
    | #[trigger] puts(u, "last_modified"@, before, params, now, now) by {
        reveal_with_fuel(added, 3);
    }
    assert forall|params: Seq<SqlView>, now: SqlView|
        (#[trigger] left_by(u, None, params, now))["table_name"@] == params[0] by {
        reveal_with_fuel(added, 3);
    }
    u
}

/// A column that rows are ordered by.
pub struct OrderKey {
    pub column: Seq<char>,
    pub ascending: bool,
}

/// How the order is written.
pub open spec fn order_texts(keys: Seq<OrderKey>) -> Seq<Seq<char>> {
    keys.map_values(
        |k: OrderKey|
            k.column + if k.ascending {
                " ASC"@
            } else {
                " DESC"@
            },
    )
}

/// Whether a row comes before another: the first column in which they differ
/// decides.
pub open spec fn comes_before(
    keys: Seq<OrderKey>,
    a: Map<Seq<char>, Seq<char>>,
    b: Map<Seq<char>, Seq<char>>,
) -> bool
    decreases keys.len(),
{
    if keys.len() == 0 {
        false
    } else if a[keys[0].column] == b[keys[0].column] {
        comes_before(keys.drop_first(), a, b)
    } else if keys[0].ascending {
        text_before(a[keys[0].column], b[keys[0].column])
    } else {
        text_before(b[keys[0].column], a[keys[0].column])
    }
}

/// Of the tables that have something to send the one that was marked first comes
/// first, and of two that were marked at once the one whose name does.
#[verifier::rlimit(60)]
#[verifier::spinoff_prover]
pub proof fn lemma_longest_waiting_comes_first() -> (keys: Seq<OrderKey>)
    ensures
        dirty_tables_sql() == "SELECT table_name FROM "@ + TABLE_CRDT_DIRTY_TABLES@ + " ORDER BY "@
            + joined(order_texts(keys), ", "@),
        forall|a: Map<Seq<char>, Seq<char>>, b: Map<Seq<char>, Seq<char>>| #[trigger]
            comes_before(keys, a, b) <==> if a["last_modified"@] == b["last_modified"@] {
                a["table_name"@] != b["table_name"@] && text_before(
                    a["table_name"@],
                    b["table_name"@],
                )
            } else {
                text_before(a["last_modified"@], b["last_modified"@])
            },
{
    let keys = seq![
        OrderKey { column: "last_modified"@, ascending: true },
        OrderKey { column: "table_name"@, ascending: true },
    ];
    assert(joined(order_texts(keys), ", "@) =~= "last_modified ASC, table_name ASC"@) by {
        lemma_two(order_texts(keys), ", "@);
        reveal_strlit("last_modified");
        reveal_strlit("table_name");
        reveal_strlit(" ASC");
        reveal_strlit(", ");
        reveal_strlit("last_modified ASC, table_name ASC");
    }
    let head = "SELECT table_name FROM "@ + TABLE_CRDT_DIRTY_TABLES@;
    assert(head + " ORDER BY "@ + joined(order_texts(keys), ", "@) =~= dirty_tables_sql()) by {
        reveal_strlit(" ORDER BY ");
        reveal_strlit("last_modified ASC, table_name ASC");
        reveal_strlit(" ORDER BY last_modified ASC, table_name ASC");
    }
    assert forall|a: Map<Seq<char>, Seq<char>>, b: Map<Seq<char>, Seq<char>>| #[trigger]
        comes_before(keys, a, b) <==> if a["last_modified"@] == b["last_modified"@] {
            a["table_name"@] != b["table_name"@] && text_before(a["table_name"@], b["table_name"@])
        } else {
            text_before(a["last_modified"@], b["last_modified"@])
        } by {
        reveal_with_fuel(comes_before, 3);
    }
    keys
}

/// The delete log is read whole, and one entry of it by its id: the table, the
/// key and the timestamp.
#[verifier::rlimit(60)]
#[verifier::spinoff_prover]
pub proof fn lemma_delete_log_is_read() -> (cs: Seq<Cond>)
    ensures
        ({
            let es = seq![
                Expr::Bare("table_name"@),
                Expr::Bare("row_pks"@),
                Expr::Bare(HLC_TIMESTAMP_COLUMN@),
            ];
            &&& select_text(es, DELETED_ROWS_TABLE@, Seq::empty()) == delete_log_sql()
            &&& select_text(es, DELETED_ROWS_TABLE@, cs) == delete_log_sql() + " WHERE id = ?1"@
        }),
        forall|row: Map<Seq<char>, SqlView>, id: Seq<char>| #[trigger]
            all_hold(cs, scene(row, seq![SqlView::Text(id)])) <==> row["id"@] == SqlView::Text(id),
{
    let es = seq![
        Expr::Bare("table_name"@),
        Expr::Bare("row_pks"@),
        Expr::Bare(HLC_TIMESTAMP_COLUMN@),
    ];
    let cs = seq![Cond::Equals(Expr::Bare("id"@), Expr::First)];
    let names = es.map_values(|e: Expr| expr_text(e));
    lemma_three(names, ", "@);
    let head = "SELECT "@ + joined(names, ", "@);
    assert(head =~= "SELECT table_name, row_pks, "@ + HLC_TIMESTAMP_COLUMN@) by {
        reveal_strlit("SELECT ");
        reveal_strlit("table_name");
        reveal_strlit(", ");
        reveal_strlit("row_pks");
        reveal_strlit("SELECT table_name, row_pks, ");
    }
    assert(select_text(es, DELETED_ROWS_TABLE@, Seq::empty()) =~= delete_log_sql()) by {
        reveal_strlit(" FROM ");
        reveal_strlit("\"");
        reveal_strlit(" FROM \"");
    }
    assert(cond_texts(cs).len() == 1);
    assert(" WHERE "@ + all_text(cs) =~= " WHERE id = ?1"@) by {
        reveal_with_fuel(joined, 2);
        reveal_strlit(" WHERE ");
        reveal_strlit("id");
        reveal_strlit(" = ");
        reveal_strlit("?1");
        reveal_strlit(" WHERE id = ?1");
    }
    assert(select_text(es, DELETED_ROWS_TABLE@, cs) =~= delete_log_sql() + (" WHERE "@ + all_text(
        cs,
    )));
    assert forall|row: Map<Seq<char>, SqlView>, id: Seq<char>| #[trigger]
        all_hold(cs, scene(row, seq![SqlView::Text(id)])) <==> row["id"@] == SqlView::Text(id) by {
        let s = scene(row, seq![SqlView::Text(id)]);
        assert(all_hold(cs, s) ==> cond_holds(cs, 0, s));
    }
    cs
}

/// What the database says of one of its tables.
pub struct TableView {
    pub name: Seq<char>,
    pub kind: Seq<char>,
    pub columns: Seq<Seq<char>>,
}

/// One test of a table.
pub enum Test {
    KindIs(Seq<char>),
    NotLike(Seq<char>),
    NotFirst,
    HasColumn(Seq<char>),
}

/// How a test is written.
pub open spec fn test_text(t: Test) -> Seq<char> {
    match t {
        Test::KindIs(k) => "m.type = '"@ + k + "'"@,
        Test::NotLike(p) => "m.name NOT LIKE '"@ + p + "'"@,
        Test::NotFirst => "m.name != ?1"@,
        Test::HasColumn(c) => "EXISTS (SELECT 1 FROM pragma_table_info(m.name) WHERE name = '"@ + c
            + "')"@,
    }
}

/// The two are one letter, in whatever case, or one character.
pub open spec fn same_letter(a: char, b: char) -> bool {
    a == b || 'a' <= a <= 'z' && b as int + 32 == a as int || 'a' <= b <= 'z' && a as int + 32
        == b as int
}

/// The text is of the form that a pattern gives, where `%` stands for any
/// characters and `_` for one.
pub open spec fn like(pattern: Seq<char>, text: Seq<char>) -> bool
    decreases pattern.len() + text.len(),
{
    if pattern.len() == 0 {
        text.len() == 0
    } else if pattern[0] == '%' {
        like(pattern.drop_first(), text) || text.len() > 0 && like(pattern, text.drop_first())
    } else {
        text.len() > 0 && (pattern[0] == '_' || same_letter(pattern[0], text[0])) && like(
            pattern.drop_first(),
            text.drop_first(),
        )
    }
}

/// Whether a test holds of a table; `first` is bound.
pub open spec fn test_holds(t: Test, table: TableView, first: Seq<char>) -> bool {
    match t {
        Test::KindIs(k) => table.kind == k,
        Test::NotLike(p) => !like(p, table.name),
        Test::NotFirst => table.name != first,
        Test::HasColumn(c) => table.columns.contains(c),
    }
}

/// All tests hold.
pub open spec fn passes(ts: Seq<Test>, table: TableView, first: Seq<char>) -> bool {
    forall|i: int| 0 <= i < ts.len() ==> test_holds(#[trigger] ts[i], table, first)
}

proof fn lemma_five(parts: Seq<Seq<char>>, sep: Seq<char>)
    requires
        parts.len() == 5,
    ensures
        joined(parts, sep) == parts[0] + sep + parts[1] + sep + parts[2] + sep + parts[3] + sep
            + parts[4],
{
    reveal_with_fuel(joined, 6);
}

/// The managed tables are the tables of the database that carry a row timestamp,
/// but for the one that is bound, those of the database itself and those that take
/// no part in sync.
#[verifier::rlimit(60)]
#[verifier::spinoff_prover]
pub proof fn lemma_managed_tables() -> (ts: Seq<Test>)
    ensures
        managed_tables_query() == "SELECT m.name FROM sqlite_master m WHERE "@ + joined(
            ts.map_values(|t: Test| test_text(t)),
            " AND "@,
        ),
        forall|table: TableView, first: Seq<char>| #[trigger]
            passes(ts, table, first) <==> {
                &&& table.kind == "table"@
                &&& !like("sqlite_%"@, table.name)
                &&& !like("%_no_sync"@, table.name)
                &&& table.name != first
                &&& table.columns.contains(HLC_TIMESTAMP_COLUMN@)
            },
{
    let ts = seq![
        Test::KindIs("table"@),
        Test::NotLike("sqlite_%"@),
        Test::NotLike("%_no_sync"@),
        Test::NotFirst,
        Test::HasColumn(HLC_TIMESTAMP_COLUMN@),
    ];
    let parts = ts.map_values(|t: Test| test_text(t));
    lemma_five(parts, " AND "@);
    lemma_managed_text(parts);
    assert forall|table: TableView, first: Seq<char>| #[trigger]
        passes(ts, table, first) <==> {
            &&& table.kind == "table"@
            &&& !like("sqlite_%"@, table.name)
            &&& !like("%_no_sync"@, table.name)
            &&& table.name != first
            &&& table.columns.contains(HLC_TIMESTAMP_COLUMN@)
        } by {
        if passes(ts, table, first) {
            assert(test_holds(ts[0], table, first));
            assert(test_holds(ts[1], table, first));
            assert(test_holds(ts[2], table, first));
            assert(test_holds(ts[3], table, first));
            assert(test_holds(ts[4], table, first));
        }
    }
    ts
}

#[verifier::rlimit(60)]
#[verifier::spinoff_prover]
proof fn lemma_managed_text(parts: Seq<Seq<char>>)
    requires
        parts.len() == 5,
        parts[0] == "m.type = '"@ + "table"@ + "'"@,
        parts[1] == "m.name NOT LIKE '"@ + "sqlite_%"@ + "'"@,
        parts[2] == "m.name NOT LIKE '"@ + "%_no_sync"@ + "'"@,
        parts[3] == "m.name != ?1"@,
        parts[4] == "EXISTS (SELECT 1 FROM pragma_table_info(m.name) WHERE name = '"@
            + HLC_TIMESTAMP_COLUMN@ + "')"@,
    ensures
        "SELECT m.name FROM sqlite_master m WHERE "@ + (parts[0] + " AND "@ + parts[1] + " AND "@
            + parts[2] + " AND "@ + parts[3] + " AND "@ + parts[4]) == managed_tables_query(),
{
    let (p0, p1, p2) = (
        "m.type = 'table'"@,
        "m.name NOT LIKE 'sqlite_%'"@,
        "m.name NOT LIKE '%_no_sync'"@,
    );
    assert(parts[0] =~= p0) by {
        reveal_strlit("m.type = '");
        reveal_strlit("table");
        reveal_strlit("'");
        reveal_strlit("m.type = 'table'");
    }
    assert(parts[1] =~= p1) by {
        reveal_strlit("m.name NOT LIKE '");
        reveal_strlit("sqlite_%");
        reveal_strlit("'");
        reveal_strlit("m.name NOT LIKE 'sqlite_%'");
    }
    assert(parts[2] =~= p2) by {
        reveal_strlit("m.name NOT LIKE '");
        reveal_strlit("%_no_sync");
        reveal_strlit("'");
        reveal_strlit("m.name NOT LIKE '%_no_sync'");
    }
    let has = "EXISTS (SELECT 1 FROM pragma_table_info(m.name) WHERE name = '"@;
    let tail = HLC_TIMESTAMP_COLUMN@ + "')"@;
    let head = "SELECT m.name FROM sqlite_master m WHERE "@ + p0 + " AND "@ + p1 + " AND "@ + p2
        + " AND "@ + "m.name != ?1"@ + " AND "@ + has;
    assert(head
        =~= "SELECT m.name FROM sqlite_master m WHERE m.type = 'table' AND m.name NOT LIKE 'sqlite_%' AND m.name NOT LIKE '%_no_sync' AND m.name != ?1 AND EXISTS (SELECT 1 FROM pragma_table_info(m.name) WHERE name = '"@)
        by {
        reveal_strlit("SELECT m.name FROM sqlite_master m WHERE ");
        reveal_strlit("m.type = 'table'");
        reveal_strlit(" AND ");
        reveal_strlit("m.name NOT LIKE 'sqlite_%'");
        reveal_strlit("m.name NOT LIKE '%_no_sync'");
        reveal_strlit("m.name != ?1");
        reveal_strlit("EXISTS (SELECT 1 FROM pragma_table_info(m.name) WHERE name = '");
        reveal_strlit(
            "SELECT m.name FROM sqlite_master m WHERE m.type = 'table' AND m.name NOT LIKE 'sqlite_%' AND m.name NOT LIKE '%_no_sync' AND m.name != ?1 AND EXISTS (SELECT 1 FROM pragma_table_info(m.name) WHERE name = '",
        );
    }
    assert("SELECT m.name FROM sqlite_master m WHERE "@ + (parts[0] + " AND "@ + parts[1]
        + " AND "@ + parts[2] + " AND "@ + parts[3] + " AND "@ + parts[4]) =~= head + tail);
    assert(managed_tables_query() =~= head + tail);
}

proof fn lemma_like_ending(pattern: Seq<char>, stem: Seq<char>, ending: Seq<char>)
    requires
        pattern.len() > 0,
        pattern[0] == '%',
        like(pattern.drop_first(), ending),
    ensures
        like(pattern, stem + ending),
    decreases stem.len(),
{
    if stem.len() > 0 {
        lemma_like_ending(pattern, stem.drop_first(), ending);
        assert((stem + ending).drop_first() =~= stem.drop_first() + ending);
    } else {
        assert(stem + ending =~= ending);
    }
}

proof fn lemma_like_itself(s: Seq<char>)
    requires
        forall|i: int| 0 <= i < s.len() ==> #[trigger] s[i] != '%',
    ensures
        like(s, s),
    decreases s.len(),
{
    if s.len() > 0 {
        assert(s[0] != '%');
        let rest = s.drop_first();
        assert forall|i: int| 0 <= i < rest.len() implies #[trigger] rest[i] != '%' by {
            assert(rest[i] == s[i + 1]);
        }
        lemma_like_itself(rest);
    }
}

/// No table that takes no part in sync is among the managed ones.
pub proof fn lemma_local_tables_are_not_managed(stem: Seq<char>)
    ensures
        like("%_no_sync"@, local_name(stem)),
{
    reveal_strlit("%_no_sync");
    reveal_strlit("_no_sync");
    assert("%_no_sync"@.drop_first() =~= "_no_sync"@);
    lemma_like_itself("_no_sync"@);
    lemma_like_ending("%_no_sync"@, stem, "_no_sync"@);
}

} // verus!
