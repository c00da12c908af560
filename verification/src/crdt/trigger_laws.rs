//! What the triggers do to a row, to the delete log and to the list of tables
//! that have something to send.

use crate::crdt::columns::COLUMN_HLCS_COLUMN;
use crate::crdt::columns::DELETED_ROWS_TABLE;
use crate::crdt::columns::HLC_FUNCTION_NAME;
use crate::crdt::columns::HLC_TIMESTAMP_COLUMN;
use crate::crdt::columns::TABLE_CRDT_CONFIGS;
use crate::crdt::columns::TABLE_CRDT_DIRTY_TABLES;
use crate::crdt::columns::UUID_FUNCTION_NAME;
use crate::crdt::sql_meaning::all_hold;
use crate::crdt::sql_meaning::all_text;
use crate::crdt::sql_meaning::any_holds;
use crate::crdt::sql_meaning::any_text;
use crate::crdt::sql_meaning::cond_holds;
use crate::crdt::sql_meaning::cond_text;
use crate::crdt::sql_meaning::cond_texts;
use crate::crdt::sql_meaning::expr_text;
use crate::crdt::sql_meaning::name_list;
use crate::crdt::sql_meaning::quoted;
use crate::crdt::sql_meaning::value;
use crate::crdt::sql_meaning::Cond;
use crate::crdt::sql_meaning::Expr;
use crate::crdt::sql_meaning::Scene;
use crate::crdt::trigger::any_changed;
use crate::crdt::trigger::column_update;
use crate::crdt::trigger::column_updates;
use crate::crdt::trigger::delete_trigger_sql;
use crate::crdt::trigger::fresh_map;
use crate::crdt::trigger::insert_trigger_sql;
use crate::crdt::trigger::mark_dirty_head;
use crate::crdt::trigger::mark_dirty_tail;
use crate::crdt::trigger::new_row_clause;
use crate::crdt::trigger::required_triggers;
use crate::crdt::trigger::trigger_name;
use crate::crdt::trigger::update_event;
use crate::crdt::trigger::update_trigger_sql;
use crate::crdt::trigger::when_stamped;
use crate::crdt::value::SqlView;
use crate::text::doubled_each;
use crate::text::joined;
use crate::text::wrapped_each;
use vstd::prelude::*;

verus! {

/// A JSON object that is made of names and values.
pub open spec fn object_expr(members: Seq<(Seq<char>, Expr)>) -> Seq<char> {
    "json_object("@ + joined(
        members.map_values(
            |m: (Seq<char>, Expr)| expr_text(Expr::Literal(m.0)) + ", "@ + expr_text(m.1),
        ),
        ", "@,
    ) + ")"@
}

/// The members of such an object: each name with the value of its expression.
pub open spec fn object_members(members: Seq<(Seq<char>, Expr)>, s: Scene) -> Seq<
    (Seq<char>, SqlView),
> {
    members.map_values(|m: (Seq<char>, Expr)| (m.0, value(m.1, s, 0)))
}

/// An UPDATE of the timestamp map of the rows where all conditions hold.
pub open spec fn set_map_text(table: Seq<char>, map: Seq<char>, cs: Seq<Cond>) -> Seq<char> {
    "UPDATE "@ + quoted(table) + "\n            SET "@ + COLUMN_HLCS_COLUMN@ + " = "@ + map
        + "\n            WHERE "@ + all_text(cs) + ";"@
}

/// The timestamp map with one entry set.
pub open spec fn set_entry_text(name: Seq<char>, e: Expr) -> Seq<char> {
    "json_set("@ + COLUMN_HLCS_COLUMN@ + ", '$."@ + name + "', "@ + expr_text(e) + ")"@
}

/// A statement that marks a table as having something to send.
pub open spec fn mark_text(source: Seq<char>) -> Seq<char> {
    "INSERT INTO "@ + TABLE_CRDT_DIRTY_TABLES@ + " (table_name, last_modified)\n            "@
        + source
        + "\n            ON CONFLICT(table_name) DO UPDATE SET last_modified = excluded.last_modified;\n            END;"@
}

/// A mark of one table.
pub open spec fn mark_source(table: Seq<char>) -> Seq<char> {
    expr_text(Expr::Literal(table)) + ", datetime('now')"@
}

/// A trigger for an event, under some conditions.
pub open spec fn trigger_text(
    name: Seq<char>,
    event: Seq<char>,
    table: Seq<char>,
    ws: Seq<Cond>,
    body: Seq<char>,
) -> Seq<char> {
    "CREATE TRIGGER IF NOT EXISTS "@ + quoted(name) + "\n            "@ + event + " ON "@ + quoted(
        table,
    ) + "\n            FOR EACH ROW\n            WHEN "@ + joined(
        cond_texts(ws),
        "\n                AND "@,
    ) + "\n            BEGIN\n            "@ + body
}

/// The two rows are the same one: they agree in every key column, and none of
/// these is null.
pub open spec fn same_row(
    pks: Seq<Seq<char>>,
    row: Map<Seq<char>, SqlView>,
    new: Map<Seq<char>, SqlView>,
) -> bool {
    forall|i: int|
        0 <= i < pks.len() ==> row[#[trigger] pks[i]] == new[pks[i]] && !(row[pks[i]] is Null)
}

/// The conditions hold of the row of the event and of no other.
pub open spec fn meets_event_row(pks: Seq<Seq<char>>, cs: Seq<Cond>) -> bool {
    forall|s: Scene| #[trigger] all_hold(cs, s) <==> same_row(pks, s.row, s.new)
}

/// The trigger works for rows that carry a timestamp, unless triggers are turned
/// off.
pub open spec fn works_when_stamped(ws: Seq<Cond>) -> bool {
    forall|s: Scene| #[trigger]
        all_hold(ws, s) <==> !(s.new[HLC_TIMESTAMP_COLUMN@] is Null) && (s.switch matches Some(
            stored,
        ) ==> stored == "1"@)
}

spec fn row_conds(pks: Seq<Seq<char>>) -> Seq<Cond> {
    pks.map_values(|c: Seq<char>| Cond::Equals(Expr::Column(c), Expr::New(c)))
}

spec fn stamped_conds() -> Seq<Cond> {
    seq![Cond::NotNull(Expr::NewBare(HLC_TIMESTAMP_COLUMN@)), Cond::SwitchedOn]
}

proof fn lemma_row_conds_text(pks: Seq<Seq<char>>)
    requires
        pks.len() > 0,
    ensures
        all_text(row_conds(pks)) == new_row_clause(pks),
{
    let parts = doubled_each(pks, "\""@, "\" = NEW.\""@, "\""@);
    reveal_strlit("\"");
    reveal_strlit("\" = NEW.\"");
    reveal_strlit(" = ");
    reveal_strlit("NEW.");
    assert forall|i: int| 0 <= i < pks.len() implies #[trigger] cond_texts(row_conds(pks))[i]
        == parts[i] by {
        assert(cond_texts(row_conds(pks))[i] =~= parts[i]);
    }
    assert(cond_texts(row_conds(pks)) =~= parts);
}

proof fn lemma_row_conds(pks: Seq<Seq<char>>)
    ensures
        meets_event_row(pks, row_conds(pks)),
{
    let cs = row_conds(pks);
    assert forall|s: Scene| #[trigger] all_hold(cs, s) <==> same_row(pks, s.row, s.new) by {
        if all_hold(cs, s) {
            assert forall|i: int| 0 <= i < pks.len() implies s.row[#[trigger] pks[i]]
                == s.new[pks[i]] && !(s.row[pks[i]] is Null) by {
                assert(cond_holds(cs, i, s));
            }
        }
        if same_row(pks, s.row, s.new) {
            assert forall|i: int| 0 <= i < cs.len() implies #[trigger] cond_holds(cs, i, s) by {
                assert(s.row[pks[i]] == s.new[pks[i]]);
            }
        }
    }
}

proof fn lemma_stamped_conds()
    ensures
        works_when_stamped(stamped_conds()),
        when_stamped() == "\n            FOR EACH ROW\n            WHEN "@ + joined(
            cond_texts(stamped_conds()),
            "\n                AND "@,
        ) + "\n            BEGIN\n            "@,
{
    let ws = stamped_conds();
    assert forall|s: Scene| #[trigger]
        all_hold(ws, s) <==> !(s.new[HLC_TIMESTAMP_COLUMN@] is Null) && (s.switch matches Some(
            stored,
        ) ==> stored == "1"@) by {
        if all_hold(ws, s) {
            assert(cond_holds(ws, 0, s) && cond_holds(ws, 1, s));
        } else {
            let i = choose|i: int| 0 <= i < ws.len() && !(#[trigger] cond_holds(ws, i, s));
            assert(i == 0 || i == 1);
        }
    }
    let parts = cond_texts(ws);
    assert(parts.drop_last() =~= seq![parts[0]]);
    assert(joined(parts.drop_last(), "\n                AND "@) == parts[0]);
    reveal_strlit("\n            FOR EACH ROW\n            WHEN NEW.");
    reveal_strlit("\n            FOR EACH ROW\n            WHEN ");
    reveal_strlit("NEW.");
    reveal_strlit(" IS NOT NULL");
    reveal_strlit("\n                AND ");
    reveal_strlit(" IS NOT NULL\n                AND COALESCE((SELECT value FROM ");
    reveal_strlit("COALESCE((SELECT value FROM ");
    reveal_strlit(
        " WHERE key = 'triggers_enabled'), '1') = '1'\n            BEGIN\n            ",
    );
    reveal_strlit(" WHERE key = 'triggers_enabled'), '1') = '1'");
    reveal_strlit("\n            BEGIN\n            ");
    assert(when_stamped() =~= "\n            FOR EACH ROW\n            WHEN "@ + joined(
        parts,
        "\n                AND "@,
    ) + "\n            BEGIN\n            "@);
}

/// The condition of an event's UPDATE holds exactly where the row and the row of
/// the event agree in all primary-key columns.
pub proof fn lemma_event_row_is_met_alone(pks: Seq<Seq<char>>)
    requires
        pks.len() > 0,
    ensures
        exists|cs: Seq<Cond>| #[trigger]
            all_text(cs) == new_row_clause(pks) && meets_event_row(pks, cs),
{
    lemma_row_conds_text(pks);
    lemma_row_conds(pks);
    assert(all_text(row_conds(pks)) == new_row_clause(pks));
}

/// The trigger that fills the timestamp map of a fresh row and marks its table.
pub open spec fn fills_map_text(
    table: Seq<char>,
    ws: Seq<Cond>,
    members: Seq<(Seq<char>, Expr)>,
    cs: Seq<Cond>,
) -> Seq<char> {
    trigger_text(
        required_triggers(table)[0],
        "AFTER INSERT"@,
        table,
        ws,
        set_map_text(table, object_expr(members), cs) + "\n\n            "@ + mark_text(
            "VALUES ("@ + mark_source(table) + ")"@,
        ),
    )
}

/// The map gives every followed column, and no other, the timestamp of the new
/// row.
pub open spec fn stamps_followed(cols: Seq<Seq<char>>, members: Seq<(Seq<char>, Expr)>) -> bool {
    members.len() == cols.len() && forall|s: Scene, i: int|
        0 <= i < cols.len() ==> #[trigger] object_members(members, s)[i] == (
            cols[i],
            s.new[HLC_TIMESTAMP_COLUMN@],
        )
}

spec fn fresh_members(cols: Seq<Seq<char>>) -> Seq<(Seq<char>, Expr)> {
    cols.map_values(|c: Seq<char>| (c, Expr::New(HLC_TIMESTAMP_COLUMN@)))
}

proof fn lemma_fresh_map(cols: Seq<Seq<char>>)
    requires
        cols.len() > 0,
    ensures
        object_expr(fresh_members(cols)) == fresh_map(cols),
        stamps_followed(cols, fresh_members(cols)),
{
    let ms = fresh_members(cols);
    let parts = ms.map_values(
        |m: (Seq<char>, Expr)| expr_text(Expr::Literal(m.0)) + ", "@ + expr_text(m.1),
    );
    let want = wrapped_each(cols, "'"@, "', NEW.\""@ + HLC_TIMESTAMP_COLUMN@ + "\""@);
    reveal_strlit("'");
    reveal_strlit(", ");
    reveal_strlit("NEW.");
    reveal_strlit("\"");
    reveal_strlit("', NEW.\"");
    assert forall|i: int| 0 <= i < cols.len() implies #[trigger] parts[i] == want[i] by {
        assert(parts[i] =~= want[i]);
    }
    assert(parts =~= want);
}

/// The head of a trigger, as far as its conditions.
#[verifier::rlimit(60)]
#[verifier::spinoff_prover]
proof fn lemma_trigger_head(name: Seq<char>, event: Seq<char>, table: Seq<char>, body: Seq<char>)
    ensures
        trigger_text(name, event, table, stamped_conds(), body)
            == "CREATE TRIGGER IF NOT EXISTS \""@ + name + "\"\n            "@ + event + " ON \""@
            + table + "\""@ + when_stamped() + body,
{
    lemma_stamped_conds();
    reveal_strlit("CREATE TRIGGER IF NOT EXISTS \"");
    reveal_strlit("CREATE TRIGGER IF NOT EXISTS ");
    reveal_strlit("\"");
    reveal_strlit("\"\n            ");
    reveal_strlit("\n            ");
    reveal_strlit(" ON \"");
    reveal_strlit(" ON ");
    assert(trigger_text(name, event, table, stamped_conds(), body)
        =~= "CREATE TRIGGER IF NOT EXISTS \""@ + name + "\"\n            "@ + event + " ON \""@
        + table + "\""@ + when_stamped() + body);
}

#[verifier::rlimit(60)]
#[verifier::spinoff_prover]
proof fn lemma_set_map(lead: Seq<char>, table: Seq<char>, map: Seq<char>, cs: Seq<Cond>)
    ensures
        lead + set_map_text(table, map, cs) == lead + "UPDATE \""@ + table
            + "\"\n            SET "@ + COLUMN_HLCS_COLUMN@ + " = "@ + map + "\n            WHERE "@
            + all_text(cs) + ";"@,
{
    reveal_strlit("UPDATE \"");
    reveal_strlit("UPDATE ");
    reveal_strlit("\"");
    reveal_strlit("\"\n            SET ");
    reveal_strlit("\n            SET ");
    let first = "UPDATE \""@ + table + "\"\n            SET "@;
    assert("UPDATE "@ + quoted(table) + "\n            SET "@ =~= first);
    let rest = COLUMN_HLCS_COLUMN@ + " = "@ + map + "\n            WHERE "@ + all_text(cs) + ";"@;
    assert(set_map_text(table, map, cs) =~= first + rest);
    let target = lead + "UPDATE \""@ + table + "\"\n            SET "@;
    assert(lead + first =~= target);
    assert(lead + (first + rest) =~= lead + first + rest);
    assert(target + rest =~= target + COLUMN_HLCS_COLUMN@ + " = "@ + map + "\n            WHERE "@
        + all_text(cs) + ";"@);
}

/// Inserting a stamped row gives that row, and no other, a timestamp map in which
/// every followed column has the row's timestamp, and marks its table.
#[verifier::rlimit(80)]
#[verifier::spinoff_prover]
pub proof fn lemma_insert_trigger_stamps_the_new_row(
    table: Seq<char>,
    cols: Seq<Seq<char>>,
    pks: Seq<Seq<char>>,
)
    requires
        pks.len() > 0,
        cols.len() > 0,
    ensures
        exists|ws: Seq<Cond>, members: Seq<(Seq<char>, Expr)>, cs: Seq<Cond>|
            {
                &&& #[trigger] fills_map_text(table, ws, members, cs) == insert_trigger_sql(
                    table,
                    cols,
                    pks,
                )
                &&& works_when_stamped(ws)
                &&& stamps_followed(cols, members)
                &&& meets_event_row(pks, cs)
            },
{
    let ws = stamped_conds();
    let ms = fresh_members(cols);
    let cs = row_conds(pks);
    let name = required_triggers(table)[0];
    let body = set_map_text(table, object_expr(ms), cs) + "\n\n            "@ + mark_text(
        "VALUES ("@ + mark_source(table) + ")"@,
    );
    lemma_stamped_conds();
    lemma_fresh_map(cols);
    lemma_row_conds_text(pks);
    lemma_row_conds(pks);
    lemma_trigger_head(name, "AFTER INSERT"@, table, body);
    lemma_mark_one(table);
    let start = "CREATE TRIGGER IF NOT EXISTS \""@ + name;
    assert("\"\n            AFTER INSERT ON \""@ =~= "\"\n            "@ + "AFTER INSERT"@
        + " ON \""@) by {
        reveal_strlit("\"\n            AFTER INSERT ON \"");
        reveal_strlit("\"\n            ");
        reveal_strlit("AFTER INSERT");
        reveal_strlit(" ON \"");
    }
    assert(start + ("\"\n            "@ + "AFTER INSERT"@ + " ON \""@) =~= start
        + "\"\n            "@ + "AFTER INSERT"@ + " ON \""@);
    let lead = start + "\"\n            AFTER INSERT ON \""@ + table + "\""@ + when_stamped();
    let set = set_map_text(table, fresh_map(cols), cs);
    let gap = "\n\n            "@;
    let mark = mark_text("VALUES ("@ + mark_source(table) + ")"@);
    assert(lead + (set + gap + mark) =~= lead + set + gap + mark);
    lemma_set_map(lead, table, fresh_map(cols), cs);
    let done = lead + "UPDATE \""@ + table + "\"\n            SET "@ + COLUMN_HLCS_COLUMN@ + " = "@
        + fresh_map(cols) + "\n            WHERE "@ + all_text(cs);
    assert(";\n\n            "@ =~= ";"@ + gap) by {
        reveal_strlit(";\n\n            ");
        reveal_strlit(";");
        reveal_strlit("\n\n            ");
    }
    assert(done + (";"@ + gap) =~= done + ";"@ + gap);
    let so_far = done + ";\n\n            "@;
    let head = mark_dirty_head();
    assert(so_far + (head + "VALUES ('"@ + table + "', datetime('now'))"@ + mark_dirty_tail())
        =~= so_far + head + "VALUES ('"@ + table + "', datetime('now'))"@ + mark_dirty_tail());
    assert(fills_map_text(table, ws, ms, cs) == insert_trigger_sql(table, cols, pks));
}

/// The trigger that moves the timestamps of changed columns on, one statement for
/// each followed column, and marks its table.
pub open spec fn moves_on_text(
    table: Seq<char>,
    cols: Seq<Seq<char>>,
    ws: Seq<Cond>,
    css: Seq<Seq<Cond>>,
    ds: Seq<Cond>,
) -> Seq<char> {
    trigger_text(
        required_triggers(table)[1],
        "AFTER UPDATE OF "@ + name_list(cols),
        table,
        ws,
        joined(
            Seq::new(
                cols.len(),
                |k: int|
                    set_map_text(
                        table,
                        set_entry_text(cols[k], Expr::New(HLC_TIMESTAMP_COLUMN@)),
                        css[k],
                    ),
            ),
            "\n            "@,
        ) + "\n\n            "@ + mark_text(
            "SELECT "@ + mark_source(table) + "\n            WHERE ("@ + any_text(ds) + ")"@,
        ),
    )
}

/// Each statement is for the row of the event, and only where its column changed.
pub open spec fn meets_changed(
    pks: Seq<Seq<char>>,
    cols: Seq<Seq<char>>,
    css: Seq<Seq<Cond>>,
) -> bool {
    css.len() == cols.len() && forall|k: int, s: Scene|
        0 <= k < cols.len() ==> (#[trigger] all_hold(css[k], s) <==> same_row(pks, s.row, s.new)
            && s.new[cols[k]] != s.old[cols[k]])
}

/// The table is marked where some followed column changed, and only there.
pub open spec fn marks_changed(cols: Seq<Seq<char>>, ds: Seq<Cond>) -> bool {
    forall|s: Scene| #[trigger]
        any_holds(ds, s) <==> exists|k: int|
            0 <= k < cols.len() && s.new[#[trigger] cols[k]] != s.old[cols[k]]
}

spec fn changed(c: Seq<char>) -> Cond {
    Cond::IsNot(Expr::New(c), Expr::Old(c))
}

spec fn changed_conds(cols: Seq<Seq<char>>) -> Seq<Cond> {
    cols.map_values(|c: Seq<char>| changed(c))
}

proof fn lemma_changed_conds(cols: Seq<Seq<char>>)
    requires
        cols.len() > 0,
    ensures
        any_text(changed_conds(cols)) == any_changed(cols),
        marks_changed(cols, changed_conds(cols)),
{
    let ds = changed_conds(cols);
    let parts = doubled_each(cols, "NEW.\""@, "\" IS NOT OLD.\""@, "\""@);
    reveal_strlit("NEW.\"");
    reveal_strlit("NEW.");
    reveal_strlit("\"");
    reveal_strlit("\" IS NOT OLD.\"");
    reveal_strlit(" IS NOT ");
    reveal_strlit("OLD.");
    assert forall|i: int| 0 <= i < cols.len() implies #[trigger] cond_texts(ds)[i] == parts[i] by {
        assert(cond_texts(ds)[i] =~= parts[i]);
    }
    assert(cond_texts(ds) =~= parts);
    assert forall|s: Scene| #[trigger]
        any_holds(ds, s) <==> exists|k: int|
            0 <= k < cols.len() && s.new[#[trigger] cols[k]] != s.old[cols[k]] by {
        if any_holds(ds, s) {
            let i = choose|i: int| 0 <= i < ds.len() && #[trigger] cond_holds(ds, i, s);
            assert(s.new[cols[i]] != s.old[cols[i]]);
        }
        if exists|k: int| 0 <= k < cols.len() && s.new[#[trigger] cols[k]] != s.old[cols[k]] {
            let k = choose|k: int|
                0 <= k < cols.len() && s.new[#[trigger] cols[k]] != s.old[cols[k]];
            assert(cond_holds(ds, k, s));
        }
    }
}

spec fn column_conds(pks: Seq<Seq<char>>, cols: Seq<Seq<char>>) -> Seq<Seq<Cond>> {
    cols.map_values(|c: Seq<char>| row_conds(pks).push(changed(c)))
}

proof fn lemma_column_conds(pks: Seq<Seq<char>>, cols: Seq<Seq<char>>)
    ensures
        meets_changed(pks, cols, column_conds(pks, cols)),
{
    let css = column_conds(pks, cols);
    let rows = row_conds(pks);
    lemma_row_conds(pks);
    assert forall|k: int, s: Scene| 0 <= k < cols.len() implies (#[trigger] all_hold(css[k], s)
        <==> same_row(pks, s.row, s.new) && s.new[cols[k]] != s.old[cols[k]]) by {
        let cs = css[k];
        let n = rows.len() as int;
        assert(all_hold(rows, s) <==> same_row(pks, s.row, s.new));
        assert forall|i: int| 0 <= i < n implies cond_holds(cs, i, s) == cond_holds(
            rows,
            i,
            s,
        ) by {
            assert(cs.take(i) =~= rows.take(i));
        }
        assert(cs[n] == changed(cols[k]));
        assert(cond_holds(cs, n, s) == (s.new[cols[k]] != s.old[cols[k]]));
        if all_hold(cs, s) {
            assert(cond_holds(cs, n, s));
            assert forall|i: int| 0 <= i < n implies #[trigger] cond_holds(rows, i, s) by {
                assert(cond_holds(cs, i, s));
            }
        }
        if all_hold(rows, s) && s.new[cols[k]] != s.old[cols[k]] {
            assert forall|i: int| 0 <= i < cs.len() implies #[trigger] cond_holds(cs, i, s) by {
                if i < n {
                    assert(cond_holds(rows, i, s));
                }
            }
        }
    }
}

#[verifier::rlimit(80)]
#[verifier::spinoff_prover]
proof fn lemma_column_update_text(table: Seq<char>, pks: Seq<Seq<char>>, c: Seq<char>)
    requires
        pks.len() > 0,
    ensures
        set_map_text(
            table,
            set_entry_text(c, Expr::New(HLC_TIMESTAMP_COLUMN@)),
            row_conds(pks).push(changed(c)),
        ) == column_update(table, pks, c),
{
    let rows = row_conds(pks);
    let cs = rows.push(changed(c));
    lemma_row_conds_text(pks);
    assert(cond_texts(cs) =~= cond_texts(rows).push(cond_text(changed(c))));
    assert(cond_texts(cs).drop_last() =~= cond_texts(rows));
    assert(all_text(cs) == new_row_clause(pks) + " AND "@ + cond_text(changed(c)));
    let none = Seq::<char>::empty();
    let set = set_entry_text(c, Expr::New(HLC_TIMESTAMP_COLUMN@));
    lemma_set_map(none, table, set, cs);
    let text = set_map_text(table, set, cs);
    assert(none + text =~= text);
    assert(none + "UPDATE \""@ =~= "UPDATE \""@);
    let first = "UPDATE \""@ + table + "\"\n            SET "@ + COLUMN_HLCS_COLUMN@;
    let path = COLUMN_HLCS_COLUMN@ + ", '$."@ + c;
    reveal_strlit(" = json_set(");
    reveal_strlit(" = ");
    reveal_strlit("json_set(");
    assert(first + " = "@ + ("json_set("@ + path) =~= first + " = json_set("@ + path);
    reveal_strlit("', NEW.\"");
    reveal_strlit("', ");
    reveal_strlit("NEW.");
    reveal_strlit("\"");
    reveal_strlit("\")\n            WHERE ");
    reveal_strlit(")");
    reveal_strlit("\n            WHERE ");
    let stamp = "', NEW.\""@ + HLC_TIMESTAMP_COLUMN@;
    assert(set =~= "json_set("@ + path + stamp + "\""@ + ")"@);
    assert("\")\n            WHERE "@ =~= "\""@ + ")"@ + "\n            WHERE "@);
    let lead = first + " = json_set("@ + path;
    assert(first + " = "@ + set + "\n            WHERE "@ =~= lead + stamp
        + "\")\n            WHERE "@);
    let where_at = first + " = json_set("@ + COLUMN_HLCS_COLUMN@ + ", '$."@ + c + "', NEW.\""@
        + HLC_TIMESTAMP_COLUMN@ + "\")\n            WHERE "@;
    assert(lead + stamp + "\")\n            WHERE "@ =~= where_at);
    reveal_strlit(" AND NEW.\"");
    reveal_strlit(" AND ");
    reveal_strlit("\" IS NOT OLD.\"");
    reveal_strlit(" IS NOT ");
    reveal_strlit("OLD.");
    reveal_strlit("\";");
    reveal_strlit(";");
    let clause = new_row_clause(pks);
    let tail = " AND NEW.\""@ + c + "\" IS NOT OLD.\""@ + c + "\";"@;
    assert(" AND "@ + cond_text(changed(c)) + ";"@ =~= tail);
    assert(where_at + (clause + " AND "@ + cond_text(changed(c))) + ";"@ =~= where_at + clause + (
    " AND "@ + cond_text(changed(c)) + ";"@));
    assert(where_at + clause + tail =~= where_at + clause + " AND NEW.\""@ + c
        + "\" IS NOT OLD.\""@ + c + "\";"@);
}

/// Updating a stamped row sets the timestamp of exactly the followed columns that
/// changed to that of the row, in that row and in no other, and marks its table
/// exactly where one of them changed.
#[verifier::rlimit(60)]
#[verifier::spinoff_prover]
pub proof fn lemma_update_trigger_moves_changed_columns_on(
    table: Seq<char>,
    cols: Seq<Seq<char>>,
    pks: Seq<Seq<char>>,
)
    requires
        pks.len() > 0,
        cols.len() > 0,
    ensures
        exists|ws: Seq<Cond>, css: Seq<Seq<Cond>>, ds: Seq<Cond>|
            {
                &&& #[trigger] moves_on_text(table, cols, ws, css, ds) == update_trigger_sql(
                    table,
                    cols,
                    pks,
                )
                &&& works_when_stamped(ws)
                &&& meets_changed(pks, cols, css)
                &&& marks_changed(cols, ds)
            },
{
    let ws = stamped_conds();
    let css = column_conds(pks, cols);
    let ds = changed_conds(cols);
    lemma_stamped_conds();
    lemma_changed_conds(cols);
    lemma_column_conds(pks, cols);
    lemma_moves_on_text(table, cols, pks);
    assert(moves_on_text(table, cols, ws, css, ds) == update_trigger_sql(table, cols, pks));
}

#[verifier::rlimit(60)]
#[verifier::spinoff_prover]
proof fn lemma_moves_on_text(table: Seq<char>, cols: Seq<Seq<char>>, pks: Seq<Seq<char>>)
    requires
        pks.len() > 0,
        cols.len() > 0,
    ensures
        moves_on_text(
            table,
            cols,
            stamped_conds(),
            column_conds(pks, cols),
            changed_conds(cols),
        ) == update_trigger_sql(table, cols, pks),
{
    let css = column_conds(pks, cols);
    let name = required_triggers(table)[1];
    let parts = Seq::new(
        cols.len(),
        |k: int|
            set_map_text(
                table,
                set_entry_text(cols[k], Expr::New(HLC_TIMESTAMP_COLUMN@)),
                css[k],
            ),
    );
    assert forall|k: int| 0 <= k < cols.len() implies #[trigger] parts[k] == column_updates(
        table,
        pks,
        cols,
    )[k] by {
        lemma_column_update_text(table, pks, cols[k]);
    }
    assert(parts =~= column_updates(table, pks, cols));
    lemma_changed_conds(cols);
    let any = any_changed(cols);
    let rows = joined(parts, "\n            "@);
    let gap = "\n\n            "@;
    let mark = mark_text(
        "SELECT "@ + mark_source(table) + "\n            WHERE ("@ + any + ")"@,
    );
    lemma_mark_changed(table, any);
    let event = "AFTER UPDATE OF "@ + name_list(cols);
    lemma_trigger_head(name, event, table, rows + gap + mark);
    assert(wrapped_each(cols, "\""@, "\""@) =~= cols.map_values(|n: Seq<char>| quoted(n)));
    let start = "CREATE TRIGGER IF NOT EXISTS \""@ + name + "\"\n            "@;
    lemma_assoc(start, event, " ON \""@);
    lemma_assoc(start, event + " ON \""@, table);
    lemma_assoc(start, event + " ON \""@ + table, "\""@);
    let lead = start + update_event(table, cols) + when_stamped();
    lemma_assoc(lead, rows + gap, mark);
    lemma_assoc(lead, rows, gap);
    let before = lead + rows + gap;
    let head = mark_dirty_head();
    let one = head + "SELECT '"@;
    let two = one + table;
    let three = two + "', datetime('now')\n            WHERE ("@;
    let four = three + any;
    let five = four + ")"@;
    lemma_assoc(before, five, mark_dirty_tail());
    lemma_assoc(before, four, ")"@);
    lemma_assoc(before, three, any);
    lemma_assoc(before, two, "', datetime('now')\n            WHERE ("@);
    lemma_assoc(before, one, table);
    lemma_assoc(before, head, "SELECT '"@);
}

proof fn lemma_assoc(a: Seq<char>, b: Seq<char>, c: Seq<char>)
    ensures
        a + (b + c) == a + b + c,
{
    assert(a + (b + c) =~= a + b + c);
}

proof fn lemma_mark_changed(table: Seq<char>, changed: Seq<char>)
    ensures
        mark_text("SELECT "@ + mark_source(table) + "\n            WHERE ("@ + changed + ")"@)
            == mark_dirty_head() + "SELECT '"@ + table + "', datetime('now')\n            WHERE ("@
            + changed + ")"@ + mark_dirty_tail(),
{
    reveal_strlit("SELECT '");
    reveal_strlit("SELECT ");
    reveal_strlit("'");
    reveal_strlit("', datetime('now')\n            WHERE (");
    reveal_strlit(", datetime('now')");
    reveal_strlit("\n            WHERE (");
    let source = "SELECT '"@ + table + "', datetime('now')\n            WHERE ("@;
    assert("SELECT "@ + mark_source(table) + "\n            WHERE ("@ =~= source);
    let head = mark_dirty_head();
    assert(head + (source + changed + ")"@) =~= head + "SELECT '"@ + table
        + "', datetime('now')\n            WHERE ("@ + changed + ")"@);
}

proof fn lemma_mark_one(table: Seq<char>)
    ensures
        mark_text("VALUES ("@ + mark_source(table) + ")"@) == mark_dirty_head() + "VALUES ('"@
            + table + "', datetime('now'))"@ + mark_dirty_tail(),
{
    reveal_strlit("VALUES ('");
    reveal_strlit("VALUES (");
    reveal_strlit("'");
    reveal_strlit("', datetime('now'))");
    reveal_strlit(", datetime('now')");
    reveal_strlit(")");
    let source = "VALUES ('"@ + table + "', datetime('now'))"@;
    assert("VALUES ("@ + mark_source(table) + ")"@ =~= source);
    let head = mark_dirty_head();
    assert(head + source =~= head + "VALUES ('"@ + table + "', datetime('now'))"@);
}

/// An INSERT of written-out values.
pub open spec fn log_text(columns: Seq<Seq<char>>, values: Seq<Seq<char>>) -> Seq<char> {
    "INSERT INTO "@ + DELETED_ROWS_TABLE@ + " ("@ + joined(columns, ", "@)
        + ")\n            VALUES ("@ + joined(values, ", "@) + ");"@
}

/// A function that is called without arguments.
pub open spec fn call_text(name: Seq<char>) -> Seq<char> {
    name + "()"@
}

/// The trigger that logs a delete and marks the log.
pub open spec fn logs_text(
    table: Seq<char>,
    ws: Seq<Cond>,
    members: Seq<(Seq<char>, Expr)>,
) -> Seq<char> {
    trigger_text(
        trigger_name(table, "delete"@),
        "BEFORE DELETE"@,
        table,
        ws,
        log_text(
            seq!["id"@, "table_name"@, "row_pks"@, HLC_TIMESTAMP_COLUMN@, COLUMN_HLCS_COLUMN@],
            seq![
                call_text(UUID_FUNCTION_NAME@),
                expr_text(Expr::Literal(table)),
                object_expr(members),
                call_text(HLC_FUNCTION_NAME@),
                expr_text(Expr::Literal("{}"@)),
            ],
        ) + "\n            "@ + mark_text("VALUES ("@ + mark_source(DELETED_ROWS_TABLE@) + ")"@),
    )
}

/// The logged key is that of the row that goes: every key column, in order, with
/// its old value.
pub open spec fn logs_old_key(pks: Seq<Seq<char>>, members: Seq<(Seq<char>, Expr)>) -> bool {
    members.len() == pks.len() && forall|s: Scene, i: int|
        0 <= i < pks.len() ==> #[trigger] object_members(members, s)[i] == (pks[i], s.old[pks[i]])
}

/// Deleting a row logs its table, its key and a fresh timestamp, under a fresh id
/// and with no column timestamps, unless triggers are turned off, and marks the
/// log.
#[verifier::rlimit(60)]
#[verifier::spinoff_prover]
pub proof fn lemma_delete_trigger_logs_the_old_key(table: Seq<char>, pks: Seq<Seq<char>>)
    ensures
        exists|ws: Seq<Cond>, members: Seq<(Seq<char>, Expr)>|
            {
                &&& #[trigger] logs_text(table, ws, members) == delete_trigger_sql(table, pks)
                &&& logs_old_key(pks, members)
                &&& forall|s: Scene| #[trigger]
                    all_hold(ws, s) <==> (s.switch matches Some(stored) ==> stored == "1"@)
            },
{
    let ws = seq![Cond::SwitchedOn];
    let ms = pks.map_values(|c: Seq<char>| (c, Expr::Old(c)));
    assert forall|s: Scene| #[trigger]
        all_hold(ws, s) <==> (s.switch matches Some(stored) ==> stored == "1"@) by {
        assert(all_hold(ws, s) ==> cond_holds(ws, 0, s));
        assert(cond_holds(ws, 0, s) == (s.switch matches Some(stored) ==> stored == "1"@));
    }
    let parts = ms.map_values(
        |m: (Seq<char>, Expr)| expr_text(Expr::Literal(m.0)) + ", "@ + expr_text(m.1),
    );
    let want = doubled_each(pks, "'"@, "', OLD.\""@, "\""@);
    reveal_strlit("'");
    reveal_strlit(", ");
    reveal_strlit("OLD.");
    reveal_strlit("\"");
    reveal_strlit("', OLD.\"");
    assert forall|i: int| 0 <= i < pks.len() implies #[trigger] parts[i] == want[i] by {
        assert(parts[i] =~= want[i]);
    }
    assert(parts =~= want);
    assert(cond_texts(ws).len() == 1);
    let columns = seq![
        "id"@,
        "table_name"@,
        "row_pks"@,
        HLC_TIMESTAMP_COLUMN@,
        COLUMN_HLCS_COLUMN@,
    ];
    let values = seq![
        call_text(UUID_FUNCTION_NAME@),
        expr_text(Expr::Literal(table)),
        object_expr(ms),
        call_text(HLC_FUNCTION_NAME@),
        expr_text(Expr::Literal("{}"@)),
    ];
    let name = trigger_name(table, "delete"@);
    let mark = mark_text("VALUES ("@ + mark_source(DELETED_ROWS_TABLE@) + ")"@);
    let log = log_text(columns, values);
    lemma_log_head(name, table, log + "\n            "@ + mark);
    lemma_log_values(table, object_expr(ms));
    lemma_mark_one(DELETED_ROWS_TABLE@);
    lemma_log_parts(
        name,
        table,
        joined(want, ", "@),
        log,
        mark,
    );
    assert(logs_text(table, ws, ms) =~= delete_trigger_sql(table, pks));
}

#[verifier::rlimit(60)]
#[verifier::spinoff_prover]
proof fn lemma_log_head(name: Seq<char>, table: Seq<char>, body: Seq<char>)
    ensures
        trigger_text(name, "BEFORE DELETE"@, table, seq![Cond::SwitchedOn], body)
            == "CREATE TRIGGER IF NOT EXISTS \""@ + name
            + "\"\n            BEFORE DELETE ON \""@ + table
            + "\"\n            FOR EACH ROW\n            WHEN COALESCE((SELECT value FROM "@
            + TABLE_CRDT_CONFIGS@ + " WHERE key = 'triggers_enabled'), '1') = '1'"@
            + "\n            BEGIN\n            "@ + body,
{
    assert(cond_texts(seq![Cond::SwitchedOn]).len() == 1);
    let cond = cond_text(Cond::SwitchedOn);
    reveal_strlit("CREATE TRIGGER IF NOT EXISTS \"");
    reveal_strlit("CREATE TRIGGER IF NOT EXISTS ");
    reveal_strlit("\"");
    reveal_strlit("\"\n            BEFORE DELETE ON \"");
    reveal_strlit("\n            ");
    reveal_strlit("BEFORE DELETE");
    reveal_strlit(" ON ");
    let head = "CREATE TRIGGER IF NOT EXISTS \""@ + name
        + "\"\n            BEFORE DELETE ON \""@ + table;
    assert("CREATE TRIGGER IF NOT EXISTS "@ + quoted(name) + "\n            "@ + "BEFORE DELETE"@
        + " ON "@ + quoted(table) =~= head + "\""@);
    reveal_strlit(
        "\"\n            FOR EACH ROW\n            WHEN COALESCE((SELECT value FROM ",
    );
    reveal_strlit("\n            FOR EACH ROW\n            WHEN ");
    reveal_strlit("COALESCE((SELECT value FROM ");
    assert(head + "\""@ + "\n            FOR EACH ROW\n            WHEN "@ + cond =~= head
        + "\"\n            FOR EACH ROW\n            WHEN COALESCE((SELECT value FROM "@
        + TABLE_CRDT_CONFIGS@ + " WHERE key = 'triggers_enabled'), '1') = '1'"@);
}

#[verifier::rlimit(80)]
#[verifier::spinoff_prover]
proof fn lemma_log_values(table: Seq<char>, key: Seq<char>)
    ensures
        log_text(
            seq!["id"@, "table_name"@, "row_pks"@, HLC_TIMESTAMP_COLUMN@, COLUMN_HLCS_COLUMN@],
            seq![
                call_text(UUID_FUNCTION_NAME@),
                expr_text(Expr::Literal(table)),
                key,
                call_text(HLC_FUNCTION_NAME@),
                expr_text(Expr::Literal("{}"@)),
            ],
        ) == "INSERT INTO "@ + DELETED_ROWS_TABLE@ + " (id, table_name, row_pks, "@
            + HLC_TIMESTAMP_COLUMN@ + ", "@ + COLUMN_HLCS_COLUMN@ + ")\n            VALUES ("@
            + UUID_FUNCTION_NAME@ + "(), '"@ + table + "', "@ + key + ", "@ + HLC_FUNCTION_NAME@
            + "(), '{}');"@,
{
    let columns = seq![
        "id"@,
        "table_name"@,
        "row_pks"@,
        HLC_TIMESTAMP_COLUMN@,
        COLUMN_HLCS_COLUMN@,
    ];
    let values = seq![
        call_text(UUID_FUNCTION_NAME@),
        expr_text(Expr::Literal(table)),
        key,
        call_text(HLC_FUNCTION_NAME@),
        expr_text(Expr::Literal("{}"@)),
    ];
    lemma_joined_five(columns, ", "@);
    lemma_joined_five(values, ", "@);
    let head = "INSERT INTO "@ + DELETED_ROWS_TABLE@;
    let names = HLC_TIMESTAMP_COLUMN@ + ", "@ + COLUMN_HLCS_COLUMN@;
    assert(" (id, table_name, row_pks, "@ =~= " ("@ + "id"@ + ", "@ + "table_name"@ + ", "@
        + "row_pks"@ + ", "@) by {
        reveal_strlit(" (id, table_name, row_pks, ");
        reveal_strlit(" (");
        reveal_strlit("id");
        reveal_strlit("table_name");
        reveal_strlit("row_pks");
        reveal_strlit(", ");
    }
    let first = "id"@ + ", "@ + "table_name"@ + ", "@ + "row_pks"@ + ", "@;
    assert(joined(columns, ", "@) =~= first + names);
    assert(" (id, table_name, row_pks, "@ =~= " ("@ + first);
    let one = head + " ("@ + joined(columns, ", "@);
    assert(one =~= head + " (id, table_name, row_pks, "@ + HLC_TIMESTAMP_COLUMN@ + ", "@
        + COLUMN_HLCS_COLUMN@);
    let two = one + ")\n            VALUES ("@;
    let uuid = UUID_FUNCTION_NAME@;
    let hlc = HLC_FUNCTION_NAME@;
    assert("(), '"@ =~= "()"@ + ", "@ + "'"@) by {
        reveal_strlit("(), '");
        reveal_strlit("()");
        reveal_strlit(", ");
        reveal_strlit("'");
    }
    assert("', "@ =~= "'"@ + ", "@) by {
        reveal_strlit("', ");
        reveal_strlit(", ");
        reveal_strlit("'");
    }
    assert("(), '{}');"@ =~= "()"@ + ", "@ + "'"@ + "{}"@ + "'"@ + ");"@) by {
        reveal_strlit("(), '{}');");
        reveal_strlit("()");
        reveal_strlit(", ");
        reveal_strlit("'");
        reveal_strlit("{}");
        reveal_strlit(");");
    }
    assert(values[0] + ", "@ + values[1] + ", "@ =~= uuid + "(), '"@ + table + "', "@);
    assert(values[3] + ", "@ + values[4] + ");"@ =~= hlc + "(), '{}');"@);
    let front = values[0] + ", "@ + values[1] + ", "@;
    let back = values[3] + ", "@ + values[4];
    assert(joined(values, ", "@) =~= front + key + ", "@ + back);
    assert(two + joined(values, ", "@) + ");"@ =~= two + front + key + ", "@ + (back + ");"@));
    assert(two + front =~= two + uuid + "(), '"@ + table + "', "@);
    assert(two + front + key + ", "@ + (hlc + "(), '{}');"@) =~= two + front + key + ", "@ + hlc
        + "(), '{}');"@);
}

/// The pieces of a logging trigger, put together.
#[verifier::rlimit(80)]
#[verifier::spinoff_prover]
proof fn lemma_log_parts(
    name: Seq<char>,
    table: Seq<char>,
    key: Seq<char>,
    log: Seq<char>,
    mark: Seq<char>,
)
    requires
        log == "INSERT INTO "@ + DELETED_ROWS_TABLE@ + " (id, table_name, row_pks, "@
            + HLC_TIMESTAMP_COLUMN@ + ", "@ + COLUMN_HLCS_COLUMN@ + ")\n            VALUES ("@
            + UUID_FUNCTION_NAME@ + "(), '"@ + table + "', "@ + ("json_object("@ + key + ")"@)
            + ", "@ + HLC_FUNCTION_NAME@ + "(), '{}');"@,
    ensures
        "CREATE TRIGGER IF NOT EXISTS \""@ + name + "\"\n            BEFORE DELETE ON \""@ + table
            + "\"\n            FOR EACH ROW\n            WHEN COALESCE((SELECT value FROM "@
            + TABLE_CRDT_CONFIGS@ + " WHERE key = 'triggers_enabled'), '1') = '1'"@
            + "\n            BEGIN\n            "@ + (log + "\n            "@ + mark)
            == "CREATE TRIGGER IF NOT EXISTS \""@ + name
            + "\"\n            BEFORE DELETE ON \""@ + table
            + "\"\n            FOR EACH ROW\n            WHEN COALESCE((SELECT value FROM "@
            + TABLE_CRDT_CONFIGS@
            + " WHERE key = 'triggers_enabled'), '1') = '1'\n            BEGIN\n            INSERT INTO "@
            + DELETED_ROWS_TABLE@ + " (id, table_name, row_pks, "@ + HLC_TIMESTAMP_COLUMN@ + ", "@
            + COLUMN_HLCS_COLUMN@ + ")\n            VALUES ("@ + UUID_FUNCTION_NAME@ + "(), '"@
            + table + "', json_object("@ + key + "), "@ + HLC_FUNCTION_NAME@
            + "(), '{}');\n            "@ + mark,
{
    let head = "CREATE TRIGGER IF NOT EXISTS \""@ + name
        + "\"\n            BEFORE DELETE ON \""@ + table
        + "\"\n            FOR EACH ROW\n            WHEN COALESCE((SELECT value FROM "@
        + TABLE_CRDT_CONFIGS@;
    let on = " WHERE key = 'triggers_enabled'), '1') = '1'"@;
    let begin = "\n            BEGIN\n            "@;
    assert(" WHERE key = 'triggers_enabled'), '1') = '1'\n            BEGIN\n            INSERT INTO "@
        =~= on + begin + "INSERT INTO "@) by {
        reveal_strlit(
            " WHERE key = 'triggers_enabled'), '1') = '1'\n            BEGIN\n            INSERT INTO ",
        );
        reveal_strlit(" WHERE key = 'triggers_enabled'), '1') = '1'");
        reveal_strlit("\n            BEGIN\n            ");
        reveal_strlit("INSERT INTO ");
    }
    let start = head + on + begin;
    assert(head + (on + begin + "INSERT INTO "@) =~= start + "INSERT INTO "@);
    let mid = DELETED_ROWS_TABLE@ + " (id, table_name, row_pks, "@ + HLC_TIMESTAMP_COLUMN@ + ", "@
        + COLUMN_HLCS_COLUMN@ + ")\n            VALUES ("@ + UUID_FUNCTION_NAME@ + "(), '"@
        + table;
    let left = start + "INSERT INTO "@ + DELETED_ROWS_TABLE@ + " (id, table_name, row_pks, "@
        + HLC_TIMESTAMP_COLUMN@ + ", "@ + COLUMN_HLCS_COLUMN@ + ")\n            VALUES ("@
        + UUID_FUNCTION_NAME@ + "(), '"@ + table;
    assert(left =~= start + "INSERT INTO "@ + mid);
    assert("', json_object("@ =~= "', "@ + "json_object("@) by {
        reveal_strlit("', json_object(");
        reveal_strlit("', ");
        reveal_strlit("json_object(");
    }
    assert("), "@ =~= ")"@ + ", "@) by {
        reveal_strlit("), ");
        reveal_strlit(")");
        reveal_strlit(", ");
    }
    assert("(), '{}');\n            "@ =~= "(), '{}');"@ + "\n            "@) by {
        reveal_strlit("(), '{}');\n            ");
        reveal_strlit("(), '{}');");
        reveal_strlit("\n            ");
    }
    let entry = "', "@ + ("json_object("@ + key + ")"@) + ", "@ + HLC_FUNCTION_NAME@
        + "(), '{}');"@;
    assert(log =~= "INSERT INTO "@ + mid + entry);
    assert(start + (log + "\n            "@ + mark) =~= left + entry + "\n            "@ + mark);
    assert(entry =~= "', json_object("@ + key + "), "@ + HLC_FUNCTION_NAME@ + "(), '{}');"@);
    assert(left + entry + "\n            "@ =~= left + "', json_object("@ + key + "), "@
        + HLC_FUNCTION_NAME@ + "(), '{}');\n            "@);
}

proof fn lemma_joined_five(parts: Seq<Seq<char>>, sep: Seq<char>)
    requires
        parts.len() == 5,
    ensures
        joined(parts, sep) == parts[0] + sep + parts[1] + sep + parts[2] + sep + parts[3] + sep
            + parts[4],
{
    reveal_with_fuel(joined, 6);
}

/// Where no column is followed, a fresh row gets an empty map, every update is
/// looked at, and none of them counts as a change.
pub proof fn lemma_nothing_followed(table: Seq<char>)
    ensures
        fresh_map(Seq::empty()) == expr_text(Expr::Literal("{}"@)),
        update_event(table, Seq::empty()) == "AFTER UPDATE"@ + " ON "@ + quoted(table),
        any_changed(Seq::empty()) == "0"@,
{
    assert(fresh_map(Seq::empty()) =~= expr_text(Expr::Literal("{}"@))) by {
        reveal_strlit("'{}'");
        reveal_strlit("'");
        reveal_strlit("{}");
    }
    assert(update_event(table, Seq::empty()) =~= "AFTER UPDATE"@ + " ON "@ + quoted(table)) by {
        reveal_strlit("AFTER UPDATE ON \"");
        reveal_strlit("AFTER UPDATE");
        reveal_strlit(" ON ");
        reveal_strlit("\"");
    }
}

/// In a table without a key the row of the event is met by the row id that SQLite
/// gives it, and no other row is.
pub proof fn lemma_row_without_key_is_met_alone() -> (cs: Seq<Cond>)
    ensures
        all_text(cs) == new_row_clause(Seq::empty()),
        meets_event_row(seq!["rowid"@], cs),
{
    let cs = seq![Cond::Equals(Expr::Bare("rowid"@), Expr::NewBare("rowid"@))];
    assert(cond_texts(cs).len() == 1);
    assert(all_text(cs) =~= new_row_clause(Seq::empty())) by {
        reveal_with_fuel(joined, 2);
        reveal_strlit("rowid");
        reveal_strlit(" = ");
        reveal_strlit("NEW.");
        reveal_strlit("rowid = NEW.rowid");
    }
    assert forall|s: Scene| #[trigger] all_hold(cs, s) <==> same_row(
        seq!["rowid"@],
        s.row,
        s.new,
    ) by {
        assert(all_hold(cs, s) ==> cond_holds(cs, 0, s));
        if same_row(seq!["rowid"@], s.row, s.new) {
            assert(seq!["rowid"@][0] == "rowid"@);
        }
    }
    cs
}

} // verus!
