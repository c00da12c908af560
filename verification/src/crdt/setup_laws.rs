//! Which triggers and which metadata columns a table is given.

use crate::crdt::columns::lemma_metadata_columns_differ;
use crate::crdt::columns::COLUMN_HLCS_COLUMN;
use crate::crdt::columns::COLUMN_SIGS_COLUMN;
use crate::crdt::columns::DELETED_ROWS_TABLE;
use crate::crdt::columns::HLC_TIMESTAMP_COLUMN;
use crate::crdt::schema::has_column;
use crate::crdt::schema::ColumnView;
use crate::crdt::sql_meaning::quoted;
use crate::crdt::trigger::add_column_sql;
use crate::crdt::trigger::delete_trigger_sql;
use crate::crdt::trigger::drop_all_sql;
use crate::crdt::trigger::drop_sql;
use crate::crdt::trigger::insert_trigger_sql;
use crate::crdt::trigger::install_statements;
use crate::crdt::trigger::missing_columns_sql;
use crate::crdt::trigger::required_triggers;
use crate::crdt::trigger::trigger_name;
use crate::crdt::trigger::update_trigger_sql;
use crate::database::install::is_managed;
use crate::text::joined;
use vstd::prelude::*;

verus! {

/// The text starts with these characters.
#[verifier::opaque]
pub open spec fn starts(s: Seq<char>, lead: Seq<char>) -> bool {
    lead.len() <= s.len() && s.take(lead.len() as int) == lead
}

/// The statement makes a trigger of this name.
pub open spec fn creates(sql: Seq<char>, name: Seq<char>) -> bool {
    starts(sql, "CREATE TRIGGER IF NOT EXISTS "@ + quoted(name) + "\n"@)
}

proof fn lemma_starts_on(lead: Seq<char>)
    ensures
        forall|a: Seq<char>, b: Seq<char>| starts(a, lead) ==> #[trigger] starts(a + b, lead),
{
    assert forall|a: Seq<char>, b: Seq<char>| starts(a, lead) implies #[trigger] starts(
        a + b,
        lead,
    ) by {
        reveal(starts);
        assert((a + b).take(lead.len() as int) =~= a.take(lead.len() as int));
    }
}

/// The statements drop the triggers of these names, one after the other.
pub open spec fn drops_each(sql: Seq<char>, names: Seq<Seq<char>>) -> bool {
    sql == joined(
        Seq::new(
            names.len(),
            |i: int| "DROP TRIGGER IF EXISTS "@ + quoted(names[i]) + ";"@,
        ),
        "\n"@,
    )
}

proof fn lemma_trigger_starts(name: Seq<char>, lead: Seq<char>)
    requires
        lead.len() > 1,
        lead[0] == '"',
        lead[1] == '\n',
    ensures
        creates("CREATE TRIGGER IF NOT EXISTS \""@ + name + lead, name),
{
    reveal(starts);
    reveal_strlit("CREATE TRIGGER IF NOT EXISTS \"");
    reveal_strlit("CREATE TRIGGER IF NOT EXISTS ");
    reveal_strlit("\"");
    reveal_strlit("\n");
    let want = "CREATE TRIGGER IF NOT EXISTS "@ + quoted(name) + "\n"@;
    let sql = "CREATE TRIGGER IF NOT EXISTS \""@ + name + lead;
    assert(sql.take(want.len() as int) =~= want);
}

#[verifier::rlimit(60)]
#[verifier::spinoff_prover]
proof fn lemma_insert_trigger_starts(table: Seq<char>, cols: Seq<Seq<char>>, pks: Seq<Seq<char>>)
    ensures
        creates(insert_trigger_sql(table, cols, pks), trigger_name(table, "insert"@)),
{
    let name = trigger_name(table, "insert"@);
    let lead = "\"\n            AFTER INSERT ON \""@;
    assert(lead.len() > 1 && lead[0] == '"' && lead[1] == '\n') by {
        reveal_strlit("\"\n            AFTER INSERT ON \"");
    }
    lemma_trigger_starts(name, lead);
    lemma_starts_on("CREATE TRIGGER IF NOT EXISTS "@ + quoted(name) + "\n"@);
}

#[verifier::rlimit(60)]
#[verifier::spinoff_prover]
proof fn lemma_update_trigger_starts(table: Seq<char>, cols: Seq<Seq<char>>, pks: Seq<Seq<char>>)
    ensures
        creates(update_trigger_sql(table, cols, pks), trigger_name(table, "update"@)),
{
    let name = trigger_name(table, "update"@);
    let lead = "\"\n            "@;
    assert(lead.len() > 1 && lead[0] == '"' && lead[1] == '\n') by {
        reveal_strlit("\"\n            ");
    }
    lemma_trigger_starts(name, lead);
    lemma_starts_on("CREATE TRIGGER IF NOT EXISTS "@ + quoted(name) + "\n"@);
}

#[verifier::rlimit(60)]
#[verifier::spinoff_prover]
proof fn lemma_delete_trigger_starts(table: Seq<char>, pks: Seq<Seq<char>>)
    ensures
        creates(delete_trigger_sql(table, pks), trigger_name(table, "delete"@)),
{
    let name = trigger_name(table, "delete"@);
    let lead = "\"\n            BEFORE DELETE ON \""@;
    assert(lead.len() > 1 && lead[0] == '"' && lead[1] == '\n') by {
        reveal_strlit("\"\n            BEFORE DELETE ON \"");
    }
    lemma_trigger_starts(name, lead);
    lemma_starts_on("CREATE TRIGGER IF NOT EXISTS "@ + quoted(name) + "\n"@);
}

#[verifier::rlimit(60)]
#[verifier::spinoff_prover]
proof fn lemma_all_are_dropped(table: Seq<char>, names: Seq<Seq<char>>)
    requires
        names.len() == 3,
        names[0] == trigger_name(table, "insert"@),
        names[1] == trigger_name(table, "update"@),
        names[2] == trigger_name(table, "delete"@),
    ensures
        drops_each(drop_all_sql(table), names),
{
    let drops = Seq::new(
        names.len(),
        |i: int| "DROP TRIGGER IF EXISTS "@ + quoted(names[i]) + ";"@,
    );
    assert forall|i: int| 0 <= i < 3 implies #[trigger] drops[i] == drop_sql(names[i]) by {
        reveal_strlit("DROP TRIGGER IF EXISTS \"");
        reveal_strlit("DROP TRIGGER IF EXISTS ");
        reveal_strlit("\"");
        reveal_strlit("\";");
        reveal_strlit(";");
        assert(drops[i] =~= drop_sql(names[i]));
    }
    assert(drops.drop_last().drop_last() =~= seq![drops[0]]);
    assert(drops.drop_last().last() == drops[1]);
    reveal_with_fuel(joined, 4);
}

/// The triggers of a table have different names.
pub proof fn lemma_trigger_names_differ(table: Seq<char>)
    ensures
        trigger_name(table, "insert"@) != trigger_name(table, "update"@),
        trigger_name(table, "insert"@) != trigger_name(table, "delete"@),
        trigger_name(table, "update"@) != trigger_name(table, "delete"@),
{
    let n = ("z_dirty_"@ + table + "_"@).len() as int;
    assert(trigger_name(table, "insert"@)[n] == 'i') by {
        reveal_strlit("insert");
    }
    assert(trigger_name(table, "update"@)[n] == 'u') by {
        reveal_strlit("update");
    }
    assert(trigger_name(table, "delete"@)[n] == 'd') by {
        reveal_strlit("delete");
    }
}

/// These statements make triggers of these names, in order.
pub open spec fn creates_each(statements: Seq<Seq<char>>, names: Seq<Seq<char>>) -> bool {
    statements.len() == names.len() && forall|i: int|
        0 <= i < names.len() ==> creates(statements[i], #[trigger] names[i])
}

/// Installing makes exactly the triggers that a table must have: one for inserts,
/// one for updates and, save for the delete log, one for deletes. Where they are
/// made anew, the triggers for all three events are dropped before.
#[verifier::rlimit(60)]
#[verifier::spinoff_prover]
pub proof fn lemma_table_gets_the_triggers_it_must_have(
    table: Seq<char>,
    cols: Seq<Seq<char>>,
    pks: Seq<Seq<char>>,
    recreate: bool,
)
    ensures
        ({
            let names = seq![
                trigger_name(table, "insert"@),
                trigger_name(table, "update"@),
                trigger_name(table, "delete"@),
            ];
            let statements = install_statements(table, cols, pks, recreate);
            &&& required_triggers(table) == if table == DELETED_ROWS_TABLE@ {
                names.take(2)
            } else {
                names
            }
            &&& if recreate {
                statements.len() > 0 && drops_each(statements[0], names) && creates_each(
                    statements.skip(1),
                    required_triggers(table),
                )
            } else {
                creates_each(statements, required_triggers(table))
            }
        }),
{
    lemma_insert_trigger_starts(table, cols, pks);
    lemma_update_trigger_starts(table, cols, pks);
    lemma_delete_trigger_starts(table, pks);
    let names = seq![
        trigger_name(table, "insert"@),
        trigger_name(table, "update"@),
        trigger_name(table, "delete"@),
    ];
    lemma_all_are_dropped(table, names);
    assert(names.take(2) =~= seq![names[0], names[1]]);
    assert(seq![names[0], names[1]].push(names[2]) =~= names);
}

/// The three metadata columns of a table.
pub open spec fn metadata_names() -> Seq<Seq<char>> {
    seq![HLC_TIMESTAMP_COLUMN@, COLUMN_HLCS_COLUMN@, COLUMN_SIGS_COLUMN@]
}

/// The statement adds this column to the table: a timestamp, or a map that starts
/// empty.
pub open spec fn adds_column(sql: Seq<char>, table: Seq<char>, name: Seq<char>) -> bool {
    sql == "ALTER TABLE "@ + quoted(table) + " ADD COLUMN "@ + quoted(name) + if name
        == HLC_TIMESTAMP_COLUMN@ {
        " TEXT"@
    } else {
        " TEXT NOT NULL DEFAULT '{}'"@
    }
}

#[verifier::rlimit(60)]
#[verifier::spinoff_prover]
proof fn lemma_add_column(table: Seq<char>, name: Seq<char>)
    ensures
        add_column_sql(table, name, "TEXT"@) == "ALTER TABLE "@ + quoted(table) + " ADD COLUMN "@
            + quoted(name) + " TEXT"@,
        add_column_sql(table, name, "TEXT NOT NULL DEFAULT '{}'"@) == "ALTER TABLE "@ + quoted(
            table,
        ) + " ADD COLUMN "@ + quoted(name) + " TEXT NOT NULL DEFAULT '{}'"@,
{
    reveal_strlit("ALTER TABLE \"");
    reveal_strlit("ALTER TABLE ");
    reveal_strlit("\"");
    reveal_strlit("\" ADD COLUMN \"");
    reveal_strlit(" ADD COLUMN ");
    reveal_strlit("\" ");
    assert(add_column_sql(table, name, "TEXT"@) =~= "ALTER TABLE "@ + quoted(table)
        + " ADD COLUMN "@ + quoted(name) + " TEXT"@) by {
        reveal_strlit("TEXT");
        reveal_strlit(" TEXT");
    }
    assert(add_column_sql(table, name, "TEXT NOT NULL DEFAULT '{}'"@) =~= "ALTER TABLE "@
        + quoted(table) + " ADD COLUMN "@ + quoted(name) + " TEXT NOT NULL DEFAULT '{}'"@) by {
        reveal_strlit("TEXT NOT NULL DEFAULT '{}'");
        reveal_strlit(" TEXT NOT NULL DEFAULT '{}'");
    }
}

/// What a table lacks of its metadata columns is added, each column once and in
/// order, and nothing else is.
#[verifier::rlimit(60)]
#[verifier::spinoff_prover]
pub proof fn lemma_lacking_columns_are_added(table: Seq<char>, schema: Seq<ColumnView>) -> (at: Seq<
    int,
>)
    requires
        schema.len() > 0,
    ensures
        ({
            let statements = missing_columns_sql(table, schema);
            &&& at.len() == statements.len()
            &&& forall|i: int, j: int|
                #![trigger at[i], at[j]]
                0 <= i < j < at.len() ==> at[i] < at[j]
            &&& forall|i: int|
                0 <= i < at.len() ==> 0 <= #[trigger] at[i] < 3 && adds_column(
                    statements[i],
                    table,
                    metadata_names()[at[i]],
                )
            &&& forall|k: int|
                0 <= k < 3 ==> (at.contains(k) <==> !has_column(
                    schema,
                    #[trigger] metadata_names()[k],
                ))
        }),
{
    let names = metadata_names();
    lemma_add_column(table, names[0]);
    lemma_add_column(table, names[1]);
    lemma_add_column(table, names[2]);
    assert(names[1] != names[0] && names[2] != names[0]) by {
        lemma_metadata_columns_differ();
    }
    let a: Seq<int> = if has_column(schema, names[0]) {
        Seq::empty()
    } else {
        seq![0int]
    };
    let b: Seq<int> = if has_column(schema, names[1]) {
        a
    } else {
        a.push(1)
    };
    let at: Seq<int> = if has_column(schema, names[2]) {
        b
    } else {
        b.push(2)
    };
    assert forall|k: int| 0 <= k < 3 implies (at.contains(k) <==> !has_column(
        schema,
        #[trigger] metadata_names()[k],
    )) by {
        if !has_column(schema, names[0]) {
            assert(at[0] == 0);
        }
        if !has_column(schema, names[1]) {
            assert(at[a.len() as int] == 1);
        }
        if !has_column(schema, names[2]) {
            assert(at[b.len() as int] == 2);
        }
    }
    at
}

/// A table is managed exactly where it lacks none of the metadata columns.
pub proof fn lemma_managed_tables_lack_nothing(table: Seq<char>, schema: Seq<ColumnView>)
    requires
        schema.len() > 0,
    ensures
        is_managed(schema) <==> missing_columns_sql(table, schema).len() == 0,
        is_managed(schema) <==> forall|k: int|
            0 <= k < 3 ==> has_column(schema, #[trigger] metadata_names()[k]),
{
    let names = metadata_names();
    assert(names[0] == HLC_TIMESTAMP_COLUMN@);
    assert(names[1] == COLUMN_HLCS_COLUMN@);
    assert(names[2] == COLUMN_SIGS_COLUMN@);
}

} // verus!
