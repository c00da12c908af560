//! What the statements of a merge, a scan and a pruning pass do to rows.

use crate::crdt::apply::delete_propagation::delete_params;
use crate::crdt::apply::delete_propagation::delete_plan;
use crate::crdt::apply::delete_propagation::identity_matches;
use crate::crdt::apply::delete_propagation::key_has;
use crate::crdt::apply::delete_propagation::sql_of_key;
use crate::crdt::apply::delete_propagation::EntryView;
use crate::crdt::apply::engine::hlcs_json;
use crate::crdt::apply::engine::stored_map;
use crate::crdt::apply::engine::wants_signatures;
use crate::crdt::apply::engine::write_statement;
use crate::crdt::apply::engine::StagedRowView;
use crate::crdt::apply::pk_where::pk_bound;
use crate::crdt::apply::pk_where::pk_clause;
use crate::crdt::apply::pk_where::pk_condition;
use crate::crdt::apply::pk_where::pk_conditions;
use crate::crdt::apply::pk_where::pk_params;
use crate::crdt::apply::write::fetch_sql;
use crate::crdt::apply::write::insert_columns;
use crate::crdt::apply::write::insert_sql;
use crate::crdt::apply::write::pk_values;
use crate::crdt::apply::write::signatures_sql;
use crate::crdt::apply::write::sigs_after;
use crate::crdt::apply::write::update_parts;
use crate::crdt::apply::write::StatementView;
use crate::crdt::columns::lemma_metadata_columns_differ;
use crate::crdt::columns::COLUMN_HLCS_COLUMN;
use crate::crdt::columns::COLUMN_SIGS_COLUMN;
use crate::crdt::columns::HLC_TIMESTAMP_COLUMN;
use crate::crdt::schema::has_column;
use crate::crdt::schema::pk_names;
use crate::crdt::schema::ColumnView;
use crate::crdt::sql_meaning::all_hold;
use crate::crdt::sql_meaning::all_text;
use crate::crdt::sql_meaning::assigned;
use crate::crdt::sql_meaning::column_exprs;
use crate::crdt::sql_meaning::cond_holds;
use crate::crdt::sql_meaning::cond_text;
use crate::crdt::sql_meaning::cond_texts;
use crate::crdt::sql_meaning::delete_text;
use crate::crdt::sql_meaning::expr_text;
use crate::crdt::sql_meaning::insert_text;
use crate::crdt::sql_meaning::inserted;
use crate::crdt::sql_meaning::lemma_assigned;
use crate::crdt::sql_meaning::lemma_inserted;
use crate::crdt::sql_meaning::lemma_not_assigned;
use crate::crdt::sql_meaning::quoted;
use crate::crdt::sql_meaning::scene;
use crate::crdt::sql_meaning::select_text;
use crate::crdt::sql_meaning::set_text;
use crate::crdt::sql_meaning::taken_by;
use crate::crdt::sql_meaning::targets;
use crate::crdt::sql_meaning::update_text;
use crate::crdt::sql_meaning::updated_row;
use crate::crdt::sql_meaning::value;
use crate::crdt::sql_meaning::Cond;
use crate::crdt::sql_meaning::Expr;
use crate::crdt::value::sql_of_json;
use crate::crdt::value::SqlView;
use crate::database::install::backfill_select;
use crate::database::install::backfill_update;
use crate::database::install::signature_map;
use crate::database::install::stamp;
use crate::database::install::stamped_map;
use crate::database::install::BackfillView;
use crate::json::json_object;
use crate::json::keys_ascend;
use crate::json::lemma_member_of_ordered;
use crate::json::object_text;
use crate::json::JsonView;
use crate::text::joined;
use crate::text::wrapped_each;
use vstd::prelude::*;

verus! {

/// Exactly the wanted rows meet the conditions.
pub open spec fn picks(
    cs: Seq<Cond>,
    params: Seq<SqlView>,
    wanted: spec_fn(Map<Seq<char>, SqlView>) -> bool,
) -> bool {
    forall|row: Map<Seq<char>, SqlView>| #[trigger]
        all_hold(cs, scene(row, params)) == wanted(row)
}

/// The row holds the key: each of its columns has the value that `bind` makes of
/// the member of that name.
pub open spec fn row_has_key(
    row: Map<Seq<char>, SqlView>,
    row_pks: Seq<(Seq<char>, JsonView)>,
    bind: spec_fn(JsonView) -> SqlView,
) -> bool {
    forall|i: int|
        0 <= i < row_pks.len() ==> row[(#[trigger] row_pks[i]).0] == bind(row_pks[i].1)
}

spec fn key_cond(m: (Seq<char>, JsonView)) -> Cond {
    if m.1 is Null {
        Cond::IsNull(Expr::Column(m.0))
    } else {
        Cond::Equals(Expr::Column(m.0), Expr::Mark)
    }
}

spec fn key_conds(row_pks: Seq<(Seq<char>, JsonView)>) -> Seq<Cond> {
    row_pks.map_values(|m: (Seq<char>, JsonView)| key_cond(m))
}

proof fn lemma_key_cond_text(m: (Seq<char>, JsonView))
    ensures
        cond_text(key_cond(m)) == pk_condition(m),
{
    reveal_strlit("\"");
    reveal_strlit("\" = ?");
    reveal_strlit(" = ");
    reveal_strlit("?");
    reveal_strlit("\" IS NULL");
    reveal_strlit(" IS NULL");
    assert(cond_text(key_cond(m)) =~= pk_condition(m));
}

proof fn lemma_key_conds_text(row_pks: Seq<(Seq<char>, JsonView)>)
    ensures
        all_text(key_conds(row_pks)) == pk_clause(row_pks),
{
    assert forall|i: int| 0 <= i < row_pks.len() implies #[trigger] cond_texts(
        key_conds(row_pks),
    )[i] == pk_conditions(row_pks)[i] by {
        lemma_key_cond_text(row_pks[i]);
    }
    assert(cond_texts(key_conds(row_pks)) =~= pk_conditions(row_pks));
}

/// The values are bound in the order in which the conditions take them.
proof fn lemma_key_marks(row_pks: Seq<(Seq<char>, JsonView)>, i: int)
    requires
        0 <= i <= row_pks.len(),
    ensures
        taken_by(key_conds(row_pks).take(i)) == pk_bound(row_pks.take(i)).len(),
        pk_bound(row_pks.take(i)).len() <= pk_bound(row_pks).len(),
        i < row_pks.len() && !(row_pks[i].1 is Null) ==> pk_bound(row_pks.take(i)).len() < pk_bound(
            row_pks,
        ).len() && pk_bound(row_pks)[pk_bound(row_pks.take(i)).len() as int] == row_pks[i].1,
    decreases row_pks.len(),
{
    if i == row_pks.len() {
        assert(row_pks.take(i) =~= row_pks);
        assert(key_conds(row_pks).take(i) =~= key_conds(row_pks));
        if i > 0 {
            let rest = row_pks.drop_last();
            lemma_key_marks(rest, i - 1);
            assert(rest.take(i - 1) =~= rest);
            assert(key_conds(row_pks).drop_last() =~= key_conds(rest));
            assert(key_conds(rest).take(i - 1) =~= key_conds(rest));
        }
    } else {
        let rest = row_pks.drop_last();
        lemma_key_marks(rest, i);
        assert(rest.take(i) =~= row_pks.take(i));
        assert(key_conds(rest).take(i) =~= key_conds(row_pks).take(i));
        if i == rest.len() {
            assert(row_pks.take(i) =~= rest);
        }
    }
}

proof fn lemma_key_conds(
    row_pks: Seq<(Seq<char>, JsonView)>,
    bind: spec_fn(JsonView) -> SqlView,
    params: Seq<SqlView>,
)
    requires
        forall|v: JsonView| (#[trigger] bind(v)) is Null <==> v is Null,
        params == pk_bound(row_pks).map_values(bind),
    ensures
        all_text(key_conds(row_pks)) == pk_clause(row_pks),
        taken_by(key_conds(row_pks)) == params.len(),
        picks(key_conds(row_pks), params, |row| row_has_key(row, row_pks, bind)),
{
    lemma_key_conds_text(row_pks);
    lemma_key_marks(row_pks, row_pks.len() as int);
    assert(row_pks.take(row_pks.len() as int) =~= row_pks);
    let cs = key_conds(row_pks);
    assert(cs.take(row_pks.len() as int) =~= cs);
    assert forall|row: Map<Seq<char>, SqlView>| #[trigger]
        all_hold(cs, scene(row, params)) == row_has_key(row, row_pks, bind) by {
        let s = scene(row, params);
        assert forall|i: int| 0 <= i < row_pks.len() implies #[trigger] cond_holds(cs, i, s) == (
        row[row_pks[i].0] == bind(row_pks[i].1)) by {
            lemma_key_marks(row_pks, i);
            assert(cs[i] == key_cond(row_pks[i]));
            assert((bind(row_pks[i].1)) is Null <==> row_pks[i].1 is Null);
        }
        if all_hold(cs, s) {
            assert forall|i: int| 0 <= i < row_pks.len() implies row[(
            #[trigger] row_pks[i]).0] == bind(row_pks[i].1) by {
                assert(cond_holds(cs, i, s));
            }
        }
        if row_has_key(row, row_pks, bind) {
            assert forall|i: int| 0 <= i < cs.len() implies #[trigger] cond_holds(cs, i, s) by {
                assert(row[row_pks[i].0] == bind(row_pks[i].1));
            }
        }
    }
}

/// A key clause with its bound values matches exactly the rows that hold the
/// key, column by column: a null matches null, and every other value itself.
pub proof fn lemma_key_clause_matches_its_row(row_pks: Seq<(Seq<char>, JsonView)>)
    ensures
        exists|cs: Seq<Cond>|
            {
                &&& #[trigger] all_text(cs) == pk_clause(row_pks)
                &&& taken_by(cs) == pk_params(row_pks).len()
                &&& picks(
                    cs,
                    pk_params(row_pks),
                    |row| row_has_key(row, row_pks, |v: JsonView| sql_of_json(v)),
                )
            },
{
    let bind = |v: JsonView| sql_of_json(v);
    lemma_key_conds(row_pks, bind, pk_params(row_pks));
    assert(all_text(key_conds(row_pks)) == pk_clause(row_pks));
}

/// A delete that arrives is carried to the row with its key and to no other: the
/// query and the delete have the same conditions and bound values, which exactly
/// the rows of that key meet, and the key names every primary-key column.
pub proof fn lemma_delete_reaches_its_row_alone(e: EntryView, schema: Seq<ColumnView>)
    requires
        delete_plan(e, schema) is Some,
    ensures
        ({
            let plan = delete_plan(e, schema)->Some_0;
            let row_pks = json_object(e.row_pks)->Some_0;
            &&& json_object(e.row_pks) is Some
            &&& e.hlc == Some(plan.delete_hlc)
            &&& plan.select_hlc.params == plan.delete.params
            &&& forall|i: int|
                0 <= i < schema.len() && (#[trigger] schema[i]).is_pk ==> exists|j: int|
                    0 <= j < row_pks.len() && #[trigger] row_pks[j].0 == schema[i].name
            &&& exists|cs: Seq<Cond>|
                {
                    &&& #[trigger] delete_text(e.table_name, cs) == plan.delete.sql
                    &&& select_text(seq![Expr::Bare(HLC_TIMESTAMP_COLUMN@)], e.table_name, cs)
                        == plan.select_hlc.sql
                    &&& picks(
                        cs,
                        plan.delete.params,
                        |row| row_has_key(row, row_pks, |v: JsonView| sql_of_key(v)),
                    )
                }
        }),
{
    let plan = delete_plan(e, schema)->Some_0;
    let row_pks = json_object(e.row_pks)->Some_0;
    let bind = |v: JsonView| sql_of_key(v);
    let cs = key_conds(row_pks);
    let t = e.table_name;
    lemma_key_conds(row_pks, bind, delete_params(row_pks));
    reveal_strlit("DELETE FROM \"");
    reveal_strlit("DELETE FROM ");
    reveal_strlit("SELECT ");
    reveal_strlit(" FROM \"");
    reveal_strlit(" FROM ");
    reveal_strlit("\"");
    reveal_strlit("\" WHERE ");
    reveal_strlit(" WHERE ");
    assert(delete_text(t, cs) =~= plan.delete.sql);
    let es = seq![Expr::Bare(HLC_TIMESTAMP_COLUMN@)];
    assert(es.map_values(|x: Expr| expr_text(x))[0] == HLC_TIMESTAMP_COLUMN@);
    assert(select_text(es, t, cs) =~= plan.select_hlc.sql);
    assert forall|i: int| 0 <= i < schema.len() && (#[trigger] schema[i]).is_pk implies exists|
        j: int,
    |
        0 <= j < row_pks.len() && #[trigger] row_pks[j].0 == schema[i].name by {
        lemma_pk_is_named(schema, i);
        let pks = pk_names(schema);
        let k = choose|k: int| 0 <= k < pks.len() && pks[k] == schema[i].name;
        assert(key_has(row_pks, pks[k]));
    }
}

/// Every primary-key column is among the primary-key names.
proof fn lemma_pk_is_named(schema: Seq<ColumnView>, i: int)
    requires
        0 <= i < schema.len(),
        schema[i].is_pk,
    ensures
        pk_names(schema).contains(schema[i].name),
    decreases schema.len(),
{
    let rest = schema.drop_last();
    let all = pk_names(schema);
    if i < rest.len() {
        assert(rest[i] == schema[i]);
        lemma_pk_is_named(rest, i);
        let before = pk_names(rest);
        let k = choose|k: int| 0 <= k < before.len() && before[k] == schema[i].name;
        assert(all[k] == schema[i].name);
    } else {
        assert(all[all.len() - 1] == schema[i].name);
    }
}

/// No column is written twice: the key, the staged columns and the metadata are
/// different columns.
pub open spec fn writes_distinct(s: StagedRowView) -> bool {
    (pk_names(s.ready.open.schema) + Seq::new(
        s.staged.len(),
        |k: int| s.ready.open.changes[s.staged[k].at].change.column_name,
    ) + seq![COLUMN_HLCS_COLUMN@, HLC_TIMESTAMP_COLUMN@, COLUMN_SIGS_COLUMN@]).no_duplicates()
}

/// The row holds what was staged: every staged column has its value, and the row
/// its timestamp and its map of column timestamps.
pub open spec fn holds_staged(row: Map<Seq<char>, SqlView>, s: StagedRowView) -> bool {
    &&& forall|k: int|
        0 <= k < s.staged.len() ==> row[s.ready.open.changes[(
        #[trigger] s.staged[k]).at].change.column_name] == s.staged[k].value
    &&& row[HLC_TIMESTAMP_COLUMN@] == SqlView::Text(s.row_hlc)
    &&& row[COLUMN_HLCS_COLUMN@] == SqlView::Text(hlcs_json(s))
}

/// The write is an INSERT that leaves a row with the key of the change, whatever
/// the order of its members, and with what was staged.
pub open spec fn inserts_staged(st: StatementView, s: StagedRowView) -> bool {
    let open = s.ready.open;
    exists|columns: Seq<Seq<char>>|
        {
            let row = inserted(columns, st.params);
            &&& #[trigger] insert_text(open.table_name, columns) == st.sql
            &&& columns.len() == st.params.len()
            &&& columns.no_duplicates()
            &&& forall|j: int|
                0 <= j < open.row_pks.len() ==> row.dom().contains((#[trigger] open.row_pks[j]).0)
                    && row[open.row_pks[j].0] == sql_of_json(open.row_pks[j].1)
            &&& holds_staged(row, s)
            &&& has_column(open.schema, COLUMN_SIGS_COLUMN@) ==> row[COLUMN_SIGS_COLUMN@]
                == SqlView::Text(object_text(sigs_after(Seq::empty(), s.staged, open.changes)))
        }
}

proof fn lemma_insert_text(table: Seq<char>, columns: Seq<Seq<char>>)
    ensures
        insert_sql(table, columns) == insert_text(table, columns),
{
    reveal_strlit("INSERT INTO \"");
    reveal_strlit("INSERT INTO ");
    reveal_strlit("\"");
    reveal_strlit("\" (");
    reveal_strlit(" (");
    assert(wrapped_each(columns, "\""@, "\""@) =~= columns.map_values(
        |n: Seq<char>| quoted(n),
    ));
    assert(Seq::new(columns.len(), |i: int| "?"@) =~= Seq::new(
        columns.len(),
        |i: int| expr_text(Expr::Mark),
    ));
    assert(insert_sql(table, columns) =~= insert_text(table, columns));
}

#[verifier::rlimit(60)]
#[verifier::spinoff_prover]
proof fn lemma_insert_lands(s: StagedRowView, signatures: Option<Seq<char>>)
    requires
        !s.ready.exists,
        writes_distinct(s),
        keys_ascend(s.ready.open.row_pks),
        identity_matches(pk_names(s.ready.open.schema), s.ready.open.row_pks),
    ensures
        inserts_staged(write_statement(s, signatures), s),
{
    let open = s.ready.open;
    let pks = pk_names(open.schema);
    let with_sigs = has_column(open.schema, COLUMN_SIGS_COLUMN@);
    let columns = insert_columns(pks, s.staged, open.changes, with_sigs);
    let st = write_statement(s, signatures);
    let row = inserted(columns, st.params);
    let n = pks.len() as int;
    let m = s.staged.len() as int;
    let all = pks + Seq::new(
        s.staged.len(),
        |k: int| open.changes[s.staged[k].at].change.column_name,
    ) + seq![COLUMN_HLCS_COLUMN@, HLC_TIMESTAMP_COLUMN@, COLUMN_SIGS_COLUMN@];
    lemma_insert_text(open.table_name, columns);
    assert forall|i: int| 0 <= i < columns.len() implies #[trigger] columns[i] == all[i] by {}
    assert forall|i: int, j: int| 0 <= i < columns.len() && 0 <= j < columns.len() && i != j implies
        columns[i] != columns[j] by {
        assert(columns[i] == all[i] && columns[j] == all[j]);
    }
    assert(columns.no_duplicates());
    assert forall|j: int| 0 <= j < open.row_pks.len() implies row.dom().contains((
    #[trigger] open.row_pks[j]).0) && row[open.row_pks[j].0] == sql_of_json(open.row_pks[j].1) by {
        assert(pks.contains(open.row_pks[j].0));
        let i = choose|i: int| 0 <= i < pks.len() && pks[i] == open.row_pks[j].0;
        lemma_inserted(columns, st.params, i);
        lemma_member_of_ordered(open.row_pks, j);
        assert(columns[i] == pks[i]);
        assert(st.params[i] == pk_values(pks, open.row_pks)[i]);
    }
    assert forall|k: int| 0 <= k < s.staged.len() implies row[open.changes[(
    #[trigger] s.staged[k]).at].change.column_name] == s.staged[k].value by {
        lemma_inserted(columns, st.params, n + k);
        assert(columns[n + k] == all[n + k]);
    }
    lemma_inserted(columns, st.params, n + m);
    lemma_inserted(columns, st.params, n + m + 1);
    if with_sigs {
        lemma_inserted(columns, st.params, n + m + 2);
    }
    assert(insert_text(open.table_name, columns) == st.sql);
}

/// The column is one that the write sets.
pub open spec fn is_set(s: StagedRowView, name: Seq<char>) -> bool {
    ||| exists|k: int|
        0 <= k < s.staged.len() && s.ready.open.changes[(
        #[trigger] s.staged[k]).at].change.column_name == name
    ||| name == HLC_TIMESTAMP_COLUMN@
    ||| name == COLUMN_HLCS_COLUMN@
    ||| name == COLUMN_SIGS_COLUMN@ && wants_signatures(s)
}

/// The row after the write: it holds what was staged, its signatures are renewed
/// where one is replaced, and every other column is as it was.
pub open spec fn row_after_write(
    row: Map<Seq<char>, SqlView>,
    after: Map<Seq<char>, SqlView>,
    s: StagedRowView,
    signatures: Option<Seq<char>>,
) -> bool {
    &&& holds_staged(after, s)
    &&& wants_signatures(s) ==> after[COLUMN_SIGS_COLUMN@] == SqlView::Text(
        object_text(sigs_after(stored_map(signatures), s.staged, s.ready.open.changes)),
    )
    &&& forall|name: Seq<char>| !is_set(s, name) ==> #[trigger] after[name] == row[name]
}

/// The write is an UPDATE of the row with the key of the change, and of no other.
pub open spec fn updates_staged(
    st: StatementView,
    s: StagedRowView,
    signatures: Option<Seq<char>>,
) -> bool {
    let open = s.ready.open;
    exists|es: Seq<Expr>, cs: Seq<Cond>|
        {
            &&& #[trigger] update_text(open.table_name, es, cs) == st.sql
            &&& es.len() + taken_by(cs) == st.params.len()
            &&& forall|row: Map<Seq<char>, SqlView>|
                {
                    let after = #[trigger] updated_row(row, es, cs, st.params);
                    if row_has_key(row, open.row_pks, |v: JsonView| sql_of_json(v)) {
                        row_after_write(row, after, s, signatures)
                    } else {
                        after == row
                    }
                }
        }
}

spec fn set_exprs(s: StagedRowView) -> Seq<Expr> {
    let base = Seq::new(
        s.staged.len(),
        |k: int| Expr::Column(s.ready.open.changes[s.staged[k].at].change.column_name),
    ) + seq![Expr::Bare(COLUMN_HLCS_COLUMN@), Expr::Bare(HLC_TIMESTAMP_COLUMN@)];
    if wants_signatures(s) {
        base.push(Expr::Bare(COLUMN_SIGS_COLUMN@))
    } else {
        base
    }
}

#[verifier::rlimit(60)]
#[verifier::spinoff_prover]
proof fn lemma_update_text(s: StagedRowView, signatures: Option<Seq<char>>)
    requires
        s.ready.exists,
    ensures
        update_text(
            s.ready.open.table_name,
            set_exprs(s),
            key_conds(s.ready.open.row_pks),
        ) == write_statement(s, signatures).sql,
{
    let open = s.ready.open;
    let es = set_exprs(s);
    let parts = update_parts(s.staged, open.changes, wants_signatures(s));
    lemma_key_conds_text(open.row_pks);
    reveal_strlit("UPDATE \"");
    reveal_strlit("UPDATE ");
    reveal_strlit("\"");
    reveal_strlit("\" SET ");
    reveal_strlit(" SET ");
    reveal_strlit("\" = ?");
    reveal_strlit(" = ?");
    reveal_strlit(" = ");
    reveal_strlit("?");
    let written = es.map_values(|e: Expr| expr_text(e) + " = "@ + expr_text(Expr::Mark));
    assert forall|i: int| 0 <= i < es.len() implies #[trigger] written[i] == parts[i] by {
        assert(written[i] =~= parts[i]);
    }
    assert(written =~= parts);
    assert(update_text(open.table_name, es, key_conds(open.row_pks)) =~= write_statement(
        s,
        signatures,
    ).sql);
}

proof fn lemma_update_lands(s: StagedRowView, signatures: Option<Seq<char>>)
    requires
        s.ready.exists,
        writes_distinct(s),
    ensures
        updates_staged(write_statement(s, signatures), s, signatures),
{
    let open = s.ready.open;
    let st = write_statement(s, signatures);
    let es = set_exprs(s);
    let cs = key_conds(open.row_pks);
    let bind = |v: JsonView| sql_of_json(v);
    let m = s.staged.len() as int;
    let n = pk_names(open.schema).len() as int;
    lemma_update_text(s, signatures);
    lemma_key_conds(open.row_pks, bind, pk_params(open.row_pks));
    assert(st.params.skip(es.len() as int) =~= pk_params(open.row_pks));
    let all = pk_names(open.schema) + Seq::new(
        s.staged.len(),
        |k: int| open.changes[s.staged[k].at].change.column_name,
    ) + seq![COLUMN_HLCS_COLUMN@, HLC_TIMESTAMP_COLUMN@, COLUMN_SIGS_COLUMN@];
    let columns = targets(es);
    assert forall|i: int| 0 <= i < columns.len() implies #[trigger] columns[i] == all[n + i] by {}
    assert forall|i: int, j: int| 0 <= i < columns.len() && 0 <= j < columns.len() && i != j implies
        columns[i] != columns[j] by {
        assert(columns[i] == all[n + i] && columns[j] == all[n + j]);
    }
    assert(columns.no_duplicates());
    assert forall|row: Map<Seq<char>, SqlView>|
        {
            let after = #[trigger] updated_row(row, es, cs, st.params);
            if row_has_key(row, open.row_pks, bind) {
                row_after_write(row, after, s, signatures)
            } else {
                after == row
            }
        } by {
        let after = updated_row(row, es, cs, st.params);
        assert(all_hold(cs, scene(row, pk_params(open.row_pks))) == row_has_key(
            row,
            open.row_pks,
            bind,
        ));
        if row_has_key(row, open.row_pks, bind) {
            assert(after == assigned(row, columns, st.params));
            assert forall|k: int| 0 <= k < s.staged.len() implies after[open.changes[(
            #[trigger] s.staged[k]).at].change.column_name] == s.staged[k].value by {
                lemma_assigned(row, columns, st.params, k);
                assert(columns[k] == all[n + k]);
            }
            lemma_assigned(row, columns, st.params, m);
            lemma_assigned(row, columns, st.params, m + 1);
            if wants_signatures(s) {
                lemma_assigned(row, columns, st.params, m + 2);
            }
            assert forall|name: Seq<char>| !is_set(s, name) implies #[trigger] after[name]
                == row[name] by {
                if columns.contains(name) {
                    let i = choose|i: int| 0 <= i < columns.len() && columns[i] == name;
                    if i < m {
                        assert(open.changes[s.staged[i].at].change.column_name == name);
                    }
                }
                lemma_not_assigned(row, columns, st.params, name);
            }
        }
    }
    assert(update_text(open.table_name, es, cs) == st.sql);
}

/// What a merge writes of a row lands in the row with that key: a row that is
/// new is inserted under it, a row that is there is updated, and in both every
/// staged column holds its value afterwards. No other row and no other column is
/// touched.
#[verifier::rlimit(60)]
#[verifier::spinoff_prover]
pub proof fn lemma_write_lands_in_its_row(s: StagedRowView, signatures: Option<Seq<char>>)
    requires
        writes_distinct(s),
        keys_ascend(s.ready.open.row_pks),
        identity_matches(pk_names(s.ready.open.schema), s.ready.open.row_pks),
    ensures
        s.ready.exists ==> updates_staged(write_statement(s, signatures), s, signatures),
        !s.ready.exists ==> inserts_staged(write_statement(s, signatures), s),
{
    if s.ready.exists {
        lemma_update_lands(s, signatures);
    } else {
        lemma_insert_lands(s, signatures);
    }
}

/// What is read of a row before it is written is read of that row alone: the map
/// of column timestamps, the row's timestamp behind it, and the signatures.
pub proof fn lemma_stored_state_is_read_of_its_row(
    table: Seq<char>,
    row_pks: Seq<(Seq<char>, JsonView)>,
)
    requires
        row_pks.len() > 0,
    ensures
        exists|cs: Seq<Cond>|
            {
                &&& #[trigger] reads_state(table, row_pks, cs)
                &&& picks(
                    cs,
                    pk_params(row_pks),
                    |row| row_has_key(row, row_pks, |v: JsonView| sql_of_json(v)),
                )
            },
{
    let bind = |v: JsonView| sql_of_json(v);
    let cs = key_conds(row_pks);
    lemma_key_conds(row_pks, bind, pk_params(row_pks));
    reveal_strlit(" FROM \"");
    reveal_strlit(" FROM ");
    reveal_strlit("\"");
    reveal_strlit("\" WHERE ");
    reveal_strlit(" WHERE ");
    let two = seq![Expr::Bare(COLUMN_HLCS_COLUMN@), Expr::Bare(HLC_TIMESTAMP_COLUMN@)];
    let parts = two.map_values(|e: Expr| expr_text(e));
    assert(parts.drop_last() =~= seq![COLUMN_HLCS_COLUMN@]);
    assert(joined(parts.drop_last(), ", "@) == COLUMN_HLCS_COLUMN@);
    assert(select_text(two, table, cs) =~= fetch_sql(table, pk_clause(row_pks)));
    let one = seq![Expr::Bare(COLUMN_SIGS_COLUMN@)];
    assert(one.map_values(|e: Expr| expr_text(e))[0] == COLUMN_SIGS_COLUMN@);
    assert(select_text(one, table, cs) =~= signatures_sql(table, pk_clause(row_pks)));
    assert(reads_state(table, row_pks, cs));
}

/// The two queries for the stored state of a row have these conditions.
pub open spec fn reads_state(
    table: Seq<char>,
    row_pks: Seq<(Seq<char>, JsonView)>,
    cs: Seq<Cond>,
) -> bool {
    &&& fetch_sql(table, pk_clause(row_pks)) == select_text(
        seq![Expr::Bare(COLUMN_HLCS_COLUMN@), Expr::Bare(HLC_TIMESTAMP_COLUMN@)],
        table,
        cs,
    )
    &&& signatures_sql(table, pk_clause(row_pks)) == select_text(
        seq![Expr::Bare(COLUMN_SIGS_COLUMN@)],
        table,
        cs,
    )
}

spec fn bound_conds(pks: Seq<Seq<char>>) -> Seq<Cond> {
    pks.map_values(|c: Seq<char>| Cond::Equals(Expr::Column(c), Expr::Mark))
}

proof fn lemma_bound_marks(pks: Seq<Seq<char>>, i: int)
    requires
        0 <= i <= pks.len(),
    ensures
        taken_by(bound_conds(pks).take(i)) == i,
    decreases i,
{
    if i > 0 {
        lemma_bound_marks(pks, i - 1);
        let now = bound_conds(pks).take(i);
        assert(now.drop_last() =~= bound_conds(pks).take(i - 1));
        assert(now.last() == bound_conds(pks)[i - 1]);
    }
}

/// The row holds these values in its key columns, none of them null.
pub open spec fn has_bound_key(
    row: Map<Seq<char>, SqlView>,
    pks: Seq<Seq<char>>,
    key: Seq<SqlView>,
) -> bool {
    forall|i: int|
        0 <= i < pks.len() ==> row[#[trigger] pks[i]] == key[i] && !(key[i] is Null)
}

/// A row that was there before is stamped by itself: the statement gives exactly
/// the row with its key the timestamp, the timestamp map and the signature map,
/// and touches no other row and no other column.
pub open spec fn stamps_its_row(
    plan: BackfillView,
    key: Seq<SqlView>,
    hlc: Seq<char>,
    hlcs: Seq<char>,
    sigs: Seq<char>,
    st: StatementView,
) -> bool {
    exists|es: Seq<Expr>, cs: Seq<Cond>|
        {
            &&& #[trigger] update_text(plan.table_name, es, cs) == st.sql
            &&& forall|row: Map<Seq<char>, SqlView>|
                {
                    let after = #[trigger] updated_row(row, es, cs, st.params);
                    if has_bound_key(row, plan.pks, key) {
                        &&& after[HLC_TIMESTAMP_COLUMN@] == SqlView::Text(hlc)
                        &&& after[COLUMN_HLCS_COLUMN@] == SqlView::Text(hlcs)
                        &&& after[COLUMN_SIGS_COLUMN@] == SqlView::Text(sigs)
                        &&& forall|name: Seq<char>|
                            name != HLC_TIMESTAMP_COLUMN@ && name != COLUMN_HLCS_COLUMN@ && name
                                != COLUMN_SIGS_COLUMN@ ==> #[trigger] after[name] == row[name]
                    } else {
                        after == row
                    }
                }
        }
}

/// Stamping reaches the row with its key alone, with the one timestamp, the map
/// that gives every data column that timestamp, and the row's own signatures.
#[verifier::rlimit(60)]
#[verifier::spinoff_prover]
pub proof fn lemma_stamp_reaches_its_row_alone(
    plan: BackfillView,
    key: Seq<SqlView>,
    hlc: Seq<char>,
    sigs: Seq<Seq<u8>>,
)
    requires
        plan.pks.len() > 0,
        key.len() == plan.pks.len(),
        plan.update_sql == backfill_update(plan.table_name, plan.pks),
    ensures
        stamps_its_row(
            plan,
            key,
            hlc,
            object_text(stamped_map(plan.data, hlc)),
            object_text(signature_map(plan.data, sigs, plan.data.len())),
            stamp(plan, key, hlc, sigs),
        ),
{
    let st = stamp(plan, key, hlc, sigs);
    let hlcs = object_text(stamped_map(plan.data, hlc));
    let sig = object_text(signature_map(plan.data, sigs, plan.data.len()));
    let es = seq![
        Expr::Bare(HLC_TIMESTAMP_COLUMN@),
        Expr::Bare(COLUMN_HLCS_COLUMN@),
        Expr::Bare(COLUMN_SIGS_COLUMN@),
    ];
    let cs = bound_conds(plan.pks);
    let pks = plan.pks;
    lemma_stamp_text(plan);
    lemma_metadata_columns_differ();
    let columns = targets(es);
    assert(columns =~= seq![HLC_TIMESTAMP_COLUMN@, COLUMN_HLCS_COLUMN@, COLUMN_SIGS_COLUMN@]);
    assert(columns.no_duplicates());
    assert(st.params.skip(3) =~= key);
    assert forall|row: Map<Seq<char>, SqlView>|
        {
            let after = #[trigger] updated_row(row, es, cs, st.params);
            if has_bound_key(row, pks, key) {
                &&& after[HLC_TIMESTAMP_COLUMN@] == SqlView::Text(hlc)
                &&& after[COLUMN_HLCS_COLUMN@] == SqlView::Text(hlcs)
                &&& after[COLUMN_SIGS_COLUMN@] == SqlView::Text(sig)
                &&& forall|name: Seq<char>|
                    name != HLC_TIMESTAMP_COLUMN@ && name != COLUMN_HLCS_COLUMN@ && name
                        != COLUMN_SIGS_COLUMN@ ==> #[trigger] after[name] == row[name]
            } else {
                after == row
            }
        } by {
        let s = scene(row, key);
        let after = updated_row(row, es, cs, st.params);
        assert forall|i: int| 0 <= i < pks.len() implies #[trigger] cond_holds(cs, i, s) == (
        row[pks[i]] == key[i] && !(key[i] is Null)) by {
            lemma_bound_marks(pks, i);
            assert(cs[i] == Cond::Equals(Expr::Column(pks[i]), Expr::Mark));
        }
        if all_hold(cs, s) {
            assert forall|i: int| 0 <= i < pks.len() implies row[#[trigger] pks[i]] == key[i] && !(
            key[i] is Null) by {
                assert(cond_holds(cs, i, s));
            }
        }
        if has_bound_key(row, pks, key) {
            assert forall|i: int| 0 <= i < cs.len() implies #[trigger] cond_holds(cs, i, s) by {
                assert(row[pks[i]] == key[i]);
            }
            assert(after == assigned(row, columns, st.params));
            lemma_assigned(row, columns, st.params, 0);
            lemma_assigned(row, columns, st.params, 1);
            lemma_assigned(row, columns, st.params, 2);
            assert forall|name: Seq<char>|
                name != HLC_TIMESTAMP_COLUMN@ && name != COLUMN_HLCS_COLUMN@ && name
                    != COLUMN_SIGS_COLUMN@ implies #[trigger] after[name] == row[name] by {
                lemma_not_assigned(row, columns, st.params, name);
            }
        }
    }
    assert(update_text(plan.table_name, es, cs) == st.sql);
}

proof fn lemma_stamp_text(plan: BackfillView)
    requires
        plan.update_sql == backfill_update(plan.table_name, plan.pks),
    ensures
        plan.update_sql == update_text(
            plan.table_name,
            seq![
                Expr::Bare(HLC_TIMESTAMP_COLUMN@),
                Expr::Bare(COLUMN_HLCS_COLUMN@),
                Expr::Bare(COLUMN_SIGS_COLUMN@),
            ],
            bound_conds(plan.pks),
        ),
{
    let es = seq![
        Expr::Bare(HLC_TIMESTAMP_COLUMN@),
        Expr::Bare(COLUMN_HLCS_COLUMN@),
        Expr::Bare(COLUMN_SIGS_COLUMN@),
    ];
    let cs = bound_conds(plan.pks);
    reveal_strlit("UPDATE \"");
    reveal_strlit("UPDATE ");
    reveal_strlit("\"");
    reveal_strlit("\" SET ");
    reveal_strlit(" SET ");
    reveal_strlit("\" = ?");
    reveal_strlit(" = ?, ");
    reveal_strlit(" = ? WHERE ");
    reveal_strlit(" WHERE ");
    reveal_strlit(", ");
    reveal_strlit(" = ");
    reveal_strlit("?");
    let keys = wrapped_each(plan.pks, "\""@, "\" = ?"@);
    assert forall|i: int| 0 <= i < plan.pks.len() implies #[trigger] cond_texts(cs)[i]
        == keys[i] by {
        assert(cond_texts(cs)[i] =~= keys[i]);
    }
    assert(cond_texts(cs) =~= keys);
    let sets = es.map_values(|e: Expr| expr_text(e) + " = "@ + expr_text(Expr::Mark));
    assert(sets.drop_last().drop_last() =~= seq![sets[0]]);
    assert(joined(sets.drop_last().drop_last(), ", "@) == sets[0]);
    assert(joined(sets.drop_last(), ", "@) == sets[0] + ", "@ + sets[1]);
    assert(set_text(es) == sets[0] + ", "@ + sets[1] + ", "@ + sets[2]);
    assert(plan.update_sql =~= update_text(plan.table_name, es, cs));
}

/// The rows of a table are read to be stamped: all of them, the key columns
/// first and the data columns behind them.
pub proof fn lemma_backfill_reads_every_row(
    table: Seq<char>,
    pks: Seq<Seq<char>>,
    data: Seq<Seq<char>>,
)
    ensures
        backfill_select(table, pks, data) == select_text(
            column_exprs(pks + data),
            table,
            Seq::empty(),
        ),
{
    reveal_strlit(" FROM \"");
    reveal_strlit(" FROM ");
    reveal_strlit("\"");
    assert(wrapped_each(pks + data, "\""@, "\""@) =~= column_exprs(pks + data).map_values(
        |e: Expr| expr_text(e),
    ));
    assert(backfill_select(table, pks, data) =~= select_text(
        column_exprs(pks + data),
        table,
        Seq::empty(),
    ));
}

} // verus!
