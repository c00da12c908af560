//! The two statements a merged row ends in.

use crate::crdt::apply::lww::staged_column;
use crate::crdt::apply::lww::staged_hlc;
use crate::crdt::apply::policy_types::indexed_views;
use crate::crdt::apply::policy_types::IndexedChange;
use crate::crdt::apply::policy_types::IndexedView;
use crate::crdt::apply::policy_types::SignatureView;
use crate::crdt::apply::policy_types::SignatureWrite;
use crate::crdt::apply::report::SkipReason;
use crate::crdt::apply::row::staged_views;
use crate::crdt::apply::row::StagedColumn;
use crate::crdt::apply::row::StagedView;
use crate::crdt::columns::COLUMN_HLCS_COLUMN;
use crate::crdt::columns::COLUMN_SIGS_COLUMN;
use crate::crdt::columns::HLC_TIMESTAMP_COLUMN;
use crate::crdt::hlc::hlc_before;
use crate::crdt::hlc::hlc_is_newer;
use crate::crdt::value::sql_of_json;
use crate::crdt::value::sql_views;
use crate::crdt::value::value_of_json;
use crate::crdt::value::SqlValue;
use crate::crdt::value::SqlView;
use crate::json::member;
use crate::json::object_text;
use crate::json::with_member;
use crate::json::without_member;
use crate::json::JsonObject;
use crate::json::JsonValue;
use crate::json::JsonView;
use crate::text::join_texts;
use crate::text::joined;
use crate::text::opt_text;
use crate::text::texts;
use crate::text::wrap_each;
use crate::text::wrapped_each;
use vstd::prelude::*;

verus! {

/// Savepoint round each row's write.
pub const ROW_SAVEPOINT: &'static str = "haex_apply_row";

/// SQLite's extended code for a broken NOT NULL constraint.
pub const SQLITE_CONSTRAINT_NOTNULL: i32 = 1299;

/// SQLite's extended code for a broken PRIMARY KEY constraint.
pub const SQLITE_CONSTRAINT_PRIMARYKEY: i32 = 1555;

/// SQLite's extended code for a broken UNIQUE constraint.
pub const SQLITE_CONSTRAINT_UNIQUE: i32 = 2067;

/// A statement and the values to bind to it, in order.
#[derive(Debug)]
pub struct Statement {
    pub sql: String,
    pub params: Vec<SqlValue>,
}

/// What a [`Statement`] stands for.
pub struct StatementView {
    pub sql: Seq<char>,
    pub params: Seq<SqlView>,
}

impl View for Statement {
    type V = StatementView;

    open spec fn view(&self) -> StatementView {
        StatementView { sql: self.sql@, params: sql_views(self.params@) }
    }
}

/// Which constraint an extended error code of an INSERT names, if it is one
/// that the policy may recover from.
pub open spec fn insert_constraint(code: i32) -> Option<SkipReason> {
    if code == SQLITE_CONSTRAINT_NOTNULL {
        Some(SkipReason::InsertNotNull)
    } else if code == SQLITE_CONSTRAINT_UNIQUE {
        Some(SkipReason::InsertUnique)
    } else if code == SQLITE_CONSTRAINT_PRIMARYKEY {
        Some(SkipReason::InsertPrimaryKey)
    } else {
        None
    }
}

/// Which constraint an INSERT broke, by SQLite's extended error code; `None`
/// for every error that aborts the batch.
pub fn classify_insert_constraint(extended_code: i32) -> (r: Option<SkipReason>)
    ensures
        r == insert_constraint(extended_code),
{
    if extended_code == SQLITE_CONSTRAINT_NOTNULL {
        Some(SkipReason::InsertNotNull)
    } else if extended_code == SQLITE_CONSTRAINT_UNIQUE {
        Some(SkipReason::InsertUnique)
    } else if extended_code == SQLITE_CONSTRAINT_PRIMARYKEY {
        Some(SkipReason::InsertPrimaryKey)
    } else {
        None
    }
}

/// The newest of some timestamps, the last of them where several are equally
/// new.
pub open spec fn newest(hlcs: Seq<Seq<char>>) -> Seq<char>
    decreases hlcs.len(),
{
    if hlcs.len() <= 1 {
        hlcs[0]
    } else {
        let m = newest(hlcs.drop_last());
        if hlc_before(hlcs.last(), m) {
            m
        } else {
            hlcs.last()
        }
    }
}

/// The timestamps of the staged columns.
pub open spec fn staged_hlcs(staged: Seq<StagedView>, group: Seq<IndexedView>) -> Seq<Seq<char>> {
    staged.map_values(|s: StagedView| staged_hlc(s, group))
}

/// The names of the staged columns.
pub open spec fn staged_columns(staged: Seq<StagedView>, group: Seq<IndexedView>) -> Seq<
    Seq<char>,
> {
    staged.map_values(|s: StagedView| staged_column(s, group))
}

/// The values of the staged columns.
pub open spec fn staged_values(staged: Seq<StagedView>) -> Seq<SqlView> {
    staged.map_values(|s: StagedView| s.value)
}

/// The newest timestamp is one of them, and none is newer.
pub proof fn lemma_newest(hlcs: Seq<Seq<char>>)
    requires
        hlcs.len() > 0,
    ensures
        hlcs.contains(newest(hlcs)),
        forall|i: int| 0 <= i < hlcs.len() ==> !hlc_before(newest(hlcs), #[trigger] hlcs[i]),
    decreases hlcs.len(),
{
    if hlcs.len() > 1 {
        let rest = hlcs.drop_last();
        lemma_newest(rest);
        let k = choose|k: int| 0 <= k < rest.len() && rest[k] == newest(rest);
        assert(hlcs[k] == newest(rest));
        assert(hlcs[hlcs.len() - 1] == hlcs.last());
        assert forall|i: int| 0 <= i < hlcs.len() implies !hlc_before(
            newest(hlcs),
            #[trigger] hlcs[i],
        ) by {
            if i < rest.len() {
                assert(rest[i] == hlcs[i]);
            }
        }
    } else {
        assert(hlcs[0] == newest(hlcs));
    }
}

/// The newest timestamp among the staged columns.
pub fn max_hlc(staged: &[StagedColumn], group: &[IndexedChange]) -> (r: String)
    requires
        staged@.len() > 0,
        forall|j: int| 0 <= j < staged@.len() ==> (#[trigger] staged@[j]).at < group@.len(),
    ensures
        r@ == newest(staged_hlcs(staged_views(staged@), indexed_views(group@))),
{
    let ghost hlcs = staged_hlcs(staged_views(staged@), indexed_views(group@));
    let mut best: usize = 0;
    let mut i: usize = 1;
    assert(hlcs.take(1)[0] == hlcs[0]);
    while i < staged.len()
        invariant
            best < i <= staged.len(),
            hlcs == staged_hlcs(staged_views(staged@), indexed_views(group@)),
            forall|j: int| 0 <= j < staged@.len() ==> (#[trigger] staged@[j]).at < group@.len(),
            hlcs[best as int] == newest(hlcs.take(i as int)),
        decreases staged.len() - i,
    {
        let ghost next = hlcs.take(i + 1);
        assert(next.drop_last() =~= hlcs.take(i as int));
        assert(next.last() == hlcs[i as int]);
        let a: usize = staged[best].at;
        let b: usize = staged[i].at;
        assert(hlcs[best as int] == group@[a as int].change.hlc_timestamp@);
        assert(hlcs[i as int] == group@[b as int].change.hlc_timestamp@);
        if !hlc_is_newer(
            group[a].change.hlc_timestamp.as_str(),
            group[b].change.hlc_timestamp.as_str(),
        ) {
            best = i;
        }
        i += 1;
    }
    assert(hlcs.take(i as int) =~= hlcs);
    let at: usize = staged[best].at;
    assert(hlcs[best as int] == group@[at as int].change.hlc_timestamp@);
    group[at].change.hlc_timestamp.clone()
}

/// The timestamp a row gets: the newest of what is written, unless the row
/// already carries a newer one.
pub open spec fn row_hlc_after(exists_already: bool, current: Seq<char>, written: Seq<char>) -> Seq<
    char,
> {
    if exists_already && hlc_before(written, current) {
        current
    } else {
        written
    }
}

/// A write never moves the row's timestamp back.
pub proof fn lemma_row_hlc_does_not_regress(current: Seq<char>, written: Seq<char>)
    ensures
        !hlc_before(row_hlc_after(true, current, written), current),
        !hlc_before(row_hlc_after(true, current, written), written),
{
}

/// The timestamp map after the staged columns were written.
pub open spec fn hlcs_after(
    stored: Seq<(Seq<char>, JsonView)>,
    staged: Seq<StagedView>,
    group: Seq<IndexedView>,
) -> Seq<(Seq<char>, JsonView)>
    decreases staged.len(),
{
    if staged.len() == 0 {
        stored
    } else {
        with_member(
            hlcs_after(stored, staged.drop_last(), group),
            staged_column(staged.last(), group),
            JsonView::Text(staged_hlc(staged.last(), group)),
        )
    }
}

/// The timestamp map after the staged columns were written.
pub fn column_hlcs_after(
    stored: &JsonObject,
    staged: &[StagedColumn],
    group: &[IndexedChange],
) -> (r: JsonObject)
    requires
        forall|j: int| 0 <= j < staged@.len() ==> (#[trigger] staged@[j]).at < group@.len(),
    ensures
        r@ == hlcs_after(stored@, staged_views(staged@), indexed_views(group@)),
{
    let ghost sv = staged_views(staged@);
    let ghost gv = indexed_views(group@);
    let mut out = stored.copy();
    let mut i: usize = 0;
    assert(sv.take(0) =~= Seq::<StagedView>::empty());
    while i < staged.len()
        invariant
            i <= staged.len(),
            sv == staged_views(staged@),
            gv == indexed_views(group@),
            forall|j: int| 0 <= j < staged@.len() ==> (#[trigger] staged@[j]).at < group@.len(),
            out@ == hlcs_after(stored@, sv.take(i as int), gv),
        decreases staged.len() - i,
    {
        let ghost next = sv.take(i + 1);
        assert(next.drop_last() =~= sv.take(i as int));
        assert(next.last() == staged@[i as int]@);
        let at: usize = staged[i].at;
        assert(gv[at as int] == group@[at as int]@);
        out.insert(
            group[at].change.column_name.as_str(),
            JsonValue::Text(group[at].change.hlc_timestamp.clone()),
        );
        i += 1;
    }
    assert(sv.take(i as int) =~= sv);
    out
}

/// What one staged column does to the signature map.
pub open spec fn signature_applied(
    map: Seq<(Seq<char>, JsonView)>,
    column: Seq<char>,
    s: SignatureView,
) -> Seq<(Seq<char>, JsonView)> {
    match s {
        SignatureView::Keep => map,
        SignatureView::Replace(Some(v)) => with_member(map, column, v),
        SignatureView::Replace(None) => without_member(map, column),
    }
}

/// The signature map after the staged columns were written.
pub open spec fn sigs_after(
    map: Seq<(Seq<char>, JsonView)>,
    staged: Seq<StagedView>,
    group: Seq<IndexedView>,
) -> Seq<(Seq<char>, JsonView)>
    decreases staged.len(),
{
    if staged.len() == 0 {
        map
    } else {
        signature_applied(
            sigs_after(map, staged.drop_last(), group),
            staged_column(staged.last(), group),
            staged.last().signature,
        )
    }
}

/// Some staged column replaces or removes its signature.
pub open spec fn touches_signatures(staged: Seq<StagedView>) -> bool {
    exists|j: int| 0 <= j < staged.len() && !((#[trigger] staged[j]).signature is Keep)
}

/// True if some staged column replaces or removes its signature.
pub fn any_signature_write(staged: &[StagedColumn]) -> (r: bool)
    ensures
        r == touches_signatures(staged_views(staged@)),
{
    let ghost sv = staged_views(staged@);
    let mut i: usize = 0;
    while i < staged.len()
        invariant
            i <= staged.len(),
            sv == staged_views(staged@),
            forall|j: int| 0 <= j < i ==> (#[trigger] sv[j]).signature is Keep,
        decreases staged.len() - i,
    {
        assert(sv[i as int] == staged@[i as int]@);
        match &staged[i].signature {
            SignatureWrite::Keep => {},
            SignatureWrite::Replace(_) => {
                assert(!(sv[i as int].signature is Keep));
                return true;
            },
        }
        i += 1;
    }
    false
}

/// The signature map after the staged columns were written: one that replaces
/// its signature sets the entry, one that removes it takes the entry out, and
/// one that keeps it leaves the entry alone.
pub fn merge_signatures(
    existing: JsonObject,
    staged: &[StagedColumn],
    group: &[IndexedChange],
) -> (r: JsonObject)
    requires
        forall|j: int| 0 <= j < staged@.len() ==> (#[trigger] staged@[j]).at < group@.len(),
    ensures
        r@ == sigs_after(existing@, staged_views(staged@), indexed_views(group@)),
{
    let ghost sv = staged_views(staged@);
    let ghost gv = indexed_views(group@);
    let ghost first = existing@;
    let mut out = existing;
    let mut i: usize = 0;
    assert(sv.take(0) =~= Seq::<StagedView>::empty());
    while i < staged.len()
        invariant
            i <= staged.len(),
            sv == staged_views(staged@),
            gv == indexed_views(group@),
            forall|j: int| 0 <= j < staged@.len() ==> (#[trigger] staged@[j]).at < group@.len(),
            out@ == sigs_after(first, sv.take(i as int), gv),
        decreases staged.len() - i,
    {
        let ghost next = sv.take(i + 1);
        assert(next.drop_last() =~= sv.take(i as int));
        assert(next.last() == staged@[i as int]@);
        let at: usize = staged[i].at;
        assert(gv[at as int] == group@[at as int]@);
        match &staged[i].signature {
            SignatureWrite::Keep => {},
            SignatureWrite::Replace(sig) => match sig {
                Some(v) => {
                    out.insert(group[at].change.column_name.as_str(), v.copy());
                },
                None => {
                    out.remove(group[at].change.column_name.as_str());
                },
            },
        }
        i += 1;
    }
    assert(sv.take(i as int) =~= sv);
    out
}

/// `n` placeholders.
pub open spec fn placeholders(n: nat) -> Seq<char> {
    joined(Seq::new(n, |i: int| "?"@), ", "@)
}

fn write_placeholders(n: usize) -> (r: String)
    ensures
        r@ == placeholders(n as nat),
{
    let mut marks: Vec<String> = Vec::new();
    let mut i: usize = 0;
    while i < n
        invariant
            i <= n,
            marks.len() == i,
            forall|j: int| 0 <= j < i ==> (#[trigger] marks@[j])@ == "?"@,
        decreases n - i,
    {
        marks.push("?".to_owned());
        i += 1;
    }
    assert(texts(marks@) =~= Seq::new(n as nat, |i: int| "?"@));
    join_texts(marks.as_slice(), ", ")
}

/// The values of the primary key, in declaration order.
pub open spec fn pk_values(pks: Seq<Seq<char>>, row_pks: Seq<(Seq<char>, JsonView)>) -> Seq<
    SqlView,
> {
    pks.map_values(|name: Seq<char>| sql_of_json(key_value(row_pks, name)))
}

/// The value of one key column, null where the key has none.
pub open spec fn key_value(row_pks: Seq<(Seq<char>, JsonView)>, name: Seq<char>) -> JsonView {
    match member(row_pks, name) {
        Some(v) => v,
        None => JsonView::Null,
    }
}

/// The columns of the INSERT: the key, the staged columns, the metadata.
pub open spec fn insert_columns(
    pks: Seq<Seq<char>>,
    staged: Seq<StagedView>,
    group: Seq<IndexedView>,
    with_sigs: bool,
) -> Seq<Seq<char>> {
    let base = pks + staged_columns(staged, group) + seq![
        COLUMN_HLCS_COLUMN@,
        HLC_TIMESTAMP_COLUMN@,
    ];
    if with_sigs {
        base.push(COLUMN_SIGS_COLUMN@)
    } else {
        base
    }
}

/// The values of the INSERT, one for each column.
pub open spec fn insert_values(
    pks: Seq<Seq<char>>,
    row_pks: Seq<(Seq<char>, JsonView)>,
    staged: Seq<StagedView>,
    group: Seq<IndexedView>,
    column_hlcs: Seq<char>,
    row_hlc: Seq<char>,
    with_sigs: bool,
) -> Seq<SqlView> {
    let base = pk_values(pks, row_pks) + staged_values(staged) + seq![
        SqlView::Text(column_hlcs),
        SqlView::Text(row_hlc),
    ];
    if with_sigs {
        base.push(SqlView::Text(object_text(sigs_after(Seq::empty(), staged, group))))
    } else {
        base
    }
}

/// An INSERT of one row.
pub open spec fn insert_sql(table: Seq<char>, columns: Seq<Seq<char>>) -> Seq<char> {
    "INSERT INTO \""@ + table + "\" ("@ + joined(
        wrapped_each(columns, "\""@, "\""@),
        ", "@,
    ) + ") VALUES ("@ + placeholders(columns.len()) + ")"@
}

/// The statement that inserts a row: its key, the staged columns and the
/// metadata. A fresh row has no signature to keep, so only staged signatures
/// land in the map.
pub fn write_insert(
    table_name: &str,
    pks: &[String],
    row_pks: &JsonObject,
    staged: &[StagedColumn],
    group: &[IndexedChange],
    column_hlcs_json: &str,
    row_hlc: &str,
    has_sigs_column: bool,
) -> (r: Statement)
    requires
        forall|j: int| 0 <= j < staged@.len() ==> (#[trigger] staged@[j]).at < group@.len(),
    ensures
        ({
            let sv = staged_views(staged@);
            let gv = indexed_views(group@);
            r@ == (StatementView {
                sql: insert_sql(
                    table_name@,
                    insert_columns(texts(pks@), sv, gv, has_sigs_column),
                ),
                params: insert_values(
                    texts(pks@),
                    row_pks@,
                    sv,
                    gv,
                    column_hlcs_json@,
                    row_hlc@,
                    has_sigs_column,
                ),
            })
        }),
{
    let ghost sv = staged_views(staged@);
    let ghost gv = indexed_views(group@);
    let mut columns: Vec<String> = Vec::new();
    let mut values: Vec<SqlValue> = Vec::new();
    let mut i: usize = 0;
    assert(texts(columns@) =~= texts(pks@).take(0));
    assert(sql_views(values@) =~= pk_values(texts(pks@), row_pks@).take(0));
    while i < pks.len()
        invariant
            i <= pks.len(),
            texts(columns@) == texts(pks@).take(i as int),
            sql_views(values@) == pk_values(texts(pks@), row_pks@).take(i as int),
        decreases pks.len() - i,
    {
        let ghost cols = texts(columns@);
        let ghost vals = sql_views(values@);
        let value = match row_pks.get(pks[i].as_str()) {
            Some(v) => value_of_json(v),
            None => SqlValue::Null,
        };
        assert(value@ == sql_of_json(key_value(row_pks@, texts(pks@)[i as int])));
        let ghost one = value@;
        columns.push(pks[i].clone());
        values.push(value);
        assert(texts(columns@) =~= cols.push(texts(pks@)[i as int]));
        assert(sql_views(values@) =~= vals.push(one));
        i += 1;
        assert(texts(columns@) =~= texts(pks@).take(i as int));
        assert(sql_views(values@) =~= pk_values(texts(pks@), row_pks@).take(i as int));
    }
    let ghost key_cols = texts(pks@);
    let ghost key_vals = pk_values(texts(pks@), row_pks@);
    assert(texts(columns@) =~= key_cols + staged_columns(sv, gv).take(0));
    assert(sql_views(values@) =~= key_vals + staged_values(sv).take(0));
    let mut k: usize = 0;
    while k < staged.len()
        invariant
            k <= staged.len(),
            sv == staged_views(staged@),
            gv == indexed_views(group@),
            forall|j: int| 0 <= j < staged@.len() ==> (#[trigger] staged@[j]).at < group@.len(),
            texts(columns@) == key_cols + staged_columns(sv, gv).take(k as int),
            sql_views(values@) == key_vals + staged_values(sv).take(k as int),
        decreases staged.len() - k,
    {
        let ghost cols = texts(columns@);
        let ghost vals = sql_views(values@);
        let at: usize = staged[k].at;
        assert(gv[at as int] == group@[at as int]@);
        assert(staged_columns(sv, gv)[k as int] == group@[at as int].change.column_name@);
        columns.push(group[at].change.column_name.clone());
        values.push(staged[k].value.copy());
        assert(texts(columns@) =~= cols.push(staged_columns(sv, gv)[k as int]));
        assert(sql_views(values@) =~= vals.push(staged_values(sv)[k as int]));
        k += 1;
        assert(texts(columns@) =~= key_cols + staged_columns(sv, gv).take(k as int));
        assert(sql_views(values@) =~= key_vals + staged_values(sv).take(k as int));
    }
    assert(staged_columns(sv, gv).take(k as int) =~= staged_columns(sv, gv));
    assert(staged_values(sv).take(k as int) =~= staged_values(sv));
    columns.push(COLUMN_HLCS_COLUMN.to_owned());
    columns.push(HLC_TIMESTAMP_COLUMN.to_owned());
    values.push(SqlValue::Text(column_hlcs_json.to_owned()));
    values.push(SqlValue::Text(row_hlc.to_owned()));
    if has_sigs_column {
        let sigs = merge_signatures(JsonObject::empty(), staged, group);
        columns.push(COLUMN_SIGS_COLUMN.to_owned());
        values.push(SqlValue::Text(sigs.to_json()));
    }
    let ghost want_cols = insert_columns(texts(pks@), sv, gv, has_sigs_column);
    let ghost want_vals = insert_values(
        texts(pks@),
        row_pks@,
        sv,
        gv,
        column_hlcs_json@,
        row_hlc@,
        has_sigs_column,
    );
    assert(texts(columns@) =~= want_cols);
    assert(sql_views(values@) =~= want_vals);
    let quoted = wrap_each(columns.as_slice(), "\"", "\"");
    let column_list = join_texts(quoted.as_slice(), ", ");
    let marks = write_placeholders(columns.len());
    let mut sql = "INSERT INTO \"".to_owned();
    sql.push_str(table_name);
    sql.push_str("\" (");
    sql.push_str(column_list.as_str());
    sql.push_str(") VALUES (");
    sql.push_str(marks.as_str());
    sql.push_str(")");
    Statement { sql, params: values }
}

/// The assignments of the UPDATE: the staged columns, then the metadata.
pub open spec fn update_parts(
    staged: Seq<StagedView>,
    group: Seq<IndexedView>,
    with_sigs: bool,
) -> Seq<Seq<char>> {
    let base = wrapped_each(staged_columns(staged, group), "\""@, "\" = ?"@) + seq![
        COLUMN_HLCS_COLUMN@ + " = ?"@,
        HLC_TIMESTAMP_COLUMN@ + " = ?"@,
    ];
    if with_sigs {
        base.push(COLUMN_SIGS_COLUMN@ + " = ?"@)
    } else {
        base
    }
}

/// An UPDATE of the one row that `clause` matches.
pub open spec fn update_sql(table: Seq<char>, parts: Seq<Seq<char>>, clause: Seq<char>) -> Seq<
    char,
> {
    "UPDATE \""@ + table + "\" SET "@ + joined(parts, ", "@) + " WHERE "@ + clause
}

/// The values of the UPDATE, one for each placeholder.
pub open spec fn update_values(
    staged: Seq<StagedView>,
    column_hlcs: Seq<char>,
    row_hlc: Seq<char>,
    sigs: Option<Seq<char>>,
    key: Seq<SqlView>,
) -> Seq<SqlView> {
    let base = staged_values(staged) + seq![SqlView::Text(column_hlcs), SqlView::Text(row_hlc)];
    match sigs {
        Some(text) => base.push(SqlView::Text(text)) + key,
        None => base + key,
    }
}

/// The statement that updates a row: the staged columns and the metadata. The
/// signature column is written only where `sigs_json` is given.
pub fn write_update(
    table_name: &str,
    staged: &[StagedColumn],
    group: &[IndexedChange],
    column_hlcs_json: &str,
    row_hlc: &str,
    sigs_json: Option<&str>,
    where_clause: &str,
    key: Vec<SqlValue>,
) -> (r: Statement)
    requires
        forall|j: int| 0 <= j < staged@.len() ==> (#[trigger] staged@[j]).at < group@.len(),
    ensures
        ({
            let sv = staged_views(staged@);
            let gv = indexed_views(group@);
            r@ == (StatementView {
                sql: update_sql(
                    table_name@,
                    update_parts(sv, gv, sigs_json is Some),
                    where_clause@,
                ),
                params: update_values(
                    sv,
                    column_hlcs_json@,
                    row_hlc@,
                    opt_text(sigs_json),
                    sql_views(key@),
                ),
            })
        }),
{
    let ghost sv = staged_views(staged@);
    let ghost gv = indexed_views(group@);
    let ghost keyv = sql_views(key@);
    let mut columns: Vec<String> = Vec::new();
    let mut values: Vec<SqlValue> = Vec::new();
    let mut k: usize = 0;
    assert(texts(columns@) =~= staged_columns(sv, gv).take(0));
    assert(sql_views(values@) =~= staged_values(sv).take(0));
    while k < staged.len()
        invariant
            k <= staged.len(),
            sv == staged_views(staged@),
            gv == indexed_views(group@),
            forall|j: int| 0 <= j < staged@.len() ==> (#[trigger] staged@[j]).at < group@.len(),
            texts(columns@) == staged_columns(sv, gv).take(k as int),
            sql_views(values@) == staged_values(sv).take(k as int),
        decreases staged.len() - k,
    {
        let ghost cols = texts(columns@);
        let ghost vals = sql_views(values@);
        let at: usize = staged[k].at;
        assert(gv[at as int] == group@[at as int]@);
        assert(staged_columns(sv, gv)[k as int] == group@[at as int].change.column_name@);
        columns.push(group[at].change.column_name.clone());
        values.push(staged[k].value.copy());
        assert(texts(columns@) =~= cols.push(staged_columns(sv, gv)[k as int]));
        assert(sql_views(values@) =~= vals.push(staged_values(sv)[k as int]));
        k += 1;
        assert(texts(columns@) =~= staged_columns(sv, gv).take(k as int));
        assert(sql_views(values@) =~= staged_values(sv).take(k as int));
    }
    assert(staged_columns(sv, gv).take(k as int) =~= staged_columns(sv, gv));
    assert(staged_values(sv).take(k as int) =~= staged_values(sv));
    let mut parts = wrap_each(columns.as_slice(), "\"", "\" = ?");
    let mut part = COLUMN_HLCS_COLUMN.to_owned();
    part.push_str(" = ?");
    parts.push(part);
    let mut part = HLC_TIMESTAMP_COLUMN.to_owned();
    part.push_str(" = ?");
    parts.push(part);
    values.push(SqlValue::Text(column_hlcs_json.to_owned()));
    values.push(SqlValue::Text(row_hlc.to_owned()));
    match sigs_json {
        Some(text) => {
            let mut part = COLUMN_SIGS_COLUMN.to_owned();
            part.push_str(" = ?");
            parts.push(part);
            values.push(SqlValue::Text(text.to_owned()));
        },
        None => {},
    }
    assert(texts(parts@) =~= update_parts(sv, gv, sigs_json is Some));
    let mut key = key;
    let ghost head = sql_views(values@);
    values.append(&mut key);
    assert(sql_views(values@) =~= head + keyv);
    assert(sql_views(values@) =~= update_values(
        sv,
        column_hlcs_json@,
        row_hlc@,
        opt_text(sigs_json),
        keyv,
    ));
    let assignments = join_texts(parts.as_slice(), ", ");
    let mut sql = "UPDATE \"".to_owned();
    sql.push_str(table_name);
    sql.push_str("\" SET ");
    sql.push_str(assignments.as_str());
    sql.push_str(" WHERE ");
    sql.push_str(where_clause);
    Statement { sql, params: values }
}

/// The query for the stored timestamps of a row.
pub open spec fn fetch_sql(table: Seq<char>, clause: Seq<char>) -> Seq<char> {
    "SELECT "@ + COLUMN_HLCS_COLUMN@ + ", "@ + HLC_TIMESTAMP_COLUMN@ + " FROM \""@ + table
        + "\" WHERE "@ + clause
}

/// The query for the stored timestamps of a row.
pub fn fetch_existing_hlcs_sql(table_name: &str, where_clause: &str) -> (r: String)
    ensures
        r@ == fetch_sql(table_name@, where_clause@),
{
    let mut sql = "SELECT ".to_owned();
    sql.push_str(COLUMN_HLCS_COLUMN);
    sql.push_str(", ");
    sql.push_str(HLC_TIMESTAMP_COLUMN);
    sql.push_str(" FROM \"");
    sql.push_str(table_name);
    sql.push_str("\" WHERE ");
    sql.push_str(where_clause);
    sql
}

/// The query for the stored signatures of a row.
pub open spec fn signatures_sql(table: Seq<char>, clause: Seq<char>) -> Seq<char> {
    "SELECT "@ + COLUMN_SIGS_COLUMN@ + " FROM \""@ + table + "\" WHERE "@ + clause
}

/// The query for the stored signatures of a row.
pub fn read_signatures_sql(table_name: &str, where_clause: &str) -> (r: String)
    ensures
        r@ == signatures_sql(table_name@, where_clause@),
{
    let mut sql = "SELECT ".to_owned();
    sql.push_str(COLUMN_SIGS_COLUMN);
    sql.push_str(" FROM \"");
    sql.push_str(table_name);
    sql.push_str("\" WHERE ");
    sql.push_str(where_clause);
    sql
}

/// The extended codes of SQLite that a merge may get past: a missing value, a
/// value that is taken, and a key that is taken.
pub proof fn lemma_constraint_codes(code: i32)
    ensures
        insert_constraint(code) == Some(SkipReason::InsertNotNull) <==> code == 1299,
        insert_constraint(code) == Some(SkipReason::InsertPrimaryKey) <==> code == 1555,
        insert_constraint(code) == Some(SkipReason::InsertUnique) <==> code == 2067,
        insert_constraint(code) is None <==> code != 1299 && code != 1555 && code != 2067,
{
}

/// Columns that leave the signatures alone change no signature; a column that
/// sets or drops one touches them.
pub proof fn lemma_untouched_signatures_stay(
    map: Seq<(Seq<char>, JsonView)>,
    staged: Seq<StagedView>,
    group: Seq<IndexedView>,
)
    ensures
        !touches_signatures(staged) ==> sigs_after(map, staged, group) == map,
        forall|j: int|
            0 <= j < staged.len() && (#[trigger] staged[j]).signature is Replace
                ==> touches_signatures(staged),
        touches_signatures(staged) ==> exists|j: int|
            0 <= j < staged.len() && (#[trigger] staged[j]).signature is Replace,
    decreases staged.len(),
{
    if staged.len() > 0 {
        let rest = staged.drop_last();
        lemma_untouched_signatures_stay(map, rest, group);
        if !touches_signatures(staged) {
            assert forall|j: int| 0 <= j < rest.len() implies (
            #[trigger] rest[j]).signature is Keep by {
                assert(rest[j] == staged[j]);
            }
            assert(staged[staged.len() - 1] == staged.last());
        }
    }
}

} // verus!
