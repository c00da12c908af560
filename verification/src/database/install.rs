//! Bringing a table with rows in it under management.
//!
//! Rows that were there before carry no timestamps and could not take part in
//! a merge. They are all stamped with one timestamp, as if they had been
//! written at that moment, and signed one by one.

use crate::crdt::apply::preimage::column_sig_preimage_from_parts;
use crate::crdt::apply::preimage::framed_fields;
use crate::crdt::apply::preimage::preimage;
use crate::crdt::apply::write::Statement;
use crate::crdt::apply::write::StatementView;
use crate::crdt::columns::COLUMN_HLCS_COLUMN;
use crate::crdt::columns::COLUMN_SIGS_COLUMN;
use crate::crdt::columns::HLC_TIMESTAMP_COLUMN;
use crate::crdt::columns::TABLE_CRDT_DIRTY_TABLES;
use crate::crdt::identifier::is_safe_identifier;
use crate::crdt::identifier::safe_identifier;
use crate::crdt::scanner::change::ChangeView;
use crate::crdt::scanner::emit::key_members;
use crate::crdt::scanner::emit::row_key;
use crate::crdt::schema::data_names;
use crate::crdt::schema::has_column;
use crate::crdt::schema::partition_columns;
use crate::crdt::schema::pk_names;
use crate::crdt::schema::schema_has_column;
use crate::crdt::schema::schema_view;
use crate::crdt::schema::ColumnInfo;
use crate::crdt::schema::ColumnView;
use crate::crdt::value::copy_values;
use crate::crdt::value::sql_views;
use crate::crdt::value::SqlValue;
use crate::crdt::value::SqlView;
use crate::database::config::InstallCrdtOptions;
use crate::error::DatabaseError;
use crate::error::Error;
use crate::json::json_text;
use crate::json::keys_ascend;
use crate::json::lemma_with_member;
use crate::json::member;
use crate::json::members;
use crate::json::object_text;
use crate::json::with_member;
use crate::json::write_object;
use crate::json::JsonObject;
use crate::json::JsonValue;
use crate::json::JsonView;
use crate::numeral::digit_char;
use crate::numeral::digit_letter;
use crate::numeral::digit_value;
use crate::numeral::digits_value;
use crate::numeral::is_written_digit;
use crate::signature::SignatureProvider;
use crate::text::copy_texts;
use crate::text::join_texts;
use crate::text::joined;
use crate::text::texts;
use crate::text::wrap_each;
use crate::text::wrapped_each;
use vstd::prelude::*;
use vstd::utf8::encode_utf8;

verus! {

/// What is to be done with a table.
#[derive(Clone, Copy, Debug, PartialEq, Eq, Structural)]
pub enum InstallStep {
    /// It is managed: missing triggers are installed, its rows stay.
    RefreshTriggers,
    /// It is not: columns and triggers are installed, its rows are stamped.
    Install,
}

/// The table carries all three metadata columns.
pub open spec fn is_managed(schema: Seq<ColumnView>) -> bool {
    &&& has_column(schema, HLC_TIMESTAMP_COLUMN@)
    &&& has_column(schema, COLUMN_HLCS_COLUMN@)
    &&& has_column(schema, COLUMN_SIGS_COLUMN@)
}

/// `e` says that the name of the table cannot stand in SQL.
pub open spec fn is_name_error(e: Error, table: Seq<char>) -> bool {
    e matches Error::Message(reason) && reason@
        == "install_crdt: unsafe table identifier '"@ + table + "'"@
}

/// Refuses a table whose name cannot stand in SQL.
pub fn check_install_name(table_name: &str) -> (r: Result<(), Error>)
    ensures
        safe_identifier(table_name@) <==> r is Ok,
        r matches Err(e) ==> is_name_error(e, table_name@),
{
    if is_safe_identifier(table_name) {
        return Ok(());
    }
    let mut reason = "install_crdt: unsafe table identifier '".to_owned();
    reason.push_str(table_name);
    reason.push_str("'");
    Err(Error::Message(reason))
}

/// Decides what is to be done with a table, given its columns. A managed table
/// is refused unless its triggers may be renewed.
pub fn plan_install(table_name: &str, schema: &[ColumnInfo], opts: InstallCrdtOptions) -> (r: Result<
    InstallStep,
    Error,
>)
    ensures
        ({
            let sv = schema_view(schema@);
            if !safe_identifier(table_name@) {
                r matches Err(e) && is_name_error(e, table_name@)
            } else if !is_managed(sv) {
                r == Ok::<InstallStep, Error>(InstallStep::Install)
            } else if opts.allow_reinstall {
                r == Ok::<InstallStep, Error>(InstallStep::RefreshTriggers)
            } else {
                r matches Err(Error::CrdtAlreadyInstalled { table }) && table@ == table_name@
            }
        }),
{
    match check_install_name(table_name) {
        Ok(()) => {},
        Err(e) => {
            return Err(e);
        },
    }
    if !schema_has_column(schema, HLC_TIMESTAMP_COLUMN) || !schema_has_column(
        schema,
        COLUMN_HLCS_COLUMN,
    ) || !schema_has_column(schema, COLUMN_SIGS_COLUMN) {
        return Ok(InstallStep::Install);
    }
    if opts.allow_reinstall {
        return Ok(InstallStep::RefreshTriggers);
    }
    Err(Error::CrdtAlreadyInstalled { table: table_name.to_owned() })
}

/// How the rows of a table are read and stamped.
#[derive(Debug)]
pub struct BackfillPlan {
    pub table_name: String,
    pub pk_columns: Vec<String>,
    pub data_columns: Vec<String>,
    pub select_sql: String,
    pub update_sql: String,
}

/// What a [`BackfillPlan`] stands for.
pub struct BackfillView {
    pub table_name: Seq<char>,
    pub pks: Seq<Seq<char>>,
    pub data: Seq<Seq<char>>,
    pub select_sql: Seq<char>,
    pub update_sql: Seq<char>,
}

impl View for BackfillPlan {
    type V = BackfillView;

    open spec fn view(&self) -> BackfillView {
        BackfillView {
            table_name: self.table_name@,
            pks: texts(self.pk_columns@),
            data: texts(self.data_columns@),
            select_sql: self.select_sql@,
            update_sql: self.update_sql@,
        }
    }
}

/// The query for the rows: key and data columns.
pub open spec fn backfill_select(
    table: Seq<char>,
    pks: Seq<Seq<char>>,
    data: Seq<Seq<char>>,
) -> Seq<char> {
    "SELECT "@ + joined(wrapped_each(pks + data, "\""@, "\""@), ", "@) + " FROM \""@ + table
        + "\""@
}

/// The statement that stamps one row: timestamp, timestamp map, signature map
/// and key are its parameters.
pub open spec fn backfill_update(table: Seq<char>, pks: Seq<Seq<char>>) -> Seq<char> {
    "UPDATE \""@ + table + "\" SET "@ + HLC_TIMESTAMP_COLUMN@ + " = ?, "@ + COLUMN_HLCS_COLUMN@
        + " = ?, "@ + COLUMN_SIGS_COLUMN@ + " = ? WHERE "@ + joined(
        wrapped_each(pks, "\""@, "\" = ?"@),
        " AND "@,
    )
}

/// The report of a table without primary key.
pub open spec fn no_key_message(table: Seq<char>) -> Seq<char> {
    "install_crdt: table '"@ + table + "' has no primary key — cannot backfill"@
}

/// Plans how the rows of a table are stamped. A table without primary key is
/// refused.
pub fn plan_backfill(table_name: &str, schema: &[ColumnInfo]) -> (r: Result<
    BackfillPlan,
    DatabaseError,
>)
    ensures
        ({
            let pks = pk_names(schema_view(schema@));
            let data = data_names(schema_view(schema@));
            if pks.len() == 0 {
                r matches Err(DatabaseError::CrdtSetup(m)) && m@ == no_key_message(table_name@)
            } else {
                r matches Ok(plan) && plan@ == (BackfillView {
                    table_name: table_name@,
                    pks,
                    data,
                    select_sql: backfill_select(table_name@, pks, data),
                    update_sql: backfill_update(table_name@, pks),
                })
            }
        }),
{
    let (pk_columns, data_columns) = partition_columns(schema);
    assert(texts(pk_columns@).len() == pk_columns@.len());
    if pk_columns.len() == 0 {
        let mut m = "install_crdt: table '".to_owned();
        m.push_str(table_name);
        m.push_str("' has no primary key — cannot backfill");
        return Err(DatabaseError::CrdtSetup(m));
    }
    let mut names = copy_texts(pk_columns.as_slice());
    let mut rest = copy_texts(data_columns.as_slice());
    names.append(&mut rest);
    assert(texts(names@) =~= texts(pk_columns@) + texts(data_columns@));
    let mut select_sql = "SELECT ".to_owned();
    select_sql.push_str(
        join_texts(wrap_each(names.as_slice(), "\"", "\"").as_slice(), ", ").as_str(),
    );
    select_sql.push_str(" FROM \"");
    select_sql.push_str(table_name);
    select_sql.push_str("\"");
    let mut update_sql = "UPDATE \"".to_owned();
    update_sql.push_str(table_name);
    update_sql.push_str("\" SET ");
    update_sql.push_str(HLC_TIMESTAMP_COLUMN);
    update_sql.push_str(" = ?, ");
    update_sql.push_str(COLUMN_HLCS_COLUMN);
    update_sql.push_str(" = ?, ");
    update_sql.push_str(COLUMN_SIGS_COLUMN);
    update_sql.push_str(" = ? WHERE ");
    update_sql.push_str(
        join_texts(wrap_each(pk_columns.as_slice(), "\"", "\" = ?").as_slice(), " AND ").as_str(),
    );
    Ok(
        BackfillPlan {
            table_name: table_name.to_owned(),
            pk_columns,
            data_columns,
            select_sql,
            update_sql,
        },
    )
}

/// The timestamp map of a stamped row: every data column with one timestamp.
pub open spec fn stamped_map(columns: Seq<Seq<char>>, hlc: Seq<char>) -> Seq<
    (Seq<char>, JsonView),
>
    decreases columns.len(),
{
    if columns.len() == 0 {
        Seq::empty()
    } else {
        with_member(stamped_map(columns.drop_last(), hlc), columns.last(), JsonView::Text(hlc))
    }
}

/// Every data column of a stamped row carries the one timestamp, and no other
/// column has one.
pub proof fn lemma_every_column_is_stamped(
    columns: Seq<Seq<char>>,
    hlc: Seq<char>,
    name: Seq<char>,
)
    ensures
        keys_ascend(stamped_map(columns, hlc)),
        member(stamped_map(columns, hlc), name) == if columns.contains(name) {
            Some(JsonView::Text(hlc))
        } else {
            None
        },
    decreases columns.len(),
{
    if columns.len() == 0 {
        assert(!columns.contains(name));
    } else {
        let rest = columns.drop_last();
        lemma_every_column_is_stamped(rest, hlc, name);
        lemma_with_member(stamped_map(rest, hlc), columns.last(), JsonView::Text(hlc), name);
        if columns.contains(name) {
            let i = choose|i: int| 0 <= i < columns.len() && columns[i] == name;
            if i < rest.len() {
                assert(rest[i] == name);
            }
        }
        if rest.contains(name) {
            let i = choose|i: int| 0 <= i < rest.len() && rest[i] == name;
            assert(columns[i] == name);
        }
        assert(columns.contains(columns.last())) by {
            assert(columns[columns.len() - 1] == columns.last());
        }
    }
}

/// The timestamp map of a stamped row, in JSON.
pub fn build_column_hlcs_json(data_columns: &[String], hlc_str: &str) -> (r: String)
    ensures
        r@ == object_text(stamped_map(texts(data_columns@), hlc_str@)),
{
    let ghost all = texts(data_columns@);
    let mut map = JsonObject::empty();
    let mut i: usize = 0;
    assert(all.take(0) =~= Seq::<Seq<char>>::empty());
    while i < data_columns.len()
        invariant
            i <= data_columns.len(),
            all == texts(data_columns@),
            map@ == stamped_map(all.take(i as int), hlc_str@),
        decreases data_columns.len() - i,
    {
        let ghost next = all.take(i + 1);
        assert(next.drop_last() =~= all.take(i as int));
        assert(next.last() == data_columns@[i as int]@);
        map.insert(data_columns[i].as_str(), JsonValue::Text(hlc_str.to_owned()));
        i += 1;
    }
    assert(all.take(i as int) =~= all);
    map.to_json()
}

/// Number of columns that have a value.
pub open spec fn paired(columns: nat, values: nat) -> nat {
    if columns < values {
        columns
    } else {
        values
    }
}

/// The primary-key JSON of a row: the key columns in declaration order, as a
/// scan writes it.
pub fn serialize_row_pks(pk_columns: &[String], values: &[JsonValue]) -> (r: String)
    ensures
        r@ == object_text(
            Seq::new(
                paired(pk_columns@.len(), values@.len()),
                |i: int| (pk_columns@[i]@, values@[i]@),
            ),
        ),
{
    let mut entries: Vec<(String, JsonValue)> = Vec::new();
    let mut i: usize = 0;
    while i < pk_columns.len() && i < values.len()
        invariant
            i <= pk_columns@.len(),
            i <= values@.len(),
            entries@.len() == i,
            forall|j: int|
                0 <= j < i ==> (#[trigger] entries@[j]).0@ == pk_columns@[j]@ && entries@[j].1@
                    == values@[j]@,
        decreases pk_columns.len() - i,
    {
        entries.push((pk_columns[i].clone(), values[i].copy()));
        i += 1;
    }
    assert(members(entries@) =~= Seq::new(
        paired(pk_columns@.len(), values@.len()),
        |i: int| (pk_columns@[i]@, values@[i]@),
    ));
    write_object(entries.as_slice())
}

/// Bytes in hexadecimal, two digits each.
pub open spec fn hex_text(bytes: Seq<u8>) -> Seq<char>
    decreases bytes.len(),
{
    if bytes.len() == 0 {
        Seq::empty()
    } else {
        let b = bytes.last() as nat;
        hex_text(bytes.drop_last()).push(digit_char(b / 16)).push(digit_char(b % 16))
    }
}

/// Writes bytes in hexadecimal, two digits each.
pub fn hex(bytes: &[u8]) -> (r: String)
    ensures
        r@ == hex_text(bytes@),
{
    let mut s = String::new();
    let mut i: usize = 0;
    assert(bytes@.take(0) =~= Seq::<u8>::empty());
    while i < bytes.len()
        invariant
            i <= bytes.len(),
            s@ == hex_text(bytes@.take(i as int)),
        decreases bytes.len() - i,
    {
        let ghost next = bytes@.take(i + 1);
        assert(next.drop_last() =~= bytes@.take(i as int));
        let b: u8 = bytes[i];
        s.push(digit_letter(b / 16));
        s.push(digit_letter(b % 16));
        i += 1;
    }
    assert(bytes@.take(i as int) =~= bytes@);
    s
}

/// The signature map of a row: each column with its signature in hexadecimal,
/// columns with an empty signature left out.
pub open spec fn signature_map(columns: Seq<Seq<char>>, sigs: Seq<Seq<u8>>, n: nat) -> Seq<
    (Seq<char>, JsonView),
>
    decreases n,
{
    if n == 0 {
        Seq::empty()
    } else {
        let before = signature_map(columns, sigs, (n - 1) as nat);
        if sigs[n - 1].len() == 0 {
            before
        } else {
            with_member(before, columns[n - 1], JsonView::Text(hex_text(sigs[n - 1])))
        }
    }
}

/// What a list of signatures stands for.
pub open spec fn byte_views(v: Seq<Vec<u8>>) -> Seq<Seq<u8>> {
    v.map_values(|b: Vec<u8>| b@)
}

/// The signature map of a row whose columns have been signed, in JSON.
pub fn write_signature_map(columns: &[String], sigs: &[Vec<u8>]) -> (r: String)
    requires
        sigs@.len() <= columns@.len(),
    ensures
        r@ == object_text(signature_map(texts(columns@), byte_views(sigs@), sigs@.len())),
{
    let ghost names = texts(columns@);
    let ghost bytes = byte_views(sigs@);
    let mut map = JsonObject::empty();
    let mut i: usize = 0;
    while i < sigs.len()
        invariant
            i <= sigs.len() <= columns.len(),
            names == texts(columns@),
            bytes == byte_views(sigs@),
            map@ == signature_map(names, bytes, i as nat),
        decreases sigs.len() - i,
    {
        assert(bytes[i as int] == sigs@[i as int]@);
        assert(names[i as int] == columns@[i as int]@);
        if sigs[i].len() > 0 {
            map.insert(columns[i].as_str(), JsonValue::Text(hex(sigs[i].as_slice())));
        }
        i += 1;
    }
    map.to_json()
}

/// The bytes that are signed for a column of a row.
pub open spec fn column_preimage(
    table: Seq<char>,
    row_pks: Seq<char>,
    column: Seq<char>,
    hlc: Seq<char>,
    value: JsonView,
) -> Seq<u8> {
    framed_fields(
        encode_utf8(table),
        encode_utf8(row_pks),
        encode_utf8(column),
        encode_utf8(hlc),
        encode_utf8(json_text(value)),
    )
}

/// The provider may answer `answer` when it is asked to sign these bytes.
pub open spec fn may_sign<P: SignatureProvider>(
    provider: &P,
    bytes: Seq<u8>,
    answer: Result<Vec<u8>, Error>,
) -> bool {
    exists|b: &[u8]| b@ == bytes && #[trigger] call_ensures(P::sign_column, (provider, b), answer)
}

/// The provider answered with these signatures for the first columns.
pub open spec fn signed<P: SignatureProvider>(
    provider: &P,
    table: Seq<char>,
    row_pks: Seq<char>,
    columns: Seq<Seq<char>>,
    values: Seq<JsonView>,
    hlc: Seq<char>,
    sigs: Seq<Vec<u8>>,
) -> bool {
    forall|i: int|
        0 <= i < sigs.len() ==> may_sign(
            provider,
            column_preimage(table, row_pks, columns[i], hlc, values[i]),
            Ok(#[trigger] sigs[i]),
        )
}

/// What a list of values stands for.
pub open spec fn value_views(v: Seq<JsonValue>) -> Seq<JsonView> {
    v.map_values(|x: JsonValue| x@)
}

/// Signs the columns of a row one by one and gives their signature map in
/// JSON. The provider sees the bytes of each column with the one timestamp; its
/// first refusal ends the matter.
pub fn build_column_sigs_json<P: SignatureProvider>(
    table_name: &str,
    row_pks: &str,
    data_columns: &[String],
    data_values: &[JsonValue],
    hlc_str: &str,
    provider: &P,
) -> (r: Result<String, Error>)
    ensures
        ({
            let columns = texts(data_columns@);
            let values = value_views(data_values@);
            let n = paired(columns.len(), values.len());
            match r {
                Ok(json) => exists|sigs: Seq<Vec<u8>>|
                    sigs.len() == n && #[trigger] signed(
                        provider,
                        table_name@,
                        row_pks@,
                        columns,
                        values,
                        hlc_str@,
                        sigs,
                    ) && json@ == object_text(signature_map(columns, byte_views(sigs), n)),
                Err(e) => exists|sigs: Seq<Vec<u8>>|
                    sigs.len() < n && #[trigger] signed(
                        provider,
                        table_name@,
                        row_pks@,
                        columns,
                        values,
                        hlc_str@,
                        sigs,
                    ) && may_sign(
                        provider,
                        column_preimage(
                            table_name@,
                            row_pks@,
                            columns[sigs.len() as int],
                            hlc_str@,
                            values[sigs.len() as int],
                        ),
                        Err(e),
                    ),
            }
        }),
{
    let ghost columns = texts(data_columns@);
    let ghost values = value_views(data_values@);
    let mut sigs: Vec<Vec<u8>> = Vec::new();
    let mut i: usize = 0;
    while i < data_columns.len() && i < data_values.len()
        invariant
            i <= data_columns@.len(),
            i <= data_values@.len(),
            columns == texts(data_columns@),
            values == value_views(data_values@),
            sigs@.len() == i,
            signed(provider, table_name@, row_pks@, columns, values, hlc_str@, sigs@),
        decreases data_columns.len() - i,
    {
        assert(columns[i as int] == data_columns@[i as int]@);
        assert(values[i as int] == data_values@[i as int]@);
        let bytes = column_sig_preimage_from_parts(
            table_name,
            row_pks,
            data_columns[i].as_str(),
            hlc_str,
            &data_values[i],
        );
        let answer = provider.sign_column(bytes.as_slice());
        assert(may_sign(
            provider,
            column_preimage(table_name@, row_pks@, columns[i as int], hlc_str@, values[i as int]),
            answer,
        ));
        match answer {
            Ok(sig) => {
                let ghost before = sigs@;
                sigs.push(sig);
                assert forall|k: int| 0 <= k < sigs@.len() implies may_sign(
                    provider,
                    column_preimage(table_name@, row_pks@, columns[k], hlc_str@, values[k]),
                    Ok(#[trigger] sigs@[k]),
                ) by {
                    if k < before.len() {
                        assert(sigs@[k] == before[k]);
                    }
                }
            },
            Err(e) => {
                return Err(e);
            },
        }
        i += 1;
    }
    Ok(write_signature_map(data_columns, sigs.as_slice()))
}

/// What is signed when rows are stamped is what is verified when their changes
/// arrive elsewhere: the same bytes, over the same row key as a scan writes.
pub proof fn lemma_signed_is_what_is_verified(c: ChangeView)
    ensures
        preimage(c) == column_preimage(
            c.table_name,
            c.row_pks,
            c.column_name,
            c.hlc_timestamp,
            c.value,
        ),
{
    reveal(preimage);
}

/// A stamped row is keyed as a scan keys it.
pub proof fn lemma_row_is_keyed_as_scanned(pk_columns: Seq<String>, values: Seq<JsonValue>)
    requires
        pk_columns.len() == values.len(),
    ensures
        object_text(
            Seq::new(
                paired(pk_columns.len(), values.len()),
                |i: int| (pk_columns[i]@, values[i]@),
            ),
        ) == row_key(texts(pk_columns), value_views(values)),
{
    assert(Seq::new(
        paired(pk_columns.len(), values.len()),
        |i: int| (pk_columns[i]@, values[i]@),
    ) =~= Seq::new(
        texts(pk_columns).len(),
        |i: int| (texts(pk_columns)[i], value_views(values)[i]),
    ));
}

/// The statement that stamps one row.
pub fn stamp_row(
    plan: &BackfillPlan,
    hlc_str: &str,
    column_hlcs_json: &str,
    column_sigs_json: &str,
    key: Vec<SqlValue>,
) -> (r: Statement)
    ensures
        r@ == (StatementView {
            sql: plan@.update_sql,
            params: seq![
                SqlView::Text(hlc_str@),
                SqlView::Text(column_hlcs_json@),
                SqlView::Text(column_sigs_json@),
            ] + sql_views(key@),
        }),
{
    let mut params: Vec<SqlValue> = Vec::new();
    params.push(SqlValue::Text(hlc_str.to_owned()));
    params.push(SqlValue::Text(column_hlcs_json.to_owned()));
    params.push(SqlValue::Text(column_sigs_json.to_owned()));
    let ghost own = sql_views(key@);
    let mut key = key;
    params.append(&mut key);
    assert(sql_views(params@) =~= seq![
        SqlView::Text(hlc_str@),
        SqlView::Text(column_hlcs_json@),
        SqlView::Text(column_sigs_json@),
    ] + own);
    Statement { sql: plan.update_sql.clone(), params }
}

/// A row as it is read to be stamped: its key and data cells, and its key as it
/// is bound.
pub open spec fn fits(plan: BackfillView, cells: Seq<JsonValue>, key: Seq<SqlValue>) -> bool {
    cells.len() == plan.pks.len() + plan.data.len() && key.len() == plan.pks.len()
}

/// The provider answered with these signatures for the first data columns of a
/// row, each over the row's own key and value.
pub open spec fn row_signed<P: SignatureProvider>(
    provider: &P,
    plan: BackfillView,
    cells: Seq<JsonView>,
    hlc: Seq<char>,
    sigs: Seq<Vec<u8>>,
) -> bool {
    signed(
        provider,
        plan.table_name,
        row_key(plan.pks, cells),
        plan.data,
        cells.skip(plan.pks.len() as int),
        hlc,
        sigs,
    )
}

/// The statement that stamps a row with these signatures.
pub open spec fn stamp(
    plan: BackfillView,
    key: Seq<SqlView>,
    hlc: Seq<char>,
    sigs: Seq<Seq<u8>>,
) -> StatementView {
    StatementView {
        sql: plan.update_sql,
        params: seq![
            SqlView::Text(hlc),
            SqlView::Text(object_text(stamped_map(plan.data, hlc))),
            SqlView::Text(object_text(signature_map(plan.data, sigs, plan.data.len()))),
        ] + key,
    }
}

/// `statement` stamps the row, all of whose data columns the provider signed.
pub open spec fn row_stamped<P: SignatureProvider>(
    provider: &P,
    plan: BackfillView,
    row: (Vec<JsonValue>, Vec<SqlValue>),
    hlc: Seq<char>,
    statement: StatementView,
) -> bool {
    exists|sigs: Seq<Vec<u8>>|
        sigs.len() == plan.data.len() && #[trigger] row_signed(
            provider,
            plan,
            value_views(row.0@),
            hlc,
            sigs,
        ) && statement == stamp(plan, sql_views(row.1@), hlc, byte_views(sigs))
}

/// The provider refused to sign a data column of the row, after it had signed
/// those before it.
pub open spec fn row_refused<P: SignatureProvider>(
    provider: &P,
    plan: BackfillView,
    row: (Vec<JsonValue>, Vec<SqlValue>),
    hlc: Seq<char>,
    e: Error,
) -> bool {
    let cells = value_views(row.0@);
    exists|sigs: Seq<Vec<u8>>|
        sigs.len() < plan.data.len() && #[trigger] row_signed(provider, plan, cells, hlc, sigs)
            && may_sign(
            provider,
            column_preimage(
                plan.table_name,
                row_key(plan.pks, cells),
                plan.data[sigs.len() as int],
                hlc,
                cells[(plan.pks.len() + sigs.len()) as int],
            ),
            Err(e),
        )
}

/// The provider refused the row after those that these statements stamp.
pub open spec fn stopped<P: SignatureProvider>(
    provider: &P,
    plan: BackfillView,
    rows: Seq<(Vec<JsonValue>, Vec<SqlValue>)>,
    hlc: Seq<char>,
    statements: Seq<StatementView>,
    e: Error,
) -> bool {
    &&& statements.len() < rows.len()
    &&& forall|i: int|
        0 <= i < statements.len() ==> row_stamped(
            provider,
            plan,
            rows[i],
            hlc,
            #[trigger] statements[i],
        )
    &&& row_refused(provider, plan, rows[statements.len() as int], hlc, e)
}

/// The statements that stamp the rows of a table, one for each and in their
/// order, all with one timestamp. Each row is signed by itself; the first
/// refusal of the provider ends the matter.
pub fn stamp_rows<P: SignatureProvider>(
    plan: &BackfillPlan,
    rows: Vec<(Vec<JsonValue>, Vec<SqlValue>)>,
    hlc: &str,
    provider: &P,
) -> (r: Result<Vec<Statement>, Error>)
    requires
        forall|i: int|
            0 <= i < rows@.len() ==> fits(plan@, (#[trigger] rows@[i]).0@, rows@[i].1@),
    ensures
        match r {
            Ok(statements) => statements@.len() == rows@.len() && forall|i: int|
                0 <= i < rows@.len() ==> row_stamped(
                    provider,
                    plan@,
                    #[trigger] rows@[i],
                    hlc@,
                    statements@[i]@,
                ),
            Err(e) => exists|statements: Seq<StatementView>| #[trigger]
                stopped(provider, plan@, rows@, hlc@, statements, e),
        },
{
    let column_hlcs = build_column_hlcs_json(plan.data_columns.as_slice(), hlc);
    let keys: usize = plan.pk_columns.len();
    let mut statements: Vec<Statement> = Vec::new();
    let mut i: usize = 0;
    while i < rows.len()
        invariant
            i <= rows@.len(),
            keys == plan.pk_columns@.len(),
            column_hlcs@ == object_text(stamped_map(plan@.data, hlc@)),
            forall|k: int|
                0 <= k < rows@.len() ==> fits(plan@, (#[trigger] rows@[k]).0@, rows@[k].1@),
            statements@.len() == i,
            forall|k: int|
                0 <= k < i ==> row_stamped(
                    provider,
                    plan@,
                    #[trigger] rows@[k],
                    hlc@,
                    statements@[k]@,
                ),
        decreases rows.len() - i,
    {
        let cells = rows[i].0.as_slice();
        let ghost views = value_views(cells@);
        assert(fits(plan@, rows@[i as int].0@, rows@[i as int].1@));
        let key_cells = vstd::slice::slice_subrange(cells, 0, keys);
        let data_cells = vstd::slice::slice_subrange(cells, keys, cells.len());
        proof {
            lemma_row_is_keyed_as_scanned(plan.pk_columns@, key_cells@);
            assert(key_members(plan@.pks, value_views(key_cells@)) =~= key_members(
                plan@.pks,
                views,
            ));
            assert(value_views(data_cells@) =~= views.skip(keys as int));
        }
        let row_pks = serialize_row_pks(plan.pk_columns.as_slice(), key_cells);
        let signed_row = build_column_sigs_json(
            plan.table_name.as_str(),
            row_pks.as_str(),
            plan.data_columns.as_slice(),
            data_cells,
            hlc,
            provider,
        );
        match signed_row {
            Ok(column_sigs) => {
                let ghost before = statements@;
                let key = copy_values(rows[i].1.as_slice());
                let statement = stamp_row(
                    plan,
                    hlc,
                    column_hlcs.as_str(),
                    column_sigs.as_str(),
                    key,
                );
                statements.push(statement);
                proof {
                    let sigs = choose|sigs: Seq<Vec<u8>>|
                        sigs.len() == plan@.data.len() && #[trigger] signed(
                            provider,
                            plan@.table_name,
                            row_pks@,
                            plan@.data,
                            views.skip(keys as int),
                            hlc@,
                            sigs,
                        ) && column_sigs@ == object_text(
                            signature_map(plan@.data, byte_views(sigs), plan@.data.len()),
                        );
                    assert(row_signed(provider, plan@, views, hlc@, sigs));
                    assert(statements@[i as int]@ == stamp(
                        plan@,
                        sql_views(rows@[i as int].1@),
                        hlc@,
                        byte_views(sigs),
                    ));
                    assert forall|k: int| 0 <= k <= i implies row_stamped(
                        provider,
                        plan@,
                        #[trigger] rows@[k],
                        hlc@,
                        statements@[k]@,
                    ) by {
                        if k < i {
                            assert(statements@[k] == before[k]);
                        }
                    }
                }
            },
            Err(e) => {
                proof {
                    let sigs = choose|sigs: Seq<Vec<u8>>|
                        sigs.len() < plan@.data.len() && #[trigger] signed(
                            provider,
                            plan@.table_name,
                            row_pks@,
                            plan@.data,
                            views.skip(keys as int),
                            hlc@,
                            sigs,
                        ) && may_sign(
                            provider,
                            column_preimage(
                                plan@.table_name,
                                row_pks@,
                                plan@.data[sigs.len() as int],
                                hlc@,
                                views.skip(keys as int)[sigs.len() as int],
                            ),
                            Err(e),
                        );
                    assert(row_signed(provider, plan@, views, hlc@, sigs));
                    assert(row_refused(provider, plan@, rows@[i as int], hlc@, e));
                    let done = statements@.map_values(|s: Statement| s@);
                    assert forall|k: int| 0 <= k < done.len() implies row_stamped(
                        provider,
                        plan@,
                        rows@[k],
                        hlc@,
                        #[trigger] done[k],
                    ) by {
                        assert(done[k] == statements@[k]@);
                    }
                    assert(stopped(provider, plan@, rows@, hlc@, done, e));
                }
                return Err(e);
            },
        }
        i += 1;
    }
    Ok(statements)
}

/// The statement that marks a table as having something to send; the table is
/// its parameter.
pub open spec fn mark_dirty_query() -> Seq<char> {
    "INSERT INTO "@ + TABLE_CRDT_DIRTY_TABLES@
        + " (table_name, last_modified) VALUES (?1, datetime('now')) ON CONFLICT(table_name) DO UPDATE SET last_modified = excluded.last_modified"@
}

/// The statement that marks a table as having something to send.
fn mark_dirty_sql() -> (r: String)
    ensures
        r@ == mark_dirty_query(),
{
    let mut s = "INSERT INTO ".to_owned();
    s.push_str(TABLE_CRDT_DIRTY_TABLES);
    s.push_str(
        " (table_name, last_modified) VALUES (?1, datetime('now')) ON CONFLICT(table_name) DO UPDATE SET last_modified = excluded.last_modified",
    );
    s
}

/// The statement that follows the stamping of a table's rows, with the number of
/// rows that took a stamp: only a table where one did has something to send.
pub fn mark_dirty(table_name: &str, touched: usize) -> (r: Option<Statement>)
    ensures
        match r {
            Some(statement) => touched > 0 && statement@ == (StatementView {
                sql: mark_dirty_query(),
                params: seq![SqlView::Text(table_name@)],
            }),
            None => touched == 0,
        },
{
    if touched == 0 {
        return None;
    }
    let mut params: Vec<SqlValue> = Vec::new();
    params.push(SqlValue::Text(table_name.to_owned()));
    assert(sql_views(params@) =~= seq![SqlView::Text(table_name@)]);
    Some(Statement { sql: mark_dirty_sql(), params })
}

/// Each byte is two digits, letters in lower case, and reads back from them.
pub proof fn lemma_hex_reads_back(bytes: Seq<u8>, i: int)
    requires
        0 <= i < bytes.len(),
    ensures
        hex_text(bytes).len() == 2 * bytes.len(),
        digits_value(hex_text(bytes).subrange(2 * i, 2 * i + 2), 16) == Some(bytes[i] as nat),
        is_written_digit(hex_text(bytes)[2 * i]),
        is_written_digit(hex_text(bytes)[2 * i + 1]),
    decreases bytes.len(),
{
    let rest = bytes.drop_last();
    let n = rest.len() as int;
    let text = hex_text(bytes);
    let b = bytes.last() as nat;
    lemma_hex_length(rest);
    if i < n {
        lemma_hex_reads_back(rest, i);
        assert(text.subrange(2 * i, 2 * i + 2) =~= hex_text(rest).subrange(2 * i, 2 * i + 2));
        assert(rest[i] == bytes[i]);
    } else {
        let pair = text.subrange(2 * n, 2 * n + 2);
        assert(pair =~= seq![digit_char(b / 16), digit_char(b % 16)]);
        assert(pair.drop_last() =~= seq![digit_char(b / 16)]);
        assert(pair.drop_last().drop_last() =~= Seq::<char>::empty());
        assert(digit_value(digit_char(b / 16), 16) == Some(b / 16));
        assert(digit_value(digit_char(b % 16), 16) == Some(b % 16));
        assert(digits_value(pair.drop_last().drop_last(), 16) == Some(0nat));
        assert(digits_value(pair.drop_last(), 16) == Some(b / 16));
    }
}

proof fn lemma_hex_length(bytes: Seq<u8>)
    ensures
        hex_text(bytes).len() == 2 * bytes.len(),
    decreases bytes.len(),
{
    if bytes.len() > 0 {
        lemma_hex_length(bytes.drop_last());
    }
}

/// The signature map holds the signature of every column that has one, and of no
/// other: an empty signature is none.
pub proof fn lemma_every_signature_is_kept(
    columns: Seq<Seq<char>>,
    sigs: Seq<Seq<u8>>,
    n: nat,
    name: Seq<char>,
)
    requires
        n <= columns.len(),
        n <= sigs.len(),
        columns.no_duplicates(),
    ensures
        keys_ascend(signature_map(columns, sigs, n)),
        forall|i: int|
            0 <= i < n && #[trigger] columns[i] == name ==> member(
                signature_map(columns, sigs, n),
                name,
            ) == if sigs[i].len() == 0 {
                None
            } else {
                Some(JsonView::Text(hex_text(sigs[i])))
            },
        (forall|i: int| 0 <= i < n ==> #[trigger] columns[i] != name) ==> member(
            signature_map(columns, sigs, n),
            name,
        ) is None,
    decreases n,
{
    if n > 0 {
        let m = (n - 1) as nat;
        let before = signature_map(columns, sigs, m);
        lemma_every_signature_is_kept(columns, sigs, m, name);
        if sigs[n - 1].len() > 0 {
            lemma_with_member(
                before,
                columns[n - 1],
                JsonView::Text(hex_text(sigs[n - 1])),
                name,
            );
        }
        assert forall|i: int| 0 <= i < n && #[trigger] columns[i] == name implies member(
            signature_map(columns, sigs, n),
            name,
        ) == if sigs[i].len() == 0 {
            None
        } else {
            Some(JsonView::Text(hex_text(sigs[i])))
        } by {
            if i < m {
                assert(columns[i] != columns[n - 1]);
            } else {
                assert forall|j: int| 0 <= j < m implies #[trigger] columns[j] != name by {
                    assert(columns[j] != columns[n - 1]);
                }
            }
        }
    }
}

/// What is signed of a row when a table is taken over is what a scan of that row
/// sends and a merge checks: under the row's key, each data column with its own
/// value and the timestamp of the take-over.
pub proof fn lemma_stamped_rows_can_be_checked<P: SignatureProvider>(
    provider: &P,
    plan: BackfillView,
    cells: Seq<JsonView>,
    hlc: Seq<char>,
    sigs: Seq<Vec<u8>>,
    key: Seq<(Seq<char>, JsonView)>,
    c: ChangeView,
    i: int,
)
    requires
        row_signed(provider, plan, cells, hlc, sigs),
        cells.len() == plan.pks.len() + plan.data.len(),
        0 <= i < sigs.len() <= plan.data.len(),
        key.len() == plan.pks.len(),
        forall|k: int|
            0 <= k < key.len() ==> (#[trigger] key[k]).0 == plan.pks[k] && key[k].1 == cells[k],
        c.table_name == plan.table_name,
        c.row_pks == object_text(key),
        c.column_name == plan.data[i],
        c.hlc_timestamp == hlc,
        c.value == cells[plan.pks.len() + i],
    ensures
        may_sign(provider, preimage(c), Ok(sigs[i])),
{
    assert(key =~= key_members(plan.pks, cells));
    assert(cells.skip(plan.pks.len() as int)[i] == c.value);
    reveal(preimage);
}

} // verus!
