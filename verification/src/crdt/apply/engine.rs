//! Merging one row, step by step.
//!
//! The changes of a row pass through three states. An [`OpenRow`] names a row
//! of a table that takes part in the merge; a [`ReadyRow`] knows what is stored
//! and which changes may be written; a [`StagedRow`] knows what to write. Each
//! step takes what the database or the policy answered and gives the next
//! state, or records every change that it drops. What a state still owes the
//! outcome is the number of changes that it holds: no step loses one.

use crate::crdt::apply::batch::RowGroup;
use crate::crdt::apply::delete_propagation::deleted_views;
use crate::crdt::apply::delete_propagation::identity_matches;
use crate::crdt::apply::delete_propagation::insert_shadowed;
use crate::crdt::apply::delete_propagation::key_has;
use crate::crdt::apply::delete_propagation::key_names_exactly;
use crate::crdt::apply::delete_propagation::row_shadowed;
use crate::crdt::apply::delete_propagation::DeletedRow;
use crate::crdt::apply::delete_propagation::DeletedView;
use crate::crdt::apply::lww::lemma_winners_are_newer_than_stored;
use crate::crdt::apply::lww::staged_hlc;
use crate::crdt::apply::pk_where::bind_pk_values;
use crate::crdt::apply::pk_where::build_pk_where_from_map;
use crate::crdt::apply::pk_where::json_views;
use crate::crdt::apply::pk_where::pk_bound;
use crate::crdt::apply::pk_where::pk_clause;
use crate::crdt::apply::pk_where::pk_params;
use crate::crdt::apply::pk_where::pk_usable;
use crate::crdt::apply::policy_types::decision_views;
use crate::crdt::apply::policy_types::indexed_views;
use crate::crdt::apply::policy_types::ConstraintDecision;
use crate::crdt::apply::policy_types::DecisionView;
use crate::crdt::apply::policy_types::IndexedChange;
use crate::crdt::apply::policy_types::IndexedView;
use crate::crdt::apply::policy_types::RowDecision;
use crate::crdt::apply::policy_types::RowInput;
use crate::crdt::apply::policy_types::RowWrite;
use crate::crdt::apply::policy_types::WrittenColumn;
use crate::crdt::apply::report::accounted;
use crate::crdt::apply::report::lemma_counted_all_concat;
use crate::crdt::apply::report::ApplyOutcome;
use crate::crdt::apply::report::ApplyReport;
use crate::crdt::apply::report::SkipReason;
use crate::crdt::apply::report::SkippedChange;
use crate::crdt::apply::row::classify_eligibility;
use crate::crdt::apply::row::indices_in;
use crate::crdt::apply::row::ineligible;
use crate::crdt::apply::row::lemma_holder;
use crate::crdt::apply::row::select_staged_columns;
use crate::crdt::apply::row::staged_views;
use crate::crdt::apply::row::staging;
use crate::crdt::apply::row::StagedColumn;
use crate::crdt::apply::row::StagedView;
use crate::crdt::apply::write::any_signature_write;
use crate::crdt::apply::write::classify_insert_constraint;
use crate::crdt::apply::write::column_hlcs_after;
use crate::crdt::apply::write::fetch_existing_hlcs_sql;
use crate::crdt::apply::write::fetch_sql;
use crate::crdt::apply::write::hlcs_after;
use crate::crdt::apply::write::insert_columns;
use crate::crdt::apply::write::insert_constraint;
use crate::crdt::apply::write::insert_sql;
use crate::crdt::apply::write::insert_values;
use crate::crdt::apply::write::max_hlc;
use crate::crdt::apply::write::merge_signatures;
use crate::crdt::apply::write::newest;
use crate::crdt::apply::write::read_signatures_sql;
use crate::crdt::apply::write::row_hlc_after;
use crate::crdt::apply::write::signatures_sql;
use crate::crdt::apply::write::sigs_after;
use crate::crdt::apply::write::staged_hlcs;
use crate::crdt::apply::write::touches_signatures;
use crate::crdt::apply::write::update_parts;
use crate::crdt::apply::write::update_sql;
use crate::crdt::apply::write::update_values;
use crate::crdt::apply::write::write_insert;
use crate::crdt::apply::write::write_update;
use crate::crdt::apply::write::Statement;
use crate::crdt::apply::write::StatementView;
use crate::crdt::columns::COLUMN_HLCS_COLUMN;
use crate::crdt::columns::COLUMN_SIGS_COLUMN;
use crate::crdt::columns::HLC_TIMESTAMP_COLUMN;
use crate::crdt::columns::TABLE_CRDT_CONFIGS;
use crate::crdt::hlc::hlc_is_newer;
use crate::crdt::hlc::timestamp_before;
use crate::crdt::hlc::timestamp_precedes;
use crate::crdt::hlc::timestamp_value;
use crate::crdt::hlc::HlcTimestamp;
use crate::crdt::identifier::safe_identifier;
use crate::crdt::scanner::emit::key_members;
use crate::crdt::scanner::emit::row_key;
use crate::crdt::schema::column_names;
use crate::crdt::schema::has_column;
use crate::crdt::schema::pk_columns;
use crate::crdt::schema::pk_names;
use crate::crdt::schema::schema_has_column;
use crate::crdt::schema::schema_view;
use crate::crdt::schema::ColumnInfo;
use crate::crdt::schema::ColumnView;
use crate::error::Error;
use crate::json::all_plain;
use crate::json::is_plain;
use crate::json::json_object;
use crate::json::keys_ascend;
use crate::json::keys_distinct;
use crate::json::lemma_ascending_is_distinct;
use crate::json::lemma_same_members_back;
use crate::json::lemma_same_members_read;
use crate::json::member;
use crate::json::object_text;
use crate::json::same_members;
use crate::json::JsonObject;
use crate::json::JsonValue;
use crate::json::JsonView;
use crate::numeral::decimal;
use crate::numeral::numeral;
use crate::text::texts;
use vstd::prelude::*;

verus! {

/// The statement that turns the table triggers on or off; its one parameter
/// is `"1"` or `"0"`.
pub open spec fn toggle_sql() -> Seq<char> {
    "INSERT INTO "@ + TABLE_CRDT_CONFIGS@
        + " (key, type, value) VALUES ('triggers_enabled', 'system', ?1) ON CONFLICT(key) DO UPDATE SET value = ?1"@
}

/// The statement that turns the table triggers on or off.
pub fn toggle_triggers_sql() -> (r: String)
    ensures
        r@ == toggle_sql(),
{
    let mut s = "INSERT INTO ".to_owned();
    s.push_str(TABLE_CRDT_CONFIGS);
    s.push_str(
        " (key, type, value) VALUES ('triggers_enabled', 'system', ?1) ON CONFLICT(key) DO UPDATE SET value = ?1",
    );
    s
}

/// Every timestamp with a node part is a full timestamp. A batch that passed
/// its checks has this property.
pub open spec fn timestamps_checked(changes: Seq<IndexedView>) -> bool {
    forall|i: int|
        0 <= i < changes.len() ==> ((
        #[trigger] changes[i]).change.hlc_timestamp.contains('/') ==> timestamp_value(
            changes[i].change.hlc_timestamp,
        ) is Ok)
}

/// Why the changes of a row cannot be merged at all, if they cannot.
pub open spec fn row_refusal(schema: Seq<ColumnView>, row_pks: Seq<char>) -> Option<SkipReason> {
    if schema.len() == 0 {
        Some(SkipReason::MissingTable)
    } else if !has_column(schema, HLC_TIMESTAMP_COLUMN@) || !has_column(
        schema,
        COLUMN_HLCS_COLUMN@,
    ) {
        Some(SkipReason::MissingCrdtMetadata)
    } else {
        match json_object(row_pks) {
            Some(key) => if identity_matches(pk_names(schema), key) && pk_usable(key) {
                None
            } else {
                Some(SkipReason::InvalidRowIdentity)
            },
            None => Some(SkipReason::InvalidRowIdentity),
        }
    }
}

/// One skip for each change of a group.
pub open spec fn group_skips(changes: Seq<IndexedView>, reason: SkipReason) -> Seq<SkippedChange> {
    changes.map_values(
        |c: IndexedView| SkippedChange { input_index: c.input_index, reason },
    )
}

/// One skip for each of some positions in a group.
pub open spec fn picked_skips(
    changes: Seq<IndexedView>,
    picked: Seq<int>,
    reason: SkipReason,
) -> Seq<SkippedChange> {
    picked.map_values(
        |at: int| SkippedChange { input_index: changes[at].input_index, reason },
    )
}

/// Drops every change of a group.
pub fn skip_whole_group(outcome: &mut ApplyOutcome, changes: &[IndexedChange], reason: SkipReason)
    requires
        accounted(old(outcome).report) + changes@.len() <= usize::MAX,
    ensures
        old(outcome).skipped_more(final(outcome), group_skips(indexed_views(changes@), reason)),
        accounted(final(outcome).report) == accounted(old(outcome).report) + changes@.len(),
{
    let mut skips: Vec<SkippedChange> = Vec::new();
    let mut i: usize = 0;
    while i < changes.len()
        invariant
            i <= changes.len(),
            skips@.len() == i,
            forall|j: int|
                0 <= j < i ==> #[trigger] skips@[j] == (SkippedChange {
                    input_index: changes@[j].input_index,
                    reason,
                }),
        decreases changes.len() - i,
    {
        skips.push(SkippedChange { input_index: changes[i].input_index, reason });
        i += 1;
    }
    assert(skips@ =~= group_skips(indexed_views(changes@), reason));
    outcome.skip_all(skips.as_slice());
}

/// What an [`OpenRow`] stands for. The rest of it follows from this: the names of
/// the key columns from the schema, the clause and its values from the key.
pub struct OpenView {
    pub table_name: Seq<char>,
    pub row_pks_json: Seq<char>,
    pub schema: Seq<ColumnView>,
    pub row_pks: Seq<(Seq<char>, JsonView)>,
    pub changes: Seq<IndexedView>,
}

/// The changes of a row whose table and identity are in order.
#[derive(Debug)]
pub struct OpenRow {
    group: RowGroup,
    schema: Vec<ColumnInfo>,
    pks: Vec<String>,
    row_pks: JsonObject,
    clause: String,
    key: Vec<JsonValue>,
}

impl View for OpenRow {
    type V = OpenView;

    closed spec fn view(&self) -> OpenView {
        OpenView {
            table_name: self.group.table_name@,
            row_pks_json: self.group.row_pks@,
            schema: schema_view(self.schema@),
            row_pks: self.row_pks@,
            changes: indexed_views(self.group.changes@),
        }
    }
}

/// The columns that may be written, as positions in the group.
pub open spec fn eligible_of(
    changes: Seq<IndexedView>,
    schema: Seq<ColumnView>,
    n: nat,
) -> Seq<usize>
    decreases n,
{
    if n == 0 {
        Seq::empty()
    } else {
        let before = eligible_of(changes, schema, (n - 1) as nat);
        match ineligible(
            changes[n - 1].change.column_name,
            column_names(schema),
            pk_names(schema),
        ) {
            None => before.push((n - 1) as usize),
            Some(_) => before,
        }
    }
}

/// The changes to columns that may not be written, each with the reason.
pub open spec fn ineligible_of(
    changes: Seq<IndexedView>,
    schema: Seq<ColumnView>,
    n: nat,
) -> Seq<SkippedChange>
    decreases n,
{
    if n == 0 {
        Seq::empty()
    } else {
        let before = ineligible_of(changes, schema, (n - 1) as nat);
        match ineligible(
            changes[n - 1].change.column_name,
            column_names(schema),
            pk_names(schema),
        ) {
            None => before,
            Some(reason) => before.push(
                SkippedChange { input_index: changes[n - 1].input_index, reason },
            ),
        }
    }
}

/// Every change is either eligible or dropped, and the eligible ones come in
/// order.
pub proof fn lemma_eligible(changes: Seq<IndexedView>, schema: Seq<ColumnView>, n: nat)
    requires
        n <= changes.len() <= usize::MAX,
    ensures
        eligible_of(changes, schema, n).len() + ineligible_of(changes, schema, n).len() == n,
        forall|k: int|
            0 <= k < eligible_of(changes, schema, n).len() ==> (#[trigger] eligible_of(
                changes,
                schema,
                n,
            )[k]) < n,
        forall|i: int, j: int|
            #![trigger eligible_of(changes, schema, n)[i], eligible_of(changes, schema, n)[j]]
            0 <= i < j < eligible_of(changes, schema, n).len() ==> eligible_of(
                changes,
                schema,
                n,
            )[i] < eligible_of(changes, schema, n)[j],
    decreases n,
{
    if n > 0 {
        lemma_eligible(changes, schema, (n - 1) as nat);
    }
}

/// The stored timestamps of a row: the map of its columns, and its own.
#[derive(Debug)]
pub struct StoredRow {
    pub column_hlcs: Option<String>,
    pub row_hlc: Option<String>,
}

/// The map that a stored text stands for; empty where there is none, or none
/// that can be read.
pub open spec fn stored_map(text: Option<Seq<char>>) -> Seq<(Seq<char>, JsonView)> {
    match text {
        Some(t) => match json_object(t) {
            Some(m) => m,
            None => Seq::empty(),
        },
        None => Seq::empty(),
    }
}

/// A text or nothing.
pub open spec fn opt_string(s: Option<String>) -> Option<Seq<char>> {
    match s {
        Some(t) => Some(t@),
        None => None,
    }
}

fn read_stored_map(text: &Option<String>) -> (r: JsonObject)
    ensures
        r@ == stored_map(opt_string(*text)),
        forall|e: Seq<(Seq<char>, JsonView)>|
            opt_string(*text) == Some(#[trigger] object_text(e)) && keys_ascend(e) && all_plain(e)
                ==> r@ == e,
{
    proof {
        assert forall|e: Seq<(Seq<char>, JsonView)>|
            #![trigger object_text(e)]
            keys_ascend(e) implies keys_distinct(e) by {
            lemma_ascending_is_distinct(e);
        }
    }
    match text {
        Some(t) => match JsonObject::parse(t.as_str()) {
            Some(m) => m,
            None => JsonObject::empty(),
        },
        None => JsonObject::empty(),
    }
}

/// `row_pks` is the key that the scanner writes for a row of this table whose
/// first cells are `cells`: the primary-key columns, nulls, booleans, integers
/// and strings, under names that may stand in SQL.
pub open spec fn key_as_scanned(
    schema: Seq<ColumnView>,
    row_pks: Seq<char>,
    cells: Seq<JsonView>,
) -> bool {
    let pks = pk_names(schema);
    &&& row_pks == row_key(pks, cells)
    &&& 0 < pks.len() <= cells.len()
    &&& forall|i: int| 0 <= i < pks.len() ==> is_plain(#[trigger] cells[i])
    &&& forall|i: int| 0 <= i < pks.len() ==> safe_identifier(#[trigger] pks[i])
    &&& forall|i: int, j: int|
        #![trigger pks[i], pks[j]]
        0 <= i < j < pks.len() ==> pks[i] != pks[j]
}

/// `key` holds the cells of the primary-key columns under their names.
pub open spec fn names_row(
    pks: Seq<Seq<char>>,
    cells: Seq<JsonView>,
    key: Seq<(Seq<char>, JsonView)>,
) -> bool {
    key.len() == pks.len() && forall|i: int|
        0 <= i < pks.len() ==> member(key, #[trigger] pks[i]) == Some(cells[i])
}

proof fn lemma_scanned_key_is_read(
    schema: Seq<ColumnView>,
    row_pks: Seq<char>,
    cells: Seq<JsonView>,
    key: Seq<(Seq<char>, JsonView)>,
)
    requires
        key_as_scanned(schema, row_pks, cells),
        keys_ascend(key),
        same_members(key, key_members(pk_names(schema), cells)),
    ensures
        names_row(pk_names(schema), cells, key),
        identity_matches(pk_names(schema), key),
        pk_usable(key),
{
    let pks = pk_names(schema);
    let e = key_members(pks, cells);
    assert(keys_distinct(e)) by {
        assert forall|i: int, j: int|
            #![trigger e[i], e[j]]
            0 <= i < j < e.len() implies e[i].0 != e[j].0 by {
            assert(pks[i] != pks[j]);
        }
    }
    assert forall|i: int| 0 <= i < pks.len() implies member(key, #[trigger] pks[i]) == Some(
        cells[i],
    ) && key_has(key, pks[i]) by {
        lemma_same_members_read(key, e, i);
        assert(key.contains(e[i]));
        let k = choose|k: int| 0 <= k < key.len() && key[k] == e[i];
        assert(key[k].0 == pks[i]);
    }
    assert forall|j: int| 0 <= j < key.len() implies pks.contains(#[trigger] key[j].0)
        && safe_identifier(key[j].0) by {
        lemma_same_members_back(key, e, j);
        let i = choose|i: int| 0 <= i < e.len() && e[i] == key[j];
        assert(pks[i] == key[j].0);
    }
}

/// The row's own timestamp, empty where there is none.
pub open spec fn stored_row_hlc(stored: Option<StoredRow>) -> Seq<char> {
    match stored {
        Some(s) => match s.row_hlc {
            Some(h) => h@,
            None => Seq::empty(),
        },
        None => Seq::empty(),
    }
}

/// The stored timestamps of the row's columns.
pub open spec fn stored_column_hlcs(stored: Option<StoredRow>) -> Seq<(Seq<char>, JsonView)> {
    match stored {
        Some(s) => stored_map(opt_string(s.column_hlcs)),
        None => Seq::empty(),
    }
}

impl OpenRow {
    #[verifier::type_invariant]
    closed spec fn wf(self) -> bool {
        &&& texts(self.pks@) == pk_names(schema_view(self.schema@))
        &&& self.clause@ == pk_clause(self.row_pks@)
        &&& json_views(self.key@) == pk_bound(self.row_pks@)
        &&& timestamps_checked(indexed_views(self.group.changes@))
    }

    /// Opens the changes of a row, given the schema of its table: an empty
    /// schema where there is no table. Where the table or the identity is not
    /// in order every change is dropped. A key that the scanner wrote is in
    /// order, and names the row that it was written for.
    pub fn open(group: RowGroup, schema: Vec<ColumnInfo>, outcome: &mut ApplyOutcome) -> (r: Option<
        OpenRow,
    >)
        requires
            accounted(old(outcome).report) + group.changes@.len() <= usize::MAX,
            timestamps_checked(indexed_views(group.changes@)),
        ensures
            match row_refusal(schema_view(schema@), group.row_pks@) {
                Some(reason) => {
                    &&& r is None
                    &&& old(outcome).skipped_more(final(outcome), group_skips(group@.changes, reason))
                    &&& accounted(final(outcome).report) == accounted(old(outcome).report)
                        + group.changes@.len()
                },
                None => {
                    &&& r matches Some(open)
                    &&& open@ == (OpenView {
                        table_name: group.table_name@,
                        row_pks_json: group.row_pks@,
                        schema: schema_view(schema@),
                        row_pks: json_object(group.row_pks@)->Some_0,
                        changes: group@.changes,
                    })
                    &&& *final(outcome) == *old(outcome)
                },
            },
            forall|cells: Seq<JsonView>|
                #[trigger] key_as_scanned(schema_view(schema@), group.row_pks@, cells)
                    && has_column(schema_view(schema@), HLC_TIMESTAMP_COLUMN@) && has_column(
                    schema_view(schema@),
                    COLUMN_HLCS_COLUMN@,
                ) ==> (r matches Some(open) && names_row(
                    pk_names(schema_view(schema@)),
                    cells,
                    open@.row_pks,
                )),
    {
        let ghost columns = schema_view(schema@);
        if schema.len() == 0 {
            skip_whole_group(outcome, group.changes.as_slice(), SkipReason::MissingTable);
            return None;
        }
        if !schema_has_column(schema.as_slice(), HLC_TIMESTAMP_COLUMN) || !schema_has_column(
            schema.as_slice(),
            COLUMN_HLCS_COLUMN,
        ) {
            skip_whole_group(outcome, group.changes.as_slice(), SkipReason::MissingCrdtMetadata);
            return None;
        }
        let parsed = JsonObject::parse(group.row_pks.as_str());
        proof {
            assert forall|cells: Seq<JsonView>| #[trigger]
                key_as_scanned(columns, group.row_pks@, cells) implies parsed is Some
                && same_members(parsed->Some_0@, key_members(pk_names(columns), cells)) by {
                let pks = pk_names(columns);
                let e = key_members(pks, cells);
                assert forall|i: int, j: int|
                    #![trigger e[i], e[j]]
                    0 <= i < j < e.len() implies e[i].0 != e[j].0 by {
                    assert(pks[i] != pks[j]);
                }
                assert forall|i: int| 0 <= i < e.len() implies is_plain((#[trigger] e[i]).1) by {
                    assert(is_plain(cells[i]));
                }
                assert(group.row_pks@ == object_text(e));
            }
        }
        let row_pks = match parsed {
            Some(m) => m,
            None => {
                skip_whole_group(
                    outcome,
                    group.changes.as_slice(),
                    SkipReason::InvalidRowIdentity,
                );
                return None;
            },
        };
        proof {
            use_type_invariant(&row_pks);
            assert forall|cells: Seq<JsonView>| #[trigger]
                key_as_scanned(columns, group.row_pks@, cells) implies names_row(
                pk_names(columns),
                cells,
                row_pks@,
            ) && identity_matches(pk_names(columns), row_pks@) && pk_usable(row_pks@) by {
                lemma_scanned_key_is_read(columns, group.row_pks@, cells, row_pks@);
            }
        }
        let pks = pk_columns(schema.as_slice());
        if !key_names_exactly(pks.as_slice(), &row_pks) {
            skip_whole_group(outcome, group.changes.as_slice(), SkipReason::InvalidRowIdentity);
            return None;
        }
        match build_pk_where_from_map(&row_pks) {
            Some((clause, key)) => Some(OpenRow { group, schema, pks, row_pks, clause, key }),
            None => {
                skip_whole_group(
                    outcome,
                    group.changes.as_slice(),
                    SkipReason::InvalidRowIdentity,
                );
                None
            },
        }
    }

    /// The query for what is stored of the row.
    pub fn fetch(&self) -> (r: Statement)
        ensures
            r@ == (StatementView {
                sql: fetch_sql(self@.table_name, pk_clause(self@.row_pks)),
                params: pk_params(self@.row_pks),
            }),
    {
        proof {
            use_type_invariant(&*self);
        }
        Statement {
            sql: fetch_existing_hlcs_sql(self.group.table_name.as_str(), self.clause.as_str()),
            params: bind_pk_values(self.key.as_slice()),
        }
    }

    /// Takes what is stored of the row, nothing where the row is absent, and
    /// drops the changes to columns that may not be written. Column timestamps
    /// that an earlier write left are read back as they were written.
    pub fn classify(self, stored: Option<StoredRow>, outcome: &mut ApplyOutcome) -> (r: ReadyRow)
        requires
            accounted(old(outcome).report) + self@.changes.len() <= usize::MAX,
        ensures
            r@ == (ReadyView {
                open: self@,
                exists: stored is Some,
                row_hlc: stored_row_hlc(stored),
                column_hlcs: stored_column_hlcs(stored),
                eligible: eligible_of(self@.changes, self@.schema, self@.changes.len()),
            }),
            old(outcome).skipped_more(
                final(outcome),
                ineligible_of(self@.changes, self@.schema, self@.changes.len()),
            ),
            accounted(final(outcome).report) + r@.eligible.len() == accounted(old(outcome).report)
                + self@.changes.len(),
            forall|e: Seq<(Seq<char>, JsonView)>|
                stored matches Some(s) && opt_string(s.column_hlcs) == Some(
                    #[trigger] object_text(e),
                ) && keys_ascend(e) && all_plain(e) ==> r@.column_hlcs == e,
    {
        proof {
            use_type_invariant(&self);
        }
        let ghost changes = self@.changes;
        let ghost schema = self@.schema;
        let names = names_of(self.schema.as_slice());
        let mut eligible: Vec<usize> = Vec::new();
        let mut skips: Vec<SkippedChange> = Vec::new();
        let mut i: usize = 0;
        while i < self.group.changes.len()
            invariant
                i <= self.group.changes.len(),
                changes == indexed_views(self.group.changes@),
                schema == schema_view(self.schema@),
                texts(names@) == column_names(schema),
                texts(self.pks@) == pk_names(schema),
                eligible@ == eligible_of(changes, schema, i as nat),
                skips@ == ineligible_of(changes, schema, i as nat),
            decreases self.group.changes.len() - i,
        {
            let c = &self.group.changes[i];
            assert(changes[i as int] == c@);
            match classify_eligibility(
                c.change.column_name.as_str(),
                names.as_slice(),
                self.pks.as_slice(),
            ) {
                Ok(()) => {
                    eligible.push(i);
                },
                Err(reason) => {
                    skips.push(SkippedChange { input_index: c.input_index, reason });
                },
            }
            i += 1;
        }
        proof {
            lemma_eligible(changes, schema, changes.len());
        }
        outcome.skip_all(skips.as_slice());
        let exists = stored.is_some();
        let (row_hlc, column_hlcs) = match stored {
            Some(s) => {
                let map = read_stored_map(&s.column_hlcs);
                match s.row_hlc {
                    Some(h) => (h, map),
                    None => (String::new(), map),
                }
            },
            None => (String::new(), JsonObject::empty()),
        };
        assert(row_hlc@ =~= stored_row_hlc(stored));
        ReadyRow { open: self, exists, row_hlc, column_hlcs, eligible }
    }
}

fn names_of(schema: &[ColumnInfo]) -> (r: Vec<String>)
    ensures
        texts(r@) == column_names(schema_view(schema@)),
{
    let mut out: Vec<String> = Vec::new();
    let mut i: usize = 0;
    while i < schema.len()
        invariant
            i <= schema.len(),
            out@.len() == i,
            forall|j: int| 0 <= j < i ==> (#[trigger] out@[j])@ == schema@[j].name@,
        decreases schema.len() - i,
    {
        out.push(schema[i].name.clone());
        i += 1;
    }
    assert(texts(out@) =~= column_names(schema_view(schema@)));
    out
}

/// What a [`ReadyRow`] stands for.
pub struct ReadyView {
    pub open: OpenView,
    pub exists: bool,
    pub row_hlc: Seq<char>,
    pub column_hlcs: Seq<(Seq<char>, JsonView)>,
    pub eligible: Seq<usize>,
}

/// A row with what is stored of it and the changes that may be written.
#[derive(Debug)]
pub struct ReadyRow {
    open: OpenRow,
    exists: bool,
    row_hlc: String,
    column_hlcs: JsonObject,
    eligible: Vec<usize>,
}

impl View for ReadyRow {
    type V = ReadyView;

    closed spec fn view(&self) -> ReadyView {
        ReadyView {
            open: self.open@,
            exists: self.exists,
            row_hlc: self.row_hlc@,
            column_hlcs: self.column_hlcs@,
            eligible: self.eligible@,
        }
    }
}

/// Every verdict either stages a change or drops one.
proof fn lemma_staging_counts(
    group: Seq<IndexedView>,
    stored: Seq<(Seq<char>, JsonView)>,
    eligible: Seq<usize>,
    decisions: Seq<DecisionView>,
    n: nat,
)
    requires
        n <= eligible.len(),
        indices_in(eligible, group),
    ensures
        ({
            let st = staging(group, stored, eligible, decisions, n);
            &&& st.staged.len() + st.skips.len() == n
            &&& forall|j: int|
                0 <= j < st.staged.len() ==> 0 <= (#[trigger] st.staged[j]).at < group.len()
        }),
    decreases n,
{
    if n > 0 {
        lemma_staging_counts(group, stored, eligible, decisions, (n - 1) as nat);
        let before = staging(group, stored, eligible, decisions, (n - 1) as nat);
        let at = eligible[n - 1] as int;
        lemma_holder(before.staged, group, group[at].change.column_name);
        assert(at < group.len());
    }
}

/// The positions of staged columns in the group.
pub open spec fn staged_at(staged: Seq<StagedView>) -> Seq<int> {
    staged.map_values(|s: StagedView| s.at)
}

/// The positions of eligible columns in the group.
pub open spec fn eligible_at(eligible: Seq<usize>) -> Seq<int> {
    eligible.map_values(|i: usize| i as int)
}

/// The report of verdicts that do not match the eligible columns.
pub open spec fn mismatch_message(got: nat, want: nat, table: Seq<char>) -> Seq<char> {
    "policy returned "@ + numeral(got, 10) + " column decisions for "@ + numeral(want, 10)
        + " eligible columns in table '"@ + table + "'"@
}

/// What staging the verdicts of a policy gives.
pub open spec fn row_staging(
    r: ReadyView,
    decisions: Seq<DecisionView>,
) -> crate::crdt::apply::row::Staging {
    staging(r.open.changes, r.column_hlcs, r.eligible, decisions, r.eligible.len())
}

/// A fresh row that the delete log holds back.
pub open spec fn held_back(r: ReadyView, staged: Seq<StagedView>, log: Seq<DeletedView>) -> bool {
    !r.exists && row_shadowed(
        r.open.table_name,
        r.open.row_pks,
        newest(staged_hlcs(staged, r.open.changes)),
        log,
    )
}

impl ReadyRow {
    #[verifier::type_invariant]
    closed spec fn wf(self) -> bool {
        &&& indices_in(self.eligible@, indexed_views(self.open.group.changes@))
        &&& timestamps_checked(indexed_views(self.open.group.changes@))
    }

    /// What the policy is asked about.
    pub fn input(&self) -> (r: RowInput<'_>)
        ensures
            r.table_name@ == self@.open.table_name,
            r.row_pks_json@ == self@.open.row_pks_json,
            r.row_pks@ == self@.open.row_pks,
            schema_view(r.schema@) == self@.open.schema,
            r.exists == self@.exists,
            indexed_views(r.changes@) == self@.open.changes,
            r.eligible_indices@ == self@.eligible,
            indices_in(r.eligible_indices@, indexed_views(r.changes@)),
    {
        proof {
            use_type_invariant(&*self);
        }
        RowInput {
            table_name: self.open.group.table_name.as_str(),
            row_pks_json: self.open.group.row_pks.as_str(),
            row_pks: &self.open.row_pks,
            schema: self.open.schema.as_slice(),
            exists: self.exists,
            changes: self.open.group.changes.as_slice(),
            eligible_indices: self.eligible.as_slice(),
        }
    }

    /// Takes the verdict of the policy. Changes that lose are dropped, and so
    /// is a fresh row that the delete log holds back. Verdicts that do not match
    /// the eligible columns give the batch up.
    pub fn decide(
        self,
        decision: RowDecision,
        log: &[DeletedRow],
        outcome: &mut ApplyOutcome,
    ) -> (r: Result<Option<StagedRow>, Error>)
        requires
            accounted(old(outcome).report) + self@.eligible.len() <= usize::MAX,
        ensures
            match decision {
                RowDecision::Skip => {
                    &&& r matches Ok(None)
                    &&& old(outcome).skipped_more(
                        final(outcome),
                        picked_skips(
                            self@.open.changes,
                            eligible_at(self@.eligible),
                            SkipReason::Policy,
                        ),
                    )
                },
                RowDecision::Columns(d) => if d@.len() != self@.eligible.len() {
                    &&& r matches Err(Error::Message(reason))
                    &&& reason@ == mismatch_message(
                        d@.len(),
                        self@.eligible.len(),
                        self@.open.table_name,
                    )
                    &&& *final(outcome) == *old(outcome)
                } else {
                    let st = row_staging(self@, decision_views(d@));
                    if st.staged.len() == 0 {
                        &&& r matches Ok(None)
                        &&& old(outcome).skipped_more(final(outcome), st.skips)
                    } else if held_back(self@, st.staged, deleted_views(log@)) {
                        &&& r matches Ok(None)
                        &&& old(outcome).skipped_more(
                            final(outcome),
                            st.skips + picked_skips(
                                self@.open.changes,
                                staged_at(st.staged),
                                SkipReason::ShadowedByDelete,
                            ),
                        )
                    } else {
                        &&& r matches Ok(Some(s))
                        &&& s@ == (StagedRowView {
                            ready: self@,
                            staged: st.staged,
                            row_hlc: row_hlc_after(
                                self@.exists,
                                self@.row_hlc,
                                newest(staged_hlcs(st.staged, self@.open.changes)),
                            ),
                        })
                        &&& old(outcome).skipped_more(final(outcome), st.skips)
                    }
                },
            },
            r matches Ok(Some(s)) ==> winners_stamped(s@),
            r matches Ok(next) ==> accounted(final(outcome).report) + (match next {
                Some(s) => s@.staged.len(),
                None => 0nat,
            }) == accounted(old(outcome).report) + self@.eligible.len(),
    {
        proof {
            use_type_invariant(&self);
        }
        let ghost changes = self@.open.changes;
        let decisions = match decision {
            RowDecision::Skip => {
                skip_picked(
                    outcome,
                    self.open.group.changes.as_slice(),
                    self.eligible.as_slice(),
                    SkipReason::Policy,
                );
                return Ok(None);
            },
            RowDecision::Columns(d) => d,
        };
        if decisions.len() != self.eligible.len() {
            let mut s = "policy returned ".to_owned();
            s.push_str(decimal(decisions.len() as u64).as_str());
            s.push_str(" column decisions for ");
            s.push_str(decimal(self.eligible.len() as u64).as_str());
            s.push_str(" eligible columns in table '");
            s.push_str(self.open.group.table_name.as_str());
            s.push_str("'");
            return Err(Error::Message(s));
        }
        let ghost dv = decision_views(decisions@);
        let ghost st = row_staging(self@, dv);
        proof {
            lemma_staging_counts(changes, self@.column_hlcs, self@.eligible, dv, self@.eligible.len());
            lemma_winners_are_newer_than_stored(
                changes,
                self@.column_hlcs,
                self@.eligible,
                dv,
                self@.eligible.len(),
            );
        }
        let (staged, skips) = select_staged_columns(
            self.open.group.changes.as_slice(),
            self.eligible.as_slice(),
            decisions,
            &self.column_hlcs,
        );
        outcome.skip_all(skips.as_slice());
        if staged.len() == 0 {
            return Ok(None);
        }
        let newest_hlc = max_hlc(staged.as_slice(), self.open.group.changes.as_slice());
        if !self.exists && insert_shadowed(
            self.open.group.table_name.as_str(),
            &self.open.row_pks,
            newest_hlc.as_str(),
            log,
        ) {
            let ghost middle = *outcome;
            let at = positions_of(staged.as_slice());
            assert(eligible_at(at@) =~= staged_at(st.staged));
            skip_picked(
                outcome,
                self.open.group.changes.as_slice(),
                at.as_slice(),
                SkipReason::ShadowedByDelete,
            );
            proof {
                lemma_counted_all_concat(
                    old(outcome).report,
                    st.skips,
                    picked_skips(changes, staged_at(st.staged), SkipReason::ShadowedByDelete),
                );
                assert(outcome.skipped@ =~= old(outcome).skipped@ + (st.skips + picked_skips(
                    changes,
                    staged_at(st.staged),
                    SkipReason::ShadowedByDelete,
                )));
            }
            return Ok(None);
        }
        let row_hlc = if self.exists && hlc_is_newer(self.row_hlc.as_str(), newest_hlc.as_str()) {
            self.row_hlc.clone()
        } else {
            newest_hlc
        };
        proof {
            assert forall|j: int| 0 <= j < staged@.len() implies timestamp_value(
                #[trigger] staged_hlc(staged_views(staged@)[j], changes),
            ) is Ok by {
                assert(st.staged[j] == staged_views(staged@)[j]);
                assert(changes[st.staged[j].at].change.hlc_timestamp.contains('/'));
            }
        }
        Ok(Some(StagedRow { ready: self, staged, row_hlc }))
    }
}

/// Drops the changes at some positions of a group.
fn skip_picked(
    outcome: &mut ApplyOutcome,
    changes: &[IndexedChange],
    picked: &[usize],
    reason: SkipReason,
)
    requires
        accounted(old(outcome).report) + picked@.len() <= usize::MAX,
        indices_in(picked@, indexed_views(changes@)),
    ensures
        old(outcome).skipped_more(
            final(outcome),
            picked_skips(indexed_views(changes@), eligible_at(picked@), reason),
        ),
        accounted(final(outcome).report) == accounted(old(outcome).report) + picked@.len(),
{
    let mut skips: Vec<SkippedChange> = Vec::new();
    let mut i: usize = 0;
    while i < picked.len()
        invariant
            i <= picked.len(),
            indices_in(picked@, indexed_views(changes@)),
            skips@.len() == i,
            forall|j: int|
                0 <= j < i ==> #[trigger] skips@[j] == (SkippedChange {
                    input_index: changes@[picked@[j] as int].input_index,
                    reason,
                }),
        decreases picked.len() - i,
    {
        let at: usize = picked[i];
        skips.push(SkippedChange { input_index: changes[at].input_index, reason });
        i += 1;
    }
    assert(skips@ =~= picked_skips(indexed_views(changes@), eligible_at(picked@), reason));
    outcome.skip_all(skips.as_slice());
}

/// The positions of staged columns in the group.
fn positions_of(staged: &[StagedColumn]) -> (r: Vec<usize>)
    ensures
        r@.len() == staged@.len(),
        forall|j: int| 0 <= j < r@.len() ==> #[trigger] r@[j] == staged@[j].at,
{
    let mut out: Vec<usize> = Vec::new();
    let mut i: usize = 0;
    while i < staged.len()
        invariant
            i <= staged.len(),
            out@.len() == i,
            forall|j: int| 0 <= j < i ==> #[trigger] out@[j] == staged@[j].at,
        decreases staged.len() - i,
    {
        out.push(staged[i].at);
        i += 1;
    }
    out
}

/// Every column that won carries a full timestamp.
pub open spec fn winners_stamped(s: StagedRowView) -> bool {
    forall|j: int|
        0 <= j < s.staged.len() ==> timestamp_value(
            #[trigger] staged_hlc(s.staged[j], s.ready.open.changes),
        ) is Ok
}

/// What a [`StagedRow`] stands for.
pub struct StagedRowView {
    pub ready: ReadyView,
    pub staged: Seq<StagedView>,
    pub row_hlc: Seq<char>,
}

/// A row with the columns that won and its new timestamp.
#[derive(Debug)]
pub struct StagedRow {
    ready: ReadyRow,
    staged: Vec<StagedColumn>,
    row_hlc: String,
}

impl View for StagedRow {
    type V = StagedRowView;

    closed spec fn view(&self) -> StagedRowView {
        StagedRowView {
            ready: self.ready@,
            staged: staged_views(self.staged@),
            row_hlc: self.row_hlc@,
        }
    }
}

/// The columns of the row carry signatures, the row is there, and some
/// signature is replaced: the stored ones have to be read first.
pub open spec fn wants_signatures(s: StagedRowView) -> bool {
    s.ready.exists && has_column(s.ready.open.schema, COLUMN_SIGS_COLUMN@) && touches_signatures(
        s.staged,
    )
}

/// The timestamps of the row's columns after the write, in JSON.
pub open spec fn hlcs_json(s: StagedRowView) -> Seq<char> {
    object_text(hlcs_after(s.ready.column_hlcs, s.staged, s.ready.open.changes))
}

/// The statement that writes the row: an UPDATE where the row is there, an
/// INSERT where it is not. `signatures` is the stored signature text.
pub open spec fn write_statement(
    s: StagedRowView,
    signatures: Option<Seq<char>>,
) -> StatementView {
    let open = s.ready.open;
    if s.ready.exists {
        let sigs = if wants_signatures(s) {
            Some(object_text(sigs_after(stored_map(signatures), s.staged, open.changes)))
        } else {
            None
        };
        StatementView {
            sql: update_sql(
                open.table_name,
                update_parts(s.staged, open.changes, sigs is Some),
                pk_clause(open.row_pks),
            ),
            params: update_values(
                s.staged,
                hlcs_json(s),
                s.row_hlc,
                sigs,
                pk_params(open.row_pks),
            ),
        }
    } else {
        let with_sigs = has_column(open.schema, COLUMN_SIGS_COLUMN@);
        StatementView {
            sql: insert_sql(
                open.table_name,
                insert_columns(pk_names(open.schema), s.staged, open.changes, with_sigs),
            ),
            params: insert_values(
                pk_names(open.schema),
                open.row_pks,
                s.staged,
                open.changes,
                hlcs_json(s),
                s.row_hlc,
                with_sigs,
            ),
        }
    }
}

/// `newest` is a full timestamp, where there is one.
pub open spec fn clock_ok(newest: Option<Seq<char>>) -> bool {
    match newest {
        Some(t) => timestamp_value(t) is Ok,
        None => true,
    }
}

/// The newer of the newest timestamp so far and one more. The first of two
/// equal ones stays.
pub open spec fn folded(newest: Option<Seq<char>>, hlc: Seq<char>) -> Option<Seq<char>> {
    match newest {
        None => Some(hlc),
        Some(n) => if timestamp_before(
            timestamp_value(n)->Ok_0,
            timestamp_value(hlc)->Ok_0,
        ) {
            Some(hlc)
        } else {
            Some(n)
        },
    }
}

/// The newest timestamp after some more.
pub open spec fn folded_all(newest: Option<Seq<char>>, hlcs: Seq<Seq<char>>) -> Option<Seq<char>>
    decreases hlcs.len(),
{
    if hlcs.len() == 0 {
        newest
    } else {
        folded(folded_all(newest, hlcs.drop_last()), hlcs.last())
    }
}

/// The clock never moves back, covers every timestamp that was written, and
/// stands on one of them or where it stood: a change that was dropped does
/// not move it.
pub proof fn lemma_clock_covers_what_landed(newest: Option<Seq<char>>, hlcs: Seq<Seq<char>>)
    requires
        clock_ok(newest),
        forall|i: int| 0 <= i < hlcs.len() ==> timestamp_value(#[trigger] hlcs[i]) is Ok,
    ensures
        clock_ok(folded_all(newest, hlcs)),
        folded_all(newest, hlcs) == newest || (folded_all(newest, hlcs) matches Some(n)
            && hlcs.contains(n)),
        forall|i: int|
            0 <= i < hlcs.len() ==> (folded_all(newest, hlcs) matches Some(n)
                && timestamp_value(n)->Ok_0.time >= timestamp_value(
                #[trigger] hlcs[i],
            )->Ok_0.time),
        newest matches Some(o) ==> (folded_all(newest, hlcs) matches Some(n)
            && timestamp_value(n)->Ok_0.time >= timestamp_value(o)->Ok_0.time),
    decreases hlcs.len(),
{
    if hlcs.len() > 0 {
        let rest = hlcs.drop_last();
        assert forall|i: int| 0 <= i < rest.len() implies timestamp_value(
            #[trigger] rest[i],
        ) is Ok by {
            assert(rest[i] == hlcs[i]);
        }
        lemma_clock_covers_what_landed(newest, rest);
        let before = folded_all(newest, rest);
        let after = folded_all(newest, hlcs);
        assert(hlcs.last() == hlcs[hlcs.len() - 1]);
        assert forall|i: int| 0 <= i < hlcs.len() implies (after matches Some(n)
            && timestamp_value(n)->Ok_0.time >= timestamp_value(
            #[trigger] hlcs[i],
        )->Ok_0.time) by {
            if i < rest.len() {
                assert(rest[i] == hlcs[i]);
            }
        }
        if after == before && before != newest {
            let n = before->Some_0;
            let k = choose|k: int| 0 <= k < rest.len() && rest[k] == n;
            assert(hlcs[k] == n);
        }
    }
}

/// Moves the newest timestamp on to `hlc` where that is newer.
pub fn fold_max_accepted_hlc(newest: &mut Option<String>, hlc: &str)
    requires
        clock_ok(opt_string(*old(newest))),
        timestamp_value(hlc@) is Ok,
    ensures
        opt_string(*final(newest)) == folded(opt_string(*old(newest)), hlc@),
{
    let is_newer = match &*newest {
        Some(current) => match (
            HlcTimestamp::parse(current.as_str()),
            HlcTimestamp::parse(hlc),
        ) {
            (Ok(c), Ok(h)) => timestamp_precedes(c, h),
            _ => false,
        },
        None => true,
    };
    if is_newer {
        *newest = Some(hlc.to_owned());
    }
}

/// The report with `n` more changes applied.
pub open spec fn applied_more(r: ApplyReport, n: nat) -> ApplyReport {
    ApplyReport { applied: (r.applied + n) as usize, ..r }
}

/// What follows a write that failed.
#[derive(Clone, Copy, Debug, PartialEq, Eq, Structural)]
pub enum Failure {
    /// The insert broke a constraint: the savepoint is rolled back, and the
    /// policy asked.
    Constraint(SkipReason),
    /// The batch is given up.
    Abort,
}

/// What `w` names of the row: the columns that won, in order.
pub open spec fn describes(w: RowWrite<'_>, s: StagedRowView) -> bool {
    &&& w.table_name@ == s.ready.open.table_name
    &&& w.row_pks_json@ == s.ready.open.row_pks_json
    &&& w.row_pks@ == s.ready.open.row_pks
    &&& schema_view(w.schema@) == s.ready.open.schema
    &&& w.row_hlc@ == s.row_hlc
    &&& w.columns@.len() == s.staged.len()
    &&& forall|j: int|
        0 <= j < s.staged.len() ==> {
            let c = #[trigger] w.columns@[j];
            let at = s.staged[j].at;
            &&& c.input_index == s.ready.open.changes[at].input_index
            &&& c.change@ == s.ready.open.changes[at].change
            &&& c.value@ == s.staged[j].value
        }
}

impl StagedRow {
    #[verifier::type_invariant]
    closed spec fn wf(self) -> bool {
        let changes = indexed_views(self.ready.open.group.changes@);
        &&& forall|j: int|
            0 <= j < self.staged@.len() ==> (#[trigger] self.staged@[j]).at
                < self.ready.open.group.changes@.len()
        &&& forall|j: int|
            0 <= j < self.staged@.len() ==> timestamp_value(
                #[trigger] staged_hlc(staged_views(self.staged@)[j], changes),
            ) is Ok
    }

    /// Whether the stored signatures have to be read before the write.
    pub fn needs_signatures(&self) -> (r: bool)
        ensures
            r == wants_signatures(self@),
    {
        self.ready.exists && schema_has_column(
            self.ready.open.schema.as_slice(),
            COLUMN_SIGS_COLUMN,
        ) && any_signature_write(self.staged.as_slice())
    }

    /// The query for the stored signatures.
    pub fn fetch_signatures(&self) -> (r: Statement)
        ensures
            r@ == (StatementView {
                sql: signatures_sql(
                    self@.ready.open.table_name,
                    pk_clause(self@.ready.open.row_pks),
                ),
                params: pk_params(self@.ready.open.row_pks),
            }),
    {
        let open = &self.ready.open;
        proof {
            use_type_invariant(open);
        }
        Statement {
            sql: read_signatures_sql(open.group.table_name.as_str(), open.clause.as_str()),
            params: bind_pk_values(open.key.as_slice()),
        }
    }

    /// The statement that writes the row. `signatures` is what
    /// [`StagedRow::fetch_signatures`] found; it matters only where
    /// [`StagedRow::needs_signatures`] holds.
    pub fn statement(&self, signatures: &Option<String>) -> (r: Statement)
        ensures
            r@ == write_statement(self@, opt_string(*signatures)),
    {
        let open = &self.ready.open;
        proof {
            use_type_invariant(open);
            use_type_invariant(&*self);
        }
        let hlcs = column_hlcs_after(
            &self.ready.column_hlcs,
            self.staged.as_slice(),
            open.group.changes.as_slice(),
        ).to_json();
        let has_sigs = schema_has_column(open.schema.as_slice(), COLUMN_SIGS_COLUMN);
        if self.ready.exists {
            let key = bind_pk_values(open.key.as_slice());
            if has_sigs && any_signature_write(self.staged.as_slice()) {
                let merged = merge_signatures(
                    read_stored_map(signatures),
                    self.staged.as_slice(),
                    open.group.changes.as_slice(),
                ).to_json();
                write_update(
                    open.group.table_name.as_str(),
                    self.staged.as_slice(),
                    open.group.changes.as_slice(),
                    hlcs.as_str(),
                    self.row_hlc.as_str(),
                    Some(merged.as_str()),
                    open.clause.as_str(),
                    key,
                )
            } else {
                write_update(
                    open.group.table_name.as_str(),
                    self.staged.as_slice(),
                    open.group.changes.as_slice(),
                    hlcs.as_str(),
                    self.row_hlc.as_str(),
                    None,
                    open.clause.as_str(),
                    key,
                )
            }
        } else {
            write_insert(
                open.group.table_name.as_str(),
                open.pks.as_slice(),
                &open.row_pks,
                self.staged.as_slice(),
                open.group.changes.as_slice(),
                hlcs.as_str(),
                self.row_hlc.as_str(),
                has_sigs,
            )
        }
    }

    /// What the policy is told of the write.
    pub fn written(&self) -> (r: RowWrite<'_>)
        ensures
            describes(r, self@),
    {
        proof {
            use_type_invariant(&*self);
        }
        let mut columns: Vec<WrittenColumn<'_>> = Vec::new();
        let mut i: usize = 0;
        let group = &self.ready.open.group;
        while i < self.staged.len()
            invariant
                i <= self.staged.len(),
                *group == self.ready.open.group,
                columns@.len() == i,
                forall|j: int|
                    0 <= j < self.staged@.len() ==> (#[trigger] self.staged@[j]).at
                        < group.changes@.len(),
                forall|j: int|
                    0 <= j < i ==> {
                        let c = #[trigger] columns@[j];
                        let at = self@.staged[j].at;
                        &&& c.input_index == self@.ready.open.changes[at].input_index
                        &&& c.change@ == self@.ready.open.changes[at].change
                        &&& c.value@ == self@.staged[j].value
                    },
            decreases self.staged.len() - i,
        {
            let s = &self.staged[i];
            let c = &group.changes[s.at];
            assert(self@.staged[i as int] == s@);
            assert(self@.ready.open.changes[s.at as int] == c@);
            columns.push(
                WrittenColumn { input_index: c.input_index, change: &c.change, value: &s.value },
            );
            i += 1;
        }
        RowWrite {
            table_name: group.table_name.as_str(),
            row_pks_json: group.row_pks.as_str(),
            row_pks: &self.ready.open.row_pks,
            schema: self.ready.open.schema.as_slice(),
            columns,
            row_hlc: self.row_hlc.as_str(),
        }
    }

    /// Whether the merge goes on after a write that changed this many rows: one
    /// that changed none did not land, and the batch is given up.
    pub fn on_changed(&self, rows: usize) -> (r: bool)
        ensures
            r == (rows > 0),
    {
        rows > 0
    }

    /// What follows an error of the write with this extended code. Only an
    /// insert is recovered from.
    pub fn on_failure(&self, extended_code: i32) -> (r: Failure)
        ensures
            r == match insert_constraint(extended_code) {
                Some(reason) if !self@.ready.exists => Failure::Constraint(reason),
                _ => Failure::Abort,
            },
    {
        if self.ready.exists {
            return Failure::Abort;
        }
        match classify_insert_constraint(extended_code) {
            Some(reason) => Failure::Constraint(reason),
            None => Failure::Abort,
        }
    }

    /// The write and the policy's hook succeeded: the changes count as applied
    /// and their timestamps reach the clock.
    pub fn confirm(self, outcome: &mut ApplyOutcome, clock: &mut Option<String>)
        requires
            accounted(old(outcome).report) + self@.staged.len() <= usize::MAX,
            clock_ok(opt_string(*old(clock))),
        ensures
            final(outcome).skipped@ == old(outcome).skipped@,
            final(outcome).report == applied_more(old(outcome).report, self@.staged.len()),
            accounted(final(outcome).report) == accounted(old(outcome).report)
                + self@.staged.len(),
            opt_string(*final(clock)) == folded_all(
                opt_string(*old(clock)),
                staged_hlcs(self@.staged, self@.ready.open.changes),
            ),
            clock_ok(opt_string(*final(clock))),
    {
        proof {
            use_type_invariant(&self);
        }
        outcome.report.applied += self.staged.len();
        let ghost changes = self@.ready.open.changes;
        let ghost hlcs = staged_hlcs(self@.staged, changes);
        let mut i: usize = 0;
        assert(hlcs.take(0) =~= Seq::<Seq<char>>::empty());
        while i < self.staged.len()
            invariant
                i <= self.staged.len(),
                changes == indexed_views(self.ready.open.group.changes@),
                hlcs == staged_hlcs(staged_views(self.staged@), changes),
                forall|j: int|
                    0 <= j < self.staged@.len() ==> (#[trigger] self.staged@[j]).at
                        < self.ready.open.group.changes@.len(),
                forall|j: int|
                    0 <= j < self.staged@.len() ==> timestamp_value(
                        #[trigger] staged_hlc(staged_views(self.staged@)[j], changes),
                    ) is Ok,
                opt_string(*clock) == folded_all(opt_string(*old(clock)), hlcs.take(i as int)),
                clock_ok(opt_string(*clock)),
            decreases self.staged.len() - i,
        {
            let at: usize = self.staged[i].at;
            assert(staged_views(self.staged@)[i as int].at == at);
            assert(changes[at as int] == self.ready.open.group.changes@[at as int]@);
            assert(timestamp_value(staged_hlc(staged_views(self.staged@)[i as int], changes)) is Ok);
            let ghost next = hlcs.take(i + 1);
            assert(next.drop_last() =~= hlcs.take(i as int));
            assert(next.last() == hlcs[i as int]);
            fold_max_accepted_hlc(clock, self.ready.open.group.changes[at].change.hlc_timestamp.as_str());
            i += 1;
        }
        assert(hlcs.take(i as int) =~= hlcs);
    }

    /// The insert broke a constraint and the policy said what to do: drop the
    /// row, or give the batch up. True if the merge goes on.
    pub fn recover(
        self,
        decision: ConstraintDecision,
        reason: SkipReason,
        outcome: &mut ApplyOutcome,
    ) -> (r: bool)
        requires
            accounted(old(outcome).report) + self@.staged.len() <= usize::MAX,
        ensures
            r == (decision == ConstraintDecision::SkipRow),
            !r ==> *final(outcome) == *old(outcome),
            r ==> old(outcome).skipped_more(
                final(outcome),
                picked_skips(self@.ready.open.changes, staged_at(self@.staged), reason),
            ),
            r ==> accounted(final(outcome).report) == accounted(old(outcome).report)
                + self@.staged.len(),
    {
        proof {
            use_type_invariant(&self);
        }
        match decision {
            ConstraintDecision::SkipRow => {
                let at = positions_of(self.staged.as_slice());
                assert(eligible_at(at@) =~= staged_at(self@.staged));
                skip_picked(
                    outcome,
                    self.ready.open.group.changes.as_slice(),
                    at.as_slice(),
                    reason,
                );
                true
            },
            ConstraintDecision::Abort => false,
        }
    }
}

} // verus!
