//! Well-known column, table and function names.
//!
//! One suffix governs participation in sync, on tables and on columns:
//! `_no_sync`. What carries it is never shipped and not tracked either: a
//! column that cannot travel must not advance the row's bookkeeping. The three
//! metadata columns below carry the suffix too, so one predicate,
//! [`is_synced_column`], answers for the trigger installer and for the
//! scanner.

use crate::text::ends_with;
use crate::text::text_ends_with;
use vstd::prelude::*;

verus! {

/// Hybrid logical clock timestamp of the row.
pub const HLC_TIMESTAMP_COLUMN: &'static str = "haex_hlc_no_sync";

/// Timestamp of each column, a JSON object in text.
pub const COLUMN_HLCS_COLUMN: &'static str = "haex_column_hlcs_no_sync";

/// Signature of each column, a JSON object in text.
pub const COLUMN_SIGS_COLUMN: &'static str = "haex_column_sigs_no_sync";

/// Delete-event log: one row for each hard delete on a managed table.
pub const DELETED_ROWS_TABLE: &'static str = "haex_deleted_rows";

/// SQL function that returns a fresh random UUID.
pub const UUID_FUNCTION_NAME: &'static str = "gen_uuid";

/// SQL function that returns the current timestamp.
pub const HLC_FUNCTION_NAME: &'static str = "current_hlc";

/// Key-value table for the clock state and the trigger switch.
pub const TABLE_CRDT_CONFIGS: &'static str = "haex_crdt_configs_no_sync";

/// Tables that hold changes not scanned yet.
pub const TABLE_CRDT_DIRTY_TABLES: &'static str = "haex_crdt_dirty_tables_no_sync";

/// Suffix of tables and columns that take no part in sync.
pub const NO_SYNC_SUFFIX: &'static str = "_no_sync";

/// `name` is one of the three metadata columns.
pub open spec fn is_metadata_column(name: Seq<char>) -> bool {
    name == HLC_TIMESTAMP_COLUMN@ || name == COLUMN_HLCS_COLUMN@ || name == COLUMN_SIGS_COLUMN@
}

/// A column that is no primary key takes part in sync unless its name carries
/// the suffix.
pub open spec fn is_synced_column(name: Seq<char>) -> bool {
    !ends_with(name, NO_SYNC_SUFFIX@)
}

/// The suffix rule catches the three metadata columns: none of them is ever
/// shipped or tracked.
pub proof fn lemma_metadata_is_not_synced(name: Seq<char>)
    requires
        is_metadata_column(name),
    ensures
        !is_synced_column(name),
{
    reveal_strlit("haex_hlc_no_sync");
    reveal_strlit("haex_column_hlcs_no_sync");
    reveal_strlit("haex_column_sigs_no_sync");
    reveal_strlit("_no_sync");
    if name == HLC_TIMESTAMP_COLUMN@ {
        assert(HLC_TIMESTAMP_COLUMN@.skip(8) =~= NO_SYNC_SUFFIX@);
    } else if name == COLUMN_HLCS_COLUMN@ {
        assert(COLUMN_HLCS_COLUMN@.skip(16) =~= NO_SYNC_SUFFIX@);
    } else {
        assert(COLUMN_SIGS_COLUMN@.skip(16) =~= NO_SYNC_SUFFIX@);
    }
}

/// A name with the suffix of what takes no part in sync.
pub open spec fn local_name(stem: Seq<char>) -> Seq<char> {
    stem + "_no_sync"@
}

/// What takes no part in sync is what carries the suffix, whatever stands before
/// it.
pub proof fn lemma_suffix_rule(name: Seq<char>)
    ensures
        !is_synced_column(name) <==> exists|stem: Seq<char>| name == #[trigger] local_name(stem),
{
    reveal_strlit("_no_sync");
    let suffix = "_no_sync"@;
    if exists|stem: Seq<char>| name == #[trigger] local_name(stem) {
        let stem = choose|stem: Seq<char>| name == #[trigger] local_name(stem);
        assert(name.skip(name.len() - suffix.len()) =~= suffix);
    }
    if ends_with(name, suffix) {
        let stem = name.take(name.len() - suffix.len());
        assert(name =~= local_name(stem));
    }
}

/// The metadata columns are three.
pub proof fn lemma_metadata_columns_differ()
    ensures
        HLC_TIMESTAMP_COLUMN@ != COLUMN_HLCS_COLUMN@,
        HLC_TIMESTAMP_COLUMN@ != COLUMN_SIGS_COLUMN@,
        COLUMN_HLCS_COLUMN@ != COLUMN_SIGS_COLUMN@,
{
    reveal_strlit("haex_hlc_no_sync");
    reveal_strlit("haex_column_hlcs_no_sync");
    reveal_strlit("haex_column_sigs_no_sync");
    assert(HLC_TIMESTAMP_COLUMN@.len() == 16);
    assert(COLUMN_SIGS_COLUMN@.len() == 24);
    assert(COLUMN_HLCS_COLUMN@[12] == 'h');
    assert(COLUMN_SIGS_COLUMN@[12] == 's');
}

/// True if `name` is one of the three metadata columns.
pub fn names_metadata_column(name: &str) -> (r: bool)
    ensures
        r == is_metadata_column(name@),
{
    name.eq(HLC_TIMESTAMP_COLUMN) || name.eq(COLUMN_HLCS_COLUMN) || name.eq(COLUMN_SIGS_COLUMN)
}

/// True if a column of this name takes part in sync.
pub fn names_synced_column(name: &str) -> (r: bool)
    ensures
        r == is_synced_column(name@),
{
    !text_ends_with(name, NO_SYNC_SUFFIX)
}

} // verus!
