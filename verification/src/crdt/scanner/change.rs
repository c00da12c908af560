//! The change record.

use crate::json::JsonValue;
use crate::json::JsonView;
use vstd::prelude::*;

verus! {

/// One change of one column of one row.
#[derive(Clone, Debug)]
pub struct ColumnChange {
    pub table_name: String,
    /// JSON object of the primary-key values, keys in declaration order.
    pub row_pks: String,
    pub column_name: String,
    pub hlc_timestamp: String,
    pub value: JsonValue,
    pub device_id: String,
    /// Entry of the signature map for the column, as it stands there.
    pub sig: Option<JsonValue>,
}

/// What a [`ColumnChange`] stands for.
pub struct ChangeView {
    pub table_name: Seq<char>,
    pub row_pks: Seq<char>,
    pub column_name: Seq<char>,
    pub hlc_timestamp: Seq<char>,
    pub value: JsonView,
    pub device_id: Seq<char>,
    pub sig: Option<JsonView>,
}

/// What an optional JSON value stands for.
pub open spec fn sig_view(sig: Option<JsonValue>) -> Option<JsonView> {
    match sig {
        Some(v) => Some(v@),
        None => None,
    }
}

impl View for ColumnChange {
    type V = ChangeView;

    open spec fn view(&self) -> ChangeView {
        ChangeView {
            table_name: self.table_name@,
            row_pks: self.row_pks@,
            column_name: self.column_name@,
            hlc_timestamp: self.hlc_timestamp@,
            value: self.value@,
            device_id: self.device_id@,
            sig: sig_view(self.sig),
        }
    }
}

/// What a list of changes stands for.
pub open spec fn change_views(v: Seq<ColumnChange>) -> Seq<ChangeView> {
    v.map_values(|c: ColumnChange| c@)
}

} // verus!
