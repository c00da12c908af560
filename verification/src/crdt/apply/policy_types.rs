//! What passes between the merge and the policy that admits rows.

use crate::crdt::scanner::change::ChangeView;
use crate::crdt::scanner::change::ColumnChange;
use crate::crdt::schema::ColumnInfo;
use crate::crdt::value::SqlValue;
use crate::crdt::value::SqlView;
use crate::json::JsonObject;
use crate::json::JsonValue;
use crate::json::JsonView;
use vstd::prelude::*;

verus! {

/// One change with its position in the batch as it came.
#[derive(Debug)]
pub struct IndexedChange {
    pub input_index: usize,
    pub change: ColumnChange,
}

/// What an [`IndexedChange`] stands for.
pub struct IndexedView {
    pub input_index: usize,
    pub change: ChangeView,
}

impl View for IndexedChange {
    type V = IndexedView;

    open spec fn view(&self) -> IndexedView {
        IndexedView { input_index: self.input_index, change: self.change@ }
    }
}

/// What a list of indexed changes stands for.
pub open spec fn indexed_views(v: Seq<IndexedChange>) -> Seq<IndexedView> {
    v.map_values(|c: IndexedChange| c@)
}

/// Everything a policy needs to decide one row. `changes` is the whole group
/// of the row; `eligible_indices` names those that may be written.
pub struct RowInput<'a> {
    pub table_name: &'a str,
    /// Primary-key JSON as it came.
    pub row_pks_json: &'a str,
    pub row_pks: &'a JsonObject,
    pub schema: &'a [ColumnInfo],
    /// Whether the row is there already.
    pub exists: bool,
    pub changes: &'a [IndexedChange],
    pub eligible_indices: &'a [usize],
}

/// How the signature entry of a column is written, if the table has a
/// signature column.
#[derive(Debug)]
pub enum SignatureWrite {
    /// Leave the entry as it is.
    Keep,
    /// Replace it, or take it out.
    Replace(Option<JsonValue>),
}

/// What a [`SignatureWrite`] stands for.
pub enum SignatureView {
    Keep,
    Replace(Option<JsonView>),
}

impl View for SignatureWrite {
    type V = SignatureView;

    open spec fn view(&self) -> SignatureView {
        match self {
            SignatureWrite::Keep => SignatureView::Keep,
            SignatureWrite::Replace(Some(v)) => SignatureView::Replace(Some(v@)),
            SignatureWrite::Replace(None) => SignatureView::Replace(None),
        }
    }
}

/// A policy's verdict on one eligible column.
#[derive(Debug)]
pub enum ColumnDecision {
    Skip,
    /// Admit the decoded value. The merge still compares timestamps.
    Accept { value: SqlValue, signature: SignatureWrite },
}

/// What a [`ColumnDecision`] stands for.
pub enum DecisionView {
    Skip,
    Accept { value: SqlView, signature: SignatureView },
}

impl View for ColumnDecision {
    type V = DecisionView;

    open spec fn view(&self) -> DecisionView {
        match self {
            ColumnDecision::Skip => DecisionView::Skip,
            ColumnDecision::Accept { value, signature } => DecisionView::Accept {
                value: value@,
                signature: signature@,
            },
        }
    }
}

/// What a list of decisions stands for.
pub open spec fn decision_views(v: Seq<ColumnDecision>) -> Seq<DecisionView> {
    v.map_values(|d: ColumnDecision| d@)
}

/// A policy's verdict on one row.
#[derive(Debug)]
pub enum RowDecision {
    /// Drop the row.
    Skip,
    /// One verdict for each eligible column, in order.
    Columns(Vec<ColumnDecision>),
}

/// A policy's verdict after an insert broke a constraint.
#[derive(Clone, Copy, Debug, PartialEq, Eq, Structural)]
pub enum ConstraintDecision {
    /// Drop the row and go on.
    SkipRow,
    /// Give the whole batch up.
    Abort,
}

/// One column of a row write.
pub struct WrittenColumn<'a> {
    pub input_index: usize,
    pub change: &'a ColumnChange,
    pub value: &'a SqlValue,
}

/// A row write: done, or attempted and rolled back.
pub struct RowWrite<'a> {
    pub table_name: &'a str,
    pub row_pks_json: &'a str,
    pub row_pks: &'a JsonObject,
    pub schema: &'a [ColumnInfo],
    pub columns: Vec<WrittenColumn<'a>>,
    pub row_hlc: &'a str,
}

} // verus!
