//! Which changes of a row win.
//!
//! The policy's verdicts on the eligible columns are taken in order. An
//! admitted change wins its column if it is strictly newer than what is stored
//! and than what won the column before it in the same batch.

use crate::crdt::apply::policy_types::decision_views;
use crate::crdt::apply::policy_types::indexed_views;
use crate::crdt::apply::policy_types::ColumnDecision;
use crate::crdt::apply::policy_types::DecisionView;
use crate::crdt::apply::policy_types::IndexedChange;
use crate::crdt::apply::policy_types::IndexedView;
use crate::crdt::apply::policy_types::SignatureView;
use crate::crdt::apply::policy_types::SignatureWrite;
use crate::crdt::apply::report::SkipReason;
use crate::crdt::apply::report::SkippedChange;
use crate::crdt::columns::is_metadata_column;
use crate::crdt::columns::is_synced_column;
use crate::crdt::columns::names_metadata_column;
use crate::crdt::columns::names_synced_column;
use crate::crdt::hlc::hlc_before;
use crate::crdt::hlc::hlc_is_newer;
use crate::crdt::value::SqlValue;
use crate::crdt::value::SqlView;
use crate::json::member;
use crate::json::JsonObject;
use crate::json::JsonView;
use crate::text::list_contains;
use crate::text::text_contains;
use crate::text::texts;
use vstd::prelude::*;

verus! {

/// Why a column may not be written at all, if it may not. Absence is checked
/// first, then what the merge owns, then the suffix.
pub open spec fn ineligible(
    name: Seq<char>,
    columns: Seq<Seq<char>>,
    pks: Seq<Seq<char>>,
) -> Option<SkipReason> {
    if !columns.contains(name) {
        Some(SkipReason::UnknownColumn)
    } else if is_metadata_column(name) || pks.contains(name) {
        Some(SkipReason::ReservedColumn)
    } else if !is_synced_column(name) {
        Some(SkipReason::NoSyncColumn)
    } else {
        None
    }
}

/// Whether a remote change may write `column_name`.
pub fn classify_eligibility(
    column_name: &str,
    existing_columns: &[String],
    expected_pks: &[String],
) -> (r: Result<(), SkipReason>)
    ensures
        r == match ineligible(column_name@, texts(existing_columns@), texts(expected_pks@)) {
            Some(reason) => Err::<(), SkipReason>(reason),
            None => Ok::<(), SkipReason>(()),
        },
{
    if !list_contains(existing_columns, column_name) {
        return Err(SkipReason::UnknownColumn);
    }
    if names_metadata_column(column_name) || list_contains(expected_pks, column_name) {
        return Err(SkipReason::ReservedColumn);
    }
    if !names_synced_column(column_name) {
        return Err(SkipReason::NoSyncColumn);
    }
    Ok(())
}

/// A column that won and is about to be written. `at` is the position of its
/// change in the row's group.
#[derive(Debug)]
pub struct StagedColumn {
    pub at: usize,
    pub value: SqlValue,
    pub signature: SignatureWrite,
}

/// What a [`StagedColumn`] stands for.
pub struct StagedView {
    pub at: int,
    pub value: SqlView,
    pub signature: SignatureView,
}

impl View for StagedColumn {
    type V = StagedView;

    open spec fn view(&self) -> StagedView {
        StagedView { at: self.at as int, value: self.value@, signature: self.signature@ }
    }
}

/// What a list of staged columns stands for.
pub open spec fn staged_views(v: Seq<StagedColumn>) -> Seq<StagedView> {
    v.map_values(|s: StagedColumn| s@)
}

/// Winners so far, and the changes that lost, in the order in which they did.
pub struct Staging {
    pub staged: Seq<StagedView>,
    pub skips: Seq<SkippedChange>,
}

/// Position of the first staged column that writes `column`, or the number of
/// staged columns where none does.
pub open spec fn holder(
    staged: Seq<StagedView>,
    group: Seq<IndexedView>,
    column: Seq<char>,
) -> nat
    decreases staged.len(),
{
    if staged.len() == 0 || group[staged[0].at].change.column_name == column {
        0
    } else {
        1 + holder(staged.drop_first(), group, column)
    }
}

pub proof fn lemma_holder(staged: Seq<StagedView>, group: Seq<IndexedView>, column: Seq<char>)
    ensures
        holder(staged, group, column) <= staged.len(),
        holder(staged, group, column) < staged.len() ==> group[staged[holder(
            staged,
            group,
            column,
        ) as int].at].change.column_name == column,
        forall|j: int|
            0 <= j < holder(staged, group, column) ==> group[(
            #[trigger] staged[j]).at].change.column_name != column,
    decreases staged.len(),
{
    if staged.len() > 0 && group[staged[0].at].change.column_name != column {
        lemma_holder(staged.drop_first(), group, column);
        let p = holder(staged, group, column);
        assert forall|j: int| 0 <= j < p implies group[(
        #[trigger] staged[j]).at].change.column_name != column by {
            if j > 0 {
                assert(staged.drop_first()[j - 1] == staged[j]);
            }
        }
        if p < staged.len() {
            assert(staged.drop_first()[p - 1] == staged[p as int]);
        }
    }
}

/// The stored timestamp of a column, empty where there is none.
pub open spec fn stored_hlc(stored: Seq<(Seq<char>, JsonView)>, column: Seq<char>) -> Seq<char> {
    match member(stored, column) {
        Some(JsonView::Text(s)) => s,
        _ => Seq::empty(),
    }
}

/// The timestamp that a change to `column` has to beat.
pub open spec fn running_hlc(
    staged: Seq<StagedView>,
    group: Seq<IndexedView>,
    stored: Seq<(Seq<char>, JsonView)>,
    column: Seq<char>,
) -> Seq<char> {
    let p = holder(staged, group, column);
    if p < staged.len() {
        group[staged[p as int].at].change.hlc_timestamp
    } else {
        stored_hlc(stored, column)
    }
}

/// Takes one verdict. A timestamp without a node part never wins.
pub open spec fn stage_one(
    st: Staging,
    group: Seq<IndexedView>,
    stored: Seq<(Seq<char>, JsonView)>,
    at: int,
    decision: DecisionView,
) -> Staging {
    let c = group[at];
    match decision {
        DecisionView::Skip => Staging {
            staged: st.staged,
            skips: st.skips.push(
                SkippedChange { input_index: c.input_index, reason: SkipReason::Policy },
            ),
        },
        DecisionView::Accept { value, signature } => {
            let p = holder(st.staged, group, c.change.column_name);
            let won = StagedView { at, value, signature };
            if !c.change.hlc_timestamp.contains('/') || !hlc_before(
                running_hlc(st.staged, group, stored, c.change.column_name),
                c.change.hlc_timestamp,
            ) {
                Staging {
                    staged: st.staged,
                    skips: st.skips.push(
                        SkippedChange {
                            input_index: c.input_index,
                            reason: if p < st.staged.len() {
                                SkipReason::SupersededInBatch
                            } else {
                                SkipReason::Stale
                            },
                        },
                    ),
                }
            } else if p < st.staged.len() {
                Staging {
                    staged: st.staged.remove(p as int).push(won),
                    skips: st.skips.push(
                        SkippedChange {
                            input_index: group[st.staged[p as int].at].input_index,
                            reason: SkipReason::SupersededInBatch,
                        },
                    ),
                }
            } else {
                Staging { staged: st.staged.push(won), skips: st.skips }
            }
        },
    }
}

/// Takes the first `n` verdicts in order.
pub open spec fn staging(
    group: Seq<IndexedView>,
    stored: Seq<(Seq<char>, JsonView)>,
    eligible: Seq<usize>,
    decisions: Seq<DecisionView>,
    n: nat,
) -> Staging
    decreases n,
{
    if n == 0 {
        Staging { staged: Seq::empty(), skips: Seq::empty() }
    } else {
        stage_one(
            staging(group, stored, eligible, decisions, (n - 1) as nat),
            group,
            stored,
            eligible[n - 1] as int,
            decisions[n - 1],
        )
    }
}

/// Every eligible index is a position in the group.
pub open spec fn indices_in(eligible: Seq<usize>, group: Seq<IndexedView>) -> bool {
    forall|k: int| 0 <= k < eligible.len() ==> (#[trigger] eligible[k]) < group.len()
}

fn find_holder(staged: &Vec<StagedColumn>, group: &[IndexedChange], column: &str) -> (r: usize)
    requires
        forall|j: int| 0 <= j < staged@.len() ==> (#[trigger] staged@[j]).at < group@.len(),
    ensures
        r == holder(staged_views(staged@), indexed_views(group@), column@),
        r <= staged@.len(),
{
    let ghost sv = staged_views(staged@);
    let ghost gv = indexed_views(group@);
    let mut i: usize = 0;
    proof {
        lemma_holder(sv, gv, column@);
    }
    while i < staged.len()
        invariant
            i <= staged.len(),
            sv == staged_views(staged@),
            gv == indexed_views(group@),
            forall|j: int| 0 <= j < staged@.len() ==> (#[trigger] staged@[j]).at < group@.len(),
            i <= holder(sv, gv, column@) <= sv.len(),
            holder(sv, gv, column@) < sv.len() ==> gv[sv[holder(
                sv,
                gv,
                column@,
            ) as int].at].change.column_name == column@,
            forall|j: int|
                0 <= j < holder(sv, gv, column@) ==> gv[(
                #[trigger] sv[j]).at].change.column_name != column@,
        decreases staged.len() - i,
    {
        let at: usize = staged[i].at;
        assert(sv[i as int].at == at);
        assert(gv[at as int].change.column_name == group@[at as int].change.column_name@);
        if group[at].change.column_name.as_str().eq(column) {
            return i;
        }
        i += 1;
    }
    i
}

/// Runs the verdicts of the policy over the eligible columns of a row: which
/// columns win, and which changes lose and why. There is one verdict for each
/// eligible column.
pub fn select_staged_columns(
    group: &[IndexedChange],
    eligible: &[usize],
    decisions: Vec<ColumnDecision>,
    column_hlcs: &JsonObject,
) -> (r: (Vec<StagedColumn>, Vec<SkippedChange>))
    requires
        decisions@.len() == eligible@.len(),
        indices_in(eligible@, indexed_views(group@)),
    ensures
        ({
            let want = staging(
                indexed_views(group@),
                column_hlcs@,
                eligible@,
                decision_views(decisions@),
                eligible@.len(),
            );
            staged_views(r.0@) == want.staged && r.1@ == want.skips
        }),
        forall|j: int| 0 <= j < r.0@.len() ==> (#[trigger] r.0@[j]).at < group@.len(),
{
    let ghost gv = indexed_views(group@);
    let ghost dv = decision_views(decisions@);
    let ghost all = decisions@;
    let mut staged: Vec<StagedColumn> = Vec::new();
    let mut skips: Vec<SkippedChange> = Vec::new();
    let mut k: usize = 0;
    assert(staged_views(staged@) =~= Seq::<StagedView>::empty());
    for decision in it: decisions.into_iter()
        invariant
            it.seq() == all,
            all.len() == eligible@.len(),
            k == it.index(),
            k <= eligible@.len(),
            gv == indexed_views(group@),
            dv == decision_views(all),
            indices_in(eligible@, gv),
            staged_views(staged@) == staging(
                gv,
                column_hlcs@,
                eligible@,
                dv,
                k as nat,
            ).staged,
            skips@ == staging(gv, column_hlcs@, eligible@, dv, k as nat).skips,
            forall|j: int| 0 <= j < staged@.len() ==> (#[trigger] staged@[j]).at < group@.len(),
    {
        let at: usize = eligible[k];
        assert(at < gv.len());
        let c = &group[at];
        assert(gv[at as int] == c@);
        assert(dv[k as int] == decision@);
        let ghost before = staged_views(staged@);
        match decision {
            ColumnDecision::Skip => {
                skips.push(
                    SkippedChange { input_index: c.input_index, reason: SkipReason::Policy },
                );
            },
            ColumnDecision::Accept { value, signature } => {
                let p: usize = find_holder(&staged, group, c.change.column_name.as_str());
                let held: bool = p < staged.len();
                let beaten: bool = if held {
                    let other: usize = staged[p].at;
                    assert(before[p as int].at == other);
                    assert(gv[other as int] == group@[other as int]@);
                    hlc_is_newer(
                        c.change.hlc_timestamp.as_str(),
                        group[other].change.hlc_timestamp.as_str(),
                    )
                } else {
                    match column_hlcs.get(c.change.column_name.as_str()) {
                        Some(v) => match v.as_text() {
                            Some(s) => hlc_is_newer(c.change.hlc_timestamp.as_str(), s),
                            None => newer_than_nothing(c.change.hlc_timestamp.as_str()),
                        },
                        None => newer_than_nothing(c.change.hlc_timestamp.as_str()),
                    }
                };
                assert(beaten == hlc_before(
                    running_hlc(before, gv, column_hlcs@, c@.change.column_name),
                    c@.change.hlc_timestamp,
                ));
                if !text_contains(c.change.hlc_timestamp.as_str(), '/') || !beaten {
                    let reason = if held {
                        SkipReason::SupersededInBatch
                    } else {
                        SkipReason::Stale
                    };
                    skips.push(SkippedChange { input_index: c.input_index, reason });
                } else {
                    if held {
                        let evicted = staged.remove(p);
                        assert(evicted.at == before[p as int].at);
                        assert(gv[evicted.at as int] == group@[evicted.at as int]@);
                        skips.push(
                            SkippedChange {
                                input_index: group[evicted.at].input_index,
                                reason: SkipReason::SupersededInBatch,
                            },
                        );
                        assert(staged_views(staged@) =~= before.remove(p as int));
                    }
                    let ghost kept = staged_views(staged@);
                    let ghost won = StagedView {
                        at: at as int,
                        value: value@,
                        signature: signature@,
                    };
                    staged.push(StagedColumn { at, value, signature });
                    assert(staged_views(staged@) =~= kept.push(won));
                }
            },
        }
        k += 1;
    }
    (staged, skips)
}

/// Whether a timestamp is newer than none at all.
fn newer_than_nothing(hlc: &str) -> (r: bool)
    ensures
        r == hlc_before(Seq::<char>::empty(), hlc@),
{
    let none = String::new();
    hlc_is_newer(hlc, none.as_str())
}

/// A stored timestamp is the text under the column's name; anything else under it,
/// or nothing, counts as the empty text.
pub proof fn lemma_stored_timestamps(
    stored: Seq<(Seq<char>, JsonView)>,
    column: Seq<char>,
    hlc: Seq<char>,
)
    ensures
        hlc.len() > 0 ==> (stored_hlc(stored, column) == hlc <==> member(stored, column) == Some(
            JsonView::Text(hlc),
        )),
{
}

} // verus!
