//! Laws of last-write-wins selection.

use crate::crdt::apply::policy_types::DecisionView;
use crate::crdt::apply::policy_types::IndexedView;
use crate::crdt::apply::report::SkippedChange;
use crate::crdt::apply::row::holder;
use crate::crdt::apply::row::indices_in;
use crate::crdt::apply::row::lemma_holder;
use crate::crdt::apply::row::running_hlc;
use crate::crdt::apply::row::stage_one;
use crate::crdt::apply::row::staging;
use crate::crdt::apply::row::stored_hlc;
use crate::crdt::apply::row::StagedView;
use crate::crdt::apply::row::Staging;
use crate::crdt::hlc::hlc_before;
use crate::json::JsonView;
use vstd::prelude::*;

verus! {

/// The column that a staged entry writes.
pub open spec fn staged_column(s: StagedView, group: Seq<IndexedView>) -> Seq<char> {
    group[s.at].change.column_name
}

/// The timestamp that a staged entry writes.
pub open spec fn staged_hlc(s: StagedView, group: Seq<IndexedView>) -> Seq<char> {
    group[s.at].change.hlc_timestamp
}

/// No column is staged twice.
pub open spec fn columns_distinct(staged: Seq<StagedView>, group: Seq<IndexedView>) -> bool {
    forall|i: int, j: int|
        #![trigger staged[i], staged[j]]
        0 <= i < j < staged.len() ==> staged_column(staged[i], group) != staged_column(
            staged[j],
            group,
        )
}

/// The verdict at `k` admits a full timestamp for `column`.
pub open spec fn contends(
    group: Seq<IndexedView>,
    eligible: Seq<usize>,
    decisions: Seq<DecisionView>,
    k: int,
    column: Seq<char>,
) -> bool {
    &&& decisions[k] is Accept
    &&& group[eligible[k] as int].change.column_name == column
    &&& group[eligible[k] as int].change.hlc_timestamp.contains('/')
}

proof fn lemma_holder_is(
    staged: Seq<StagedView>,
    group: Seq<IndexedView>,
    column: Seq<char>,
    p: nat,
)
    requires
        p <= staged.len(),
        p < staged.len() ==> staged_column(staged[p as int], group) == column,
        forall|j: int| 0 <= j < p ==> staged_column(#[trigger] staged[j], group) != column,
    ensures
        holder(staged, group, column) == p,
{
    lemma_holder(staged, group, column);
    let q = holder(staged, group, column);
    if q < p {
        assert(staged_column(staged[q as int], group) != column);
    }
    if p < q {
        assert(staged_column(staged[p as int], group) == column);
    }
}

/// What one verdict does to the timestamp to beat: it stays for every other
/// column, and for the column of the change it becomes the newer of the two.
proof fn lemma_stage_one_running(
    st: Staging,
    group: Seq<IndexedView>,
    stored: Seq<(Seq<char>, JsonView)>,
    at: int,
    decision: DecisionView,
    column: Seq<char>,
)
    requires
        columns_distinct(st.staged, group),
    ensures
        ({
            let after = stage_one(st, group, stored, at, decision);
            let c = group[at].change;
            let was = running_hlc(st.staged, group, stored, column);
            let now = running_hlc(after.staged, group, stored, column);
            &&& columns_distinct(after.staged, group)
            &&& now == if decision is Accept && c.column_name == column
                && c.hlc_timestamp.contains('/') && hlc_before(was, c.hlc_timestamp) {
                c.hlc_timestamp
            } else {
                was
            }
        }),
{
    let after = stage_one(st, group, stored, at, decision);
    let c = group[at].change;
    let old_staged = st.staged;
    let p = holder(old_staged, group, c.column_name) as int;
    lemma_holder(old_staged, group, c.column_name);
    lemma_holder(old_staged, group, column);
    let q = holder(old_staged, group, column) as int;
    let wins = decision is Accept && c.hlc_timestamp.contains('/') && hlc_before(
        running_hlc(old_staged, group, stored, c.column_name),
        c.hlc_timestamp,
    );
    if wins {
        let s = after.staged;
        let last = s.len() - 1;
        if p < old_staged.len() {
            let kept = old_staged.remove(p);
            assert forall|j: int| 0 <= j < last implies #[trigger] s[j] == old_staged[if j < p {
                j
            } else {
                j + 1
            }] by {
                assert(s[j] == kept[j]);
            }
            assert forall|j: int| 0 <= j < last implies staged_column(#[trigger] s[j], group)
                != c.column_name by {
                let i = if j < p {
                    j
                } else {
                    j + 1
                };
                assert(s[j] == old_staged[i]);
                if j >= p {
                    assert(staged_column(old_staged[p], group) != staged_column(
                        old_staged[i],
                        group,
                    ));
                }
            }
            assert(columns_distinct(s, group)) by {
                assert forall|i: int, j: int|
                    #![trigger s[i], s[j]]
                    0 <= i < j < s.len() implies staged_column(s[i], group) != staged_column(
                    s[j],
                    group,
                ) by {
                    if j < last {
                        let a = if i < p {
                            i
                        } else {
                            i + 1
                        };
                        let b = if j < p {
                            j
                        } else {
                            j + 1
                        };
                        assert(s[i] == old_staged[a]);
                        assert(s[j] == old_staged[b]);
                    }
                }
            }
            if column == c.column_name {
                lemma_holder_is(s, group, column, last as nat);
            } else if q < old_staged.len() {
                let r = if q < p {
                    q
                } else {
                    q - 1
                };
                assert(q != p);
                assert(s[r] == old_staged[q]);
                assert forall|j: int| 0 <= j < r implies staged_column(#[trigger] s[j], group)
                    != column by {
                    let i = if j < p {
                        j
                    } else {
                        j + 1
                    };
                    assert(s[j] == old_staged[i]);
                    assert(staged_column(old_staged[i], group) != column);
                }
                lemma_holder_is(s, group, column, r as nat);
            } else {
                assert forall|j: int| 0 <= j < s.len() implies staged_column(
                    #[trigger] s[j],
                    group,
                ) != column by {
                    if j < last {
                        let i = if j < p {
                            j
                        } else {
                            j + 1
                        };
                        assert(s[j] == old_staged[i]);
                        assert(staged_column(old_staged[i], group) != column);
                    }
                }
                lemma_holder_is(s, group, column, s.len());
            }
        } else {
            assert forall|j: int| 0 <= j < last implies s[j] == old_staged[j] by {}
            assert forall|j: int| 0 <= j < last implies staged_column(#[trigger] s[j], group)
                != c.column_name by {
                assert(s[j] == old_staged[j]);
            }
            assert(columns_distinct(s, group)) by {
                assert forall|i: int, j: int|
                    #![trigger s[i], s[j]]
                    0 <= i < j < s.len() implies staged_column(s[i], group) != staged_column(
                    s[j],
                    group,
                ) by {
                    assert(s[i] == old_staged[i]);
                    if j < last {
                        assert(s[j] == old_staged[j]);
                    }
                }
            }
            if column == c.column_name {
                lemma_holder_is(s, group, column, last as nat);
            } else if q < old_staged.len() {
                assert(s[q] == old_staged[q]);
                assert forall|j: int| 0 <= j < q implies staged_column(#[trigger] s[j], group)
                    != column by {
                    assert(s[j] == old_staged[j]);
                    assert(staged_column(old_staged[j], group) != column);
                }
                lemma_holder_is(s, group, column, q as nat);
            } else {
                assert forall|j: int| 0 <= j < s.len() implies staged_column(
                    #[trigger] s[j],
                    group,
                ) != column by {
                    if j < last {
                        assert(s[j] == old_staged[j]);
                        assert(staged_column(old_staged[j], group) != column);
                    }
                }
                lemma_holder_is(s, group, column, s.len());
            }
        }
    }
}

/// Of one row, no column is written twice.
pub proof fn lemma_winners_write_distinct_columns(
    group: Seq<IndexedView>,
    stored: Seq<(Seq<char>, JsonView)>,
    eligible: Seq<usize>,
    decisions: Seq<DecisionView>,
    n: nat,
)
    ensures
        columns_distinct(staging(group, stored, eligible, decisions, n).staged, group),
    decreases n,
{
    if n > 0 {
        lemma_winners_write_distinct_columns(group, stored, eligible, decisions, (n - 1) as nat);
        lemma_stage_one_running(
            staging(group, stored, eligible, decisions, (n - 1) as nat),
            group,
            stored,
            eligible[n - 1] as int,
            decisions[n - 1],
            Seq::empty(),
        );
    }
}

/// The timestamp that a column ends up with is the newest: no contender is
/// newer, and it is the stored one or that of a contender.
pub proof fn lemma_winner_is_newest(
    group: Seq<IndexedView>,
    stored: Seq<(Seq<char>, JsonView)>,
    eligible: Seq<usize>,
    decisions: Seq<DecisionView>,
    n: nat,
    column: Seq<char>,
)
    requires
        n <= eligible.len(),
    ensures
        ({
            let end = running_hlc(
                staging(group, stored, eligible, decisions, n).staged,
                group,
                stored,
                column,
            );
            &&& !hlc_before(end, stored_hlc(stored, column))
            &&& forall|k: int|
                0 <= k < n && #[trigger] contends(group, eligible, decisions, k, column)
                    ==> !hlc_before(end, group[eligible[k] as int].change.hlc_timestamp)
            &&& end == stored_hlc(stored, column) || exists|k: int|
                0 <= k < n && #[trigger] contends(group, eligible, decisions, k, column) && end
                    == group[eligible[k] as int].change.hlc_timestamp
        }),
    decreases n,
{
    if n > 0 {
        let m = (n - 1) as nat;
        lemma_winner_is_newest(group, stored, eligible, decisions, m, column);
        lemma_winners_write_distinct_columns(group, stored, eligible, decisions, m);
        let st = staging(group, stored, eligible, decisions, m);
        lemma_stage_one_running(
            st,
            group,
            stored,
            eligible[n - 1] as int,
            decisions[n - 1],
            column,
        );
        let was = running_hlc(st.staged, group, stored, column);
        let end = running_hlc(
            staging(group, stored, eligible, decisions, n).staged,
            group,
            stored,
            column,
        );
        assert forall|k: int|
            0 <= k < n && #[trigger] contends(group, eligible, decisions, k, column) implies
            !hlc_before(end, group[eligible[k] as int].change.hlc_timestamp) by {
            if k < m {
                assert(!hlc_before(was, group[eligible[k] as int].change.hlc_timestamp));
            }
        }
        if end != was {
            assert(contends(group, eligible, decisions, n - 1, column));
        }
    } else {
        assert(holder(Seq::<StagedView>::empty(), group, column) == 0);
    }
}

/// Every staged column is strictly newer than what is stored for it, and its
/// timestamp has a node part.
pub proof fn lemma_winners_are_newer_than_stored(
    group: Seq<IndexedView>,
    stored: Seq<(Seq<char>, JsonView)>,
    eligible: Seq<usize>,
    decisions: Seq<DecisionView>,
    n: nat,
)
    requires
        n <= eligible.len(),
    ensures
        ({
            let staged = staging(group, stored, eligible, decisions, n).staged;
            forall|j: int|
                #![trigger staged[j]]
                0 <= j < staged.len() ==> {
                    &&& staged_hlc(staged[j], group).contains('/')
                    &&& hlc_before(
                        stored_hlc(stored, staged_column(staged[j], group)),
                        staged_hlc(staged[j], group),
                    )
                }
        }),
    decreases n,
{
    if n > 0 {
        let m = (n - 1) as nat;
        lemma_winners_are_newer_than_stored(group, stored, eligible, decisions, m);
        let st = staging(group, stored, eligible, decisions, m);
        let at = eligible[n - 1] as int;
        let c = group[at].change;
        let after = stage_one(st, group, stored, at, decisions[n - 1]);
        let p = holder(st.staged, group, c.column_name) as int;
        lemma_holder(st.staged, group, c.column_name);
        assert forall|j: int|
            #![trigger after.staged[j]]
            0 <= j < after.staged.len() implies {
            &&& staged_hlc(after.staged[j], group).contains('/')
            &&& hlc_before(
                stored_hlc(stored, staged_column(after.staged[j], group)),
                staged_hlc(after.staged[j], group),
            )
        } by {
            let s = after.staged;
            if s != st.staged {
                if p < st.staged.len() {
                    assert(st.staged[p] == st.staged[p]);
                    if j < s.len() - 1 {
                        let i = if j < p {
                            j
                        } else {
                            j + 1
                        };
                        assert(s[j] == st.staged.remove(p)[j]);
                        assert(s[j] == st.staged[i]);
                    }
                } else if j < s.len() - 1 {
                    assert(s[j] == st.staged[j]);
                }
            }
        }
    }
}

/// A change is staged.
pub open spec fn is_staged(staged: Seq<StagedView>, at: int) -> bool {
    exists|j: int| 0 <= j < staged.len() && #[trigger] staged[j].at == at
}

/// A change is among the skipped.
pub open spec fn is_skipped(skips: Seq<SkippedChange>, input_index: usize) -> bool {
    exists|j: int| 0 <= j < skips.len() && #[trigger] skips[j].input_index == input_index
}

/// The group names each change of the batch at most once.
pub open spec fn group_distinct(group: Seq<IndexedView>) -> bool {
    forall|i: int, j: int|
        #![trigger group[i], group[j]]
        0 <= i < j < group.len() ==> group[i].input_index != group[j].input_index
}

/// No change is eligible twice.
pub open spec fn eligible_distinct(eligible: Seq<usize>) -> bool {
    forall|i: int, j: int|
        #![trigger eligible[i], eligible[j]]
        0 <= i < j < eligible.len() ==> eligible[i] != eligible[j]
}

/// No change is dropped in silence: each one that a verdict was taken on is
/// either staged or skipped, never both, and none is recorded twice.
#[verifier::rlimit(60)]
#[verifier::spinoff_prover]
pub proof fn lemma_every_change_is_accounted_for(
    group: Seq<IndexedView>,
    stored: Seq<(Seq<char>, JsonView)>,
    eligible: Seq<usize>,
    decisions: Seq<DecisionView>,
    n: nat,
)
    requires
        n <= eligible.len(),
        indices_in(eligible, group),
        group_distinct(group),
        eligible_distinct(eligible),
    ensures
        ({
            let st = staging(group, stored, eligible, decisions, n);
            &&& st.staged.len() + st.skips.len() == n
            &&& forall|k: int|
                0 <= k < n ==> (is_staged(st.staged, #[trigger] eligible[k] as int) <==> !is_skipped(
                    st.skips,
                    group[eligible[k] as int].input_index,
                ))
            &&& forall|j: int|
                0 <= j < st.staged.len() ==> exists|k: int|
                    0 <= k < n && (#[trigger] st.staged[j]).at == #[trigger] eligible[k]
            &&& forall|j: int|
                0 <= j < st.skips.len() ==> exists|k: int|
                    0 <= k < n && (#[trigger] st.skips[j]).input_index
                        == group[#[trigger] eligible[k] as int].input_index
            &&& forall|i: int, j: int|
                #![trigger st.skips[i], st.skips[j]]
                0 <= i < j < st.skips.len() ==> st.skips[i].input_index != st.skips[j].input_index
            &&& forall|i: int, j: int|
                #![trigger st.staged[i], st.staged[j]]
                0 <= i < j < st.staged.len() ==> st.staged[i].at != st.staged[j].at
        }),
    decreases n,
{
    if n > 0 {
        let m = (n - 1) as nat;
        lemma_every_change_is_accounted_for(group, stored, eligible, decisions, m);
        let st = staging(group, stored, eligible, decisions, m);
        let at = eligible[n - 1] as int;
        let c = group[at];
        let after = staging(group, stored, eligible, decisions, n);
        let p = holder(st.staged, group, c.change.column_name) as int;
        lemma_holder(st.staged, group, c.change.column_name);
        // the new change is neither staged nor skipped before
        assert forall|j: int| 0 <= j < st.staged.len() implies (#[trigger] st.staged[j]).at
            != at by {
            let k = choose|k: int| 0 <= k < m && st.staged[j].at == #[trigger] eligible[k];
            assert(eligible[k] != eligible[n - 1]);
        }
        assert forall|j: int| 0 <= j < st.skips.len() implies (#[trigger] st.skips[j]).input_index
            != c.input_index by {
            let k = choose|k: int|
                0 <= k < m && st.skips[j].input_index == group[
                #[trigger] eligible[k] as int].input_index;
            assert(eligible[k] != eligible[n - 1]);
            assert(group[eligible[k] as int].input_index != group[at].input_index);
        }
        let before_skips = st.skips;
        if after.staged == st.staged {
            // lost: recorded as skipped
            let s = after.skips;
            assert(s[s.len() - 1].input_index == c.input_index);
            assert forall|k: int| 0 <= k < n implies (is_staged(
                after.staged,
                #[trigger] eligible[k] as int,
            ) <==> !is_skipped(s, group[eligible[k] as int].input_index)) by {
                let idx = group[eligible[k] as int].input_index;
                if k < m {
                    assert(eligible[k] != eligible[n - 1]);
                    assert(idx != c.input_index);
                    if is_skipped(before_skips, idx) {
                        let j = choose|j: int|
                            0 <= j < before_skips.len() && #[trigger] before_skips[j].input_index
                                == idx;
                        assert(s[j] == before_skips[j]);
                    }
                    if is_skipped(s, idx) {
                        let j = choose|j: int|
                            0 <= j < s.len() && #[trigger] s[j].input_index == idx;
                        assert(s[j] == before_skips[j]);
                    }
                } else {
                    assert(s[s.len() - 1].input_index == idx);
                    assert(!is_staged(after.staged, at));
                }
            }
        } else if p < st.staged.len() {
            let out = st.staged[p].at;
            let s = after.skips;
            let w = after.staged;
            let ko = choose|k: int| 0 <= k < m && out == #[trigger] eligible[k];
            assert(is_staged(st.staged, out)) by {
                assert(st.staged[p].at == out);
            }
            assert(s[s.len() - 1].input_index == group[out].input_index);
            assert(w[w.len() - 1].at == at);
            assert forall|j: int| 0 <= j < w.len() - 1 implies #[trigger] w[j] == st.staged[if j
                < p {
                j
            } else {
                j + 1
            }] by {
                assert(w[j] == st.staged.remove(p)[j]);
            }
            assert(!is_skipped(before_skips, group[out].input_index));
            assert forall|k: int| 0 <= k < n implies (is_staged(
                w,
                #[trigger] eligible[k] as int,
            ) <==> !is_skipped(s, group[eligible[k] as int].input_index)) by {
                let e = eligible[k] as int;
                let idx = group[e].input_index;
                if k == n - 1 {
                    assert(w[w.len() - 1].at == e);
                    if is_skipped(s, idx) {
                        let j = choose|j: int|
                            0 <= j < s.len() && #[trigger] s[j].input_index == idx;
                        if j < s.len() - 1 {
                            assert(s[j] == before_skips[j]);
                        } else {
                            assert(eligible[ko] != eligible[n - 1]);
                        }
                    }
                } else {
                    assert(eligible[k] != eligible[n - 1]);
                    if e == out {
                        assert(s[s.len() - 1].input_index == idx);
                        if is_staged(w, e) {
                            let j = choose|j: int| 0 <= j < w.len() && #[trigger] w[j].at == e;
                            let i = if j < p {
                                j
                            } else {
                                j + 1
                            };
                            assert(w[j] == st.staged[i]);
                            assert(st.staged[p].at != st.staged[i].at);
                        }
                    } else {
                        assert(idx != group[out].input_index);
                        if is_staged(st.staged, e) {
                            let j = choose|j: int|
                                0 <= j < st.staged.len() && #[trigger] st.staged[j].at == e;
                            let i = if j < p {
                                j
                            } else {
                                j - 1
                            };
                            assert(w[i] == st.staged[j]);
                            if is_skipped(s, idx) {
                                let j = choose|j: int|
                                    0 <= j < s.len() && #[trigger] s[j].input_index == idx;
                                assert(s[j] == before_skips[j]);
                            }
                        } else {
                            let j = choose|j: int|
                                0 <= j < before_skips.len()
                                    && #[trigger] before_skips[j].input_index == idx;
                            assert(s[j] == before_skips[j]);
                            if is_staged(w, e) {
                                let j = choose|j: int| 0 <= j < w.len() && #[trigger] w[j].at == e;
                                let i = if j < p {
                                    j
                                } else {
                                    j + 1
                                };
                                assert(w[j] == st.staged[i]);
                            }
                        }
                    }
                }
            }
            assert forall|j: int| 0 <= j < w.len() implies exists|k: int|
                0 <= k < n && (#[trigger] w[j]).at == #[trigger] eligible[k] by {
                if j == w.len() - 1 {
                    assert(w[j].at == eligible[n - 1]);
                } else {
                    let i = if j < p {
                        j
                    } else {
                        j + 1
                    };
                    assert(w[j] == st.staged[i]);
                    let k = choose|k: int| 0 <= k < m && st.staged[i].at == #[trigger] eligible[k];
                    assert(w[j].at == eligible[k]);
                }
            }
            assert forall|j: int| 0 <= j < s.len() implies exists|k: int|
                0 <= k < n && (#[trigger] s[j]).input_index == group[
                #[trigger] eligible[k] as int].input_index by {
                if j == s.len() - 1 {
                    assert(s[j].input_index == group[eligible[ko] as int].input_index);
                } else {
                    assert(s[j] == before_skips[j]);
                    let k = choose|k: int|
                        0 <= k < m && before_skips[j].input_index == group[
                        #[trigger] eligible[k] as int].input_index;
                    assert(s[j].input_index == group[eligible[k] as int].input_index);
                }
            }
            assert forall|i: int, j: int|
                #![trigger s[i], s[j]]
                0 <= i < j < s.len() implies s[i].input_index != s[j].input_index by {
                assert(s[i] == before_skips[i]);
                if j < s.len() - 1 {
                    assert(s[j] == before_skips[j]);
                }
            }
            assert forall|i: int, j: int|
                #![trigger w[i], w[j]]
                0 <= i < j < w.len() implies w[i].at != w[j].at by {
                let a = if i < p {
                    i
                } else {
                    i + 1
                };
                assert(w[i] == st.staged[a]);
                if j < w.len() - 1 {
                    let b = if j < p {
                        j
                    } else {
                        j + 1
                    };
                    assert(w[j] == st.staged[b]);
                }
            }
        } else {
            let w = after.staged;
            assert(w[w.len() - 1].at == at);
            assert forall|k: int| 0 <= k < n implies (is_staged(
                w,
                #[trigger] eligible[k] as int,
            ) <==> !is_skipped(after.skips, group[eligible[k] as int].input_index)) by {
                let e = eligible[k] as int;
                if k < m {
                    assert(eligible[k] != eligible[n - 1]);
                    if is_staged(st.staged, e) {
                        let j = choose|j: int|
                            0 <= j < st.staged.len() && #[trigger] st.staged[j].at == e;
                        assert(w[j] == st.staged[j]);
                    }
                    if is_staged(w, e) {
                        let j = choose|j: int| 0 <= j < w.len() && #[trigger] w[j].at == e;
                        assert(w[j] == st.staged[j]);
                    }
                } else {
                    assert(w[w.len() - 1].at == e);
                }
            }
            assert forall|j: int| 0 <= j < w.len() implies exists|k: int|
                0 <= k < n && (#[trigger] w[j]).at == #[trigger] eligible[k] by {
                if j == w.len() - 1 {
                    assert(w[j].at == eligible[n - 1]);
                } else {
                    assert(w[j] == st.staged[j]);
                    let k = choose|k: int| 0 <= k < m && st.staged[j].at == #[trigger] eligible[k];
                    assert(w[j].at == eligible[k]);
                }
            }
        }
    }
}

} // verus!
