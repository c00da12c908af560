//! Where each change of a batch is, by its position: still to be merged, written,
//! or skipped. No step of a merge loses a position or names one twice.

use crate::crdt::apply::batch::in_a_group;
use crate::crdt::apply::batch::lemma_merge_order_counts;
use crate::crdt::apply::batch::lemma_positions_in;
use crate::crdt::apply::batch::merge_order;
use crate::crdt::apply::batch::positions_in;
use crate::crdt::apply::batch::row_group_views;
use crate::crdt::apply::batch::RowGroup;
use crate::crdt::apply::batch::RowGroupView;
use crate::crdt::apply::engine::eligible_at;
use crate::crdt::apply::engine::eligible_of;
use crate::crdt::apply::engine::group_skips;
use crate::crdt::apply::engine::ineligible_of;
use crate::crdt::apply::engine::picked_skips;
use crate::crdt::apply::engine::staged_at;
use crate::crdt::apply::policy_types::DecisionView;
use crate::crdt::apply::policy_types::IndexedView;
use crate::crdt::apply::report::SkipReason;
use crate::crdt::apply::report::SkippedChange;
use crate::crdt::apply::row::holder;
use crate::crdt::apply::row::ineligible;
use crate::crdt::apply::row::lemma_holder;
use crate::crdt::apply::row::running_hlc;
use crate::crdt::apply::row::stage_one;
use crate::crdt::apply::row::staging;
use crate::crdt::apply::row::StagedView;
use crate::crdt::apply::row::Staging;
use crate::crdt::hlc::hlc_before;
use crate::crdt::scanner::change::ColumnChange;
use crate::crdt::schema::column_names;
use crate::crdt::schema::pk_names;
use crate::crdt::schema::ColumnView;
use crate::json::JsonView;
use vstd::prelude::*;

verus! {

/// How often `x` occurs.
pub open spec fn times(s: Seq<int>, x: int) -> nat
    decreases s.len(),
{
    if s.len() == 0 {
        0
    } else {
        times(s.drop_last(), x) + (if s.last() == x {
            1nat
        } else {
            0nat
        })
    }
}

/// The positions of some changes in the batch.
pub open spec fn positions(changes: Seq<IndexedView>) -> Seq<int> {
    changes.map_values(|c: IndexedView| c.input_index as int)
}

/// The positions in the batch of some changes of a group.
pub open spec fn picked_positions(changes: Seq<IndexedView>, picked: Seq<int>) -> Seq<int> {
    picked.map_values(|at: int| changes[at].input_index as int)
}

/// The positions of skipped changes in the batch.
pub open spec fn skip_positions(skips: Seq<SkippedChange>) -> Seq<int> {
    skips.map_values(|s: SkippedChange| s.input_index as int)
}

/// How often a position occurs in some groups.
pub open spec fn times_pending(groups: Seq<RowGroupView>, x: int) -> nat
    decreases groups.len(),
{
    if groups.len() == 0 {
        0
    } else {
        times(positions(groups.first().changes), x) + times_pending(groups.drop_first(), x)
    }
}

/// Number of changes in some groups.
pub open spec fn owed_pending(groups: Seq<RowGroupView>) -> nat
    decreases groups.len(),
{
    if groups.len() == 0 {
        0
    } else {
        groups.first().changes.len() + owed_pending(groups.drop_first())
    }
}

pub proof fn lemma_times_concat(a: Seq<int>, b: Seq<int>, x: int)
    ensures
        times(a + b, x) == times(a, x) + times(b, x),
    decreases b.len(),
{
    if b.len() == 0 {
        assert(a + b =~= a);
    } else {
        lemma_times_concat(a, b.drop_last(), x);
        assert((a + b).drop_last() =~= a + b.drop_last());
    }
}

proof fn lemma_times_remove(s: Seq<int>, p: int, x: int)
    requires
        0 <= p < s.len(),
    ensures
        times(s, x) == times(s.remove(p), x) + (if s[p] == x {
            1nat
        } else {
            0nat
        }),
    decreases s.len(),
{
    if p == s.len() - 1 {
        assert(s.remove(p) =~= s.drop_last());
    } else {
        lemma_times_remove(s.drop_last(), p, x);
        assert(s.remove(p).drop_last() =~= s.drop_last().remove(p));
        assert(s.remove(p).last() == s.last());
    }
}

proof fn lemma_times_absent(s: Seq<int>, x: int)
    requires
        !s.contains(x),
    ensures
        times(s, x) == 0,
    decreases s.len(),
{
    if s.len() > 0 {
        assert forall|i: int| 0 <= i < s.drop_last().len() implies s.drop_last()[i] != x by {
            assert(s[i] != x);
        }
        lemma_times_absent(s.drop_last(), x);
        assert(s[s.len() - 1] != x);
    }
}

proof fn lemma_times_no_duplicates(s: Seq<int>, x: int)
    requires
        s.no_duplicates(),
        s.contains(x),
    ensures
        times(s, x) == 1,
    decreases s.len(),
{
    let k = choose|k: int| 0 <= k < s.len() && s[k] == x;
    if k == s.len() - 1 {
        assert forall|i: int| 0 <= i < s.drop_last().len() implies s.drop_last()[i] != x by {
            assert(s[i] != s[k]);
        }
        lemma_times_absent(s.drop_last(), x);
    } else {
        assert(s.drop_last()[k] == x);
        lemma_times_no_duplicates(s.drop_last(), x);
        assert(s.last() != s[k]);
    }
}

pub proof fn lemma_group_skips(changes: Seq<IndexedView>, reason: SkipReason)
    ensures
        skip_positions(group_skips(changes, reason)) == positions(changes),
{
    assert(skip_positions(group_skips(changes, reason)) =~= positions(changes));
}

pub proof fn lemma_picked_skips(changes: Seq<IndexedView>, picked: Seq<int>, reason: SkipReason)
    ensures
        skip_positions(picked_skips(changes, picked, reason)) == picked_positions(changes, picked),
{
    assert(skip_positions(picked_skips(changes, picked, reason)) =~= picked_positions(
        changes,
        picked,
    ));
}

pub proof fn lemma_skips_concat(a: Seq<SkippedChange>, b: Seq<SkippedChange>, x: int)
    ensures
        times(skip_positions(a + b), x) == times(skip_positions(a), x) + times(
            skip_positions(b),
            x,
        ),
{
    assert(skip_positions(a + b) =~= skip_positions(a) + skip_positions(b));
    lemma_times_concat(skip_positions(a), skip_positions(b), x);
}

/// Each change of a group is either eligible or skipped, and not both.
pub proof fn lemma_eligible_positions(
    changes: Seq<IndexedView>,
    schema: Seq<ColumnView>,
    n: nat,
    x: int,
)
    requires
        n <= changes.len() <= usize::MAX,
    ensures
        times(picked_positions(changes, eligible_at(eligible_of(changes, schema, n))), x) + times(
            skip_positions(ineligible_of(changes, schema, n)),
            x,
        ) == times(positions(changes.take(n as int)), x),
    decreases n,
{
    if n == 0 {
        assert(positions(changes.take(0)) =~= Seq::empty());
        assert(picked_positions(changes, eligible_at(eligible_of(changes, schema, n)))
            =~= Seq::empty());
        assert(skip_positions(ineligible_of(changes, schema, n)) =~= Seq::empty());
    } else {
        let m = (n - 1) as nat;
        lemma_eligible_positions(changes, schema, m, x);
        let all = positions(changes.take(n as int));
        assert(all.drop_last() =~= positions(changes.take(m as int)));
        assert(all.last() == changes[m as int].input_index as int);
        let yes = picked_positions(changes, eligible_at(eligible_of(changes, schema, n)));
        let yes_before = picked_positions(changes, eligible_at(eligible_of(changes, schema, m)));
        let no = skip_positions(ineligible_of(changes, schema, n));
        let no_before = skip_positions(ineligible_of(changes, schema, m));
        match ineligible(
            changes[m as int].change.column_name,
            column_names(schema),
            pk_names(schema),
        ) {
            None => {
                assert(yes.drop_last() =~= yes_before);
                assert(yes.last() == all.last());
            },
            Some(_) => {
                assert(no.drop_last() =~= no_before);
                assert(no.last() == all.last());
            },
        }
    }
}

proof fn lemma_replace_positions(
    group: Seq<IndexedView>,
    staged: Seq<StagedView>,
    p: int,
    won: StagedView,
    x: int,
)
    requires
        0 <= p < staged.len(),
    ensures
        times(picked_positions(group, staged_at(staged.remove(p).push(won))), x) + (if group[staged[
        p].at].input_index == x {
            1nat
        } else {
            0nat
        }) == times(picked_positions(group, staged_at(staged)), x) + (if group[won.at].input_index
            == x {
            1nat
        } else {
            0nat
        }),
{
    let before = picked_positions(group, staged_at(staged));
    let after = picked_positions(group, staged_at(staged.remove(p).push(won)));
    lemma_times_remove(before, p, x);
    assert(after.drop_last() =~= before.remove(p));
    assert(after.last() == group[won.at].input_index as int);
}

proof fn lemma_stage_positions(
    group: Seq<IndexedView>,
    staged: Seq<StagedView>,
    won: StagedView,
    x: int,
)
    ensures
        times(picked_positions(group, staged_at(staged.push(won))), x) == times(
            picked_positions(group, staged_at(staged)),
            x,
        ) + (if group[won.at].input_index == x {
            1nat
        } else {
            0nat
        }),
{
    let before = picked_positions(group, staged_at(staged));
    let after = picked_positions(group, staged_at(staged.push(won)));
    assert(after.drop_last() =~= before);
    assert(after.last() == group[won.at].input_index as int);
}

proof fn lemma_skip_positions(skips: Seq<SkippedChange>, skip: SkippedChange, x: int)
    ensures
        times(skip_positions(skips.push(skip)), x) == times(skip_positions(skips), x) + (
        if skip.input_index == x {
            1nat
        } else {
            0nat
        }),
{
    let after = skip_positions(skips.push(skip));
    assert(after.drop_last() =~= skip_positions(skips));
}

/// One verdict stages or skips one change more.
proof fn lemma_stage_one_positions(
    before: Staging,
    group: Seq<IndexedView>,
    stored: Seq<(Seq<char>, JsonView)>,
    at: int,
    decision: DecisionView,
    x: int,
)
    ensures
        ({
            let after = stage_one(before, group, stored, at, decision);
            times(picked_positions(group, staged_at(after.staged)), x) + times(
                skip_positions(after.skips),
                x,
            ) == times(picked_positions(group, staged_at(before.staged)), x) + times(
                skip_positions(before.skips),
                x,
            ) + (if group[at].input_index == x {
                1nat
            } else {
                0nat
            })
        }),
{
    let after = stage_one(before, group, stored, at, decision);
    let p = holder(before.staged, group, group[at].change.column_name);
    lemma_holder(before.staged, group, group[at].change.column_name);
    if after.skips.len() > before.skips.len() {
        lemma_skip_positions(before.skips, after.skips.last(), x);
        assert(after.skips == before.skips.push(after.skips.last()));
    }
    match decision {
        DecisionView::Skip => {},
        DecisionView::Accept { value, signature } => {
            let won = StagedView { at, value, signature };
            if !group[at].change.hlc_timestamp.contains('/') || !hlc_before(
                running_hlc(before.staged, group, stored, group[at].change.column_name),
                group[at].change.hlc_timestamp,
            ) {
                assert(after.staged == before.staged);
            } else if p < before.staged.len() {
                lemma_replace_positions(group, before.staged, p as int, won, x);
            } else {
                lemma_stage_positions(group, before.staged, won, x);
            }
        },
    }
}

/// Each eligible change is either staged or skipped, and not both.
pub proof fn lemma_staging_positions(
    group: Seq<IndexedView>,
    stored: Seq<(Seq<char>, JsonView)>,
    eligible: Seq<usize>,
    decisions: Seq<DecisionView>,
    n: nat,
    x: int,
)
    requires
        n <= eligible.len(),
    ensures
        ({
            let st = staging(group, stored, eligible, decisions, n);
            times(picked_positions(group, staged_at(st.staged)), x) + times(
                skip_positions(st.skips),
                x,
            ) == times(picked_positions(group, eligible_at(eligible.take(n as int))), x)
        }),
    decreases n,
{
    let st = staging(group, stored, eligible, decisions, n);
    let all = picked_positions(group, eligible_at(eligible.take(n as int)));
    if n == 0 {
        assert(all =~= Seq::empty());
        assert(picked_positions(group, staged_at(st.staged)) =~= Seq::empty());
        assert(skip_positions(st.skips) =~= Seq::empty());
    } else {
        let m = (n - 1) as nat;
        lemma_staging_positions(group, stored, eligible, decisions, m, x);
        let at = eligible[m as int] as int;
        assert(all.drop_last() =~= picked_positions(group, eligible_at(eligible.take(m as int))));
        assert(all.last() == group[at].input_index as int);
        lemma_stage_one_positions(
            staging(group, stored, eligible, decisions, m),
            group,
            stored,
            at,
            decisions[m as int],
            x,
        );
    }
}

/// Every verdict stages or skips one change.
pub proof fn lemma_staging_size(
    group: Seq<IndexedView>,
    stored: Seq<(Seq<char>, JsonView)>,
    eligible: Seq<usize>,
    decisions: Seq<DecisionView>,
    n: nat,
)
    ensures
        ({
            let st = staging(group, stored, eligible, decisions, n);
            st.staged.len() + st.skips.len() == n
        }),
    decreases n,
{
    if n > 0 {
        lemma_staging_size(group, stored, eligible, decisions, (n - 1) as nat);
        let before = staging(group, stored, eligible, decisions, (n - 1) as nat);
        let at = eligible[n - 1] as int;
        lemma_holder(before.staged, group, group[at].change.column_name);
    }
}

proof fn lemma_pending_from_the_end(groups: Seq<RowGroupView>, x: int)
    requires
        groups.len() > 0,
    ensures
        times_pending(groups, x) == times_pending(groups.drop_last(), x) + times(
            positions(groups.last().changes),
            x,
        ),
        owed_pending(groups) == owed_pending(groups.drop_last()) + groups.last().changes.len(),
    decreases groups.len(),
{
    if groups.len() == 1 {
        assert(groups.drop_first() =~= Seq::empty());
        assert(groups.drop_last() =~= Seq::empty());
    } else {
        lemma_pending_from_the_end(groups.drop_first(), x);
        assert(groups.drop_last().drop_first() =~= groups.drop_first().drop_last());
        assert(groups.drop_first().last() == groups.last());
        assert(groups.drop_last().first() == groups.first());
    }
}

proof fn lemma_pending_positions(groups: Seq<RowGroup>, x: int)
    ensures
        times_pending(row_group_views(groups), x) == times(positions_in(groups), x),
        owed_pending(row_group_views(groups)) == positions_in(groups).len(),
    decreases groups.len(),
{
    let views = row_group_views(groups);
    if groups.len() > 0 {
        let rest = groups.drop_last();
        lemma_pending_positions(rest, x);
        lemma_pending_from_the_end(views, x);
        assert(views.drop_last() =~= row_group_views(rest));
        let own = positions(groups.last()@.changes);
        assert(positions_in(groups) =~= positions_in(rest) + own);
        lemma_times_concat(positions_in(rest), own, x);
    }
}

/// A batch in merge order holds each of its positions once.
pub proof fn lemma_batch_positions(changes: Seq<ColumnChange>, groups: Seq<RowGroup>, x: int)
    requires
        merge_order(changes, groups),
        changes.len() <= usize::MAX,
    ensures
        times_pending(row_group_views(groups), x) == (if 0 <= x < changes.len() {
            1nat
        } else {
            0nat
        }),
{
    let all = positions_in(groups);
    lemma_positions_in(groups);
    lemma_pending_positions(groups, x);
    if 0 <= x < changes.len() {
        assert(in_a_group(groups, x));
        assert(all.contains(x));
        lemma_times_no_duplicates(all, x);
    } else {
        assert forall|p: int| 0 <= p < all.len() implies #[trigger] all[p] != x by {
            assert(in_a_group(groups, all[p]));
        }
        lemma_times_absent(all, x);
    }
}

/// A batch in merge order holds as many changes as came.
pub proof fn lemma_batch_size(changes: Seq<ColumnChange>, groups: Seq<RowGroup>)
    requires
        merge_order(changes, groups),
        changes.len() <= usize::MAX,
    ensures
        owed_pending(row_group_views(groups)) == changes.len(),
{
    lemma_merge_order_counts(changes, groups);
    lemma_positions_in(groups);
    lemma_pending_positions(groups, 0);
}

} // verus!
