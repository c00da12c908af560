//! A batch in the order in which it is merged.

use crate::crdt::apply::grouping::group_by_hlc_key;
use crate::crdt::apply::grouping::group_by_row_key_hlc_ordered;
use crate::crdt::apply::grouping::grouped_by_hlc;
use crate::crdt::apply::grouping::lemma_group_order;
use crate::crdt::apply::grouping::grouped_by_row;
use crate::crdt::apply::grouping::has_group;
use crate::crdt::apply::grouping::items_with;
use crate::crdt::apply::grouping::oldest_of;
use crate::crdt::apply::grouping::pair_groups;
use crate::crdt::apply::grouping::row_before;
use crate::crdt::apply::grouping::text_groups;
use crate::crdt::apply::policy_types::indexed_views;
use crate::crdt::apply::policy_types::IndexedChange;
use crate::crdt::apply::policy_types::IndexedView;
use crate::crdt::scanner::change::change_views;
use crate::crdt::scanner::change::ChangeView;
use crate::crdt::scanner::change::ColumnChange;
use vstd::prelude::*;

verus! {

/// The changes of one row.
#[derive(Debug)]
pub struct RowGroup {
    pub table_name: String,
    pub row_pks: String,
    pub changes: Vec<IndexedChange>,
}

/// What a [`RowGroup`] stands for.
pub struct RowGroupView {
    pub table_name: Seq<char>,
    pub row_pks: Seq<char>,
    pub changes: Seq<IndexedView>,
}

impl View for RowGroup {
    type V = RowGroupView;

    open spec fn view(&self) -> RowGroupView {
        RowGroupView {
            table_name: self.table_name@,
            row_pks: self.row_pks@,
            changes: indexed_views(self.changes@),
        }
    }
}

/// What a list of row groups stands for.
pub open spec fn row_group_views(v: Seq<RowGroup>) -> Seq<RowGroupView> {
    v.map_values(|g: RowGroup| g@)
}

/// The batch with positions.
pub open spec fn indexed(changes: Seq<ChangeView>) -> Seq<IndexedView> {
    Seq::new(
        changes.len(),
        |i: int| IndexedView { input_index: i as usize, change: changes[i] },
    )
}

/// The timestamps of some changes.
pub open spec fn hlcs_of(items: Seq<IndexedChange>) -> Seq<Seq<char>> {
    items.map_values(|c: IndexedChange| c.change.hlc_timestamp@)
}

/// The rows of some changes.
pub open spec fn rows_of(items: Seq<IndexedChange>) -> Seq<(Seq<char>, Seq<char>)> {
    items.map_values(|c: IndexedChange| (c.change.table_name@, c.change.row_pks@))
}

/// The groups one after another.
pub open spec fn flattened<K, T>(groups: Seq<(K, Seq<T>)>) -> Seq<T>
    decreases groups.len(),
{
    if groups.len() == 0 {
        Seq::empty()
    } else {
        flattened(groups.drop_last()) + groups.last().1
    }
}

/// Every item is in the groups under its key, and the groups hold nothing
/// else.
pub proof fn lemma_items_with_members<T, K>(items: Seq<T>, keys: Seq<K>, key: K, x: T)
    requires
        items.len() <= keys.len(),
    ensures
        items_with(items, keys, key).contains(x) <==> exists|i: int|
            0 <= i < items.len() && #[trigger] items[i] == x && keys[i] == key,
    decreases items.len(),
{
    if items.len() > 0 {
        let rest = items.drop_last();
        lemma_items_with_members(rest, keys, key, x);
        let n = items.len() - 1;
        let mine = items_with(rest, keys, key);
        if keys[n] == key {
            let all = mine.push(items.last());
            if all.contains(x) {
                let k = choose|k: int| 0 <= k < all.len() && all[k] == x;
                if k < mine.len() {
                    assert(mine[k] == x);
                    let i = choose|i: int|
                        0 <= i < rest.len() && #[trigger] rest[i] == x && keys[i] == key;
                    assert(items[i] == x);
                } else {
                    assert(items[n] == x);
                }
            }
            if exists|i: int|
                0 <= i < items.len() && #[trigger] items[i] == x && keys[i] == key {
                let i = choose|i: int|
                    0 <= i < items.len() && #[trigger] items[i] == x && keys[i] == key;
                if i < n {
                    assert(rest[i] == x);
                    let k = choose|k: int| 0 <= k < mine.len() && mine[k] == x;
                    assert(all[k] == x);
                } else {
                    assert(all[mine.len() as int] == x);
                }
            }
        } else {
            if mine.contains(x) {
                let i = choose|i: int|
                    0 <= i < rest.len() && #[trigger] rest[i] == x && keys[i] == key;
                assert(items[i] == x);
            }
            if exists|i: int|
                0 <= i < items.len() && #[trigger] items[i] == x && keys[i] == key {
                let i = choose|i: int|
                    0 <= i < items.len() && #[trigger] items[i] == x && keys[i] == key;
                assert(rest[i] == x);
            }
        }
    }
}

/// No two of these changes have the same position in the batch.
pub open spec fn positions_distinct(items: Seq<IndexedChange>) -> bool {
    forall|i: int, j: int|
        #![trigger items[i], items[j]]
        0 <= i < j < items.len() ==> items[i].input_index != items[j].input_index
}

proof fn lemma_items_with_distinct<K>(items: Seq<IndexedChange>, keys: Seq<K>, key: K)
    requires
        items.len() <= keys.len(),
        positions_distinct(items),
    ensures
        positions_distinct(items_with(items, keys, key)),
    decreases items.len(),
{
    if items.len() > 0 {
        let rest = items.drop_last();
        assert(positions_distinct(rest)) by {
            assert forall|i: int, j: int|
                #![trigger rest[i], rest[j]]
                0 <= i < j < rest.len() implies rest[i].input_index != rest[j].input_index by {
                assert(rest[i] == items[i] && rest[j] == items[j]);
            }
        }
        lemma_items_with_distinct(rest, keys, key);
        let n = items.len() - 1;
        let mine = items_with(rest, keys, key);
        if keys[n] == key {
            let all = mine.push(items.last());
            assert forall|i: int, j: int|
                #![trigger all[i], all[j]]
                0 <= i < j < all.len() implies all[i].input_index != all[j].input_index by {
                assert(all[i] == mine[i]);
                if j < mine.len() {
                    assert(all[j] == mine[j]);
                } else {
                    lemma_items_with_members(rest, keys, key, mine[i]);
                    assert(mine.contains(mine[i]));
                    let k = choose|k: int|
                        0 <= k < rest.len() && #[trigger] rest[k] == mine[i] && keys[k] == key;
                    assert(items[k] == mine[i]);
                    assert(items[k].input_index != items[n].input_index);
                }
            }
        }
    }
}

/// A grouping: each key once, holding the items of that key.
spec fn is_grouping<K>(
    items: Seq<IndexedChange>,
    keys: Seq<K>,
    groups: Seq<(K, Seq<IndexedChange>)>,
) -> bool {
    &&& items.len() == keys.len()
    &&& forall|i: int| 0 <= i < keys.len() ==> has_group(groups, #[trigger] keys[i])
    &&& forall|g: int|
        0 <= g < groups.len() ==> (#[trigger] groups[g]).1 == items_with(
            items,
            keys,
            groups[g].0,
        )
    &&& forall|g: int, h: int|
        #![trigger groups[g], groups[h]]
        0 <= g < h < groups.len() ==> groups[g].0 != groups[h].0
}

proof fn lemma_group_of_item<K>(
    items: Seq<IndexedChange>,
    keys: Seq<K>,
    groups: Seq<(K, Seq<IndexedChange>)>,
    i: int,
)
    requires
        is_grouping(items, keys, groups),
        0 <= i < items.len(),
    ensures
        exists|g: int, k: int|
            0 <= g < groups.len() && 0 <= k < groups[g].1.len() && #[trigger] groups[g].1[k]
                == items[i],
{
    assert(has_group(groups, keys[i]));
    let g = choose|g: int| 0 <= g < groups.len() && #[trigger] groups[g].0 == keys[i];
    lemma_items_with_members(items, keys, keys[i], items[i]);
    assert(groups[g].1.contains(items[i]));
    let k = choose|k: int| 0 <= k < groups[g].1.len() && groups[g].1[k] == items[i];
    assert(groups[g].1[k] == items[i]);
}

proof fn lemma_item_of_group<K>(
    items: Seq<IndexedChange>,
    keys: Seq<K>,
    groups: Seq<(K, Seq<IndexedChange>)>,
    g: int,
    k: int,
)
    requires
        is_grouping(items, keys, groups),
        0 <= g < groups.len(),
        0 <= k < groups[g].1.len(),
    ensures
        exists|i: int|
            0 <= i < items.len() && #[trigger] items[i] == groups[g].1[k] && keys[i]
                == groups[g].0,
{
    lemma_items_with_members(items, keys, groups[g].0, groups[g].1[k]);
    assert(groups[g].1.contains(groups[g].1[k]));
}

/// Two places in a grouping never hold the same position of the batch.
proof fn lemma_grouping_distinct<K>(
    items: Seq<IndexedChange>,
    keys: Seq<K>,
    groups: Seq<(K, Seq<IndexedChange>)>,
    g: int,
    k: int,
    h: int,
    m: int,
)
    requires
        is_grouping(items, keys, groups),
        positions_distinct(items),
        0 <= g < groups.len(),
        0 <= k < groups[g].1.len(),
        0 <= h < groups.len(),
        0 <= m < groups[h].1.len(),
        g != h || k != m,
    ensures
        groups[g].1[k].input_index != groups[h].1[m].input_index,
{
    if g == h {
        lemma_items_with_distinct(items, keys, groups[g].0);
        let s = groups[g].1;
        if k < m {
            assert(s[k].input_index != s[m].input_index);
        } else {
            assert(s[m].input_index != s[k].input_index);
        }
    } else {
        lemma_item_of_group(items, keys, groups, g, k);
        lemma_item_of_group(items, keys, groups, h, m);
        let i = choose|i: int|
            0 <= i < items.len() && #[trigger] items[i] == groups[g].1[k] && keys[i]
                == groups[g].0;
        let j = choose|j: int|
            0 <= j < items.len() && #[trigger] items[j] == groups[h].1[m] && keys[j]
                == groups[h].0;
        if g < h {
            assert(groups[g].0 != groups[h].0);
        } else {
            assert(groups[h].0 != groups[g].0);
        }
        assert(i != j);
        if i < j {
            assert(items[i].input_index != items[j].input_index);
        } else {
            assert(items[j].input_index != items[i].input_index);
        }
    }
}

#[verifier::spinoff_prover]
proof fn lemma_flattened<K>(groups: Seq<(K, Seq<IndexedChange>)>)
    ensures
        forall|x: int|
            0 <= x < flattened(groups).len() ==> exists|g: int, k: int|
                0 <= g < groups.len() && 0 <= k < groups[g].1.len() && #[trigger] flattened(
                    groups,
                )[x] == #[trigger] groups[g].1[k],
        forall|g: int, k: int|
            0 <= g < groups.len() && 0 <= k < groups[g].1.len() ==> flattened(groups).contains(
                #[trigger] groups[g].1[k],
            ),
        (forall|g: int, k: int, h: int, m: int|
            #![trigger groups[g].1[k], groups[h].1[m]]
            0 <= g < groups.len() && 0 <= k < groups[g].1.len() && 0 <= h < groups.len() && 0 <= m
                < groups[h].1.len() && (g != h || k != m) ==> groups[g].1[k].input_index
                != groups[h].1[m].input_index) ==> positions_distinct(flattened(groups)),
    decreases groups.len(),
{
    if groups.len() > 0 {
        let rest = groups.drop_last();
        let last = groups.len() - 1;
        lemma_flattened(rest);
        let flat = flattened(groups);
        let head = flattened(rest);
        assert forall|x: int| 0 <= x < flat.len() implies exists|g: int, k: int|
            0 <= g < groups.len() && 0 <= k < groups[g].1.len() && #[trigger] flat[x]
                == #[trigger] groups[g].1[k] by {
            if x < head.len() {
                assert(flat[x] == head[x]);
                let (g, k) = choose|g: int, k: int|
                    0 <= g < rest.len() && 0 <= k < rest[g].1.len() && head[x]
                        == #[trigger] rest[g].1[k];
                assert(rest[g] == groups[g]);
                assert(flat[x] == groups[g].1[k]);
            } else {
                assert(flat[x] == groups[last].1[x - head.len()]);
            }
        }
        assert forall|g: int, k: int|
            0 <= g < groups.len() && 0 <= k < groups[g].1.len() implies flat.contains(
            #[trigger] groups[g].1[k],
        ) by {
            if g < last {
                assert(rest[g] == groups[g]);
                assert(head.contains(rest[g].1[k]));
                let x = choose|x: int| 0 <= x < head.len() && head[x] == rest[g].1[k];
                assert(flat[x] == groups[g].1[k]);
            } else {
                assert(flat[head.len() + k] == groups[g].1[k]);
            }
        }
        if forall|g: int, k: int, h: int, m: int|
            #![trigger groups[g].1[k], groups[h].1[m]]
            0 <= g < groups.len() && 0 <= k < groups[g].1.len() && 0 <= h < groups.len() && 0 <= m
                < groups[h].1.len() && (g != h || k != m) ==> groups[g].1[k].input_index
                != groups[h].1[m].input_index {
            assert forall|g: int, k: int, h: int, m: int|
                #![trigger rest[g].1[k], rest[h].1[m]]
                0 <= g < rest.len() && 0 <= k < rest[g].1.len() && 0 <= h < rest.len() && 0 <= m
                    < rest[h].1.len() && (g != h || k != m) implies rest[g].1[k].input_index
                != rest[h].1[m].input_index by {
                assert(rest[g] == groups[g] && rest[h] == groups[h]);
                assert(groups[g].1[k].input_index != groups[h].1[m].input_index);
            }
            assert(positions_distinct(head));
            assert forall|i: int, j: int|
                #![trigger flat[i], flat[j]]
                0 <= i < j < flat.len() implies flat[i].input_index != flat[j].input_index by {
                if j < head.len() {
                    assert(flat[i] == head[i] && flat[j] == head[j]);
                } else if i < head.len() {
                    assert(flat[i] == head[i]);
                    let (g, k) = choose|g: int, k: int|
                        0 <= g < rest.len() && 0 <= k < rest[g].1.len() && head[i]
                            == #[trigger] rest[g].1[k];
                    assert(rest[g] == groups[g]);
                    let m = j - head.len();
                    assert(flat[j] == groups[last].1[m]);
                    assert(groups[g].1[k].input_index != groups[last].1[m].input_index);
                } else {
                    let k = i - head.len();
                    let m = j - head.len();
                    assert(flat[i] == groups[last].1[k]);
                    assert(flat[j] == groups[last].1[m]);
                    assert(groups[last].1[k].input_index != groups[last].1[m].input_index);
                }
            }
        }
    }
}

/// The changes with their positions in the batch.
fn index_changes(changes: Vec<ColumnChange>) -> (r: Vec<IndexedChange>)
    ensures
        r@.len() == changes@.len(),
        forall|i: int|
            0 <= i < r@.len() ==> (#[trigger] r@[i]).input_index == i && r@[i].change
                == changes@[i],
{
    let ghost all = changes@;
    let mut out: Vec<IndexedChange> = Vec::new();
    for change in it: changes.into_iter()
        invariant
            it.seq() == all,
            out@.len() == it.index(),
            forall|i: int|
                0 <= i < out@.len() ==> (#[trigger] out@[i]).input_index == i && out@[i].change
                    == all[i],
    {
        let at: usize = out.len();
        out.push(IndexedChange { input_index: at, change });
    }
    out
}

/// The timestamp that a change is grouped by.
fn hlc_of(c: &IndexedChange) -> (s: &str)
    ensures
        s@ == c.change.hlc_timestamp@,
{
    c.change.hlc_timestamp.as_str()
}

/// The row that a change is grouped by.
fn row_of(c: &IndexedChange) -> (k: (String, String))
    ensures
        k.0@ == c.change.table_name@,
        k.1@ == c.change.row_pks@,
{
    (c.change.table_name.clone(), c.change.row_pks.clone())
}

/// The flattened form of timestamp groups.
fn flatten_groups(groups: Vec<(String, Vec<IndexedChange>)>) -> (r: Vec<IndexedChange>)
    ensures
        r@ == flattened(text_groups(groups@)),
{
    let ghost all = groups@;
    let mut out: Vec<IndexedChange> = Vec::new();
    assert(text_groups(all).take(0) =~= Seq::<(Seq<char>, Seq<IndexedChange>)>::empty());
    for group in it: groups.into_iter()
        invariant
            it.seq() == all,
            out@ == flattened(text_groups(all).take(it.index() as int)),
    {
        let ghost next = text_groups(all).take(it.index() + 1);
        assert(next.drop_last() =~= text_groups(all).take(it.index() as int));
        assert(next.last() == (group.0@, group.1@));
        let (_, items) = group;
        let mut items = items;
        out.append(&mut items);
    }
    assert(text_groups(all).take(all.len() as int) =~= text_groups(all));
    out
}

/// Changes grouped by timestamp, one group after another.
pub open spec fn in_causal_order(items: Seq<IndexedChange>, ordered: Seq<IndexedChange>) -> bool {
    exists|groups: Seq<(Seq<char>, Seq<IndexedChange>)>|
        #[trigger] grouped_by_hlc(items, hlcs_of(items), groups) && ordered == flattened(groups)
}

/// The rows of an ordered batch.
pub open spec fn in_row_order(ordered: Seq<IndexedChange>, groups: Seq<RowGroup>) -> bool {
    grouped_by_row(
        ordered,
        rows_of(ordered),
        hlcs_of(ordered),
        groups.map_values(
            |g: RowGroup| ((g.table_name@, g.row_pks@), g.changes@),
        ),
    )
}

/// The position of a change in the batch, and the change.
pub open spec fn holds_change(groups: Seq<RowGroup>, g: int, k: int, at: usize) -> bool {
    0 <= g < groups.len() && 0 <= k < groups[g].changes@.len() && groups[g].changes@[k].input_index
        == at
}

/// The change at this position of the batch is in one of the groups.
pub open spec fn in_a_group(groups: Seq<RowGroup>, at: int) -> bool {
    exists|g: int, k: int| #[trigger] holds_change(groups, g, k, at as usize)
}

/// `groups` are the rows of a batch in merge order: transactions in causal
/// order, the changes of a row together, rows by their oldest change. Every
/// change is in exactly one group, with its position in the batch.
pub open spec fn merge_order(changes: Seq<ColumnChange>, groups: Seq<RowGroup>) -> bool {
    &&& exists|items: Seq<IndexedChange>, ordered: Seq<IndexedChange>|
        {
            &&& indexed_views(items) == indexed(change_views(changes))
            &&& #[trigger] in_causal_order(items, ordered)
            &&& in_row_order(ordered, groups)
        }
    &&& forall|i: int| 0 <= i < changes.len() ==> #[trigger] in_a_group(groups, i)
    &&& forall|g: int, k: int|
        0 <= g < groups.len() && 0 <= k < groups[g].changes@.len() ==> {
            let c = #[trigger] groups[g].changes@[k];
            &&& c.input_index < changes.len()
            &&& c.change == changes[c.input_index as int]
            &&& c.change.table_name@ == groups[g].table_name@
            &&& c.change.row_pks@ == groups[g].row_pks@
        }
    &&& each_once(groups)
}

/// No position of the batch is in the groups twice.
pub open spec fn each_once(groups: Seq<RowGroup>) -> bool {
    forall|g: int, k: int, h: int, m: int|
        #![trigger groups[g].changes@[k], groups[h].changes@[m]]
        0 <= g < groups.len() && 0 <= k < groups[g].changes@.len() && 0 <= h < groups.len() && 0
            <= m < groups[h].changes@.len() && (g != h || k != m)
            ==> groups[g].changes@[k].input_index != groups[h].changes@[m].input_index
}

/// Number of changes in some groups.
pub open spec fn changes_in(groups: Seq<RowGroup>) -> nat
    decreases groups.len(),
{
    if groups.len() == 0 {
        0
    } else {
        changes_in(groups.drop_last()) + groups.last().changes@.len()
    }
}

/// The positions of the changes in some groups, one group after another.
pub open spec fn positions_in(groups: Seq<RowGroup>) -> Seq<int>
    decreases groups.len(),
{
    if groups.len() == 0 {
        Seq::empty()
    } else {
        positions_in(groups.drop_last()) + groups.last().changes@.map_values(
            |c: IndexedChange| c.input_index as int,
        )
    }
}

pub proof fn lemma_positions_in(groups: Seq<RowGroup>)
    requires
        each_once(groups),
    ensures
        positions_in(groups).len() == changes_in(groups),
        positions_in(groups).no_duplicates(),
        forall|p: int|
            0 <= p < positions_in(groups).len() ==> 0 <= #[trigger] positions_in(groups)[p]
                <= usize::MAX && in_a_group(groups, positions_in(groups)[p]),
        forall|g: int, k: int|
            0 <= g < groups.len() && 0 <= k < groups[g].changes@.len()
                ==> positions_in(groups).contains(
                #[trigger] groups[g].changes@[k].input_index as int,
            ),
    decreases groups.len(),
{
    if groups.len() > 0 {
        let rest = groups.drop_last();
        let n = groups.len() - 1;
        assert(each_once(rest)) by {
            assert forall|g: int, k: int, h: int, m: int|
                #![trigger rest[g].changes@[k], rest[h].changes@[m]]
                0 <= g < rest.len() && 0 <= k < rest[g].changes@.len() && 0 <= h < rest.len() && 0
                    <= m < rest[h].changes@.len() && (g != h || k
                    != m) implies rest[g].changes@[k].input_index
                != rest[h].changes@[m].input_index by {
                assert(rest[g].changes@[k] == groups[g].changes@[k]);
                assert(rest[h].changes@[m] == groups[h].changes@[m]);
            }
        }
        lemma_positions_in(rest);
        let before = positions_in(rest);
        let own = groups.last().changes@.map_values(|c: IndexedChange| c.input_index as int);
        let all = positions_in(groups);
        assert(all == before + own);
        assert forall|p: int| 0 <= p < all.len() implies 0 <= #[trigger] all[p] <= usize::MAX
            && in_a_group(groups, all[p]) by {
            if p < before.len() {
                assert(all[p] == before[p]);
                let (g, k) = choose|g: int, k: int| #[trigger]
                    holds_change(rest, g, k, before[p] as usize);
                assert(holds_change(groups, g, k, all[p] as usize));
            } else {
                let k = p - before.len();
                assert(all[p] == own[k]);
                assert(holds_change(groups, n, k, all[p] as usize));
            }
        }
        assert forall|p: int, q: int| 0 <= p < q < all.len() implies all[p] != all[q] by {
            if q < before.len() {
                assert(before[p] != before[q]);
            } else if p < before.len() {
                let (g, k) = choose|g: int, k: int| #[trigger]
                    holds_change(rest, g, k, before[p] as usize);
                let m = q - before.len();
                assert(rest[g].changes@[k] == groups[g].changes@[k]);
                assert(groups[g].changes@[k].input_index != groups[n].changes@[m].input_index);
                assert(all[q] == own[m]);
            } else {
                let k = p - before.len();
                let m = q - before.len();
                assert(groups[n].changes@[k].input_index != groups[n].changes@[m].input_index);
                assert(all[p] == own[k] && all[q] == own[m]);
            }
        }
        assert forall|g: int, k: int|
            0 <= g < groups.len() && 0 <= k < groups[g].changes@.len() implies all.contains(
            #[trigger] groups[g].changes@[k].input_index as int,
        ) by {
            let x = groups[g].changes@[k].input_index as int;
            if g < n {
                assert(rest[g].changes@[k] == groups[g].changes@[k]);
                assert(before.contains(rest[g].changes@[k].input_index as int));
                let p = choose|p: int| 0 <= p < before.len() && before[p] == x;
                assert(all[p] == x);
            } else {
                assert(own[k] == x);
                assert(all[before.len() + k] == x);
            }
        }
    }
}

/// No group is empty, and no two groups are about one row as it is written.
pub proof fn lemma_groups_are_keyed(
    changes: Seq<ColumnChange>,
    groups: Seq<RowGroup>,
    g: int,
    h: int,
)
    requires
        merge_order(changes, groups),
        0 <= g < h < groups.len(),
    ensures
        groups[g].changes@.len() > 0,
        groups[h].changes@.len() > 0,
        groups[g].table_name@ != groups[h].table_name@ || groups[g].row_pks@
            != groups[h].row_pks@,
{
    let (items, ordered) = choose|items: Seq<IndexedChange>, ordered: Seq<IndexedChange>|
        {
            &&& indexed_views(items) == indexed(change_views(changes))
            &&& #[trigger] in_causal_order(items, ordered)
            &&& in_row_order(ordered, groups)
        };
    let pairs = groups.map_values(|g: RowGroup| ((g.table_name@, g.row_pks@), g.changes@));
    lemma_row_grouping(ordered, pairs);
    assert(pairs[g].0 != pairs[h].0);
    lemma_group_has_member(ordered, pairs, g);
    lemma_group_has_member(ordered, pairs, h);
}

proof fn lemma_group_has_member(
    ordered: Seq<IndexedChange>,
    pairs: Seq<((Seq<char>, Seq<char>), Seq<IndexedChange>)>,
    g: int,
)
    requires
        grouped_by_row(ordered, rows_of(ordered), hlcs_of(ordered), pairs),
        0 <= g < pairs.len(),
    ensures
        pairs[g].1.len() > 0,
{
    let rows = rows_of(ordered);
    assert(rows.contains(pairs[g].0));
    let i = choose|i: int| 0 <= i < rows.len() && rows[i] == pairs[g].0;
    lemma_items_with_members(ordered, rows, pairs[g].0, ordered[i]);
    assert(pairs[g].1.contains(ordered[i]));
}

/// The groups hold as many changes as the batch.
pub proof fn lemma_merge_order_counts(changes: Seq<ColumnChange>, groups: Seq<RowGroup>)
    requires
        merge_order(changes, groups),
        changes.len() <= usize::MAX,
    ensures
        changes_in(groups) == changes.len(),
{
    lemma_positions_in(groups);
    let all = positions_in(groups);
    let n = changes.len() as int;
    let range = vstd::set_lib::set_int_range(0, n);
    assert forall|x: int| all.to_set().contains(x) <==> range.contains(x) by {
        if all.contains(x) {
            let p = choose|p: int| 0 <= p < all.len() && all[p] == x;
            let (g, k) = choose|g: int, k: int| #[trigger]
                holds_change(groups, g, k, all[p] as usize);
            let c = groups[g].changes@[k];
            assert(c.input_index < changes.len());
        }
        if 0 <= x < n {
            assert(in_a_group(groups, x));
            let (g, k) = choose|g: int, k: int| #[trigger] holds_change(groups, g, k, x as usize);
            assert(all.contains(groups[g].changes@[k].input_index as int));
        }
    }
    assert(all.to_set() =~= range);
    all.unique_seq_to_set();
    vstd::set_lib::lemma_int_range(0, n);
}

/// Puts a batch in merge order.
pub fn order_batch(changes: Vec<ColumnChange>) -> (r: Vec<RowGroup>)
    ensures
        merge_order(changes@, r@),
{
    let ghost batch = changes@;
    let items = index_changes(changes);
    let ghost first = items@;
    let by_hlc = group_by_hlc_key(items, hlc_of);
    let ghost hlc_groups = text_groups(by_hlc@);
    proof {
        let keys = choose|keys: Seq<Seq<char>>|
            #[trigger] crate::crdt::apply::grouping::texts_given(first, hlc_of, keys)
                && grouped_by_hlc(first, keys, hlc_groups);
        assert forall|i: int| 0 <= i < keys.len() implies keys[i] == hlcs_of(first)[i] by {
            assert(crate::crdt::apply::grouping::gives_text(hlc_of, first[i], keys[i]));
        }
        assert(keys =~= hlcs_of(first));
        lemma_hlc_grouping(first, hlc_groups);
    }
    let ordered = flatten_groups(by_hlc);
    let ghost second = ordered@;
    proof {
        assert(grouped_by_hlc(first, hlcs_of(first), hlc_groups));
        assert(in_causal_order(first, second));
        assert(positions_distinct(first));
        assert forall|g: int, k: int, h: int, m: int|
            #![trigger hlc_groups[g].1[k], hlc_groups[h].1[m]]
            0 <= g < hlc_groups.len() && 0 <= k < hlc_groups[g].1.len() && 0 <= h
                < hlc_groups.len() && 0 <= m < hlc_groups[h].1.len() && (g != h || k
                != m) implies hlc_groups[g].1[k].input_index
            != hlc_groups[h].1[m].input_index by {
            lemma_grouping_distinct(first, hlcs_of(first), hlc_groups, g, k, h, m);
        }
        lemma_flattened(hlc_groups);
    }
    let by_row = group_by_row_key_hlc_ordered(ordered, row_of, hlc_of);
    let ghost row_groups = pair_groups(by_row@);
    proof {
        let (keys, hlcs) = choose|keys: Seq<(Seq<char>, Seq<char>)>, hlcs: Seq<Seq<char>>|
            #[trigger] crate::crdt::apply::grouping::pairs_given(second, row_of, keys)
                && #[trigger] crate::crdt::apply::grouping::texts_given(second, hlc_of, hlcs)
                && grouped_by_row(second, keys, hlcs, row_groups);
        assert forall|i: int| 0 <= i < keys.len() implies keys[i] == rows_of(second)[i] by {
            assert(crate::crdt::apply::grouping::gives_pair(row_of, second[i], keys[i]));
        }
        assert forall|i: int| 0 <= i < hlcs.len() implies hlcs[i] == hlcs_of(second)[i] by {
            assert(crate::crdt::apply::grouping::gives_text(hlc_of, second[i], hlcs[i]));
        }
        assert(keys =~= rows_of(second));
        assert(hlcs =~= hlcs_of(second));
        lemma_row_grouping(second, row_groups);
    }
    let mut out: Vec<RowGroup> = Vec::new();
    let ghost pairs = by_row@;
    for entry in it: by_row.into_iter()
        invariant
            it.seq() == pairs,
            out@.len() == it.index(),
            row_groups == pair_groups(pairs),
            forall|g: int|
                0 <= g < out@.len() ==> (#[trigger] row_groups[g]) == (
                    (out@[g].table_name@, out@[g].row_pks@),
                    out@[g].changes@,
                ),
    {
        let ghost n = it.index() as int;
        let ((table_name, row_pks), changes) = entry;
        assert(row_groups[n] == ((table_name@, row_pks@), changes@));
        out.push(RowGroup { table_name, row_pks, changes });
    }
    proof {
        let as_pairs = out@.map_values(
            |g: RowGroup| ((g.table_name@, g.row_pks@), g.changes@),
        );
        assert(as_pairs =~= row_groups);
        assert(in_row_order(second, out@));
        assert(indexed_views(first) =~= indexed(change_views(batch)));
        assert forall|i: int| 0 <= i < batch.len() implies #[trigger] in_a_group(
            out@,
            i,
        ) by {
            lemma_group_of_item(first, hlcs_of(first), hlc_groups, i);
            let (g, k) = choose|g: int, k: int|
                0 <= g < hlc_groups.len() && 0 <= k < hlc_groups[g].1.len()
                    && #[trigger] hlc_groups[g].1[k] == first[i];
            assert(second.contains(first[i]));
            let x = choose|x: int| 0 <= x < second.len() && second[x] == first[i];
            lemma_group_of_item(second, rows_of(second), row_groups, x);
            let (h, m) = choose|h: int, m: int|
                0 <= h < row_groups.len() && 0 <= m < row_groups[h].1.len()
                    && #[trigger] row_groups[h].1[m] == second[x];
            assert(holds_change(out@, h, m, i as usize));
        }
        assert forall|g: int, k: int|
            0 <= g < out@.len() && 0 <= k < out@[g].changes@.len() implies {
            let c = #[trigger] out@[g].changes@[k];
            &&& c.input_index < batch.len()
            &&& c.change == batch[c.input_index as int]
            &&& c.change.table_name@ == out@[g].table_name@
            &&& c.change.row_pks@ == out@[g].row_pks@
        } by {
            assert(row_groups[g].1 == out@[g].changes@);
            lemma_item_of_group(second, rows_of(second), row_groups, g, k);
            let x = choose|x: int|
                0 <= x < second.len() && #[trigger] second[x] == row_groups[g].1[k] && rows_of(
                    second,
                )[x] == row_groups[g].0;
            let (h, m) = choose|h: int, m: int|
                0 <= h < hlc_groups.len() && 0 <= m < hlc_groups[h].1.len() && second[x]
                    == #[trigger] hlc_groups[h].1[m];
            lemma_item_of_group(first, hlcs_of(first), hlc_groups, h, m);
            let i = choose|i: int|
                0 <= i < first.len() && #[trigger] first[i] == hlc_groups[h].1[m] && hlcs_of(
                    first,
                )[i] == hlc_groups[h].0;
            assert(first[i].input_index == i);
        }
        assert forall|g: int, k: int, h: int, m: int|
            #![trigger out@[g].changes@[k], out@[h].changes@[m]]
            0 <= g < out@.len() && 0 <= k < out@[g].changes@.len() && 0 <= h < out@.len() && 0
                <= m < out@[h].changes@.len() && (g != h || k
                != m) implies out@[g].changes@[k].input_index
            != out@[h].changes@[m].input_index by {
            assert(row_groups[g].1 == out@[g].changes@);
            assert(row_groups[h].1 == out@[h].changes@);
            lemma_grouping_distinct(second, rows_of(second), row_groups, g, k, h, m);
        }
    }
    out
}

proof fn lemma_hlc_grouping(
    items: Seq<IndexedChange>,
    groups: Seq<(Seq<char>, Seq<IndexedChange>)>,
)
    requires
        grouped_by_hlc(items, hlcs_of(items), groups),
    ensures
        is_grouping(items, hlcs_of(items), groups),
{
    assert forall|g: int, h: int|
        #![trigger groups[g], groups[h]]
        0 <= g < h < groups.len() implies groups[g].0 != groups[h].0 by {
        lemma_group_order(groups[g].0, groups[h].0, groups[g].0);
    }
}

proof fn lemma_row_grouping(
    items: Seq<IndexedChange>,
    groups: Seq<((Seq<char>, Seq<char>), Seq<IndexedChange>)>,
)
    requires
        grouped_by_row(items, rows_of(items), hlcs_of(items), groups),
    ensures
        is_grouping(items, rows_of(items), groups),
{
    assert forall|g: int, h: int|
        #![trigger groups[g], groups[h]]
        0 <= g < h < groups.len() implies groups[g].0 != groups[h].0 by {
        crate::text::lemma_text_order(groups[g].0.0, groups[g].0.0);
        crate::text::lemma_text_order(groups[g].0.1, groups[g].0.1);
        assert(row_before(
            oldest_of(hlcs_of(items), rows_of(items), groups[g].0),
            groups[g].0,
            oldest_of(hlcs_of(items), rows_of(items), groups[h].0),
            groups[h].0,
        ));
    }
}

} // verus!
