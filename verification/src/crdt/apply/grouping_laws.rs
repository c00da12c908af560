//! The order of rows does not depend on the order in which changes arrive.

use crate::crdt::apply::batch::hlcs_of;
use crate::crdt::apply::batch::holds_change;
use crate::crdt::apply::batch::in_a_group;
use crate::crdt::apply::batch::in_causal_order;
use crate::crdt::apply::batch::in_row_order;
use crate::crdt::apply::batch::indexed;
use crate::crdt::apply::batch::lemma_items_with_members;
use crate::crdt::apply::batch::merge_order;
use crate::crdt::apply::batch::rows_of;
use crate::crdt::apply::batch::RowGroup;
use crate::crdt::apply::grouping::group_before;
use crate::crdt::apply::grouping::grouped_by_row;
use crate::crdt::apply::grouping::has_group;
use crate::crdt::apply::grouping::items_with;
use crate::crdt::apply::grouping::oldest;
use crate::crdt::apply::grouping::oldest_of;
use crate::crdt::apply::grouping::row_before;
use crate::crdt::apply::policy_types::indexed_views;
use crate::crdt::apply::policy_types::IndexedChange;
use crate::crdt::hlc::hlc_before;
use crate::crdt::hlc::lemma_hlc_order_is_strict_weak;
use crate::crdt::scanner::change::change_views;
use crate::crdt::scanner::change::ColumnChange;
use crate::text::lemma_first_difference_decides;
use crate::text::lemma_text_order;
use vstd::prelude::*;

verus! {

/// The keys of some groups, in order.
pub open spec fn keys_of<K, T>(groups: Seq<(K, Seq<T>)>) -> Seq<K> {
    groups.map_values(|g: (K, Seq<T>)| g.0)
}

/// Keys in the order that `hlc` and the keys themselves give.
spec fn in_order(
    keys: Seq<(Seq<char>, Seq<char>)>,
    hlc: spec_fn((Seq<char>, Seq<char>)) -> Seq<char>,
) -> bool {
    forall|i: int, j: int|
        #![trigger keys[i], keys[j]]
        0 <= i < j < keys.len() ==> row_before(hlc(keys[i]), keys[i], hlc(keys[j]), keys[j])
}

proof fn lemma_row_before_asymmetric(
    a_hlc: Seq<char>,
    a: (Seq<char>, Seq<char>),
    b_hlc: Seq<char>,
    b: (Seq<char>, Seq<char>),
)
    requires
        row_before(a_hlc, a, b_hlc, b),
    ensures
        !row_before(b_hlc, b, a_hlc, a),
{
    lemma_text_order(a.0, b.0);
    lemma_text_order(a.1, b.1);
}

/// Two ordered lists of the same keys are one list.
proof fn lemma_order_is_unique(
    a: Seq<(Seq<char>, Seq<char>)>,
    b: Seq<(Seq<char>, Seq<char>)>,
    hlc: spec_fn((Seq<char>, Seq<char>)) -> Seq<char>,
)
    requires
        in_order(a, hlc),
        in_order(b, hlc),
        forall|k: (Seq<char>, Seq<char>)| #[trigger] a.contains(k) <==> b.contains(k),
    ensures
        a == b,
    decreases a.len(),
{
    if a.len() == 0 {
        if b.len() > 0 {
            assert(b.contains(b[0]));
            assert(a.contains(b[0]));
        }
        assert(a =~= b);
    } else {
        assert(a.contains(a[0]));
        assert(b.contains(a[0]));
        let p = choose|p: int| 0 <= p < b.len() && b[p] == a[0];
        assert(b.contains(b[0]));
        assert(a.contains(b[0]));
        let q = choose|q: int| 0 <= q < a.len() && a[q] == b[0];
        if p > 0 {
            assert(row_before(hlc(b[0]), b[0], hlc(b[p]), b[p]));
            if q > 0 {
                assert(row_before(hlc(a[0]), a[0], hlc(a[q]), a[q]));
                lemma_row_before_asymmetric(hlc(a[0]), a[0], hlc(a[q]), a[q]);
            } else {
                lemma_row_before_asymmetric(hlc(b[0]), b[0], hlc(b[p]), b[p]);
            }
        }
        assert(a[0] == b[0]);
        let ra = a.drop_first();
        let rb = b.drop_first();
        assert forall|i: int, j: int|
            #![trigger ra[i], ra[j]]
            0 <= i < j < ra.len() implies row_before(hlc(ra[i]), ra[i], hlc(ra[j]), ra[j]) by {
            assert(ra[i] == a[i + 1] && ra[j] == a[j + 1]);
        }
        assert forall|i: int, j: int|
            #![trigger rb[i], rb[j]]
            0 <= i < j < rb.len() implies row_before(hlc(rb[i]), rb[i], hlc(rb[j]), rb[j]) by {
            assert(rb[i] == b[i + 1] && rb[j] == b[j + 1]);
        }
        assert forall|k: (Seq<char>, Seq<char>)| #[trigger] ra.contains(k) <==> rb.contains(
            k,
        ) by {
            if ra.contains(k) {
                let i = choose|i: int| 0 <= i < ra.len() && ra[i] == k;
                assert(a[i + 1] == k);
                assert(a.contains(k));
                let j = choose|j: int| 0 <= j < b.len() && b[j] == k;
                if j == 0 {
                    lemma_row_before_asymmetric(hlc(a[0]), a[0], hlc(a[i + 1]), a[i + 1]);
                }
                assert(rb[j - 1] == k);
            }
            if rb.contains(k) {
                let i = choose|i: int| 0 <= i < rb.len() && rb[i] == k;
                assert(b[i + 1] == k);
                assert(b.contains(k));
                assert(a.contains(k));
                let j = choose|j: int| 0 <= j < a.len() && a[j] == k;
                if j == 0 {
                    lemma_row_before_asymmetric(hlc(b[0]), b[0], hlc(b[i + 1]), b[i + 1]);
                }
                assert(ra[j - 1] == k);
            }
        }
        lemma_order_is_unique(ra, rb, hlc);
        assert forall|i: int| 0 <= i < a.len() implies a[i] == b[i] by {
            if i > 0 {
                assert(ra[i - 1] == a[i]);
                assert(rb[i - 1] == b[i]);
            }
        }
        assert(a.len() == ra.len() + 1 && b.len() == rb.len() + 1);
        assert(a =~= b);
    }
}

/// Two batches that touch the same rows, each row with an equally old oldest
/// change, are merged in the same order of rows, however their changes were
/// ordered when they came.
pub proof fn lemma_row_order_is_deterministic<T>(
    items1: Seq<T>,
    keys1: Seq<(Seq<char>, Seq<char>)>,
    hlcs1: Seq<Seq<char>>,
    groups1: Seq<((Seq<char>, Seq<char>), Seq<T>)>,
    items2: Seq<T>,
    keys2: Seq<(Seq<char>, Seq<char>)>,
    hlcs2: Seq<Seq<char>>,
    groups2: Seq<((Seq<char>, Seq<char>), Seq<T>)>,
)
    requires
        grouped_by_row(items1, keys1, hlcs1, groups1),
        grouped_by_row(items2, keys2, hlcs2, groups2),
        forall|k: (Seq<char>, Seq<char>)| #[trigger] keys1.contains(k) <==> keys2.contains(k),
        forall|k: (Seq<char>, Seq<char>)| #[trigger]
            keys1.contains(k) ==> !hlc_before(
                oldest_of(hlcs1, keys1, k),
                oldest_of(hlcs2, keys2, k),
            ) && !hlc_before(oldest_of(hlcs2, keys2, k), oldest_of(hlcs1, keys1, k)),
    ensures
        keys_of(groups1) == keys_of(groups2),
{
    let a = keys_of(groups1);
    let b = keys_of(groups2);
    let hlc = |k: (Seq<char>, Seq<char>)| oldest_of(hlcs1, keys1, k);
    assert forall|i: int, j: int|
        #![trigger a[i], a[j]]
        0 <= i < j < a.len() implies row_before(hlc(a[i]), a[i], hlc(a[j]), a[j]) by {
        assert(groups1[i].0 == a[i] && groups1[j].0 == a[j]);
    }
    assert forall|i: int, j: int|
        #![trigger b[i], b[j]]
        0 <= i < j < b.len() implies row_before(hlc(b[i]), b[i], hlc(b[j]), b[j]) by {
        assert(groups2[i].0 == b[i] && groups2[j].0 == b[j]);
        assert(keys2.contains(b[i]) && keys2.contains(b[j]));
        assert(keys1.contains(b[i]) && keys1.contains(b[j]));
    }
    assert forall|k: (Seq<char>, Seq<char>)| #[trigger] a.contains(k) <==> b.contains(k) by {
        if a.contains(k) {
            let i = choose|i: int| 0 <= i < a.len() && a[i] == k;
            assert(groups1[i].0 == k);
            assert(keys1.contains(k));
            assert(keys2.contains(k));
            let n = choose|n: int| 0 <= n < keys2.len() && keys2[n] == k;
            assert(has_group(groups2, keys2[n]));
            let g = choose|g: int| 0 <= g < groups2.len() && #[trigger] groups2[g].0 == k;
            assert(b[g] == k);
        }
        if b.contains(k) {
            let i = choose|i: int| 0 <= i < b.len() && b[i] == k;
            assert(groups2[i].0 == k);
            assert(keys2.contains(k));
            assert(keys1.contains(k));
            let n = choose|n: int| 0 <= n < keys1.len() && keys1[n] == k;
            assert(has_group(groups1, keys1[n]));
            let g = choose|g: int| 0 <= g < groups1.len() && #[trigger] groups1[g].0 == k;
            assert(a[g] == k);
        }
    }
    lemma_order_is_unique(a, b, hlc);
}

/// Some item has this key and this timestamp.
pub open spec fn has_pair(
    keys: Seq<(Seq<char>, Seq<char>)>,
    hlcs: Seq<Seq<char>>,
    key: (Seq<char>, Seq<char>),
    hlc: Seq<char>,
) -> bool {
    exists|i: int| 0 <= i < keys.len() && #[trigger] keys[i] == key && hlcs[i] == hlc
}

/// The oldest timestamp is one of them, and none is older.
proof fn lemma_oldest(hlcs: Seq<Seq<char>>)
    requires
        hlcs.len() > 0,
    ensures
        hlcs.contains(oldest(hlcs)),
        forall|i: int| 0 <= i < hlcs.len() ==> !hlc_before(#[trigger] hlcs[i], oldest(hlcs)),
    decreases hlcs.len(),
{
    if hlcs.len() > 1 {
        let rest = hlcs.drop_last();
        lemma_oldest(rest);
        let k = choose|k: int| 0 <= k < rest.len() && rest[k] == oldest(rest);
        assert(hlcs[k] == oldest(rest));
        assert(hlcs[hlcs.len() - 1] == hlcs.last());
        assert forall|i: int| 0 <= i < hlcs.len() implies !hlc_before(
            #[trigger] hlcs[i],
            oldest(hlcs),
        ) by {
            if i < rest.len() {
                assert(rest[i] == hlcs[i]);
            }
        }
    } else {
        assert(hlcs[0] == oldest(hlcs));
    }
}

/// The oldest timestamp of a key is one of its timestamps, and none is older.
proof fn lemma_oldest_of(
    keys: Seq<(Seq<char>, Seq<char>)>,
    hlcs: Seq<Seq<char>>,
    key: (Seq<char>, Seq<char>),
)
    requires
        keys.len() == hlcs.len(),
        keys.contains(key),
    ensures
        has_pair(keys, hlcs, key, oldest_of(hlcs, keys, key)),
        forall|h: Seq<char>| #[trigger]
            has_pair(keys, hlcs, key, h) ==> !hlc_before(h, oldest_of(hlcs, keys, key)),
{
    let own = items_with(hlcs, keys, key);
    let n = choose|n: int| 0 <= n < keys.len() && keys[n] == key;
    lemma_items_with_members(hlcs, keys, key, hlcs[n]);
    assert(own.contains(hlcs[n]));
    lemma_oldest(own);
    lemma_items_with_members(hlcs, keys, key, oldest(own));
    let i = choose|i: int|
        0 <= i < hlcs.len() && #[trigger] hlcs[i] == oldest(own) && keys[i] == key;
    assert(keys[i] == key && hlcs[i] == oldest(own));
    assert forall|h: Seq<char>| #[trigger] has_pair(keys, hlcs, key, h) implies !hlc_before(
        h,
        oldest_of(hlcs, keys, key),
    ) by {
        let j = choose|j: int| 0 <= j < keys.len() && #[trigger] keys[j] == key && hlcs[j] == h;
        assert(hlcs[j] == h);
        lemma_items_with_members(hlcs, keys, key, h);
        let k = choose|k: int| 0 <= k < own.len() && own[k] == h;
        assert(!hlc_before(own[k], oldest(own)));
    }
}

/// Items with the same keys and timestamps, in whatever order and number, have
/// the same order of rows.
pub proof fn lemma_row_order_ignores_order<T>(
    items1: Seq<T>,
    keys1: Seq<(Seq<char>, Seq<char>)>,
    hlcs1: Seq<Seq<char>>,
    groups1: Seq<((Seq<char>, Seq<char>), Seq<T>)>,
    items2: Seq<T>,
    keys2: Seq<(Seq<char>, Seq<char>)>,
    hlcs2: Seq<Seq<char>>,
    groups2: Seq<((Seq<char>, Seq<char>), Seq<T>)>,
)
    requires
        grouped_by_row(items1, keys1, hlcs1, groups1),
        grouped_by_row(items2, keys2, hlcs2, groups2),
        keys1.len() == hlcs1.len(),
        keys2.len() == hlcs2.len(),
        forall|k: (Seq<char>, Seq<char>), h: Seq<char>| #[trigger]
            has_pair(keys1, hlcs1, k, h) <==> has_pair(keys2, hlcs2, k, h),
    ensures
        keys_of(groups1) == keys_of(groups2),
{
    assert forall|k: (Seq<char>, Seq<char>)| #[trigger] keys1.contains(k) <==> keys2.contains(
        k,
    ) by {
        if keys1.contains(k) {
            let i = choose|i: int| 0 <= i < keys1.len() && keys1[i] == k;
            assert(has_pair(keys1, hlcs1, k, hlcs1[i]));
            assert(has_pair(keys2, hlcs2, k, hlcs1[i]));
        }
        if keys2.contains(k) {
            let i = choose|i: int| 0 <= i < keys2.len() && keys2[i] == k;
            assert(has_pair(keys2, hlcs2, k, hlcs2[i]));
            assert(has_pair(keys1, hlcs1, k, hlcs2[i]));
        }
    }
    assert forall|k: (Seq<char>, Seq<char>)| #[trigger] keys1.contains(k) implies !hlc_before(
        oldest_of(hlcs1, keys1, k),
        oldest_of(hlcs2, keys2, k),
    ) && !hlc_before(oldest_of(hlcs2, keys2, k), oldest_of(hlcs1, keys1, k)) by {
        assert(keys2.contains(k));
        lemma_oldest_of(keys1, hlcs1, k);
        lemma_oldest_of(keys2, hlcs2, k);
        assert(has_pair(keys2, hlcs2, k, oldest_of(hlcs1, keys1, k)));
        assert(has_pair(keys1, hlcs1, k, oldest_of(hlcs2, keys2, k)));
    }
    lemma_row_order_is_deterministic(
        items1,
        keys1,
        hlcs1,
        groups1,
        items2,
        keys2,
        hlcs2,
        groups2,
    );
}

/// The keys and the timestamps of some items, in pairs.
pub open spec fn pairs_of(
    keys: Seq<(Seq<char>, Seq<char>)>,
    hlcs: Seq<Seq<char>>,
) -> Seq<((Seq<char>, Seq<char>), Seq<char>)> {
    Seq::new(keys.len(), |i: int| (keys[i], hlcs[i]))
}

proof fn lemma_pairs_of(
    keys: Seq<(Seq<char>, Seq<char>)>,
    hlcs: Seq<Seq<char>>,
    k: (Seq<char>, Seq<char>),
    h: Seq<char>,
)
    ensures
        has_pair(keys, hlcs, k, h) <==> pairs_of(keys, hlcs).to_multiset().contains((k, h)),
{
    let pairs = pairs_of(keys, hlcs);
    broadcast use vstd::seq_lib::group_to_multiset_ensures;

    assert(pairs.contains((k, h)) <==> pairs.to_multiset().count((k, h)) > 0);
    if has_pair(keys, hlcs, k, h) {
        let i = choose|i: int| 0 <= i < keys.len() && #[trigger] keys[i] == k && hlcs[i] == h;
        assert(pairs[i] == (k, h));
    }
    if pairs.contains((k, h)) {
        let i = choose|i: int| 0 <= i < pairs.len() && pairs[i] == (k, h);
        assert(keys[i] == k && hlcs[i] == h);
    }
}

/// A permutation of a batch has the same order of rows.
pub proof fn lemma_row_order_of_permutation<T>(
    items1: Seq<T>,
    keys1: Seq<(Seq<char>, Seq<char>)>,
    hlcs1: Seq<Seq<char>>,
    groups1: Seq<((Seq<char>, Seq<char>), Seq<T>)>,
    items2: Seq<T>,
    keys2: Seq<(Seq<char>, Seq<char>)>,
    hlcs2: Seq<Seq<char>>,
    groups2: Seq<((Seq<char>, Seq<char>), Seq<T>)>,
)
    requires
        grouped_by_row(items1, keys1, hlcs1, groups1),
        grouped_by_row(items2, keys2, hlcs2, groups2),
        keys1.len() == hlcs1.len(),
        keys2.len() == hlcs2.len(),
        pairs_of(keys1, hlcs1).to_multiset() == pairs_of(keys2, hlcs2).to_multiset(),
    ensures
        keys_of(groups1) == keys_of(groups2),
{
    assert forall|k: (Seq<char>, Seq<char>), h: Seq<char>| #[trigger]
        has_pair(keys1, hlcs1, k, h) <==> has_pair(keys2, hlcs2, k, h) by {
        lemma_pairs_of(keys1, hlcs1, k, h);
        lemma_pairs_of(keys2, hlcs2, k, h);
    }
    lemma_row_order_ignores_order(
        items1,
        keys1,
        hlcs1,
        groups1,
        items2,
        keys2,
        hlcs2,
        groups2,
    );
}

/// The rows of some groups, in order.
pub open spec fn rows_in_order(groups: Seq<RowGroup>) -> Seq<(Seq<char>, Seq<char>)> {
    groups.map_values(|g: RowGroup| (g.table_name@, g.row_pks@))
}

/// Some change is about this row and has this timestamp.
spec fn has_change(changes: Seq<ColumnChange>, k: (Seq<char>, Seq<char>), h: Seq<char>) -> bool {
    exists|i: int|
        0 <= i < changes.len() && (#[trigger] changes[i]).table_name@ == k.0 && changes[i].row_pks@
            == k.1 && changes[i].hlc_timestamp@ == h
}

/// The pairs of row and timestamp in the ordered batch are those of the changes.
proof fn lemma_ordered_pairs(
    changes: Seq<ColumnChange>,
    ordered: Seq<IndexedChange>,
    groups: Seq<RowGroup>,
    k: (Seq<char>, Seq<char>),
    h: Seq<char>,
)
    requires
        merge_order(changes, groups),
        in_row_order(ordered, groups),
        changes.len() <= usize::MAX,
    ensures
        has_pair(rows_of(ordered), hlcs_of(ordered), k, h) <==> has_change(changes, k, h),
{
    let rows = rows_of(ordered);
    let hlcs = hlcs_of(ordered);
    let pairs = groups.map_values(|g: RowGroup| ((g.table_name@, g.row_pks@), g.changes@));
    if has_pair(rows, hlcs, k, h) {
        let i = choose|i: int| 0 <= i < rows.len() && #[trigger] rows[i] == k && hlcs[i] == h;
        assert(has_group(pairs, rows[i]));
        let g = choose|g: int| 0 <= g < pairs.len() && #[trigger] pairs[g].0 == k;
        lemma_items_with_members(ordered, rows, k, ordered[i]);
        assert(pairs[g].1.contains(ordered[i]));
        let m = choose|m: int| 0 <= m < pairs[g].1.len() && pairs[g].1[m] == ordered[i];
        let c = groups[g].changes@[m];
        assert(c == ordered[i]);
        assert(c.change == changes[c.input_index as int]);
    }
    if has_change(changes, k, h) {
        let i = choose|i: int|
            0 <= i < changes.len() && (#[trigger] changes[i]).table_name@ == k.0
                && changes[i].row_pks@ == k.1 && changes[i].hlc_timestamp@ == h;
        assert(in_a_group(groups, i));
        let (g, m) = choose|g: int, m: int| #[trigger] holds_change(groups, g, m, i as usize);
        let c = groups[g].changes@[m];
        assert(c.change == changes[i]);
        assert(pairs[g].1 == items_with(ordered, rows, pairs[g].0));
        assert(pairs[g].1[m] == c);
        lemma_items_with_members(ordered, rows, pairs[g].0, c);
        assert(pairs[g].1.contains(c));
        let n = choose|n: int|
            0 <= n < ordered.len() && #[trigger] ordered[n] == c && rows[n] == pairs[g].0;
        assert(rows[n] == k && hlcs[n] == h);
    }
}

/// The rows of a batch are merged in the same order, however its changes are
/// ordered when they come: a permutation of the batch has the same rows, one
/// after the other.
pub proof fn lemma_batch_order_ignores_arrival(
    a: Seq<ColumnChange>,
    b: Seq<ColumnChange>,
    groups_a: Seq<RowGroup>,
    groups_b: Seq<RowGroup>,
)
    requires
        merge_order(a, groups_a),
        merge_order(b, groups_b),
        a.len() <= usize::MAX,
        b.len() <= usize::MAX,
        change_views(a).to_multiset() == change_views(b).to_multiset(),
    ensures
        rows_in_order(groups_a) == rows_in_order(groups_b),
{
    let (ia, oa) = choose|items: Seq<IndexedChange>, ordered: Seq<IndexedChange>|
        {
            &&& indexed_views(items) == indexed(change_views(a))
            &&& #[trigger] in_causal_order(items, ordered)
            &&& in_row_order(ordered, groups_a)
        };
    let (ib, ob) = choose|items: Seq<IndexedChange>, ordered: Seq<IndexedChange>|
        {
            &&& indexed_views(items) == indexed(change_views(b))
            &&& #[trigger] in_causal_order(items, ordered)
            &&& in_row_order(ordered, groups_b)
        };
    let pa = groups_a.map_values(|g: RowGroup| ((g.table_name@, g.row_pks@), g.changes@));
    let pb = groups_b.map_values(|g: RowGroup| ((g.table_name@, g.row_pks@), g.changes@));
    assert forall|k: (Seq<char>, Seq<char>), h: Seq<char>| #[trigger]
        has_pair(rows_of(oa), hlcs_of(oa), k, h) <==> has_pair(rows_of(ob), hlcs_of(ob), k, h) by {
        lemma_ordered_pairs(a, oa, groups_a, k, h);
        lemma_ordered_pairs(b, ob, groups_b, k, h);
        if has_change(a, k, h) {
            lemma_same_changes(a, b, k, h);
        }
        if has_change(b, k, h) {
            lemma_same_changes(b, a, k, h);
        }
    }
    lemma_row_order_ignores_order(
        oa,
        rows_of(oa),
        hlcs_of(oa),
        pa,
        ob,
        rows_of(ob),
        hlcs_of(ob),
        pb,
    );
    assert(rows_in_order(groups_a) =~= keys_of(pa));
    assert(rows_in_order(groups_b) =~= keys_of(pb));
}

/// What a change of a batch is about is also in a permutation of the batch.
proof fn lemma_same_changes(
    a: Seq<ColumnChange>,
    b: Seq<ColumnChange>,
    k: (Seq<char>, Seq<char>),
    h: Seq<char>,
)
    requires
        change_views(a).to_multiset() == change_views(b).to_multiset(),
        has_change(a, k, h),
    ensures
        has_change(b, k, h),
{
    let va = change_views(a);
    let vb = change_views(b);
    broadcast use vstd::seq_lib::group_to_multiset_ensures;

    let i = choose|i: int|
        0 <= i < a.len() && (#[trigger] a[i]).table_name@ == k.0 && a[i].row_pks@ == k.1
            && a[i].hlc_timestamp@ == h;
    assert(va[i] == a[i]@);
    assert(va.contains(a[i]@));
    assert(va.to_multiset().count(a[i]@) > 0);
    assert(vb.contains(a[i]@));
    let j = choose|j: int| 0 <= j < vb.len() && vb[j] == a[i]@;
    assert(b[j]@ == a[i]@);
}

/// `a` comes first at the first difference of two texts, or ends there.
pub open spec fn differ_at(a: Seq<char>, b: Seq<char>, i: int) -> bool {
    0 <= i <= a.len() && i < b.len() && a.take(i) == b.take(i) && (i == a.len() || a[i] < b[i])
}

/// The older transaction comes first, and of two that compare as equal the one
/// whose text does.
pub proof fn lemma_transactions_go_by_time(a: Seq<char>, b: Seq<char>, i: int)
    ensures
        hlc_before(a, b) ==> group_before(a, b) && !group_before(b, a),
        !hlc_before(a, b) && !hlc_before(b, a) && differ_at(a, b, i) ==> group_before(a, b)
            && !group_before(b, a),
{
    lemma_hlc_order_is_strict_weak(a, b, a);
    if differ_at(a, b, i) {
        lemma_first_difference_decides(a, b, i);
        lemma_text_order(a, b);
    }
}

/// The row that changed first comes first; of two that changed at once the one
/// whose table comes first by name, and within a table the one whose key does.
pub proof fn lemma_rows_go_by_time(
    a_hlc: Seq<char>,
    a: (Seq<char>, Seq<char>),
    b_hlc: Seq<char>,
    b: (Seq<char>, Seq<char>),
    i: int,
)
    ensures
        hlc_before(a_hlc, b_hlc) ==> row_before(a_hlc, a, b_hlc, b) && !row_before(
            b_hlc,
            b,
            a_hlc,
            a,
        ),
        !hlc_before(a_hlc, b_hlc) && !hlc_before(b_hlc, a_hlc) && (differ_at(a.0, b.0, i) || a.0
            == b.0 && differ_at(a.1, b.1, i)) ==> row_before(a_hlc, a, b_hlc, b) && !row_before(
            b_hlc,
            b,
            a_hlc,
            a,
        ),
{
    lemma_hlc_order_is_strict_weak(a_hlc, b_hlc, a_hlc);
    lemma_text_order(a.0, b.0);
    lemma_text_order(a.1, b.1);
    if differ_at(a.0, b.0, i) {
        lemma_first_difference_decides(a.0, b.0, i);
    }
    if differ_at(a.1, b.1, i) {
        lemma_first_difference_decides(a.1, b.1, i);
    }
}

} // verus!
