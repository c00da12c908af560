//! Groupers that make the order of a merge independent of the order in which
//! its changes arrived.
//!
//! Changes of one transaction share a timestamp: grouping by timestamp in
//! ascending order applies transactions in causal order. All changes of one
//! row go into one write: grouping by row, in the order of each row's oldest
//! change, keeps that order.

use crate::crdt::hlc::hlc_before;
use crate::crdt::hlc::hlc_is_newer;
use crate::text::lemma_text_order;
use crate::text::lemma_text_order_transitive;
use crate::text::same_text;
use crate::text::text_before;
use crate::text::text_precedes;
use vstd::prelude::*;

verus! {

/// `key_of` may give the text `key` for `item`.
pub open spec fn gives_text<T, F: Fn(&T) -> &str>(key_of: F, item: T, key: Seq<char>) -> bool {
    exists|s: &str| #[trigger] call_ensures(key_of, (&item,), s) && s@ == key
}

/// `keys` are results that `key_of` gave for `items`, one each.
pub open spec fn texts_given<T, F: Fn(&T) -> &str>(
    items: Seq<T>,
    key_of: F,
    keys: Seq<Seq<char>>,
) -> bool {
    &&& keys.len() == items.len()
    &&& forall|i: int|
        0 <= i < items.len() ==> #[trigger] gives_text(key_of, items[i], keys[i])
}

/// The items whose key is `key`, in order.
pub open spec fn items_with<T, K>(items: Seq<T>, keys: Seq<K>, key: K) -> Seq<T>
    decreases items.len(),
{
    if items.len() == 0 {
        Seq::empty()
    } else if keys[items.len() - 1] == key {
        items_with(items.drop_last(), keys, key).push(items.last())
    } else {
        items_with(items.drop_last(), keys, key)
    }
}

proof fn lemma_items_with_push<T, K>(items: Seq<T>, keys: Seq<K>, item: T, k: K, key: K)
    requires
        items.len() == keys.len(),
    ensures
        items_with(items.push(item), keys.push(k), key) == if k == key {
            items_with(items, keys, key).push(item)
        } else {
            items_with(items, keys, key)
        },
{
    assert(items.push(item).drop_last() =~= items);
    lemma_items_with_prefix(items, keys, keys.push(k), key);
}

proof fn lemma_items_with_prefix<T, K>(items: Seq<T>, a: Seq<K>, b: Seq<K>, key: K)
    requires
        items.len() <= a.len(),
        items.len() <= b.len(),
        forall|i: int| 0 <= i < items.len() ==> a[i] == b[i],
    ensures
        items_with(items, a, key) == items_with(items, b, key),
    decreases items.len(),
{
    if items.len() > 0 {
        lemma_items_with_prefix(items.drop_last(), a, b, key);
    }
}

proof fn lemma_items_without<T, K>(items: Seq<T>, keys: Seq<K>, key: K)
    requires
        items.len() == keys.len(),
        !keys.contains(key),
    ensures
        items_with(items, keys, key).len() == 0,
    decreases items.len(),
{
    if items.len() > 0 {
        assert(keys[items.len() - 1] != key);
        let fewer = keys.drop_last();
        assert forall|i: int| 0 <= i < fewer.len() implies fewer[i] != key by {
            assert(fewer[i] == keys[i]);
        }
        lemma_items_without(items.drop_last(), fewer, key);
        lemma_items_with_prefix(items.drop_last(), fewer, keys, key);
    }
}

/// A group of items with its key.
pub open spec fn text_groups<T>(groups: Seq<(String, Vec<T>)>) -> Seq<(Seq<char>, Seq<T>)> {
    groups.map_values(|g: (String, Vec<T>)| (g.0@, g.1@))
}

/// There is a group with this key.
pub open spec fn has_group<T, K>(groups: Seq<(K, Seq<T>)>, key: K) -> bool {
    exists|g: int| 0 <= g < groups.len() && #[trigger] groups[g].0 == key
}

/// Order of the groups: the older timestamp first, and of two texts of one
/// timestamp the one that comes first as text.
pub open spec fn group_before(a: Seq<char>, b: Seq<char>) -> bool {
    hlc_before(a, b) || (!hlc_before(b, a) && text_before(a, b))
}

/// The order of groups is strict, transitive, and decides between any two.
pub proof fn lemma_group_order(a: Seq<char>, b: Seq<char>, c: Seq<char>)
    ensures
        !group_before(a, a),
        group_before(a, b) ==> !group_before(b, a),
        group_before(a, b) && group_before(b, c) ==> group_before(a, c),
        a != b ==> group_before(a, b) || group_before(b, a),
{
    lemma_text_order(a, a);
    lemma_text_order(a, b);
    if text_before(a, b) && text_before(b, c) {
        lemma_text_order_transitive(a, b, c);
    }
}

fn group_precedes(a: &str, b: &str) -> (r: bool)
    ensures
        r == group_before(a@, b@),
{
    hlc_is_newer(b, a) || (!hlc_is_newer(a, b) && text_precedes(a, b))
}

/// The groups of `items` under `keys`: one for each key, holding the items of
/// that key in order; older keys first, and equally old ones in text order.
pub open spec fn grouped_by_hlc<T>(
    items: Seq<T>,
    keys: Seq<Seq<char>>,
    groups: Seq<(Seq<char>, Seq<T>)>,
) -> bool {
    &&& forall|i: int|
        0 <= i < keys.len() ==> has_group(groups, #[trigger] keys[i])
    &&& forall|g: int|
        0 <= g < groups.len() ==> keys.contains((#[trigger] groups[g]).0) && groups[g].1
            == items_with(items, keys, groups[g].0)
    &&& forall|g: int, h: int|
        #![trigger groups[g], groups[h]]
        0 <= g < h < groups.len() ==> group_before(groups[g].0, groups[h].0)
}

proof fn lemma_groups_distinct<T>(
    items: Seq<T>,
    keys: Seq<Seq<char>>,
    groups: Seq<(Seq<char>, Seq<T>)>,
    g: int,
    h: int,
)
    requires
        grouped_by_hlc(items, keys, groups),
        0 <= g < h < groups.len(),
    ensures
        groups[g].0 != groups[h].0,
{
    lemma_group_order(groups[g].0, groups[h].0, groups[g].0);
}

/// Adding an item to the group of its key.
proof fn lemma_grow_group<T>(
    items: Seq<T>,
    keys: Seq<Seq<char>>,
    groups: Seq<(Seq<char>, Seq<T>)>,
    at: int,
    item: T,
)
    requires
        grouped_by_hlc(items, keys, groups),
        items.len() == keys.len(),
        0 <= at < groups.len(),
    ensures
        grouped_by_hlc(
            items.push(item),
            keys.push(groups[at].0),
            groups.update(at, (groups[at].0, groups[at].1.push(item))),
        ),
{
    let key = groups[at].0;
    let new_keys = keys.push(key);
    let new_items = items.push(item);
    let new_groups = groups.update(at, (key, groups[at].1.push(item)));
    assert forall|g: int| 0 <= g < new_groups.len() implies new_keys.contains(
        (#[trigger] new_groups[g]).0,
    ) && new_groups[g].1 == items_with(new_items, new_keys, new_groups[g].0) by {
        assert(keys.contains(groups[g].0));
        let k = choose|k: int| 0 <= k < keys.len() && keys[k] == groups[g].0;
        assert(new_keys[k] == groups[g].0);
        lemma_items_with_push(items, keys, item, key, groups[g].0);
        if g < at {
            lemma_groups_distinct(items, keys, groups, g, at);
        } else if g > at {
            lemma_groups_distinct(items, keys, groups, at, g);
        }
    }
    assert forall|i: int| 0 <= i < new_keys.len() implies has_group(
        new_groups,
        #[trigger] new_keys[i],
    ) by {
        if i < keys.len() {
            assert(new_keys[i] == keys[i]);
            assert(has_group(groups, keys[i]));
            let g = choose|g: int| 0 <= g < groups.len() && #[trigger] groups[g].0 == keys[i];
            assert(new_groups[g].0 == new_keys[i]);
        } else {
            assert(new_groups[at].0 == new_keys[i]);
        }
    }
    assert forall|g: int, h: int|
        #![trigger new_groups[g], new_groups[h]]
        0 <= g < h < new_groups.len() implies group_before(new_groups[g].0, new_groups[h].0) by {
        assert(new_groups[g].0 == groups[g].0);
        assert(new_groups[h].0 == groups[h].0);
    }
}

/// Opening a group for a key not seen yet, at its place in the order.
proof fn lemma_open_group<T>(
    items: Seq<T>,
    keys: Seq<Seq<char>>,
    groups: Seq<(Seq<char>, Seq<T>)>,
    p: int,
    item: T,
    key: Seq<char>,
)
    requires
        grouped_by_hlc(items, keys, groups),
        items.len() == keys.len(),
        0 <= p <= groups.len(),
        forall|g: int| 0 <= g < groups.len() ==> (#[trigger] groups[g]).0 != key,
        forall|g: int| 0 <= g < p ==> !group_before(key, (#[trigger] groups[g]).0),
        p < groups.len() ==> group_before(key, groups[p].0),
    ensures
        grouped_by_hlc(items.push(item), keys.push(key), groups.insert(p, (key, seq![item]))),
{
    let new_keys = keys.push(key);
    let new_items = items.push(item);
    let new_groups = groups.insert(p, (key, seq![item]));
    assert(!keys.contains(key)) by {
        if keys.contains(key) {
            let i = choose|i: int| 0 <= i < keys.len() && keys[i] == key;
            assert(has_group(groups, keys[i]));
            let g = choose|g: int| 0 <= g < groups.len() && #[trigger] groups[g].0 == keys[i];
            assert(groups[g].0 != key);
        }
    }
    assert forall|g: int| 0 <= g < new_groups.len() implies new_keys.contains(
        (#[trigger] new_groups[g]).0,
    ) && new_groups[g].1 == items_with(new_items, new_keys, new_groups[g].0) by {
        lemma_items_with_push(items, keys, item, key, new_groups[g].0);
        if g == p {
            assert(new_keys[keys.len() as int] == key);
            lemma_items_without(items, keys, key);
            assert(items_with(items, keys, key) =~= Seq::<T>::empty());
            assert(seq![item] =~= Seq::<T>::empty().push(item));
        } else {
            let o = if g < p {
                g
            } else {
                g - 1
            };
            assert(new_groups[g] == groups[o]);
            assert(keys.contains(groups[o].0));
            let k = choose|k: int| 0 <= k < keys.len() && keys[k] == groups[o].0;
            assert(new_keys[k] == groups[o].0);
        }
    }
    assert forall|i: int| 0 <= i < new_keys.len() implies has_group(
        new_groups,
        #[trigger] new_keys[i],
    ) by {
        if i < keys.len() {
            assert(new_keys[i] == keys[i]);
            assert(has_group(groups, keys[i]));
            let g = choose|g: int| 0 <= g < groups.len() && #[trigger] groups[g].0 == keys[i];
            let n = if g < p {
                g
            } else {
                g + 1
            };
            assert(new_groups[n].0 == groups[g].0);
        } else {
            assert(new_groups[p].0 == new_keys[i]);
        }
    }
    assert forall|g: int, h: int|
        #![trigger new_groups[g], new_groups[h]]
        0 <= g < h < new_groups.len() implies group_before(new_groups[g].0, new_groups[h].0) by {
        let og = if g < p {
            g
        } else {
            g - 1
        };
        let oh = if h < p {
            h
        } else {
            h - 1
        };
        if g == p {
            assert(new_groups[h] == groups[oh]);
            if oh > p {
                assert(group_before(groups[p].0, groups[oh].0));
                lemma_group_order(key, groups[p].0, groups[oh].0);
            }
        } else if h == p {
            assert(new_groups[g] == groups[og]);
            lemma_group_order(key, groups[og].0, key);
        } else {
            assert(new_groups[g] == groups[og]);
            assert(new_groups[h] == groups[oh]);
        }
    }
}

/// Files one item under its key.
fn file_by_hlc<T>(
    groups: &mut Vec<(String, Vec<T>)>,
    key: String,
    item: T,
    Ghost(items): Ghost<Seq<T>>,
    Ghost(keys): Ghost<Seq<Seq<char>>>,
)
    requires
        items.len() == keys.len(),
        grouped_by_hlc(items, keys, text_groups(old(groups)@)),
    ensures
        grouped_by_hlc(items.push(item), keys.push(key@), text_groups(final(groups)@)),
{
    let ghost before = text_groups(groups@);
    let mut at: usize = 0;
    while at < groups.len() && !same_text(groups[at].0.as_str(), key.as_str())
        invariant
            at <= groups.len(),
            before == text_groups(groups@),
            forall|g: int| 0 <= g < at ==> (#[trigger] before[g]).0 != key@,
        decreases groups.len() - at,
    {
        assert(before[at as int].0 == groups@[at as int].0@);
        at += 1;
    }
    if at < groups.len() {
        proof {
            assert(before[at as int].0 == key@);
            lemma_grow_group(items, keys, before, at as int, item);
        }
        let ghost grown = (before[at as int].0, before[at as int].1.push(item));
        groups[at].1.push(item);
        assert(text_groups(groups@) =~= before.update(at as int, grown));
    } else {
        let mut p: usize = 0;
        while p < groups.len() && !group_precedes(key.as_str(), groups[p].0.as_str())
            invariant
                p <= groups.len(),
                before == text_groups(groups@),
                forall|g: int| 0 <= g < p ==> !group_before(key@, (#[trigger] before[g]).0),
            decreases groups.len() - p,
        {
            assert(before[p as int].0 == groups@[p as int].0@);
            p += 1;
        }
        proof {
            if p < groups.len() {
                assert(before[p as int].0 == groups@[p as int].0@);
            }
            lemma_open_group(items, keys, before, p as int, item, key@);
        }
        let ghost entry = (key@, seq![item]);
        let mut fresh: Vec<T> = Vec::new();
        fresh.push(item);
        assert(fresh@ =~= entry.1);
        groups.insert(p, (key, fresh));
        assert(text_groups(groups@) =~= before.insert(p as int, entry));
    }
}

/// Groups items by timestamp, older groups first, equally old ones in text
/// order.
pub fn group_by_hlc_key<T, F: Fn(&T) -> &str>(items: Vec<T>, hlc_of: F) -> (r: Vec<
    (String, Vec<T>),
>)
    requires
        forall|x: &T| #[trigger] call_requires(hlc_of, (x,)),
    ensures
        exists|keys: Seq<Seq<char>>|
            #[trigger] texts_given(items@, hlc_of, keys) && grouped_by_hlc(
                items@,
                keys,
                text_groups(r@),
            ),
{
    let ghost all = items@;
    let mut groups: Vec<(String, Vec<T>)> = Vec::new();
    let ghost mut keys: Seq<Seq<char>> = Seq::empty();
    let ghost mut seen: Seq<T> = Seq::empty();
    for item in it: items.into_iter()
        invariant
            forall|x: &T| #[trigger] call_requires(hlc_of, (x,)),
            it.seq() == all,
            seen == all.take(it.index() as int),
            texts_given(seen, hlc_of, keys),
            grouped_by_hlc(seen, keys, text_groups(groups@)),
    {
        let given = hlc_of(&item);
        let key: String = given.to_owned();
        let ghost before_seen = seen;
        let ghost before_keys = keys;
        proof {
            assert(gives_text(hlc_of, item, given@));
            lemma_texts_given_push(seen, hlc_of, keys, item, given@);
            keys = keys.push(key@);
            seen = seen.push(item);
            assert(seen =~= all.take(it.index() + 1));
        }
        file_by_hlc(&mut groups, key, item, Ghost(before_seen), Ghost(before_keys));
    }
    assert(seen =~= all);
    groups
}

proof fn lemma_texts_given_push<T, F: Fn(&T) -> &str>(
    items: Seq<T>,
    key_of: F,
    keys: Seq<Seq<char>>,
    item: T,
    key: Seq<char>,
)
    requires
        texts_given(items, key_of, keys),
        gives_text(key_of, item, key),
    ensures
        texts_given(items.push(item), key_of, keys.push(key)),
{
    assert forall|i: int| 0 <= i < items.len() + 1 implies #[trigger] gives_text(
        key_of,
        items.push(item)[i],
        keys.push(key)[i],
    ) by {
        if i < items.len() {
            assert(gives_text(key_of, items[i], keys[i]));
        }
    }
}

/// `key_of` may give the pair `key` for `item`.
pub open spec fn gives_pair<T, F: Fn(&T) -> (String, String)>(
    key_of: F,
    item: T,
    key: (Seq<char>, Seq<char>),
) -> bool {
    exists|k: (String, String)| #[trigger]
        call_ensures(key_of, (&item,), k) && k.0@ == key.0 && k.1@ == key.1
}

/// `keys` are results that `key_of` gave for `items`, one each.
pub open spec fn pairs_given<T, F: Fn(&T) -> (String, String)>(
    items: Seq<T>,
    key_of: F,
    keys: Seq<(Seq<char>, Seq<char>)>,
) -> bool {
    &&& keys.len() == items.len()
    &&& forall|i: int|
        0 <= i < items.len() ==> #[trigger] gives_pair(key_of, items[i], keys[i])
}

/// Order of row keys: by the first part, then by the second.
pub open spec fn pair_before(a: (Seq<char>, Seq<char>), b: (Seq<char>, Seq<char>)) -> bool {
    text_before(a.0, b.0) || (a.0 == b.0 && text_before(a.1, b.1))
}

/// The oldest of some timestamps, the first of them where several are equally
/// old.
pub open spec fn oldest(hlcs: Seq<Seq<char>>) -> Seq<char>
    decreases hlcs.len(),
{
    if hlcs.len() <= 1 {
        hlcs[0]
    } else {
        let m = oldest(hlcs.drop_last());
        if hlc_before(hlcs.last(), m) {
            hlcs.last()
        } else {
            m
        }
    }
}

/// Order of rows: the one with the older change first, equally old ones by
/// key.
pub open spec fn row_before(
    a_hlc: Seq<char>,
    a: (Seq<char>, Seq<char>),
    b_hlc: Seq<char>,
    b: (Seq<char>, Seq<char>),
) -> bool {
    hlc_before(a_hlc, b_hlc) || (!hlc_before(b_hlc, a_hlc) && pair_before(a, b))
}

proof fn lemma_row_before_total(
    a_hlc: Seq<char>,
    a: (Seq<char>, Seq<char>),
    b_hlc: Seq<char>,
    b: (Seq<char>, Seq<char>),
)
    requires
        a != b,
    ensures
        row_before(a_hlc, a, b_hlc, b) || row_before(b_hlc, b, a_hlc, a),
{
    lemma_text_order(a.0, b.0);
    lemma_text_order(a.1, b.1);
}

proof fn lemma_row_before_transitive(
    a_hlc: Seq<char>,
    a: (Seq<char>, Seq<char>),
    b_hlc: Seq<char>,
    b: (Seq<char>, Seq<char>),
    c_hlc: Seq<char>,
    c: (Seq<char>, Seq<char>),
)
    requires
        row_before(a_hlc, a, b_hlc, b),
        row_before(b_hlc, b, c_hlc, c),
    ensures
        row_before(a_hlc, a, c_hlc, c),
{
    if text_before(a.0, b.0) && text_before(b.0, c.0) {
        lemma_text_order_transitive(a.0, b.0, c.0);
    }
    if text_before(a.1, b.1) && text_before(b.1, c.1) {
        lemma_text_order_transitive(a.1, b.1, c.1);
    }
}

/// What a list of row groups stands for.
pub open spec fn pair_groups<T>(groups: Seq<((String, String), Vec<T>)>) -> Seq<
    ((Seq<char>, Seq<char>), Seq<T>),
> {
    groups.map_values(|g: ((String, String), Vec<T>)| ((g.0.0@, g.0.1@), g.1@))
}

/// The oldest timestamp among the items of a key.
pub open spec fn oldest_of(
    hlcs: Seq<Seq<char>>,
    keys: Seq<(Seq<char>, Seq<char>)>,
    key: (Seq<char>, Seq<char>),
) -> Seq<char> {
    oldest(items_with(hlcs, keys, key))
}

/// The groups of `items` under `keys`: one for each key, holding the items of
/// that key in order; rows with an older change first, equally old ones by
/// key.
pub open spec fn grouped_by_row<T>(
    items: Seq<T>,
    keys: Seq<(Seq<char>, Seq<char>)>,
    hlcs: Seq<Seq<char>>,
    groups: Seq<((Seq<char>, Seq<char>), Seq<T>)>,
) -> bool {
    &&& forall|i: int| 0 <= i < keys.len() ==> has_group(groups, #[trigger] keys[i])
    &&& forall|g: int|
        0 <= g < groups.len() ==> keys.contains((#[trigger] groups[g]).0) && groups[g].1
            == items_with(items, keys, groups[g].0)
    &&& forall|g: int, h: int|
        #![trigger groups[g], groups[h]]
        0 <= g < h < groups.len() ==> row_before(
            oldest_of(hlcs, keys, groups[g].0),
            groups[g].0,
            oldest_of(hlcs, keys, groups[h].0),
            groups[h].0,
        )
}

/// A row group that is being filled, with the oldest timestamp in it.
struct Bin<T> {
    table: String,
    row: String,
    oldest: String,
    items: Vec<T>,
}

/// What a [`Bin`] stands for.
struct BinView<T> {
    key: (Seq<char>, Seq<char>),
    oldest: Seq<char>,
    items: Seq<T>,
}

spec fn bin_views<T>(bins: Seq<Bin<T>>) -> Seq<BinView<T>> {
    bins.map_values(
        |b: Bin<T>| BinView { key: (b.table@, b.row@), oldest: b.oldest@, items: b.items@ },
    )
}

/// Some bin has this key.
spec fn has_bin<T>(bins: Seq<BinView<T>>, key: (Seq<char>, Seq<char>)) -> bool {
    exists|g: int| 0 <= g < bins.len() && #[trigger] bins[g].key == key
}

/// The bins hold the items filed so far.
spec fn binned<T>(
    items: Seq<T>,
    keys: Seq<(Seq<char>, Seq<char>)>,
    hlcs: Seq<Seq<char>>,
    bins: Seq<BinView<T>>,
) -> bool {
    &&& items.len() == keys.len()
    &&& hlcs.len() == keys.len()
    &&& forall|i: int| 0 <= i < keys.len() ==> has_bin(bins, #[trigger] keys[i])
    &&& forall|g: int|
        0 <= g < bins.len() ==> {
            &&& keys.contains((#[trigger] bins[g]).key)
            &&& bins[g].items == items_with(items, keys, bins[g].key)
            &&& bins[g].oldest == oldest_of(hlcs, keys, bins[g].key)
        }
    &&& forall|g: int, h: int|
        #![trigger bins[g], bins[h]]
        0 <= g < h < bins.len() ==> bins[g].key != bins[h].key
}

proof fn lemma_items_with_some<T, K>(items: Seq<T>, keys: Seq<K>, key: K)
    requires
        items.len() == keys.len(),
        keys.contains(key),
    ensures
        items_with(items, keys, key).len() > 0,
    decreases items.len(),
{
    let k = choose|k: int| 0 <= k < keys.len() && keys[k] == key;
    if keys[items.len() - 1] != key {
        let fewer = keys.drop_last();
        assert(fewer[k] == key);
        lemma_items_with_some(items.drop_last(), fewer, key);
        lemma_items_with_prefix(items.drop_last(), fewer, keys, key);
    }
}

proof fn lemma_oldest_push(
    hlcs: Seq<Seq<char>>,
    keys: Seq<(Seq<char>, Seq<char>)>,
    key: (Seq<char>, Seq<char>),
    hlc: Seq<char>,
)
    requires
        hlcs.len() == keys.len(),
    ensures
        keys.contains(key) ==> oldest_of(hlcs.push(hlc), keys.push(key), key) == if hlc_before(
            hlc,
            oldest_of(hlcs, keys, key),
        ) {
            hlc
        } else {
            oldest_of(hlcs, keys, key)
        },
        !keys.contains(key) ==> oldest_of(hlcs.push(hlc), keys.push(key), key) == hlc,
{
    lemma_items_with_push(hlcs, keys, hlc, key, key);
    let mine = items_with(hlcs, keys, key);
    if keys.contains(key) {
        lemma_items_with_some(hlcs, keys, key);
        assert(mine.push(hlc).drop_last() =~= mine);
    } else {
        lemma_items_without(hlcs, keys, key);
    }
}

proof fn lemma_grow_bin<T>(
    items: Seq<T>,
    keys: Seq<(Seq<char>, Seq<char>)>,
    hlcs: Seq<Seq<char>>,
    bins: Seq<BinView<T>>,
    at: int,
    item: T,
    hlc: Seq<char>,
)
    requires
        binned(items, keys, hlcs, bins),
        0 <= at < bins.len(),
    ensures
        binned(
            items.push(item),
            keys.push(bins[at].key),
            hlcs.push(hlc),
            bins.update(
                at,
                BinView {
                    key: bins[at].key,
                    oldest: if hlc_before(hlc, bins[at].oldest) {
                        hlc
                    } else {
                        bins[at].oldest
                    },
                    items: bins[at].items.push(item),
                },
            ),
        ),
{
    let key = bins[at].key;
    let new_keys = keys.push(key);
    let new_bins = bins.update(
        at,
        BinView {
            key,
            oldest: if hlc_before(hlc, bins[at].oldest) {
                hlc
            } else {
                bins[at].oldest
            },
            items: bins[at].items.push(item),
        },
    );
    assert forall|g: int| 0 <= g < new_bins.len() implies {
        &&& new_keys.contains((#[trigger] new_bins[g]).key)
        &&& new_bins[g].items == items_with(items.push(item), new_keys, new_bins[g].key)
        &&& new_bins[g].oldest == oldest_of(hlcs.push(hlc), new_keys, new_bins[g].key)
    } by {
        assert(new_bins[g].key == bins[g].key);
        assert(keys.contains(bins[g].key));
        let k = choose|k: int| 0 <= k < keys.len() && keys[k] == bins[g].key;
        assert(new_keys[k] == bins[g].key);
        lemma_items_with_push(items, keys, item, key, bins[g].key);
        lemma_items_with_push(hlcs, keys, hlc, key, bins[g].key);
        if g == at {
            lemma_oldest_push(hlcs, keys, key, hlc);
        } else if g < at {
            assert(bins[g].key != bins[at].key);
        } else {
            assert(bins[at].key != bins[g].key);
        }
    }
    assert forall|i: int| 0 <= i < new_keys.len() implies has_bin(new_bins, #[trigger] new_keys[i]) by {
        if i < keys.len() {
            assert(has_bin(bins, keys[i]));
            let g = choose|g: int| 0 <= g < bins.len() && #[trigger] bins[g].key == keys[i];
            assert(new_bins[g].key == new_keys[i]);
        } else {
            assert(new_bins[at].key == new_keys[i]);
        }
    }
    assert forall|g: int, h: int|
        #![trigger new_bins[g], new_bins[h]]
        0 <= g < h < new_bins.len() implies new_bins[g].key != new_bins[h].key by {
        assert(bins[g].key != bins[h].key);
    }
}

proof fn lemma_open_bin<T>(
    items: Seq<T>,
    keys: Seq<(Seq<char>, Seq<char>)>,
    hlcs: Seq<Seq<char>>,
    bins: Seq<BinView<T>>,
    item: T,
    key: (Seq<char>, Seq<char>),
    hlc: Seq<char>,
)
    requires
        binned(items, keys, hlcs, bins),
        forall|g: int| 0 <= g < bins.len() ==> (#[trigger] bins[g]).key != key,
    ensures
        binned(
            items.push(item),
            keys.push(key),
            hlcs.push(hlc),
            bins.push(BinView { key, oldest: hlc, items: seq![item] }),
        ),
{
    let new_keys = keys.push(key);
    let new_bins = bins.push(BinView { key, oldest: hlc, items: seq![item] });
    assert(!keys.contains(key)) by {
        if keys.contains(key) {
            let i = choose|i: int| 0 <= i < keys.len() && keys[i] == key;
            assert(has_bin(bins, keys[i]));
            let g = choose|g: int| 0 <= g < bins.len() && #[trigger] bins[g].key == keys[i];
            assert(bins[g].key != key);
        }
    }
    assert forall|g: int| 0 <= g < new_bins.len() implies {
        &&& new_keys.contains((#[trigger] new_bins[g]).key)
        &&& new_bins[g].items == items_with(items.push(item), new_keys, new_bins[g].key)
        &&& new_bins[g].oldest == oldest_of(hlcs.push(hlc), new_keys, new_bins[g].key)
    } by {
        if g < bins.len() {
            assert(new_bins[g] == bins[g]);
            assert(keys.contains(bins[g].key));
            let k = choose|k: int| 0 <= k < keys.len() && keys[k] == bins[g].key;
            assert(new_keys[k] == bins[g].key);
            lemma_items_with_push(items, keys, item, key, bins[g].key);
            lemma_items_with_push(hlcs, keys, hlc, key, bins[g].key);
        } else {
            assert(new_keys[keys.len() as int] == key);
            lemma_items_with_push(items, keys, item, key, key);
            lemma_items_without(items, keys, key);
            assert(items_with(items, keys, key) =~= Seq::<T>::empty());
            assert(seq![item] =~= Seq::<T>::empty().push(item));
            lemma_oldest_push(hlcs, keys, key, hlc);
        }
    }
    assert forall|i: int| 0 <= i < new_keys.len() implies has_bin(new_bins, #[trigger] new_keys[i]) by {
        if i < keys.len() {
            assert(has_bin(bins, keys[i]));
            let g = choose|g: int| 0 <= g < bins.len() && #[trigger] bins[g].key == keys[i];
            assert(new_bins[g].key == new_keys[i]);
        } else {
            assert(new_bins[bins.len() as int].key == new_keys[i]);
        }
    }
    assert forall|g: int, h: int|
        #![trigger new_bins[g], new_bins[h]]
        0 <= g < h < new_bins.len() implies new_bins[g].key != new_bins[h].key by {
        assert(new_bins[g] == bins[g]);
        if h < bins.len() {
            assert(new_bins[h] == bins[h]);
        }
    }
}

/// Files one item under its row.
fn file_by_row<T>(
    bins: &mut Vec<Bin<T>>,
    key: (String, String),
    hlc: String,
    item: T,
    Ghost(items): Ghost<Seq<T>>,
    Ghost(keys): Ghost<Seq<(Seq<char>, Seq<char>)>>,
    Ghost(hlcs): Ghost<Seq<Seq<char>>>,
)
    requires
        binned(items, keys, hlcs, bin_views(old(bins)@)),
    ensures
        binned(
            items.push(item),
            keys.push((key.0@, key.1@)),
            hlcs.push(hlc@),
            bin_views(final(bins)@),
        ),
{
    let ghost before = bin_views(bins@);
    let (table, row) = key;
    let ghost pair = (table@, row@);
    let mut at: usize = 0;
    while at < bins.len() && !(same_text(bins[at].table.as_str(), table.as_str()) && same_text(
        bins[at].row.as_str(),
        row.as_str(),
    ))
        invariant
            at <= bins.len(),
            pair == (table@, row@),
            before == bin_views(bins@),
            forall|g: int| 0 <= g < at ==> (#[trigger] before[g]).key != pair,
        decreases bins.len() - at,
    {
        assert(before[at as int].key == (bins@[at as int].table@, bins@[at as int].row@));
        at += 1;
    }
    if at < bins.len() {
        proof {
            assert(before[at as int].key == pair);
            lemma_grow_bin(items, keys, hlcs, before, at as int, item, hlc@);
        }
        let ghost old_oldest = before[at as int].oldest;
        let ghost grown = BinView {
            key: before[at as int].key,
            oldest: if hlc_before(hlc@, old_oldest) {
                hlc@
            } else {
                old_oldest
            },
            items: before[at as int].items.push(item),
        };
        let older: bool = hlc_is_newer(bins[at].oldest.as_str(), hlc.as_str());
        bins[at].items.push(item);
        if older {
            bins[at].oldest = hlc;
        }
        assert(bin_views(bins@) =~= before.update(at as int, grown));
    } else {
        proof {
            lemma_open_bin(items, keys, hlcs, before, item, pair, hlc@);
        }
        let ghost entry = BinView { key: pair, oldest: hlc@, items: seq![item] };
        let mut fresh: Vec<T> = Vec::new();
        fresh.push(item);
        assert(fresh@ =~= entry.items);
        bins.push(Bin { table, row, oldest: hlc, items: fresh });
        assert(bin_views(bins@) =~= before.push(entry));
    }
}

/// Bins in row order.
spec fn bins_ordered<T>(bins: Seq<BinView<T>>) -> bool {
    forall|g: int, h: int|
        #![trigger bins[g], bins[h]]
        0 <= g < h < bins.len() ==> row_before(
            bins[g].oldest,
            bins[g].key,
            bins[h].oldest,
            bins[h].key,
        )
}

/// Puts a bin where it belongs among ordered ones.
fn insert_in_order<T>(sorted: &mut Vec<Bin<T>>, bin: Bin<T>)
    requires
        bins_ordered(bin_views(old(sorted)@)),
        forall|g: int|
            0 <= g < old(sorted)@.len() ==> (#[trigger] bin_views(old(sorted)@)[g]).key != (
                bin.table@,
                bin.row@,
            ),
    ensures
        bins_ordered(bin_views(final(sorted)@)),
        exists|p: int|
            0 <= p <= old(sorted)@.len() && final(sorted)@ == #[trigger] old(sorted)@.insert(p, bin),
{
    let ghost before = bin_views(sorted@);
    let ghost one = BinView {
        key: (bin.table@, bin.row@),
        oldest: bin.oldest@,
        items: bin.items@,
    };
    let mut p: usize = 0;
    while p < sorted.len() && !bin_precedes(&bin, &sorted[p])
        invariant
            p <= sorted.len(),
            before == bin_views(sorted@),
            one.key == (bin.table@, bin.row@),
            one.oldest == bin.oldest@,
            forall|g: int|
                0 <= g < p ==> !row_before(
                    one.oldest,
                    one.key,
                    (#[trigger] before[g]).oldest,
                    before[g].key,
                ),
        decreases sorted.len() - p,
    {
        assert(before[p as int].key == (sorted@[p as int].table@, sorted@[p as int].row@));
        p += 1;
    }
    proof {
        if p < sorted.len() {
            assert(before[p as int].key == (sorted@[p as int].table@, sorted@[p as int].row@));
        }
        let after = before.insert(p as int, one);
        assert forall|g: int, h: int|
            #![trigger after[g], after[h]]
            0 <= g < h < after.len() implies row_before(
            after[g].oldest,
            after[g].key,
            after[h].oldest,
            after[h].key,
        ) by {
            let og = if g < p {
                g
            } else {
                g - 1
            };
            let oh = if h < p {
                h
            } else {
                h - 1
            };
            if h == p {
                assert(after[g] == before[og]);
                assert(before[og].key != one.key);
                lemma_row_before_total(one.oldest, one.key, before[og].oldest, before[og].key);
            } else if g == p {
                assert(after[h] == before[oh]);
                if oh > p {
                    lemma_row_before_transitive(
                        one.oldest,
                        one.key,
                        before[p as int].oldest,
                        before[p as int].key,
                        before[oh].oldest,
                        before[oh].key,
                    );
                }
            } else {
                assert(after[g] == before[og]);
                assert(after[h] == before[oh]);
            }
        }
    }
    let ghost old_sorted = sorted@;
    sorted.insert(p, bin);
    assert(bin_views(sorted@) =~= before.insert(p as int, one));
    assert(sorted@ =~= old_sorted.insert(p as int, bin));
}

fn bin_precedes<T>(a: &Bin<T>, b: &Bin<T>) -> (r: bool)
    ensures
        r == row_before(a.oldest@, (a.table@, a.row@), b.oldest@, (b.table@, b.row@)),
{
    if hlc_is_newer(b.oldest.as_str(), a.oldest.as_str()) {
        return true;
    }
    if hlc_is_newer(a.oldest.as_str(), b.oldest.as_str()) {
        return false;
    }
    text_precedes(a.table.as_str(), b.table.as_str()) || (same_text(
        a.table.as_str(),
        b.table.as_str(),
    ) && text_precedes(a.row.as_str(), b.row.as_str()))
}

/// A bin is among others.
spec fn bin_in<T>(bins: Seq<Bin<T>>, bin: Bin<T>) -> bool {
    exists|g: int| 0 <= g < bins.len() && #[trigger] bins[g] == bin
}

/// The bins in row order.
fn sort_bins<T>(bins: Vec<Bin<T>>) -> (r: Vec<Bin<T>>)
    requires
        forall|g: int, h: int|
            #![trigger bin_views(bins@)[g], bin_views(bins@)[h]]
            0 <= g < h < bins@.len() ==> bin_views(bins@)[g].key != bin_views(bins@)[h].key,
    ensures
        bins_ordered(bin_views(r@)),
        forall|g: int| 0 <= g < bins@.len() ==> bin_in(r@, #[trigger] bins@[g]),
        forall|g: int| 0 <= g < r@.len() ==> bin_in(bins@, #[trigger] r@[g]),
{
    let ghost all = bins@;
    let mut sorted: Vec<Bin<T>> = Vec::new();
    for bin in it: bins.into_iter()
        invariant
            it.seq() == all,
            forall|g: int, h: int|
                #![trigger bin_views(all)[g], bin_views(all)[h]]
                0 <= g < h < all.len() ==> bin_views(all)[g].key != bin_views(all)[h].key,
            bins_ordered(bin_views(sorted@)),
            forall|g: int| 0 <= g < it.index() ==> bin_in(sorted@, #[trigger] all[g]),
            forall|g: int|
                0 <= g < sorted@.len() ==> bin_in(all.take(it.index() as int), #[trigger] sorted@[g]),
    {
        let ghost n = it.index() as int;
        let ghost before = sorted@;
        let ghost one = bin;
        proof {
            assert forall|g: int| 0 <= g < before.len() implies (#[trigger] bin_views(before)[g]).key
                != (bin.table@, bin.row@) by {
                assert(bin_in(all.take(n), before[g]));
                let k = choose|k: int| 0 <= k < n && #[trigger] all.take(n)[k] == before[g];
                assert(all[k] == before[g]);
                assert(bin_views(all)[k].key != bin_views(all)[n].key);
            }
        }
        insert_in_order(&mut sorted, bin);
        proof {
            let p = choose|p: int|
                0 <= p <= before.len() && sorted@ == #[trigger] before.insert(p, one);
            assert(sorted@[p] == one);
            assert forall|g: int| 0 <= g < n + 1 implies bin_in(sorted@, #[trigger] all[g]) by {
                if g < n {
                    assert(bin_in(before, all[g]));
                    let k = choose|k: int| 0 <= k < before.len() && #[trigger] before[k] == all[g];
                    let m = if k < p {
                        k
                    } else {
                        k + 1
                    };
                    assert(sorted@[m] == before[k]);
                }
            }
            assert forall|g: int| 0 <= g < sorted@.len() implies bin_in(
                all.take(n + 1),
                #[trigger] sorted@[g],
            ) by {
                if g == p {
                    assert(all.take(n + 1)[n] == one);
                } else {
                    let o = if g < p {
                        g
                    } else {
                        g - 1
                    };
                    assert(sorted@[g] == before[o]);
                    assert(bin_in(all.take(n), before[o]));
                    let k = choose|k: int| 0 <= k < n && #[trigger] all.take(n)[k] == before[o];
                    assert(all.take(n + 1)[k] == before[o]);
                }
            }
        }
    }
    proof {
        assert(all.take(all.len() as int) =~= all);
    }
    sorted
}

/// Groups items by row, the row with the older change first, equally old ones
/// by key, so that the order of the rows does not depend on the order of the
/// items.
pub fn group_by_row_key_hlc_ordered<T, K: Fn(&T) -> (String, String), F: Fn(&T) -> &str>(
    items: Vec<T>,
    key_of: K,
    hlc_of: F,
) -> (r: Vec<((String, String), Vec<T>)>)
    requires
        forall|x: &T| #[trigger] call_requires(key_of, (x,)),
        forall|x: &T| #[trigger] call_requires(hlc_of, (x,)),
    ensures
        exists|keys: Seq<(Seq<char>, Seq<char>)>, hlcs: Seq<Seq<char>>|
            #[trigger] pairs_given(items@, key_of, keys) && #[trigger] texts_given(
                items@,
                hlc_of,
                hlcs,
            ) && grouped_by_row(items@, keys, hlcs, pair_groups(r@)),
{
    let ghost all = items@;
    let mut bins: Vec<Bin<T>> = Vec::new();
    let ghost mut keys: Seq<(Seq<char>, Seq<char>)> = Seq::empty();
    let ghost mut hlcs: Seq<Seq<char>> = Seq::empty();
    let ghost mut seen: Seq<T> = Seq::empty();
    for item in it: items.into_iter()
        invariant
            forall|x: &T| #[trigger] call_requires(key_of, (x,)),
            forall|x: &T| #[trigger] call_requires(hlc_of, (x,)),
            it.seq() == all,
            seen == all.take(it.index() as int),
            pairs_given(seen, key_of, keys),
            texts_given(seen, hlc_of, hlcs),
            binned(seen, keys, hlcs, bin_views(bins@)),
    {
        let key = key_of(&item);
        let given = hlc_of(&item);
        let hlc: String = given.to_owned();
        let ghost before_seen = seen;
        let ghost before_keys = keys;
        let ghost before_hlcs = hlcs;
        proof {
            assert(gives_text(hlc_of, item, given@));
            assert(gives_pair(key_of, item, (key.0@, key.1@)));
            lemma_texts_given_push(seen, hlc_of, hlcs, item, given@);
            lemma_pairs_given_push(seen, key_of, keys, item, (key.0@, key.1@));
            keys = keys.push((key.0@, key.1@));
            hlcs = hlcs.push(hlc@);
            seen = seen.push(item);
            assert(seen =~= all.take(it.index() + 1));
        }
        file_by_row(
            &mut bins,
            key,
            hlc,
            item,
            Ghost(before_seen),
            Ghost(before_keys),
            Ghost(before_hlcs),
        );
    }
    assert(seen =~= all);
    let ghost filled = bins@;
    let sorted = sort_bins(bins);
    let ghost ordered = sorted@;
    let mut groups: Vec<((String, String), Vec<T>)> = Vec::new();
    for bin in it: sorted.into_iter()
        invariant
            it.seq() == ordered,
            groups@.len() == it.index(),
            forall|g: int|
                0 <= g < groups@.len() ==> (#[trigger] pair_groups(groups@)[g]) == (
                    bin_views(ordered)[g].key,
                    bin_views(ordered)[g].items,
                ),
    {
        let ghost before = groups@;
        let ghost n = it.index() as int;
        groups.push(((bin.table, bin.row), bin.items));
        proof {
            assert forall|g: int| 0 <= g < groups@.len() implies (#[trigger] pair_groups(
                groups@,
            )[g]) == (bin_views(ordered)[g].key, bin_views(ordered)[g].items) by {
                if g < before.len() {
                    assert(pair_groups(before)[g] == (
                        bin_views(ordered)[g].key,
                        bin_views(ordered)[g].items,
                    ));
                }
            }
        }
    }
    proof {
        lemma_bins_are_groups(all, keys, hlcs, filled, ordered, pair_groups(groups@));
    }
    groups
}

proof fn lemma_bins_are_groups<T>(
    items: Seq<T>,
    keys: Seq<(Seq<char>, Seq<char>)>,
    hlcs: Seq<Seq<char>>,
    filled: Seq<Bin<T>>,
    ordered: Seq<Bin<T>>,
    groups: Seq<((Seq<char>, Seq<char>), Seq<T>)>,
)
    requires
        binned(items, keys, hlcs, bin_views(filled)),
        bins_ordered(bin_views(ordered)),
        forall|g: int| 0 <= g < filled.len() ==> bin_in(ordered, #[trigger] filled[g]),
        forall|g: int| 0 <= g < ordered.len() ==> bin_in(filled, #[trigger] ordered[g]),
        groups.len() == ordered.len(),
        forall|g: int|
            0 <= g < groups.len() ==> (#[trigger] groups[g]) == (
                bin_views(ordered)[g].key,
                bin_views(ordered)[g].items,
            ),
    ensures
        grouped_by_row(items, keys, hlcs, groups),
{
    assert forall|i: int| 0 <= i < keys.len() implies has_group(groups, #[trigger] keys[i]) by {
        assert(has_bin(bin_views(filled), keys[i]));
        let g = choose|g: int|
            0 <= g < filled.len() && #[trigger] bin_views(filled)[g].key == keys[i];
        assert(bin_in(ordered, filled[g]));
        let h = choose|h: int| 0 <= h < ordered.len() && #[trigger] ordered[h] == filled[g];
        assert(bin_views(ordered)[h].key == keys[i]);
        assert(groups[h].0 == keys[i]);
    }
    assert forall|g: int| 0 <= g < groups.len() implies keys.contains((#[trigger] groups[g]).0)
        && groups[g].1 == items_with(items, keys, groups[g].0) && bin_views(ordered)[g].oldest
        == oldest_of(hlcs, keys, groups[g].0) by {
        assert(bin_in(filled, ordered[g]));
        let k = choose|k: int| 0 <= k < filled.len() && #[trigger] filled[k] == ordered[g];
        assert(bin_views(filled)[k] == bin_views(ordered)[g]);
    }
    assert forall|g: int, h: int|
        #![trigger groups[g], groups[h]]
        0 <= g < h < groups.len() implies row_before(
        oldest_of(hlcs, keys, groups[g].0),
        groups[g].0,
        oldest_of(hlcs, keys, groups[h].0),
        groups[h].0,
    ) by {
        let b = bin_views(ordered);
        assert(row_before(b[g].oldest, b[g].key, b[h].oldest, b[h].key));
        assert(b[g].oldest == oldest_of(hlcs, keys, groups[g].0));
        assert(b[h].oldest == oldest_of(hlcs, keys, groups[h].0));
    }
}

proof fn lemma_pairs_given_push<T, F: Fn(&T) -> (String, String)>(
    items: Seq<T>,
    key_of: F,
    keys: Seq<(Seq<char>, Seq<char>)>,
    item: T,
    key: (Seq<char>, Seq<char>),
)
    requires
        pairs_given(items, key_of, keys),
        gives_pair(key_of, item, key),
    ensures
        pairs_given(items.push(item), key_of, keys.push(key)),
{
    assert forall|i: int| 0 <= i < items.len() + 1 implies #[trigger] gives_pair(
        key_of,
        items.push(item)[i],
        keys.push(key)[i],
    ) by {
        if i < items.len() {
            assert(gives_pair(key_of, items[i], keys[i]));
        }
    }
}

} // verus!
