//! Changes in pages.
//!
//! All changes with one timestamp belong to one transaction and travel
//! together. A page takes transactions in ascending order while they fit a
//! budget of bytes, and always takes at least one, so that every transaction
//! gets through however large it is.

use crate::crdt::apply::batch::flattened;
use crate::crdt::apply::batch::lemma_items_with_members;
use crate::crdt::apply::grouping::gives_text;
use crate::crdt::apply::grouping::group_by_hlc_key;
use crate::crdt::apply::grouping::grouped_by_hlc;
use crate::crdt::apply::grouping::has_group;
use crate::crdt::apply::grouping::lemma_group_order;
use crate::crdt::apply::grouping::text_groups;
use crate::crdt::apply::grouping::texts_given;
use crate::crdt::hlc::hlc_before;
use crate::crdt::hlc::hlc_key;
use crate::crdt::scanner::change::ChangeView;
use crate::crdt::scanner::change::ColumnChange;
use crate::json::json_quoted;
use crate::json::json_text;
use crate::json::quote_json;
use crate::text::joined;
use vstd::prelude::*;
use vstd::utf8::encode_utf8;

verus! {

/// A change record that can be put in pages.
pub trait Paginable {
    /// The timestamp of the transaction that the change belongs to.
    fn transaction_hlc(&self) -> (r: &str);

    /// Number of bytes of the change in JSON, if it can be written.
    fn serialized_len(&self) -> (r: Option<usize>);
}

/// A change record in JSON. Its signature is left out where there is none.
pub open spec fn change_json(c: ChangeView) -> Seq<char> {
    let head = "{\"tableName\":"@ + json_quoted(c.table_name) + ",\"rowPks\":"@ + json_quoted(
        c.row_pks,
    ) + ",\"columnName\":"@ + json_quoted(c.column_name) + ",\"hlcTimestamp\":"@ + json_quoted(
        c.hlc_timestamp,
    ) + ",\"value\":"@ + json_text(c.value) + ",\"deviceId\":"@ + json_quoted(c.device_id);
    match c.sig {
        Some(sig) => head + ",\"sig\":"@ + json_text(sig) + "}"@,
        None => head + "}"@,
    }
}

impl ColumnChange {
    /// The change in JSON.
    pub fn to_json(&self) -> (r: String)
        ensures
            r@ == change_json(self@),
    {
        let mut s = "{\"tableName\":".to_owned();
        s.push_str(quote_json(self.table_name.as_str()).as_str());
        s.push_str(",\"rowPks\":");
        s.push_str(quote_json(self.row_pks.as_str()).as_str());
        s.push_str(",\"columnName\":");
        s.push_str(quote_json(self.column_name.as_str()).as_str());
        s.push_str(",\"hlcTimestamp\":");
        s.push_str(quote_json(self.hlc_timestamp.as_str()).as_str());
        s.push_str(",\"value\":");
        s.push_str(self.value.to_json().as_str());
        s.push_str(",\"deviceId\":");
        s.push_str(quote_json(self.device_id.as_str()).as_str());
        match &self.sig {
            Some(sig) => {
                s.push_str(",\"sig\":");
                s.push_str(sig.to_json().as_str());
            },
            None => {},
        }
        s.push_str("}");
        s
    }
}

impl Paginable for ColumnChange {
    fn transaction_hlc(&self) -> (r: &str)
        ensures
            r@ == self.hlc_timestamp@,
    {
        self.hlc_timestamp.as_str()
    }

    fn serialized_len(&self) -> (r: Option<usize>)
        ensures
            r == Some(encode_utf8(change_json(self@)).len() as usize),
    {
        let text = self.to_json();
        Some(text.as_str().len())
    }
}

/// Sum that stays at the largest number.
pub open spec fn capped(a: int, b: int) -> usize {
    if a + b > usize::MAX {
        usize::MAX
    } else {
        (a + b) as usize
    }
}

/// Number of bytes of a list of changes in JSON, given that of each change: the
/// brackets, the changes and the commas between them. The largest number where
/// a change cannot be written.
pub open spec fn group_bytes(sizes: Seq<Option<usize>>) -> usize
    decreases sizes.len(),
{
    if sizes.len() == 0 {
        2
    } else {
        let before = capped(
            group_bytes(sizes.drop_last()) as int,
            if sizes.len() > 1 {
                1
            } else {
                0
            },
        );
        match sizes.last() {
            Some(n) => capped(before as int, n as int),
            None => usize::MAX,
        }
    }
}

/// Number of bytes of the first `n` groups together.
pub open spec fn groups_bytes(sizes: Seq<Seq<Option<usize>>>, n: nat) -> usize
    decreases n,
{
    if n == 0 {
        0
    } else {
        capped(groups_bytes(sizes, (n - 1) as nat) as int, group_bytes(sizes[n - 1]) as int)
    }
}

/// Among groups of these sizes, the page ends after `n`: there is at least one
/// where there are any, every group but the first kept the page within the
/// budget, and the next one would not.
pub open spec fn page_ends_at(sizes: Seq<Seq<Option<usize>>>, budget: usize, n: nat) -> bool {
    &&& n <= sizes.len() <= n + 1
    &&& sizes.len() > 0 ==> n > 0
    &&& forall|k: nat| 2 <= k <= n ==> #[trigger] groups_bytes(sizes, k) <= budget
    &&& n < sizes.len() ==> groups_bytes(sizes, n + 1) > budget
}

/// `size` may be the answer for the number of bytes of `c`.
pub open spec fn may_measure<T: Paginable>(c: T, size: Option<usize>) -> bool {
    call_ensures(T::serialized_len, (&c,), size)
}

/// The sizes are answers for the changes of one group.
pub open spec fn group_measured<T: Paginable>(group: Seq<T>, sizes: Seq<Option<usize>>) -> bool {
    sizes.len() == group.len() && forall|i: int|
        0 <= i < group.len() ==> may_measure(#[trigger] group[i], sizes[i])
}

/// The sizes are answers for the changes of the groups that were looked at: all
/// of them, or all up to the one that did not fit.
pub open spec fn groups_measured<K, T: Paginable>(
    groups: Seq<(K, Seq<T>)>,
    sizes: Seq<Seq<Option<usize>>>,
    n: nat,
) -> bool {
    &&& n <= sizes.len() <= groups.len()
    &&& n < groups.len() ==> sizes.len() == n + 1
    &&& forall|g: int| 0 <= g < sizes.len() ==> group_measured(#[trigger] groups[g].1, sizes[g])
}

fn hlc_of<T: Paginable>(c: &T) -> (r: &str)
    ensures
        call_ensures(T::transaction_hlc, (c,), r),
{
    c.transaction_hlc()
}

/// The number of bytes of a group, and the answers that it was computed from.
fn measure<T: Paginable>(group: &Vec<T>) -> (r: (usize, Ghost<Seq<Option<usize>>>))
    ensures
        group_measured(group@, r.1@),
        r.0 == group_bytes(r.1@),
{
    let mut total: usize = 2;
    let mut i: usize = 0;
    let ghost mut sizes: Seq<Option<usize>> = Seq::empty();
    while i < group.len()
        invariant
            i <= group.len(),
            sizes.len() == i,
            forall|j: int| 0 <= j < i ==> may_measure(#[trigger] group@[j], sizes[j]),
            total == group_bytes(sizes),
        decreases group.len() - i,
    {
        let size = group[i].serialized_len();
        if i > 0 {
            total = total.saturating_add(1);
        }
        total = match size {
            Some(n) => total.saturating_add(n),
            None => usize::MAX,
        };
        proof {
            assert(may_measure(group@[i as int], size));
            assert(sizes.push(size).drop_last() =~= sizes);
            sizes = sizes.push(size);
        }
        i += 1;
    }
    (total, Ghost(sizes))
}

/// The first `n` groups, one after another.
pub open spec fn page_of<K, T>(groups: Seq<(K, Seq<T>)>, n: nat) -> Seq<T> {
    flattened(groups.take(n as int))
}

/// `keys` may be the answers for the timestamps of `changes`.
pub open spec fn may_be_stamped<T: Paginable>(changes: Seq<T>, keys: Seq<Seq<char>>) -> bool {
    keys.len() == changes.len() && forall|i: int|
        0 <= i < changes.len() ==> stamped(#[trigger] changes[i], keys[i])
}

/// `key` may be the answer for the timestamp of `c`.
pub open spec fn stamped<T: Paginable>(c: T, key: Seq<char>) -> bool {
    exists|s: &str| s@ == key && #[trigger] call_ensures(T::transaction_hlc, (&c,), s)
}

/// `page` is what a budget leaves of `changes` under these timestamps and
/// sizes, and `has_more` says whether anything is left out.
pub open spec fn paginated<T: Paginable>(
    changes: Seq<T>,
    keys: Seq<Seq<char>>,
    budget: usize,
    groups: Seq<(Seq<char>, Seq<T>)>,
    sizes: Seq<Seq<Option<usize>>>,
    n: nat,
    page: Seq<T>,
    has_more: bool,
) -> bool {
    &&& may_be_stamped(changes, keys)
    &&& grouped_by_hlc(changes, keys, groups)
    &&& groups_measured(groups, sizes, n)
    &&& page_ends_at(sizes, budget, n)
    &&& page == page_of(groups, n)
    &&& has_more == (n < groups.len())
}

/// Packs whole transactions into one page of at most `page_budget` bytes, the
/// first one in any case. The flag says whether there is more.
pub fn paginate_changes<T: Paginable>(changes: Vec<T>, page_budget: usize) -> (r: (Vec<T>, bool))
    ensures
        exists|
            keys: Seq<Seq<char>>,
            groups: Seq<(Seq<char>, Seq<T>)>,
            sizes: Seq<Seq<Option<usize>>>,
            n: nat,
        |
            #[trigger] paginated(changes@, keys, page_budget, groups, sizes, n, r.0@, r.1),
        changes@.len() == 0 ==> r.0@.len() == 0 && !r.1,
{
    let ghost all = changes@;
    let ordered = group_by_hlc_key(changes, hlc_of::<T>);
    let ghost groups = text_groups(ordered@);
    let ghost keys = choose|keys: Seq<Seq<char>>|
        #[trigger] texts_given(all, hlc_of::<T>, keys) && grouped_by_hlc(all, keys, groups);
    proof {
        assert forall|i: int| 0 <= i < all.len() implies stamped(#[trigger] all[i], keys[i]) by {
            assert(gives_text(hlc_of::<T>, all[i], keys[i]));
        }
        if all.len() == 0 && groups.len() > 0 {
            assert(keys.contains(groups[0].0));
        }
    }
    let ghost listed = ordered@;
    let total: usize = ordered.len();
    let mut page: Vec<T> = Vec::new();
    let mut running: usize = 0;
    let mut taken: usize = 0;
    let mut has_more = false;
    let ghost mut sizes: Seq<Seq<Option<usize>>> = Seq::empty();
    assert(groups.take(0) =~= Seq::<(Seq<char>, Seq<T>)>::empty());
    for entry in it: ordered.into_iter()
        invariant
            it.seq() == listed,
            groups == text_groups(listed),
            total == listed.len(),
            taken <= it.index(),
            taken <= total,
            !has_more ==> taken == it.index() && sizes.len() == taken,
            has_more ==> taken > 0 && sizes.len() == taken + 1,
            it.index() > 0 ==> taken > 0,
            page@ == page_of(groups, taken as nat),
            running == groups_bytes(sizes, taken as nat),
            forall|k: nat| 2 <= k <= taken ==> #[trigger] groups_bytes(sizes, k) <= page_budget,
            forall|g: int|
                0 <= g < sizes.len() ==> group_measured(#[trigger] groups[g].1, sizes[g]),
            has_more ==> taken < total && groups_bytes(sizes, (taken + 1) as nat) > page_budget,
    {
        let ghost n = it.index() as int;
        let (_, group) = entry;
        if !has_more {
            assert(groups[n].1 == group@);
            let (size, Ghost(answers)) = measure(&group);
            let sum: usize = running.saturating_add(size);
            let ghost before = sizes;
            proof {
                sizes = sizes.push(answers);
                assert forall|k: nat| k <= taken implies #[trigger] groups_bytes(sizes, k)
                    == groups_bytes(before, k) by {
                    lemma_bytes_of_prefix(before, answers, k);
                }
            }
            assert(groups_bytes(sizes, taken as nat) == running);
            assert(sum == groups_bytes(sizes, (taken + 1) as nat));
            if sum <= page_budget || taken == 0 {
                let ghost next = groups.take(taken + 1);
                assert(next.drop_last() =~= groups.take(taken as int));
                assert(next.last() == groups[taken as int]);
                let mut group = group;
                page.append(&mut group);
                running = sum;
                taken += 1;
            } else {
                has_more = true;
            }
        }
    }
    assert(may_be_stamped(all, keys));
    let r = (page, has_more);
    assert(paginated(changes@, keys, page_budget, groups, sizes, taken as nat, r.0@, r.1));
    r
}

proof fn lemma_bytes_of_prefix(
    sizes: Seq<Seq<Option<usize>>>,
    more: Seq<Option<usize>>,
    n: nat,
)
    requires
        n <= sizes.len(),
    ensures
        groups_bytes(sizes.push(more), n) == groups_bytes(sizes, n),
    decreases n,
{
    if n > 0 {
        lemma_bytes_of_prefix(sizes, more, (n - 1) as nat);
    }
}

/// A transaction is never split: all its changes are on the page, or none, and
/// what is left for later is no older than what is on the page.
pub proof fn lemma_page_holds_whole_transactions<T: Paginable>(
    changes: Seq<T>,
    keys: Seq<Seq<char>>,
    groups: Seq<(Seq<char>, Seq<T>)>,
    n: nat,
    a: int,
    b: int,
)
    requires
        keys.len() == changes.len(),
        grouped_by_hlc(changes, keys, groups),
        n <= groups.len(),
        0 <= a < changes.len(),
        0 <= b < changes.len(),
        keys[a] == keys[b],
    ensures
        exists|g: int|
            0 <= g < groups.len() && (#[trigger] groups[g]).1.contains(changes[a])
                && groups[g].1.contains(changes[b]) && groups[g].0 == keys[a],
        forall|g: int, h: int|
            #![trigger groups[g], groups[h]]
            0 <= g < n && n <= h < groups.len() ==> groups[g].0 != groups[h].0 && !hlc_before(
                groups[h].0,
                groups[g].0,
            ),
{
    assert(has_group(groups, keys[a]));
    let g = choose|g: int| 0 <= g < groups.len() && #[trigger] groups[g].0 == keys[a];
    lemma_items_with_members(changes, keys, keys[a], changes[a]);
    lemma_items_with_members(changes, keys, keys[a], changes[b]);
    assert(groups[g].1.contains(changes[a]));
    assert(groups[g].1.contains(changes[b]));
    assert forall|g: int, h: int|
        #![trigger groups[g], groups[h]]
        0 <= g < n && n <= h < groups.len() implies groups[g].0 != groups[h].0 && !hlc_before(
        groups[h].0,
        groups[g].0,
    ) by {
        lemma_group_order(groups[g].0, groups[h].0, groups[g].0);
    }
}

/// The transaction with this timestamp is on the page.
pub open spec fn on_page<T>(groups: Seq<(Seq<char>, Seq<T>)>, n: nat, key: Seq<char>) -> bool {
    exists|g: int| 0 <= g < n && #[trigger] groups[g].0 == key
}

/// A timestamp is all that is needed to go on: what is left for later is
/// exactly what is newer than the newest transaction on the page. This holds
/// where each timestamp is written in one way; `1/1` and `01/1` are one
/// timestamp, as are all malformed texts, and a page may end between them.
pub proof fn lemma_newest_on_page_is_cursor<T>(
    changes: Seq<T>,
    keys: Seq<Seq<char>>,
    groups: Seq<(Seq<char>, Seq<T>)>,
    n: nat,
    i: int,
)
    requires
        keys.len() == changes.len(),
        grouped_by_hlc(changes, keys, groups),
        0 < n <= groups.len(),
        0 <= i < keys.len(),
        forall|a: int, b: int|
            #![trigger keys[a], keys[b]]
            0 <= a < keys.len() && 0 <= b < keys.len() && hlc_key(keys[a]) == hlc_key(keys[b])
                ==> keys[a] == keys[b],
    ensures
        on_page(groups, n, keys[i]) <==> !hlc_before(groups[n - 1].0, keys[i]),
{
    assert(has_group(groups, keys[i]));
    let g = choose|g: int| 0 <= g < groups.len() && #[trigger] groups[g].0 == keys[i];
    let cursor = groups[n - 1].0;
    assert(keys.contains(groups[n - 1].0));
    let c = choose|c: int| 0 <= c < keys.len() && keys[c] == cursor;
    if on_page(groups, n, keys[i]) {
        let h = choose|h: int| 0 <= h < n && #[trigger] groups[h].0 == keys[i];
        if h < n - 1 {
            assert(!hlc_before(groups[n - 1].0, groups[h].0));
        }
    } else {
        assert(g >= n);
        assert(!hlc_before(groups[g].0, groups[n - 1].0));
        if hlc_key(keys[i]) == hlc_key(cursor) {
            assert(keys[i] == keys[c]);
            assert(on_page(groups, n, keys[i]));
        }
    }
}

/// Progress: a page is empty only where there is nothing to send.
pub proof fn lemma_page_makes_progress<T: Paginable>(
    changes: Seq<T>,
    keys: Seq<Seq<char>>,
    groups: Seq<(Seq<char>, Seq<T>)>,
    sizes: Seq<Seq<Option<usize>>>,
    budget: usize,
    n: nat,
)
    requires
        keys.len() == changes.len(),
        grouped_by_hlc(changes, keys, groups),
        groups_measured(groups, sizes, n),
        page_ends_at(sizes, budget, n),
        changes.len() > 0,
    ensures
        n > 0,
        page_of(groups, n).len() > 0,
{
    assert(has_group(groups, keys[0]));
    assert(groups.len() > 0);
    assert(keys.contains(groups[0].0));
    let k = choose|k: int| 0 <= k < keys.len() && keys[k] == groups[0].0;
    lemma_items_with_members(changes, keys, groups[0].0, changes[k]);
    assert(groups[0].1.contains(changes[k]));
    lemma_page_starts_with_first(groups, n);
}

proof fn lemma_page_starts_with_first<K, T>(groups: Seq<(K, Seq<T>)>, n: nat)
    requires
        0 < n <= groups.len(),
    ensures
        page_of(groups, n).len() >= groups[0].1.len(),
    decreases n,
{
    let now = groups.take(n as int);
    assert(now.drop_last() =~= groups.take(n - 1));
    if n > 1 {
        lemma_page_starts_with_first(groups, (n - 1) as nat);
    } else {
        assert(now.last() == groups[0]);
    }
}

/// A [`ColumnChange`] answers with its own timestamp and with the length of its
/// JSON, and with nothing else.
pub proof fn lemma_change_answers(c: ColumnChange, key: Seq<char>, size: Option<usize>)
    ensures
        stamped(c, key) ==> key == c.hlc_timestamp@,
        may_measure(c, size) ==> size == Some(encode_utf8(change_json(c@)).len() as usize),
{
}

/// Sum of some sizes.
pub open spec fn sum_of(sizes: Seq<int>) -> int
    decreases sizes.len(),
{
    if sizes.len() == 0 {
        0
    } else {
        sizes[0] + sum_of(sizes.drop_first())
    }
}

proof fn lemma_sum_of_push(sizes: Seq<int>, x: int)
    ensures
        sum_of(sizes.push(x)) == sum_of(sizes) + x,
    decreases sizes.len(),
{
    if sizes.len() > 0 {
        lemma_sum_of_push(sizes.drop_first(), x);
        assert(sizes.push(x).drop_first() =~= sizes.drop_first().push(x));
    } else {
        assert(sizes.push(x).drop_first() =~= Seq::<int>::empty());
        assert(sum_of(Seq::<int>::empty()) == 0);
    }
}

/// A transaction is as long as the JSON list of its changes: two brackets, the
/// changes, and a comma between each two; the largest number where the list is
/// longer.
pub proof fn lemma_transaction_length(sizes: Seq<usize>)
    ensures
        ({
            let n = sizes.len();
            let length = 2 + sum_of(sizes.map_values(|s: usize| s as int)) + if n > 0 {
                n - 1
            } else {
                0
            };
            group_bytes(sizes.map_values(|s: usize| Some(s))) == if length > usize::MAX {
                usize::MAX as int
            } else {
                length
            }
        }),
        0 <= sum_of(sizes.map_values(|s: usize| s as int)),
    decreases sizes.len(),
{
    let known = sizes.map_values(|s: usize| Some(s));
    let ints = sizes.map_values(|s: usize| s as int);
    if sizes.len() > 0 {
        let rest = sizes.drop_last();
        lemma_transaction_length(rest);
        assert(known.drop_last() =~= rest.map_values(|s: usize| Some(s)));
        assert(ints =~= rest.map_values(|s: usize| s as int).push(sizes.last() as int));
        lemma_sum_of_push(rest.map_values(|s: usize| s as int), sizes.last() as int);
    }
}

/// A change that cannot be written makes its transaction larger than any budget.
pub proof fn lemma_unwritable_change_fills_a_page(sizes: Seq<Option<usize>>, i: int)
    requires
        0 <= i < sizes.len(),
        sizes[i] is None,
    ensures
        group_bytes(sizes) == usize::MAX,
    decreases sizes.len(),
{
    if i < sizes.len() - 1 {
        assert(sizes.drop_last()[i] == sizes[i]);
        lemma_unwritable_change_fills_a_page(sizes.drop_last(), i);
    }
}

/// The transactions of a page are as long as they are together.
pub proof fn lemma_page_length(sizes: Seq<Seq<Option<usize>>>, n: nat)
    requires
        n <= sizes.len(),
    ensures
        ({
            let length = sum_of(Seq::new(n, |g: int| group_bytes(sizes[g]) as int));
            groups_bytes(sizes, n) == if length > usize::MAX {
                usize::MAX as int
            } else {
                length
            }
        }),
        0 <= sum_of(Seq::new(n, |g: int| group_bytes(sizes[g]) as int)),
    decreases n,
{
    let all = Seq::new(n, |g: int| group_bytes(sizes[g]) as int);
    if n > 0 {
        let m = (n - 1) as nat;
        lemma_page_length(sizes, m);
        let rest = Seq::new(m, |g: int| group_bytes(sizes[g]) as int);
        assert(all =~= rest.push(group_bytes(sizes[n - 1]) as int));
        lemma_sum_of_push(rest, group_bytes(sizes[n - 1]) as int);
    }
}

/// How long the first `n` transactions are together.
pub open spec fn length_of(sizes: Seq<Seq<Option<usize>>>, n: nat) -> int {
    sum_of(Seq::new(n, |g: int| group_bytes(sizes[g]) as int))
}

/// A page of several transactions is no longer than the budget, and a page ends
/// only where there is no more or where one more transaction would be too long.
/// There is always one.
pub proof fn lemma_page_keeps_to_its_budget(
    sizes: Seq<Seq<Option<usize>>>,
    budget: usize,
    n: nat,
)
    requires
        page_ends_at(sizes, budget, n),
    ensures
        n > 1 && budget < usize::MAX ==> length_of(sizes, n) <= budget,
        n < sizes.len() ==> length_of(sizes, n + 1) > budget,
        sizes.len() > 0 ==> n > 0,
{
    lemma_page_length(sizes, n);
    if n < sizes.len() {
        lemma_page_length(sizes, n + 1);
    }
    if n > 1 {
        assert(groups_bytes(sizes, n) <= budget);
    }
}

/// No page could have held one transaction more: whatever fits is sent.
pub proof fn lemma_page_is_as_long_as_it_may_be(
    sizes: Seq<Seq<Option<usize>>>,
    budget: usize,
    n: nat,
    m: nat,
)
    requires
        page_ends_at(sizes, budget, n),
        0 < m <= sizes.len(),
        length_of(sizes, m) <= budget,
    ensures
        m <= n,
{
    if m > n {
        lemma_page_length(sizes, m);
        assert(m == n + 1);
    }
}

/// The parts of a change in JSON.
pub open spec fn change_fields(c: ChangeView) -> Seq<Seq<char>> {
    let all = seq![
        "\"tableName\":"@ + json_quoted(c.table_name),
        "\"rowPks\":"@ + json_quoted(c.row_pks),
        "\"columnName\":"@ + json_quoted(c.column_name),
        "\"hlcTimestamp\":"@ + json_quoted(c.hlc_timestamp),
        "\"value\":"@ + json_text(c.value),
        "\"deviceId\":"@ + json_quoted(c.device_id),
    ];
    match c.sig {
        Some(sig) => all.push("\"sig\":"@ + json_text(sig)),
        None => all,
    }
}

proof fn lemma_field(
    head: Seq<char>,
    before: Seq<char>,
    lead: Seq<char>,
    name: Seq<char>,
    v: Seq<char>,
)
    requires
        head == "{"@ + before,
        lead == ","@ + name,
    ensures
        head + lead + v == "{"@ + (before + ","@ + (name + v)),
{
    assert(head + lead + v =~= "{"@ + (before + ","@ + (name + v)));
}

/// A change in JSON is an object of its parts under their names: the table, the
/// key, the column, the timestamp, the value, the device and, where there is one,
/// the signature.
#[verifier::rlimit(40)]
#[verifier::spinoff_prover]
pub proof fn lemma_change_in_json(c: ChangeView)
    ensures
        change_json(c) == "{"@ + joined(change_fields(c), ","@) + "}"@,
{
    reveal_strlit("{");
    reveal_strlit(",");
    let (n0, n1, n2, n3, n4, n5, n6) = (
        "\"tableName\":"@,
        "\"rowPks\":"@,
        "\"columnName\":"@,
        "\"hlcTimestamp\":"@,
        "\"value\":"@,
        "\"deviceId\":"@,
        "\"sig\":"@,
    );
    let f = change_fields(c);
    let (v0, v1, v2, v3, v4, v5) = (
        json_quoted(c.table_name),
        json_quoted(c.row_pks),
        json_quoted(c.column_name),
        json_quoted(c.hlc_timestamp),
        json_text(c.value),
        json_quoted(c.device_id),
    );
    let j0 = n0 + v0;
    let j1 = j0 + ","@ + (n1 + v1);
    let j2 = j1 + ","@ + (n2 + v2);
    let j3 = j2 + ","@ + (n3 + v3);
    let j4 = j3 + ","@ + (n4 + v4);
    let j5 = j4 + ","@ + (n5 + v5);
    let h0 = "{\"tableName\":"@ + v0;
    assert(h0 =~= "{"@ + j0) by {
        reveal_strlit("{\"tableName\":");
        reveal_strlit("\"tableName\":");
    }
    assert(",\"rowPks\":"@ =~= ","@ + n1) by {
        reveal_strlit(",\"rowPks\":");
        reveal_strlit("\"rowPks\":");
    }
    assert(",\"columnName\":"@ =~= ","@ + n2) by {
        reveal_strlit(",\"columnName\":");
        reveal_strlit("\"columnName\":");
    }
    assert(",\"hlcTimestamp\":"@ =~= ","@ + n3) by {
        reveal_strlit(",\"hlcTimestamp\":");
        reveal_strlit("\"hlcTimestamp\":");
    }
    assert(",\"value\":"@ =~= ","@ + n4) by {
        reveal_strlit(",\"value\":");
        reveal_strlit("\"value\":");
    }
    assert(",\"deviceId\":"@ =~= ","@ + n5) by {
        reveal_strlit(",\"deviceId\":");
        reveal_strlit("\"deviceId\":");
    }
    assert(",\"sig\":"@ =~= ","@ + n6) by {
        reveal_strlit(",\"sig\":");
        reveal_strlit("\"sig\":");
    }
    let h1 = h0 + ",\"rowPks\":"@ + v1;
    let h2 = h1 + ",\"columnName\":"@ + v2;
    let h3 = h2 + ",\"hlcTimestamp\":"@ + v3;
    let h4 = h3 + ",\"value\":"@ + v4;
    let h5 = h4 + ",\"deviceId\":"@ + v5;
    lemma_field(h0, j0, ",\"rowPks\":"@, n1, v1);
    lemma_field(h1, j1, ",\"columnName\":"@, n2, v2);
    lemma_field(h2, j2, ",\"hlcTimestamp\":"@, n3, v3);
    lemma_field(h3, j3, ",\"value\":"@, n4, v4);
    lemma_field(h4, j4, ",\"deviceId\":"@, n5, v5);
    let six = seq![n0 + v0, n1 + v1, n2 + v2, n3 + v3, n4 + v4, n5 + v5];
    assert(joined(six, ","@) == j5) by {
        reveal_with_fuel(joined, 7);
    }
    match c.sig {
        Some(sig) => {
            lemma_field(h5, j5, ",\"sig\":"@, n6, json_text(sig));
            assert(f =~= six.push(n6 + json_text(sig)));
            assert(f.drop_last() =~= six);
        },
        None => {
            assert(f =~= six);
        },
    }
}

} // verus!
