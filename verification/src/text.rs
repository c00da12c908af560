//! Operations on strings, stated over their character sequences.

use vstd::prelude::*;

verus! {

/// `str`'s `==` compares the two texts: the contract claims that it holds
/// exactly when the character sequences are equal.
pub assume_specification[ <str as PartialEq<str>>::eq ](a: &str, b: &str) -> (r: bool)
    ensures
        r == (a@ == b@),
;

/// `String::push` appends one character.
pub assume_specification[ String::push ](s: &mut String, c: char)
    ensures
        final(s)@ == old(s)@.push(c),
;

/// `String::push_str` appends the whole of `other`.
pub assume_specification[ String::push_str ](s: &mut String, other: &str)
    ensures
        final(s)@ == old(s)@ + other@,
;

/// The characters of every string in `v`, in order.
pub open spec fn texts(v: Seq<String>) -> Seq<Seq<char>> {
    v.map_values(|s: String| s@)
}

/// What an optional text stands for.
pub open spec fn opt_text(s: Option<&str>) -> Option<Seq<char>> {
    match s {
        Some(t) => Some(t@),
        None => None,
    }
}

/// True if the two texts hold the same characters.
pub fn same_text(a: &str, b: &str) -> (r: bool)
    ensures
        r == (a@ == b@),
{
    a.eq(b)
}

/// The characters of `s` as a vector.
pub fn chars_of(s: &str) -> (r: Vec<char>)
    ensures
        r@ == s@,
{
    let mut out: Vec<char> = Vec::new();
    for c in it: s.chars()
        invariant
            out@ == s@.subrange(0, it.index() as int),
            it.seq() == s@,
    {
        out.push(c);
    }
    assert(out@ =~= s@);
    out
}

/// The text made of `chars`.
pub fn text_of(chars: &[char]) -> (r: String)
    ensures
        r@ == chars@,
{
    let mut out = String::new();
    let mut i: usize = 0;
    while i < chars.len()
        invariant
            i <= chars.len(),
            out@ == chars@.subrange(0, i as int),
        decreases chars.len() - i,
    {
        out.push(chars[i]);
        i += 1;
        assert(out@ =~= chars@.subrange(0, i as int));
    }
    assert(out@ =~= chars@);
    out
}

/// `s` ends in `suffix`.
pub open spec fn ends_with(s: Seq<char>, suffix: Seq<char>) -> bool {
    s.len() >= suffix.len() && s.skip(s.len() - suffix.len()) == suffix
}

/// True if `s` ends in `suffix`.
pub fn text_ends_with(s: &str, suffix: &str) -> (r: bool)
    ensures
        r == ends_with(s@, suffix@),
{
    let whole = chars_of(s);
    let tail = chars_of(suffix);
    if whole.len() < tail.len() {
        return false;
    }
    let offset: usize = whole.len() - tail.len();
    let mut i: usize = 0;
    while i < tail.len()
        invariant
            whole@ == s@,
            tail@ == suffix@,
            offset == whole.len() - tail.len(),
            i <= tail.len(),
            forall|j: int| 0 <= j < i ==> whole@[offset + j] == tail@[j],
        decreases tail.len() - i,
    {
        if whole[offset + i] != tail[i] {
            assert(s@.skip(offset as int)[i as int] != suffix@[i as int]);
            return false;
        }
        i += 1;
    }
    assert(s@.skip(offset as int) =~= suffix@);
    true
}

/// Position of the first `c` in `s`, or `s.len()` where there is none.
pub open spec fn first_index(s: Seq<char>, c: char) -> nat
    decreases s.len(),
{
    if s.len() == 0 || s[0] == c {
        0
    } else {
        1 + first_index(s.drop_first(), c)
    }
}

pub proof fn lemma_first_index(s: Seq<char>, c: char)
    ensures
        first_index(s, c) <= s.len(),
        first_index(s, c) < s.len() ==> s[first_index(s, c) as int] == c,
        forall|j: int| 0 <= j < first_index(s, c) ==> s[j] != c,
    decreases s.len(),
{
    if s.len() > 0 && s[0] != c {
        lemma_first_index(s.drop_first(), c);
        assert forall|j: int| 0 <= j < first_index(s, c) implies s[j] != c by {
            if j > 0 {
                assert(s.drop_first()[j - 1] == s[j]);
            }
        }
    }
}

/// The one position that has `c` and no `c` before it is the first.
pub proof fn lemma_first_index_is(s: Seq<char>, c: char, i: nat)
    requires
        i <= s.len(),
        i < s.len() ==> s[i as int] == c,
        forall|j: int| 0 <= j < i ==> s[j] != c,
    ensures
        first_index(s, c) == i,
{
    lemma_first_index(s, c);
    let k = first_index(s, c);
    if k < i {
        assert(s[k as int] != c);
    }
    if i < k {
        assert(s[i as int] != c);
    }
}

/// `s` cut at its first `c`: what stands before and what stands behind.
pub open spec fn split_once(s: Seq<char>, c: char) -> Option<(Seq<char>, Seq<char>)> {
    let i = first_index(s, c);
    if i < s.len() {
        Some((s.take(i as int), s.skip(i as int + 1)))
    } else {
        None
    }
}

/// Index of the first `c` in `chars`, or the length where there is none.
pub fn find_char(chars: &[char], c: char) -> (r: usize)
    ensures
        r == first_index(chars@, c),
        r <= chars.len(),
{
    let mut i: usize = 0;
    while i < chars.len()
        invariant
            i <= chars.len(),
            forall|j: int| 0 <= j < i ==> chars@[j] != c,
        decreases chars.len() - i,
    {
        if chars[i] == c {
            proof {
                lemma_first_index_is(chars@, c, i as nat);
            }
            return i;
        }
        i += 1;
    }
    proof {
        lemma_first_index_is(chars@, c, i as nat);
    }
    i
}

/// Cuts `s` at its first `c`.
pub fn text_split_once<'a>(s: &'a str, c: char) -> (r: Option<(&'a str, &'a str)>)
    ensures
        match (r, split_once(s@, c)) {
            (Some(parts), Some(want)) => parts.0@ == want.0 && parts.1@ == want.1,
            (None, None) => true,
            _ => false,
        },
{
    let chars = chars_of(s);
    let i: usize = find_char(chars.as_slice(), c);
    if i < chars.len() {
        let head = s.substring_char(0, i);
        let tail = s.substring_char(i + 1, chars.len());
        assert(head@ =~= s@.take(i as int));
        assert(tail@ =~= s@.skip(i + 1));
        Some((head, tail))
    } else {
        None
    }
}

/// True if `c` occurs in `s`.
pub fn text_contains(s: &str, c: char) -> (r: bool)
    ensures
        r == s@.contains(c),
{
    let chars = chars_of(s);
    let i: usize = find_char(chars.as_slice(), c);
    proof {
        lemma_first_index(s@, c);
        if i < s@.len() {
            assert(s@[i as int] == c);
        }
    }
    i < chars.len()
}

/// Lexicographic order of two texts by code point: `a` comes strictly first.
pub open spec fn text_before(a: Seq<char>, b: Seq<char>) -> bool
    decreases a.len(),
{
    if b.len() == 0 {
        false
    } else if a.len() == 0 {
        true
    } else if a[0] != b[0] {
        a[0] < b[0]
    } else {
        text_before(a.drop_first(), b.drop_first())
    }
}

/// Of two texts exactly one of these holds: the first comes before the
/// second, it comes after, or they are equal.
pub proof fn lemma_text_order(a: Seq<char>, b: Seq<char>)
    ensures
        text_before(a, b) ==> !text_before(b, a),
        !text_before(a, b) && !text_before(b, a) <==> a == b,
    decreases a.len(),
{
    if a.len() > 0 && b.len() > 0 && a[0] == b[0] {
        lemma_text_order(a.drop_first(), b.drop_first());
        if a.drop_first() == b.drop_first() {
            assert(a =~= seq![a[0]] + a.drop_first());
            assert(b =~= seq![b[0]] + b.drop_first());
        }
    } else if a.len() == 0 && b.len() == 0 {
        assert(a =~= b);
    }
}

/// The order of texts is transitive.
pub proof fn lemma_text_order_transitive(a: Seq<char>, b: Seq<char>, c: Seq<char>)
    requires
        text_before(a, b),
        text_before(b, c),
    ensures
        text_before(a, c),
    decreases a.len(),
{
    if a.len() > 0 && b.len() > 0 && c.len() > 0 && a[0] == b[0] && b[0] == c[0] {
        lemma_text_order_transitive(a.drop_first(), b.drop_first(), c.drop_first());
    }
}

/// True if `a` comes strictly before `b`.
pub fn text_precedes(a: &str, b: &str) -> (r: bool)
    ensures
        r == text_before(a@, b@),
{
    let left = chars_of(a);
    let right = chars_of(b);
    let mut i: usize = 0;
    proof {
        assert(a@.skip(0) =~= a@);
        assert(b@.skip(0) =~= b@);
    }
    while i < left.len() && i < right.len()
        invariant
            left@ == a@,
            right@ == b@,
            i <= left.len(),
            i <= right.len(),
            text_before(a@, b@) == text_before(a@.skip(i as int), b@.skip(i as int)),
        decreases left.len() - i,
    {
        assert(a@.skip(i as int).drop_first() =~= a@.skip(i + 1));
        assert(b@.skip(i as int).drop_first() =~= b@.skip(i + 1));
        if left[i] != right[i] {
            return left[i] < right[i];
        }
        i += 1;
    }
    i < right.len()
}

/// `parts` with `sep` between each two.
pub open spec fn joined(parts: Seq<Seq<char>>, sep: Seq<char>) -> Seq<char>
    decreases parts.len(),
{
    if parts.len() == 0 {
        Seq::empty()
    } else if parts.len() == 1 {
        parts[0]
    } else {
        joined(parts.drop_last(), sep) + sep + parts.last()
    }
}

/// Joins `parts` with `sep` between each two.
pub fn join_texts(parts: &[String], sep: &str) -> (r: String)
    ensures
        r@ == joined(texts(parts@), sep@),
{
    let mut out = String::new();
    let mut i: usize = 0;
    while i < parts.len()
        invariant
            i <= parts.len(),
            out@ == joined(texts(parts@).take(i as int), sep@),
        decreases parts.len() - i,
    {
        proof {
            let now = texts(parts@).take(i as int);
            let next = texts(parts@).take(i + 1);
            assert(next.drop_last() =~= now);
            assert(next.last() == parts@[i as int]@);
        }
        if i > 0 {
            out.push_str(sep);
        } else {
            assert(out@ =~= Seq::<char>::empty());
            assert(Seq::<char>::empty() + parts@[0]@ =~= parts@[0]@);
        }
        out.push_str(parts[i].as_str());
        i += 1;
    }
    assert(texts(parts@).take(i as int) =~= texts(parts@));
    out
}

/// Every text of `items` between `pre` and `post`.
pub open spec fn wrapped_each(
    items: Seq<Seq<char>>,
    pre: Seq<char>,
    post: Seq<char>,
) -> Seq<Seq<char>> {
    items.map_values(|c: Seq<char>| pre + c + post)
}

/// Puts each text of `items` between `pre` and `post`.
pub fn wrap_each(items: &[String], pre: &str, post: &str) -> (r: Vec<String>)
    ensures
        texts(r@) == wrapped_each(texts(items@), pre@, post@),
{
    let mut out: Vec<String> = Vec::new();
    let mut i: usize = 0;
    while i < items.len()
        invariant
            i <= items.len(),
            out.len() == i,
            forall|j: int| 0 <= j < i ==> (#[trigger] out@[j])@ == pre@ + items@[j]@ + post@,
        decreases items.len() - i,
    {
        let mut s = pre.to_owned();
        s.push_str(items[i].as_str());
        s.push_str(post);
        out.push(s);
        i += 1;
    }
    assert(texts(out@) =~= wrapped_each(texts(items@), pre@, post@));
    out
}

/// Every text of `items` written twice: between `pre` and `mid`, then between
/// `mid` and `post`.
pub open spec fn doubled_each(
    items: Seq<Seq<char>>,
    pre: Seq<char>,
    mid: Seq<char>,
    post: Seq<char>,
) -> Seq<Seq<char>> {
    items.map_values(|c: Seq<char>| pre + c + mid + c + post)
}

/// Writes each text of `items` twice, round `mid`.
pub fn double_each(items: &[String], pre: &str, mid: &str, post: &str) -> (r: Vec<String>)
    ensures
        texts(r@) == doubled_each(texts(items@), pre@, mid@, post@),
{
    let mut out: Vec<String> = Vec::new();
    let mut i: usize = 0;
    while i < items.len()
        invariant
            i <= items.len(),
            out.len() == i,
            forall|j: int|
                0 <= j < i ==> (#[trigger] out@[j])@ == pre@ + items@[j]@ + mid@ + items@[j]@
                    + post@,
        decreases items.len() - i,
    {
        let mut s = pre.to_owned();
        s.push_str(items[i].as_str());
        s.push_str(mid);
        s.push_str(items[i].as_str());
        s.push_str(post);
        out.push(s);
        i += 1;
    }
    assert(texts(out@) =~= doubled_each(texts(items@), pre@, mid@, post@));
    out
}

/// True if `name` is one of `items`.
pub fn list_contains(items: &[String], name: &str) -> (r: bool)
    ensures
        r == texts(items@).contains(name@),
{
    let mut i: usize = 0;
    while i < items.len()
        invariant
            i <= items.len(),
            forall|j: int| 0 <= j < i ==> (#[trigger] items@[j])@ != name@,
        decreases items.len() - i,
    {
        if same_text(items[i].as_str(), name) {
            assert(texts(items@)[i as int] == name@);
            return true;
        }
        i += 1;
    }
    assert forall|j: int| 0 <= j < texts(items@).len() implies texts(items@)[j] != name@ by {
        assert(items@[j]@ != name@);
    }
    false
}

/// A copy of `items` that holds the same texts.
pub fn copy_texts(items: &[String]) -> (r: Vec<String>)
    ensures
        r@ == items@,
{
    let mut out: Vec<String> = Vec::new();
    let mut i: usize = 0;
    while i < items.len()
        invariant
            i <= items.len(),
            out@ == items@.take(i as int),
        decreases items.len() - i,
    {
        out.push(items[i].clone());
        i += 1;
        assert(out@ =~= items@.take(i as int));
    }
    assert(out@ =~= items@);
    out
}

/// `s` without the leading characters that are `c`.
pub open spec fn trimmed_start(s: Seq<char>, c: char) -> Seq<char>
    decreases s.len(),
{
    if s.len() > 0 && s[0] == c {
        trimmed_start(s.drop_first(), c)
    } else {
        s
    }
}

/// `s` without the trailing characters that are `c`.
pub open spec fn trimmed_end(s: Seq<char>, c: char) -> Seq<char>
    decreases s.len(),
{
    if s.len() > 0 && s.last() == c {
        trimmed_end(s.drop_last(), c)
    } else {
        s
    }
}

/// `s` without the leading and trailing characters that are `c`.
pub open spec fn trimmed(s: Seq<char>, c: char) -> Seq<char> {
    trimmed_end(trimmed_start(s, c), c)
}

/// Takes the leading and trailing characters that are `c` away.
pub fn trim_char(s: &str, c: char) -> (r: String)
    ensures
        r@ == trimmed(s@, c),
{
    let chars = chars_of(s);
    let n: usize = chars.len();
    let mut start: usize = 0;
    assert(chars@.subrange(0, n as int) =~= s@);
    while start < n && chars[start] == c
        invariant
            start <= n,
            n == chars@.len(),
            chars@ == s@,
            trimmed_start(s@, c) == trimmed_start(chars@.subrange(start as int, n as int), c),
        decreases n - start,
    {
        let ghost now = chars@.subrange(start as int, n as int);
        assert(now.drop_first() =~= chars@.subrange(start + 1, n as int));
        start += 1;
    }
    let ghost front = chars@.subrange(start as int, n as int);
    assert(trimmed_start(s@, c) == front);
    let mut end: usize = n;
    while end > start && chars[end - 1] == c
        invariant
            start <= end <= n,
            n == chars@.len(),
            front == chars@.subrange(start as int, n as int),
            trimmed_end(front, c) == trimmed_end(chars@.subrange(start as int, end as int), c),
        decreases end,
    {
        let ghost now = chars@.subrange(start as int, end as int);
        assert(now.drop_last() =~= chars@.subrange(start as int, end - 1));
        end -= 1;
    }
    let mut out = String::new();
    let mut i: usize = start;
    while i < end
        invariant
            start <= i <= end <= n,
            n == chars@.len(),
            out@ == chars@.subrange(start as int, i as int),
        decreases end - i,
    {
        out.push(chars[i]);
        i += 1;
        assert(out@ =~= chars@.subrange(start as int, i as int));
    }
    out
}

/// Joining two lists is joining each and putting the separator between: every
/// part is there, in order, and the separator stands between each two.
pub proof fn lemma_joined(a: Seq<Seq<char>>, b: Seq<Seq<char>>, sep: Seq<char>)
    ensures
        a.len() == 0 ==> joined(a, sep).len() == 0,
        a.len() == 1 ==> joined(a, sep) == a[0],
        a.len() > 0 && b.len() > 0 ==> joined(a + b, sep) == joined(a, sep) + sep + joined(b, sep),
    decreases b.len(),
{
    if a.len() > 0 && b.len() > 0 {
        let all = a + b;
        let rest = b.drop_last();
        assert(all.last() == b.last());
        if b.len() == 1 {
            assert(all.drop_last() =~= a);
        } else {
            assert(all.drop_last() =~= a + rest);
            lemma_joined(a, rest, sep);
            assert(joined(a, sep) + sep + joined(rest, sep) + sep + b.last() =~= joined(a, sep)
                + sep + (joined(rest, sep) + sep + b.last()));
        }
    }
}

/// A text is cut at the first of the characters: what stands before has none of
/// them, and the two parts with one between are the whole.
pub proof fn lemma_split_once(s: Seq<char>, c: char)
    ensures
        match split_once(s, c) {
            Some((a, b)) => s == a + seq![c] + b && !a.contains(c),
            None => !s.contains(c),
        },
{
    lemma_first_index(s, c);
    let i = first_index(s, c) as int;
    if i < s.len() {
        let (a, b) = (s.take(i), s.skip(i + 1));
        assert(s =~= a + seq![c] + b);
        if a.contains(c) {
            let k = choose|k: int| 0 <= k < a.len() && a[k] == c;
            assert(s[k] == c);
        }
    } else if s.contains(c) {
        let k = choose|k: int| 0 <= k < s.len() && s[k] == c;
    }
}

/// The first difference decides the order of two texts; a text comes before every
/// longer one that starts with it.
pub proof fn lemma_first_difference_decides(a: Seq<char>, b: Seq<char>, i: int)
    requires
        0 <= i <= a.len(),
        i < b.len(),
        a.take(i) == b.take(i),
        i == a.len() || a[i] < b[i],
    ensures
        text_before(a, b),
    decreases i,
{
    if i > 0 {
        assert(a.take(i)[0] == a[0] && b.take(i)[0] == b[0]);
        let (x, y) = (a.drop_first(), b.drop_first());
        assert(x.take(i - 1) =~= a.take(i).drop_first());
        assert(y.take(i - 1) =~= b.take(i).drop_first());
        lemma_first_difference_decides(x, y, i - 1);
    }
}

/// A number of equal characters.
pub open spec fn run(c: char, n: nat) -> Seq<char> {
    Seq::new(n, |i: int| c)
}

proof fn lemma_trimmed_start(s: Seq<char>, c: char) -> (n: nat)
    ensures
        s == run(c, n) + trimmed_start(s, c),
        trimmed_start(s, c).len() > 0 ==> trimmed_start(s, c)[0] != c,
    decreases s.len(),
{
    if s.len() > 0 && s[0] == c {
        let n = lemma_trimmed_start(s.drop_first(), c);
        assert(s =~= seq![c] + s.drop_first());
        assert(seq![c] + run(c, n) =~= run(c, n + 1));
        assert(s =~= run(c, n + 1) + trimmed_start(s, c));
        n + 1
    } else {
        assert(s =~= run(c, 0) + s);
        0
    }
}

proof fn lemma_trimmed_end(s: Seq<char>, c: char) -> (n: nat)
    ensures
        s == trimmed_end(s, c) + run(c, n),
        trimmed_end(s, c).len() > 0 ==> trimmed_end(s, c).last() != c,
    decreases s.len(),
{
    if s.len() > 0 && s.last() == c {
        let n = lemma_trimmed_end(s.drop_last(), c);
        assert(s =~= s.drop_last() + seq![c]);
        assert(run(c, n) + seq![c] =~= run(c, n + 1));
        assert(s =~= trimmed_end(s, c) + run(c, n + 1));
        n + 1
    } else {
        assert(s =~= s + run(c, 0));
        0
    }
}

/// Trimming takes the characters off both ends and nothing else, and leaves none
/// at either end.
pub proof fn lemma_trimmed(s: Seq<char>, c: char) -> (n: (nat, nat))
    ensures
        s == run(c, n.0) + trimmed(s, c) + run(c, n.1),
        trimmed(s, c).len() > 0 ==> trimmed(s, c)[0] != c && trimmed(s, c).last() != c,
{
    let a = lemma_trimmed_start(s, c);
    let inner = trimmed_start(s, c);
    let b = lemma_trimmed_end(inner, c);
    assert(s =~= run(c, a) + trimmed(s, c) + run(c, b));
    if trimmed(s, c).len() > 0 {
        assert(inner[0] == trimmed(s, c)[0]);
    }
    (a, b)
}

} // verus!
