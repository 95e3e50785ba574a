//! Ordering: text by its code points, and lists by a key, with equal keys in the order in which
//! they came.

use crate::text::to_chars;
use vstd::prelude::*;

verus! {

/// Whether `a` comes before `b`: at the first place where they differ `a` is less, or `a` is a
/// proper beginning of `b`.
pub open spec fn lex_less(a: Seq<u64>, b: Seq<u64>) -> bool
    decreases a.len(),
{
    if b.len() == 0 {
        false
    } else if a.len() == 0 {
        true
    } else if a[0] == b[0] {
        lex_less(a.drop_first(), b.drop_first())
    } else {
        a[0] < b[0]
    }
}

/// The code points of a text.
pub open spec fn code_points(s: Seq<char>) -> Seq<u64> {
    Seq::new(s.len(), |i: int| s[i] as u64)
}

/// Whether the text `a` comes before the text `b`. Comparing code points is comparing the bytes
/// of the UTF-8 encodings.
pub open spec fn text_less(a: Seq<char>, b: Seq<char>) -> bool {
    lex_less(code_points(a), code_points(b))
}

/// Nothing comes before itself.
pub proof fn lemma_lex_irreflexive(a: Seq<u64>)
    ensures
        !lex_less(a, a),
    decreases a.len(),
{
    if a.len() > 0 {
        lemma_lex_irreflexive(a.drop_first());
    }
}

/// Of two different sequences exactly one comes first.
pub proof fn lemma_lex_total(a: Seq<u64>, b: Seq<u64>)
    ensures
        a != b ==> lex_less(a, b) != lex_less(b, a),
        a == b ==> !lex_less(a, b),
    decreases a.len(),
{
    if a == b {
        lemma_lex_irreflexive(a);
    } else if a.len() > 0 && b.len() > 0 && a[0] == b[0] {
        let x = a.drop_first();
        let y = b.drop_first();
        if x == y {
            assert(a =~= seq![a[0]] + x);
            assert(b =~= seq![b[0]] + y);
        }
        lemma_lex_total(x, y);
    } else if a.len() == 0 && b.len() == 0 {
        assert(a =~= b);
    }
}

/// What comes before something that comes before `c` comes before `c`.
pub proof fn lemma_lex_transitive(a: Seq<u64>, b: Seq<u64>, c: Seq<u64>)
    requires
        lex_less(a, b),
        lex_less(b, c),
    ensures
        lex_less(a, c),
    decreases a.len(),
{
    if a.len() > 0 && a[0] == b[0] && b[0] == c[0] {
        lemma_lex_transitive(a.drop_first(), b.drop_first(), c.drop_first());
    }
}

/// Different texts have different code points.
pub proof fn lemma_code_points(a: Seq<char>, b: Seq<char>)
    ensures
        code_points(a) == code_points(b) <==> a == b,
{
    if code_points(a) == code_points(b) {
        assert(a.len() == code_points(a).len());
        assert(b.len() == code_points(b).len());
        assert forall|i: int| 0 <= i < a.len() implies a[i] == b[i] by {
            assert(code_points(a)[i] == code_points(b)[i]);
            lemma_char_code(a[i], b[i]);
        }
        assert(a =~= b);
    }
}

/// Different characters have different code points.
proof fn lemma_char_code(a: char, b: char)
    requires
        a as u64 == b as u64,
    ensures
        a == b,
{
}

/// Texts are strictly and totally ordered.
pub proof fn law_text_order(a: Seq<char>, b: Seq<char>, c: Seq<char>)
    ensures
        !text_less(a, a),
        a != b ==> text_less(a, b) != text_less(b, a),
        text_less(a, b) && text_less(b, c) ==> text_less(a, c),
{
    lemma_code_points(a, b);
    lemma_lex_total(code_points(a), code_points(b));
    lemma_lex_irreflexive(code_points(a));
    if text_less(a, b) && text_less(b, c) {
        lemma_lex_transitive(code_points(a), code_points(b), code_points(c));
    }
}

/// The key that orders texts.
pub(crate) fn text_key(s: &str) -> (key: Vec<u64>)
    ensures
        key@ == code_points(s@),
{
    let chars = to_chars(s);
    let mut key: Vec<u64> = Vec::new();
    let mut i: usize = 0;
    while i < chars.len()
        invariant
            i <= chars.len(),
            chars@ == s@,
            key@ == code_points(s@).take(i as int),
        decreases chars.len() - i,
    {
        key.push(chars[i] as u64);
        i += 1;
    }
    assert(key@ =~= code_points(s@));
    key
}

/// The key that orders numbers.
pub(crate) fn number_key(n: u64) -> (key: Vec<u64>)
    ensures
        key@ == seq![n],
{
    let mut key: Vec<u64> = Vec::new();
    key.push(n);
    assert(key@ =~= seq![n]);
    key
}

/// Numbers are ordered by their size.
pub proof fn lemma_number_order(a: u64, b: u64)
    ensures
        lex_less(seq![a], seq![b]) <==> a < b,
        seq![a] == seq![b] <==> a == b,
{
    assert(seq![a].drop_first() =~= Seq::empty());
    assert(seq![b].drop_first() =~= Seq::empty());
    assert(!lex_less(Seq::empty(), Seq::empty()));
    assert(seq![a][0] == a);
    assert(seq![b][0] == b);
}

/// How two keys stand to each other.
pub(crate) enum Relation {
    Before,
    Same,
    After,
}

/// How two keys stand to each other.
pub(crate) fn relate(a: &[u64], b: &[u64]) -> (r: Relation)
    ensures
        match r {
            Relation::Before => lex_less(a@, b@) && a@ != b@,
            Relation::Same => a@ == b@,
            Relation::After => lex_less(b@, a@) && a@ != b@,
        },
{
    let mut i: usize = 0;
    assert(a@.skip(0) =~= a@);
    assert(b@.skip(0) =~= b@);
    while i < a.len() && i < b.len() && a[i] == b[i]
        invariant
            i <= a.len(),
            i <= b.len(),
            forall|k: int| 0 <= k < i ==> a@[k] == b@[k],
            lex_less(a@, b@) == lex_less(a@.skip(i as int), b@.skip(i as int)),
            lex_less(b@, a@) == lex_less(b@.skip(i as int), a@.skip(i as int)),
        decreases a.len() - i,
    {
        assert(a@.skip(i as int).drop_first() =~= a@.skip(i + 1));
        assert(b@.skip(i as int).drop_first() =~= b@.skip(i + 1));
        i += 1;
    }
    if i == a.len() && i == b.len() {
        assert(a@ =~= b@);
        Relation::Same
    } else if i == b.len() {
        Relation::After
    } else if i == a.len() {
        Relation::Before
    } else if a[i] < b[i] {
        assert(a@.skip(i as int)[0] == a@[i as int]);
        assert(b@.skip(i as int)[0] == b@[i as int]);
        Relation::Before
    } else {
        assert(a@.skip(i as int)[0] == a@[i as int]);
        assert(b@.skip(i as int)[0] == b@[i as int]);
        Relation::After
    }
}

/// Whether text `a` comes before text `b`, stands for the same, or comes after it.
pub(crate) fn relate_texts(a: &str, b: &str) -> (r: Relation)
    ensures
        match r {
            Relation::Before => text_less(a@, b@) && a@ != b@,
            Relation::Same => a@ == b@,
            Relation::After => text_less(b@, a@) && a@ != b@,
        },
{
    proof {
        lemma_code_points(a@, b@);
    }
    relate(text_key(a).as_slice(), text_key(b).as_slice())
}

// ---------------------------------------------------------------- sorting

/// Whether item `i` is to stand before item `j`: by its key, upward or downward, and by its
/// place in the list where the keys are the same.
pub open spec fn goes_before(keys: Seq<Seq<u64>>, down: bool, i: int, j: int) -> bool {
    if keys[i] == keys[j] {
        i < j
    } else if down {
        lex_less(keys[j], keys[i])
    } else {
        lex_less(keys[i], keys[j])
    }
}

/// Whether `order` lists the items by their keys: each item once, and each two in the order that
/// [`goes_before`] gives.
pub open spec fn is_sort_order(keys: Seq<Seq<u64>>, down: bool, order: Seq<int>) -> bool {
    &&& order.len() == keys.len()
    &&& forall|i: int| 0 <= i < order.len() ==> 0 <= #[trigger] order[i] < keys.len()
    &&& forall|i: int, j: int|
        0 <= i < j < order.len() ==> goes_before(keys, down, #[trigger] order[i], #[trigger] order[j])
}

/// The items of a list in an order.
pub open spec fn arranged<T>(items: Seq<T>, order: Seq<int>) -> Seq<T> {
    Seq::new(order.len(), |i: int| items[order[i]])
}

/// The indices as integers.
pub open spec fn indices(order: Seq<usize>) -> Seq<int> {
    Seq::new(order.len(), |i: int| order[i] as int)
}

/// The keys of a list.
pub open spec fn key_views(keys: Seq<Vec<u64>>) -> Seq<Seq<u64>> {
    Seq::new(keys.len(), |i: int| keys[i]@)
}

/// The relation that sorts is transitive, and of two different items one goes first.
proof fn lemma_goes_before(keys: Seq<Seq<u64>>, down: bool, i: int, j: int, k: int)
    ensures
        !goes_before(keys, down, i, i),
        i != j ==> goes_before(keys, down, i, j) != goes_before(keys, down, j, i),
        goes_before(keys, down, i, j) && goes_before(keys, down, j, k) ==> goes_before(
            keys,
            down,
            i,
            k,
        ),
{
    let (a, b, c) = (keys[i], keys[j], keys[k]);
    lemma_lex_total(a, b);
    lemma_lex_total(b, c);
    lemma_lex_total(a, c);
    if lex_less(a, b) && lex_less(b, c) {
        lemma_lex_transitive(a, b, c);
    }
    if lex_less(c, b) && lex_less(b, a) {
        lemma_lex_transitive(c, b, a);
    }
    lemma_lex_irreflexive(a);
}

/// The order in which a list is sorted by its keys.
pub(crate) fn sort_order(keys: &[Vec<u64>], down: bool) -> (order: Vec<usize>)
    ensures
        is_sort_order(key_views(keys@), down, indices(order@)),
{
    let ghost all = key_views(keys@);
    let mut order: Vec<usize> = Vec::new();
    let mut k: usize = 0;
    while k < keys.len()
        invariant
            k <= keys.len(),
            all == key_views(keys@),
            order.len() == k,
            forall|i: int| 0 <= i < order.len() ==> 0 <= #[trigger] order@[i] < k,
            forall|i: int, j: int|
                0 <= i < j < order.len() ==> goes_before(
                    all,
                    down,
                    #[trigger] order@[i] as int,
                    #[trigger] order@[j] as int,
                ),
        decreases keys.len() - k,
    {
        let mut p: usize = k;
        let mut placed: bool = false;
        while p > 0 && !placed
            invariant
                k < keys.len(),
                all == key_views(keys@),
                order.len() == k,
                p <= k,
                forall|i: int| 0 <= i < order.len() ==> 0 <= #[trigger] order@[i] < k,
                forall|i: int, j: int|
                    0 <= i < j < order.len() ==> goes_before(
                        all,
                        down,
                        #[trigger] order@[i] as int,
                        #[trigger] order@[j] as int,
                    ),
                forall|i: int|
                    p <= i < order.len() ==> goes_before(
                        all,
                        down,
                        k as int,
                        #[trigger] order@[i] as int,
                    ),
                placed ==> p > 0 && goes_before(all, down, order@[p - 1] as int, k as int),
            decreases
                p + if placed {
                    0int
                } else {
                    1int
                },
        {
            let q: usize = order[p - 1];
            let up = relate(keys[q].as_slice(), keys[k].as_slice());
            proof {
                assert(all[q as int] == keys@[q as int]@);
                assert(all[k as int] == keys@[k as int]@);
                lemma_lex_total(all[q as int], all[k as int]);
            }
            let later = match up {
                Relation::Same => false,
                Relation::Before => down,
                Relation::After => !down,
            };
            if later {
                p -= 1;
            } else {
                placed = true;
            }
        }
        let ghost before = order@;
        order.insert(p, k);
        proof {
            assert forall|i: int, j: int| 0 <= i < j < order.len() implies goes_before(
                all,
                down,
                #[trigger] order@[i] as int,
                #[trigger] order@[j] as int,
            ) by {
                let a = if i < p {
                    before[i]
                } else if i == p {
                    k
                } else {
                    before[i - 1]
                };
                let b = if j < p {
                    before[j]
                } else if j == p {
                    k
                } else {
                    before[j - 1]
                };
                assert(order@[i] == a);
                assert(order@[j] == b);
                if j == p && i < p - 1 {
                    lemma_goes_before(
                        all,
                        down,
                        before[i] as int,
                        before[p - 1] as int,
                        k as int,
                    );
                }
            }
        }
        k += 1;
    }
    assert(forall|i: int|
        0 <= i < order.len() ==> #[trigger] indices(order@)[i] == order@[i] as int);
    order
}

/// Whether `order` lists the numbers below `n`, each once.
pub open spec fn is_permutation(order: Seq<int>, n: nat) -> bool {
    &&& order.len() == n
    &&& order.no_duplicates()
    &&& forall|i: int| 0 <= i < order.len() ==> 0 <= #[trigger] order[i] < n
}

/// A permutation lists every number.
pub proof fn lemma_permutation_contains(order: Seq<int>, n: nat, item: int)
    requires
        is_permutation(order, n),
        0 <= item < n,
    ensures
        order.contains(item),
{
    order.unique_seq_to_set();
    let range = vstd::set_lib::set_int_range(0, n as int);
    vstd::set_lib::lemma_int_range(0, n as int);
    assert(order.to_set().subset_of(range)) by {
        assert forall|x: int| order.to_set().contains(x) implies range.contains(x) by {
            assert(order.contains(x));
        }
    }
    vstd::set_lib::lemma_subset_equality(order.to_set(), range);
    assert(order.to_set().contains(item));
}

/// A permutation without its greatest number lists the numbers below that, each once.
pub proof fn lemma_permutation_shrinks(order: Seq<int>, n: nat, p: int)
    requires
        is_permutation(order, n),
        0 <= p < n,
        order[p] == n - 1,
    ensures
        is_permutation(order.remove(p), (n - 1) as nat),
{
    let rest = order.remove(p);
    assert forall|i: int| 0 <= i < rest.len() implies 0 <= #[trigger] rest[i] < n - 1 by {
        let k = if i < p {
            i
        } else {
            i + 1
        };
        assert(rest[i] == order[k]);
        assert(order[k] != order[p]);
    }
    assert forall|i: int, j: int|
        0 <= i < rest.len() && 0 <= j < rest.len() && i != j implies rest[i] != rest[j] by {
        let a = if i < p {
            i
        } else {
            i + 1
        };
        let b = if j < p {
            j
        } else {
            j + 1
        };
        assert(rest[i] == order[a] && rest[j] == order[b]);
    }
}

/// Arranging a list keeps every item as often as it is there.
pub proof fn lemma_arranged_multiset<T>(items: Seq<T>, order: Seq<int>)
    requires
        is_permutation(order, items.len()),
    ensures
        arranged(items, order).to_multiset() == items.to_multiset(),
    decreases items.len(),
{
    let all = arranged(items, order);
    if items.len() == 0 {
        assert(all =~= items);
    } else {
        let n = items.len() - 1;
        lemma_permutation_contains(order, items.len(), n);
        let p = choose|p: int| 0 <= p < order.len() && order[p] == n;
        let rest = order.remove(p);
        let front = items.drop_last();
        lemma_permutation_shrinks(order, items.len(), p);
        lemma_arranged_multiset(front, rest);
        assert(all.remove(p) =~= arranged(front, rest));
        all.to_multiset_ensures();
        front.to_multiset_ensures();
        assert(all.contains(all[p]));
        assert(items =~= front.push(items.last()));
        assert(all.remove(p).to_multiset() =~= all.to_multiset().remove(all[p]));
        assert(all.to_multiset() =~= all.to_multiset().remove(all[p]).insert(all[p]));
    }
}

/// A sorted order is a permutation.
pub proof fn lemma_sort_is_permutation(keys: Seq<Seq<u64>>, down: bool, order: Seq<int>)
    requires
        is_sort_order(keys, down, order),
    ensures
        is_permutation(order, keys.len()),
{
    assert forall|i: int, j: int| 0 <= i < order.len() && 0 <= j < order.len() && i != j implies
        order[i] != order[j] by {
        if i < j {
            lemma_goes_before(keys, down, order[i], order[j], order[i]);
        } else {
            lemma_goes_before(keys, down, order[j], order[i], order[j]);
        }
    }
}

/// The order of a list that stays as it is.
pub open spec fn in_place(n: nat) -> Seq<int> {
    Seq::new(n, |i: int| i)
}

/// What has been sorted stays as it is when it is sorted again.
pub proof fn law_sorted_stays(keys: Seq<Seq<u64>>, down: bool, order: Seq<int>)
    requires
        is_sort_order(keys, down, order),
    ensures
        is_sort_order(arranged(keys, order), down, in_place(keys.len())),
{
    let sorted = arranged(keys, order);
    let same = in_place(keys.len());
    assert forall|i: int, j: int| 0 <= i < j < same.len() implies goes_before(
        sorted,
        down,
        #[trigger] same[i],
        #[trigger] same[j],
    ) by {
        assert(goes_before(keys, down, order[i], order[j]));
    }
}

/// Every item of a sorted list is listed.
pub proof fn law_sort_keeps_all(keys: Seq<Seq<u64>>, down: bool, order: Seq<int>, item: int)
    requires
        is_sort_order(keys, down, order),
        0 <= item < keys.len(),
    ensures
        order.contains(item),
{
    lemma_sort_is_permutation(keys, down, order);
    lemma_permutation_contains(order, keys.len(), item);
}

/// A list has only one sorted order.
pub proof fn law_sort_is_unique(keys: Seq<Seq<u64>>, down: bool, a: Seq<int>, b: Seq<int>)
    requires
        is_sort_order(keys, down, a),
        is_sort_order(keys, down, b),
    ensures
        a == b,
{
    lemma_sort_prefix(keys, down, a, b, a.len() as int);
    assert(a =~= b);
}

/// Two sorted orders agree on their first places.
proof fn lemma_sort_prefix(keys: Seq<Seq<u64>>, down: bool, a: Seq<int>, b: Seq<int>, n: int)
    requires
        is_sort_order(keys, down, a),
        is_sort_order(keys, down, b),
        0 <= n <= a.len(),
    ensures
        forall|i: int| 0 <= i < n ==> a[i] == b[i],
    decreases n,
{
    if n > 0 {
        lemma_sort_prefix(keys, down, a, b, n - 1);
        let k = n - 1;
        if a[k] != b[k] {
            law_sort_keeps_all(keys, down, b, a[k]);
            law_sort_keeps_all(keys, down, a, b[k]);
            let p = choose|p: int| 0 <= p < b.len() && b[p] == a[k];
            let q = choose|q: int| 0 <= q < a.len() && a[q] == b[k];
            if p < k {
                assert(a[p] == b[p]);
                lemma_goes_before(keys, down, a[p], a[k], a[p]);
            } else if q < k {
                assert(b[q] == a[q]);
                lemma_goes_before(keys, down, b[q], b[k], b[q]);
            } else {
                assert(goes_before(keys, down, b[k], b[p]));
                assert(goes_before(keys, down, a[k], a[q]));
                lemma_goes_before(keys, down, a[k], b[k], a[k]);
            }
        }
    }
}

/// Texts are ordered by the first character in which they differ; a text that another continues
/// comes before it.
pub proof fn law_first_difference(
    start: Seq<char>,
    x: char,
    y: char,
    a: Seq<char>,
    b: Seq<char>,
)
    ensures
        x < y ==> text_less(start + seq![x] + a, start + seq![y] + b),
        x < y ==> !text_less(start + seq![y] + b, start + seq![x] + a),
        text_less(start, start + seq![x] + a),
        !text_less(start + seq![x] + a, start),
        !text_less(start, start),
    decreases start.len(),
{
    let (s, t) = (start + seq![x] + a, start + seq![y] + b);
    let (p, q, r) = (code_points(s), code_points(t), code_points(start));
    if start.len() == 0 {
        assert(p[0] == x as u64 && q[0] == y as u64);
        law_text_order(start, start, start);
    } else {
        let rest = start.drop_first();
        law_first_difference(rest, x, y, a, b);
        assert(p.drop_first() =~= code_points(rest + seq![x] + a));
        assert(q.drop_first() =~= code_points(rest + seq![y] + b));
        assert(r.drop_first() =~= code_points(rest));
        assert(p[0] == q[0] && p[0] == r[0]);
    }
}

/// What is sorted goes upward, or downward where that is asked for, and what has the same key
/// keeps its order.
pub proof fn law_sort_order(keys: Seq<Seq<u64>>, order: Seq<int>, down: bool, i: int, j: int)
    requires
        is_sort_order(keys, down, order),
        0 <= i < j < order.len(),
    ensures
        !down ==> !lex_less(keys[order[j]], keys[order[i]]),
        down ==> !lex_less(keys[order[i]], keys[order[j]]),
        keys[order[i]] == keys[order[j]] ==> order[i] < order[j],
        order.len() == keys.len(),
{
    let (x, y) = (order[i], order[j]);
    assert(goes_before(keys, down, x, y));
    lemma_lex_irreflexive(keys[x]);
    lemma_lex_total(keys[x], keys[y]);
}

} // verus!
