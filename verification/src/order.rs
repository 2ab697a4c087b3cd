//! Stable sorting and sorted sets of texts.

use vstd::prelude::*;

use crate::text::{
    lemma_text_order_flip, lemma_text_order_same, lemma_text_order_transitive,
    lemma_texts_order_flip, lemma_texts_order_same, lemma_texts_order_transitive, order_text,
    text_order, texts_order, Side,
};

verus! {

// ---------------------------------------------------------------------------
// Stable sorting
// ---------------------------------------------------------------------------

/// `s` with `x` behind the last element that may stand before it.
pub open spec fn insert_sorted<T>(s: Seq<T>, x: T, leq: spec_fn(T, T) -> bool) -> Seq<T>
    decreases s.len(),
{
    if s.len() == 0 || leq(s.last(), x) {
        s.push(x)
    } else {
        insert_sorted(s.drop_last(), x, leq).push(s.last())
    }
}

/// `s` in ascending order; elements that the order does not tell apart keep
/// their places relative to each other.
pub open spec fn stable_sort<T>(s: Seq<T>, leq: spec_fn(T, T) -> bool) -> Seq<T>
    decreases s.len(),
{
    if s.len() == 0 {
        s
    } else {
        insert_sorted(stable_sort(s.drop_last(), leq), s.last(), leq)
    }
}

/// Any two elements compare, and comparisons chain.
pub open spec fn total_preorder<T>(leq: spec_fn(T, T) -> bool) -> bool {
    &&& forall|a: T, b: T| #[trigger] leq(a, b) || leq(b, a)
    &&& forall|a: T, b: T, c: T| #[trigger] leq(a, b) && #[trigger] leq(b, c) ==> leq(a, c)
}

pub open spec fn ascending<T>(s: Seq<T>, leq: spec_fn(T, T) -> bool) -> bool {
    forall|i: int, j: int| 0 <= i < j < s.len() ==> leq(#[trigger] s[i], #[trigger] s[j])
}

proof fn lemma_insert_multiset<T>(s: Seq<T>, x: T, leq: spec_fn(T, T) -> bool)
    ensures
        insert_sorted(s, x, leq).to_multiset() == s.to_multiset().insert(x),
    decreases s.len(),
{
    broadcast use vstd::seq_lib::group_to_multiset_ensures;

    if s.len() == 0 || leq(s.last(), x) {
    } else {
        lemma_insert_multiset(s.drop_last(), x, leq);
        assert(s =~= s.drop_last().push(s.last()));
        assert(insert_sorted(s, x, leq).to_multiset() =~= s.to_multiset().insert(x));
    }
}

proof fn lemma_insert_ascending<T>(s: Seq<T>, x: T, leq: spec_fn(T, T) -> bool)
    requires
        total_preorder(leq),
        ascending(s, leq),
    ensures
        ascending(insert_sorted(s, x, leq), leq),
        forall|i: int|
            0 <= i < insert_sorted(s, x, leq).len() ==> (#[trigger] insert_sorted(s, x, leq)[i] == x
                || s.contains(insert_sorted(s, x, leq)[i])),
    decreases s.len(),
{
    let r = insert_sorted(s, x, leq);
    if s.len() == 0 {
    } else if leq(s.last(), x) {
        assert forall|i: int, j: int| 0 <= i < j < r.len() implies leq(
            #[trigger] r[i],
            #[trigger] r[j],
        ) by {
            if j == s.len() && i < s.len() - 1 {
                assert(leq(s[i], s[s.len() - 1]));
            }
        }
        assert forall|i: int| 0 <= i < r.len() implies (#[trigger] r[i] == x || s.contains(
            r[i],
        )) by {
            if i < s.len() {
                assert(s[i] == r[i]);
            }
        }
    } else {
        let shorter = s.drop_last();
        let inner = insert_sorted(shorter, x, leq);
        lemma_insert_ascending(shorter, x, leq);
        assert forall|i: int| 0 <= i < r.len() implies (#[trigger] r[i] == x || s.contains(
            r[i],
        )) by {
            if i < inner.len() {
                assert(inner[i] == r[i]);
                if inner[i] != x {
                    let k = shorter.index_of(inner[i]);
                    assert(s[k] == r[i]);
                }
            } else {
                assert(s[s.len() - 1] == r[i]);
            }
        }
        assert forall|i: int, j: int| 0 <= i < j < r.len() implies leq(
            #[trigger] r[i],
            #[trigger] r[j],
        ) by {
            if j == inner.len() {
                assert(inner[i] == r[i]);
                assert(leq(x, s.last()));
                if inner[i] != x {
                    let k = shorter.index_of(inner[i]);
                    assert(shorter[k] == inner[i]);
                    assert(leq(s[k], s[s.len() - 1]));
                }
            } else {
                assert(inner[i] == r[i]);
                assert(inner[j] == r[j]);
            }
        }
    }
}

/// Filtering a list that grew by one element.
pub proof fn lemma_filter_push<T>(s: Seq<T>, x: T, keep: spec_fn(T) -> bool)
    ensures
        s.push(x).filter(keep) == if keep(x) {
            s.filter(keep).push(x)
        } else {
            s.filter(keep)
        },
{
    reveal(Seq::filter);
    assert(s.push(x).drop_last() =~= s);
}

/// Inserting puts an element behind those that it may stand beside.
pub proof fn lemma_insert_class<T>(
    s: Seq<T>,
    x: T,
    leq: spec_fn(T, T) -> bool,
    class: spec_fn(T) -> bool,
)
    requires
        forall|a: T, b: T| #[trigger] class(a) && #[trigger] class(b) ==> leq(a, b),
    ensures
        insert_sorted(s, x, leq).filter(class) == s.push(x).filter(class),
        insert_sorted(s, x, leq).len() == s.len() + 1,
    decreases s.len(),
{
    if s.len() == 0 || leq(s.last(), x) {
    } else {
        let shorter = s.drop_last();
        let inner = insert_sorted(shorter, x, leq);
        lemma_insert_class(shorter, x, leq, class);
        lemma_filter_push(inner, s.last(), class);
        lemma_filter_push(shorter, x, class);
        lemma_filter_push(shorter, s.last(), class);
        lemma_filter_push(s, x, class);
        assert(s =~= shorter.push(s.last()));
        assert(!(class(s.last()) && class(x)));
    }
}

/// Sorting only moves elements: the result holds each as often as before.
pub proof fn lemma_sort_permutes<T>(s: Seq<T>, leq: spec_fn(T, T) -> bool)
    ensures
        stable_sort(s, leq).to_multiset() == s.to_multiset(),
        stable_sort(s, leq).len() == s.len(),
        forall|x: T| stable_sort(s, leq).contains(x) <==> s.contains(x),
    decreases s.len(),
{
    broadcast use vstd::seq_lib::group_to_multiset_ensures;

    if s.len() > 0 {
        lemma_sort_permutes(s.drop_last(), leq);
        lemma_insert_multiset(stable_sort(s.drop_last(), leq), s.last(), leq);
        lemma_insert_class(stable_sort(s.drop_last(), leq), s.last(), leq, |x: T| false);
        assert(s =~= s.drop_last().push(s.last()));
        assert(stable_sort(s, leq).to_multiset() =~= s.to_multiset());
    }
    assert forall|x: T| stable_sort(s, leq).contains(x) <==> s.contains(x) by {
        assert(stable_sort(s, leq).to_multiset().count(x) == s.to_multiset().count(x));
    }
}

/// Sorting by an order in which any two elements compare leaves no element
/// before a smaller one.
pub proof fn lemma_sort_ascends<T>(s: Seq<T>, leq: spec_fn(T, T) -> bool)
    requires
        total_preorder(leq),
    ensures
        ascending(stable_sort(s, leq), leq),
    decreases s.len(),
{
    if s.len() > 0 {
        lemma_sort_ascends(s.drop_last(), leq);
        lemma_insert_ascending(stable_sort(s.drop_last(), leq), s.last(), leq);
    }
}

/// Where all is kept, the list stays as it is.
pub proof fn lemma_filter_all<T>(s: Seq<T>, keep: spec_fn(T) -> bool)
    requires
        forall|i: int| 0 <= i < s.len() ==> keep(#[trigger] s[i]),
    ensures
        s.filter(keep) == s,
    decreases s.len(),
{
    if s.len() == 0 {
        assert(s.filter(keep) =~= s) by {
            reveal(Seq::filter);
        }
    } else {
        let front = s.drop_last();
        assert(s =~= front.push(s.last()));
        assert forall|i: int| 0 <= i < front.len() implies keep(#[trigger] front[i]) by {
            assert(keep(s[i]));
        }
        lemma_filter_all(front, keep);
        lemma_filter_push(front, s.last(), keep);
        assert(keep(s[s.len() - 1]));
    }
}

/// Where the first element is kept, it stays the first.
pub proof fn lemma_filter_first<T>(s: Seq<T>, keep: spec_fn(T) -> bool)
    requires
        s.len() > 0,
        keep(s[0]),
    ensures
        s.filter(keep).len() > 0,
        s.filter(keep)[0] == s[0],
    decreases s.len(),
{
    let front = s.drop_last();
    assert(s =~= front.push(s.last()));
    lemma_filter_push(front, s.last(), keep);
    if front.len() > 0 {
        lemma_filter_first(front, keep);
    } else {
        assert(front.filter(keep) =~= Seq::<T>::empty()) by {
            reveal(Seq::filter);
        }
    }
}

/// What is kept of an ascending list ascends.
pub proof fn lemma_filter_ascends<T>(
    s: Seq<T>,
    leq: spec_fn(T, T) -> bool,
    keep: spec_fn(T) -> bool,
)
    requires
        ascending(s, leq),
    ensures
        ascending(s.filter(keep), leq),
    decreases s.len(),
{
    if s.len() == 0 {
        assert(s.filter(keep) =~= s) by {
            reveal(Seq::filter);
        }
    } else {
        let front = s.drop_last();
        let x = s.last();
        assert(s =~= front.push(x));
        assert(ascending(front, leq)) by {
            assert forall|i: int, j: int| 0 <= i < j < front.len() implies leq(
                #[trigger] front[i],
                #[trigger] front[j],
            ) by {
                assert(leq(s[i], s[j]));
            }
        }
        lemma_filter_ascends(front, leq, keep);
        lemma_filter_push(front, x, keep);
        let kept = front.filter(keep);
        assert forall|i: int| 0 <= i < kept.len() implies leq(#[trigger] kept[i], x) by {
            assert(kept.contains(kept[i]));
            front.lemma_filter_contains_rev(keep, kept[i]);
            let k = front.index_of(kept[i]);
            assert(leq(s[k], s[s.len() - 1]));
        }
    }
}

/// Sorting is stable: elements that the order does not tell apart come out in
/// the order in which they went in.
pub proof fn lemma_sort_stable<T>(
    s: Seq<T>,
    leq: spec_fn(T, T) -> bool,
    class: spec_fn(T) -> bool,
)
    requires
        forall|a: T, b: T| #[trigger] class(a) && #[trigger] class(b) ==> leq(a, b),
    ensures
        stable_sort(s, leq).filter(class) == s.filter(class),
    decreases s.len(),
{
    if s.len() > 0 {
        let shorter = stable_sort(s.drop_last(), leq);
        lemma_sort_stable(s.drop_last(), leq, class);
        lemma_insert_class(shorter, s.last(), leq, class);
        lemma_filter_push(shorter, s.last(), class);
        lemma_filter_push(s.drop_last(), s.last(), class);
        assert(s =~= s.drop_last().push(s.last()));
    }
}

/// Sorts a list by `le`, which decides `leq`.
pub(crate) fn sort_list<T: DeepView>(
    list: Vec<T>,
    le: impl Fn(&T, &T) -> bool,
    Ghost(leq): Ghost<spec_fn(T::V, T::V) -> bool>,
) -> (r: Vec<T>)
    requires
        forall|a: T, b: T| #[trigger] le.requires((&a, &b)),
        forall|a: T, b: T, o: bool| #[trigger]
            le.ensures((&a, &b), o) ==> o == leq(a.deep_view(), b.deep_view()),
    ensures
        r.deep_view() == stable_sort(list.deep_view(), leq),
        forall|x: T| r@.contains(x) ==> list@.contains(x),
{
    let mut rest = list;
    let mut out: Vec<T> = Vec::new();
    let ghost all = list.deep_view();
    let ghost whole = list@;
    let ghost mut done: int = 0;
    assert(all.take(0) =~= Seq::<T::V>::empty());
    assert(out.deep_view() =~= stable_sort(all.take(0), leq));
    assert(whole.skip(0) =~= whole);
    while rest.len() > 0
        invariant
            forall|a: T, b: T| #[trigger] le.requires((&a, &b)),
            forall|a: T, b: T, o: bool| #[trigger]
                le.ensures((&a, &b), o) ==> o == leq(a.deep_view(), b.deep_view()),
            0 <= done <= whole.len(),
            all == Seq::new(whole.len(), |i: int| whole[i].deep_view()),
            rest@ == whole.skip(done),
            out.deep_view() == stable_sort(all.take(done), leq),
            forall|x: T| out@.contains(x) ==> whole.contains(x),
        decreases rest.len(),
    {
        let x = rest.remove(0);
        assert(rest@ =~= whole.skip(done + 1));
        assert(x == whole[done]);
        let ghost sorted = out.deep_view();
        let ghost before = out@;
        let mut at: usize = out.len();
        assert(sorted.take(at as int) =~= sorted);
        assert(sorted.skip(at as int) =~= Seq::<T::V>::empty());
        assert(insert_sorted(sorted, x.deep_view(), leq) =~= insert_sorted(
            sorted.take(at as int),
            x.deep_view(),
            leq,
        ) + sorted.skip(at as int));
        while at > 0 && !le(&out[at - 1], &x)
            invariant
                forall|a: T, b: T| #[trigger] le.requires((&a, &b)),
                forall|a: T, b: T, o: bool| #[trigger]
                    le.ensures((&a, &b), o) ==> o == leq(a.deep_view(), b.deep_view()),
                at <= out.len(),
                sorted == out.deep_view(),
                insert_sorted(sorted, x.deep_view(), leq) == insert_sorted(
                    sorted.take(at as int),
                    x.deep_view(),
                    leq,
                ) + sorted.skip(at as int),
            decreases at,
        {
            assert(sorted.take(at as int).drop_last() =~= sorted.take(at - 1));
            assert(sorted.take(at as int).last() == sorted[at - 1]);
            assert(insert_sorted(sorted.take(at - 1), x.deep_view(), leq).push(sorted[at - 1])
                + sorted.skip(at as int) =~= insert_sorted(
                sorted.take(at - 1),
                x.deep_view(),
                leq,
            ) + sorted.skip(at - 1));
            at -= 1;
        }
        if at > 0 {
            assert(sorted.take(at as int).last() == sorted[at - 1]);
        }
        out.insert(at, x);
        assert(out.deep_view() =~= sorted.take(at as int).push(x.deep_view()) + sorted.skip(
            at as int,
        ));
        assert(all.take(done + 1).drop_last() =~= all.take(done));
        assert forall|y: T| out@.contains(y) implies whole.contains(y) by {
            let k = out@.index_of(y);
            assert(out@[k] == y);
            if k < at {
                assert(before[k] == y);
                assert(before.contains(y));
            } else if k > at {
                assert(before[k - 1] == y);
                assert(before.contains(y));
            } else {
                assert(whole[done] == y);
            }
        }
        proof {
            done = done + 1;
        }
    }
    assert(all.take(done) =~= all);
    out
}

// ---------------------------------------------------------------------------
// Sorting by a key
// ---------------------------------------------------------------------------

/// The order of the keys.
pub open spec fn by_key<V>(key: spec_fn(V) -> Seq<Seq<char>>) -> spec_fn(V, V) -> bool {
    |a: V, b: V| texts_order(key(a), key(b)) != Side::After
}

/// The order of the keys is total.
pub proof fn lemma_by_key<V>(key: spec_fn(V) -> Seq<Seq<char>>)
    ensures
        total_preorder(by_key(key)),
{
    let leq = by_key(key);
    assert forall|a: V, b: V| #[trigger] leq(a, b) || leq(b, a) by {
        lemma_texts_order_flip(key(a), key(b));
    }
    assert forall|a: V, b: V, c: V| #[trigger] leq(a, b) && #[trigger] leq(b, c) implies leq(
        a,
        c,
    ) by {
        lemma_texts_order_transitive(key(a), key(b), key(c));
    }
}

proof fn lemma_no_repeats<V>(
    rows: Seq<V>,
    sorted: Seq<V>,
    key: spec_fn(V) -> Seq<Seq<char>>,
)
    requires
        forall|i: int, j: int|
            0 <= i < j < rows.len() ==> key(#[trigger] rows[i]) != key(#[trigger] rows[j]),
        sorted.to_multiset() == rows.to_multiset(),
    ensures
        forall|i: int, j: int|
            0 <= i < j < sorted.len() ==> #[trigger] sorted[i] != #[trigger] sorted[j],
{
    assert(rows.no_duplicates());
    rows.lemma_multiset_has_no_duplicates();
    sorted.lemma_multiset_has_no_duplicates_conv();
}

/// Rows with different keys are in the strict order of the keys once sorted.
pub proof fn lemma_sorted_by_key<V>(rows: Seq<V>, key: spec_fn(V) -> Seq<Seq<char>>)
    requires
        forall|i: int, j: int|
            0 <= i < j < rows.len() ==> key(#[trigger] rows[i]) != key(#[trigger] rows[j]),
    ensures
        forall|i: int, j: int|
            0 <= i < j < stable_sort(rows, by_key(key)).len() ==> texts_order(
                key(#[trigger] stable_sort(rows, by_key(key))[i]),
                key(#[trigger] stable_sort(rows, by_key(key))[j]),
            ) == Side::Before,
{
    let leq = by_key(key);
    let sorted = stable_sort(rows, leq);
    lemma_by_key(key);
    lemma_sort_ascends(rows, leq);
    lemma_sort_permutes(rows, leq);
    lemma_no_repeats(rows, sorted, key);
    assert forall|i: int, j: int| 0 <= i < j < sorted.len() implies texts_order(
        key(#[trigger] sorted[i]),
        key(#[trigger] sorted[j]),
    ) == Side::Before by {
        assert(leq(sorted[i], sorted[j]));
        assert(sorted.contains(sorted[i]) && sorted.contains(sorted[j]));
        assert(rows.contains(sorted[i]) && rows.contains(sorted[j]));
        let m = rows.index_of(sorted[i]);
        let n = rows.index_of(sorted[j]);
        assert(rows[m] == sorted[i] && rows[n] == sorted[j]);
        assert(m != n);
        assert(key(rows[m]) != key(rows[n]));
        lemma_texts_order_same(key(sorted[i]), key(sorted[j]));
    }
}

// ---------------------------------------------------------------------------
// Sorted sets of texts
// ---------------------------------------------------------------------------

/// Each text stands before the next one, so none occurs twice.
pub open spec fn strictly_ascending(s: Seq<Seq<char>>) -> bool {
    forall|i: int, j: int|
        0 <= i < j < s.len() ==> text_order(#[trigger] s[i], #[trigger] s[j]) == Side::Before
}

/// `r` lists exactly the texts of `s`, each once, in ascending order.
pub open spec fn sorted_set_of(r: Seq<Seq<char>>, s: Seq<Seq<char>>) -> bool {
    &&& strictly_ascending(r)
    &&& forall|t: Seq<char>| r.contains(t) <==> s.contains(t)
}

/// There is one sorted list of the texts of `s`.
pub proof fn lemma_sorted_set_unique(a: Seq<Seq<char>>, b: Seq<Seq<char>>, s: Seq<Seq<char>>)
    requires
        sorted_set_of(a, s),
        sorted_set_of(b, s),
    ensures
        a == b,
    decreases a.len(),
{
    if a.len() == 0 {
        if b.len() > 0 {
            assert(b.contains(b[0]));
            assert(a.contains(b[0]));
        }
        assert(a =~= b);
    } else if b.len() == 0 {
        assert(a.contains(a[0]));
        assert(b.contains(a[0]));
    } else {
        let x = a.last();
        let y = b.last();
        assert(a[a.len() - 1] == x);
        assert(b[b.len() - 1] == y);
        assert(a.contains(x) && b.contains(y));
        assert(b.contains(x) && a.contains(y));
        let i = b.index_of(x);
        let j = a.index_of(y);
        assert(b[i] == x && a[j] == y);
        lemma_text_order_flip(x, y);
        lemma_text_order_same(x, y);
        assert(x == y);
        assert forall|t: Seq<char>| a.drop_last().contains(t) <==> (s.contains(t) && t != x) by {
            lemma_last_out(a, s, t);
        }
        assert forall|t: Seq<char>| b.drop_last().contains(t) <==> (s.contains(t) && t != x) by {
            lemma_last_out(b, s, t);
        }
        assert forall|i: int, j: int| 0 <= i < j < a.drop_last().len() implies text_order(
            #[trigger] a.drop_last()[i],
            #[trigger] a.drop_last()[j],
        ) == Side::Before by {
            assert(a[i] == a.drop_last()[i] && a[j] == a.drop_last()[j]);
        }
        assert(sorted_set_of(a.drop_last(), a.drop_last()));
        assert forall|i: int, j: int| 0 <= i < j < b.drop_last().len() implies text_order(
            #[trigger] b.drop_last()[i],
            #[trigger] b.drop_last()[j],
        ) == Side::Before by {
            assert(b[i] == b.drop_last()[i] && b[j] == b.drop_last()[j]);
        }
        assert forall|t: Seq<char>| b.drop_last().contains(t) <==> a.drop_last().contains(t) by {
            assert(a.drop_last().contains(t) <==> (s.contains(t) && t != x));
            assert(b.drop_last().contains(t) <==> (s.contains(t) && t != x));
        }
        assert(sorted_set_of(b.drop_last(), a.drop_last()));
        lemma_sorted_set_unique(a.drop_last(), b.drop_last(), a.drop_last());
        assert(a =~= a.drop_last().push(x));
        assert(b =~= b.drop_last().push(x));
    }
}

proof fn lemma_last_out(a: Seq<Seq<char>>, s: Seq<Seq<char>>, t: Seq<char>)
    requires
        a.len() > 0,
        sorted_set_of(a, s),
    ensures
        a.drop_last().contains(t) <==> (s.contains(t) && t != a.last()),
{
    let shorter = a.drop_last();
    if shorter.contains(t) {
        let k = shorter.index_of(t);
        assert(a[k] == t);
        assert(a.contains(t));
        lemma_text_order_same(a[k], a[a.len() - 1]);
    }
    if s.contains(t) && t != a.last() {
        assert(a.contains(t));
        let k = a.index_of(t);
        assert(a[k] == t);
        assert(shorter[k] == t);
    }
}

/// Adds a text to a sorted set.
pub fn add_text(set: &mut Vec<String>, t: &str)
    requires
        strictly_ascending(old(set).deep_view()),
    ensures
        strictly_ascending(final(set).deep_view()),
        forall|u: Seq<char>|
            final(set).deep_view().contains(u) <==> (old(set).deep_view().contains(u) || u == t@),
{
    let ghost s = set.deep_view();
    let mut at: usize = set.len();
    while at > 0 && order_text(&set[at - 1], t) == Side::After
        invariant
            s == set.deep_view(),
            at <= set.len(),
            forall|j: int| at <= j < s.len() ==> text_order(#[trigger] s[j], t@) == Side::After,
        decreases at,
    {
        assert(s[at - 1] == set@[at - 1]@);
        at -= 1;
    }
    if at > 0 && order_text(&set[at - 1], t) == Side::Same {
        assert(s[at - 1] == set@[at - 1]@);
        proof {
            lemma_text_order_same(s[at - 1], t@);
        }
        assert(s.contains(t@));
        return ;
    }
    if at > 0 {
        assert(s[at - 1] == set@[at - 1]@);
    }
    let ghost n = t@;
    set.insert(at, t.to_owned());
    let ghost r = set.deep_view();
    assert(r =~= s.insert(at as int, n));
    assert forall|i: int, j: int| 0 <= i < j < r.len() implies text_order(
        #[trigger] r[i],
        #[trigger] r[j],
    ) == Side::Before by {
        if i < at {
            assert(r[i] == s[i]);
        } else if i > at {
            assert(r[i] == s[i - 1]);
        }
        if j < at {
            assert(r[j] == s[j]);
        } else if j > at {
            assert(r[j] == s[j - 1]);
        }
        if i == at {
            lemma_text_order_flip(n, s[j - 1]);
        }
        if j == at {
            lemma_text_order_same(s[i], s[at - 1]);
            lemma_text_order_transitive(s[i], s[at - 1], n);
            lemma_text_order_same(s[i], n);
            lemma_text_order_same(s[at - 1], n);
            lemma_text_order_flip(s[at - 1], n);
            if s[i] == n && i < at - 1 {
                lemma_text_order_flip(s[i], s[at - 1]);
            }
        }
    }
    assert forall|u: Seq<char>| r.contains(u) <==> (s.contains(u) || u == n) by {
        if r.contains(u) {
            let k = r.index_of(u);
            assert(r[k] == u);
            if k < at {
                assert(s[k] == u);
            } else if k > at {
                assert(s[k - 1] == u);
            }
        }
        if s.contains(u) {
            let k = s.index_of(u);
            assert(s[k] == u);
            if k < at {
                assert(r[k] == u);
            } else {
                assert(r[k + 1] == u);
            }
        }
        assert(r[at as int] == n);
    }
}

/// The texts of `s`, each once, in ascending order.
pub open spec fn text_set(s: Seq<Seq<char>>) -> Seq<Seq<char>> {
    choose|r: Seq<Seq<char>>| sorted_set_of(r, s)
}

/// The sorted set of the given texts.
pub fn sorted_set(texts: &Vec<String>) -> (r: Vec<String>)
    ensures
        r.deep_view() == text_set(texts.deep_view()),
        sorted_set_of(r.deep_view(), texts.deep_view()),
{
    let mut set: Vec<String> = Vec::new();
    let ghost all = texts.deep_view();
    let mut i: usize = 0;
    assert(forall|u: Seq<char>| !all.take(0).contains(u));
    while i < texts.len()
        invariant
            all == texts.deep_view(),
            i <= texts.len(),
            sorted_set_of(set.deep_view(), all.take(i as int)),
        decreases texts.len() - i,
    {
        add_text(&mut set, &texts[i]);
        proof {
            lemma_take_contains(all, i as int);
        }
        assert(all[i as int] == texts@[i as int]@);
        i += 1;
    }
    assert(all.take(i as int) =~= all);
    proof {
        lemma_sorted_set_unique(set.deep_view(), text_set(all), all);
    }
    set
}

/// One more element of a prefix.
pub proof fn lemma_take_contains<T>(s: Seq<T>, i: int)
    requires
        0 <= i < s.len(),
    ensures
        forall|u: T| s.take(i + 1).contains(u) <==> (s.take(i).contains(u) || u == s[i]),
        s.take(i + 1) == s.take(i).push(s[i]),
{
    assert(s.take(i + 1) =~= s.take(i).push(s[i]));
    assert forall|u: T| s.take(i + 1).contains(u) <==> (s.take(i).contains(u) || u == s[i]) by {
        if s.take(i + 1).contains(u) {
            let k = s.take(i + 1).index_of(u);
            assert(s.take(i + 1)[k] == u);
            if k < i {
                assert(s.take(i)[k] == u);
            }
        }
        if s.take(i).contains(u) {
            let k = s.take(i).index_of(u);
            assert(s.take(i)[k] == u);
            assert(s.take(i + 1)[k] == u);
        }
        assert(s.take(i + 1)[i] == s[i]);
    }
}

} // verus!
