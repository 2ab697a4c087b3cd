//! Mapping, filtering and searching of lists.

use vstd::prelude::*;

use crate::order::lemma_filter_push;

verus! {

// ---------------------------------------------------------------------------
// Searching
// ---------------------------------------------------------------------------

/// The position of the first element in `p`.
pub open spec fn first_where<T>(s: Seq<T>, p: spec_fn(T) -> bool) -> Option<int>
    decreases s.len(),
{
    if s.len() == 0 {
        None
    } else {
        match first_where(s.drop_last(), p) {
            Some(i) => Some(i),
            None => if p(s.last()) {
                Some(s.len() - 1)
            } else {
                None
            },
        }
    }
}

/// The position of the last element in `p`.
pub open spec fn last_where<T>(s: Seq<T>, p: spec_fn(T) -> bool) -> Option<int>
    decreases s.len(),
{
    if s.len() == 0 {
        None
    } else if p(s.last()) {
        Some(s.len() - 1)
    } else {
        last_where(s.drop_last(), p)
    }
}

/// The position found holds an element in `p`, and no earlier one does.
pub proof fn lemma_first_where<T>(s: Seq<T>, p: spec_fn(T) -> bool)
    ensures
        match first_where(s, p) {
            Some(i) => 0 <= i < s.len() && p(s[i]) && forall|j: int|
                0 <= j < i ==> !p(#[trigger] s[j]),
            None => forall|j: int| 0 <= j < s.len() ==> !p(#[trigger] s[j]),
        },
    decreases s.len(),
{
    if s.len() > 0 {
        let shorter = s.drop_last();
        lemma_first_where(shorter, p);
        match first_where(shorter, p) {
            Some(i) => {
                assert(shorter[i] == s[i]);
                assert forall|j: int| 0 <= j < i implies !p(#[trigger] s[j]) by {
                    assert(shorter[j] == s[j]);
                }
            },
            None => {
                assert forall|j: int| 0 <= j < s.len() - 1 implies !p(#[trigger] s[j]) by {
                    assert(shorter[j] == s[j]);
                }
                assert(s[s.len() - 1] == s.last());
            },
        }
    }
}

/// The position found holds an element in `p`, and no later one does.
pub proof fn lemma_last_where<T>(s: Seq<T>, p: spec_fn(T) -> bool)
    ensures
        match last_where(s, p) {
            Some(i) => 0 <= i < s.len() && p(s[i]) && forall|j: int|
                i < j < s.len() ==> !p(#[trigger] s[j]),
            None => forall|j: int| 0 <= j < s.len() ==> !p(#[trigger] s[j]),
        },
    decreases s.len(),
{
    if s.len() > 0 {
        let shorter = s.drop_last();
        assert(s[s.len() - 1] == s.last());
        if !p(s.last()) {
            lemma_last_where(shorter, p);
            match last_where(shorter, p) {
                Some(i) => {
                    assert(shorter[i] == s[i]);
                    assert forall|j: int| i < j < s.len() implies !p(#[trigger] s[j]) by {
                        if j < s.len() - 1 {
                            assert(shorter[j] == s[j]);
                        }
                    }
                },
                None => {
                    assert forall|j: int| 0 <= j < s.len() implies !p(#[trigger] s[j]) by {
                        if j < s.len() - 1 {
                            assert(shorter[j] == s[j]);
                        }
                    }
                },
            }
        }
    }
}

pub open spec fn opt_index(i: Option<usize>) -> Option<int> {
    match i {
        Some(n) => Some(n as int),
        None => None,
    }
}

/// Finds the first element in `p`, which decides `q`.
pub(crate) fn find_first<T: DeepView>(
    list: &Vec<T>,
    p: impl Fn(&T) -> bool,
    Ghost(q): Ghost<spec_fn(T::V) -> bool>,
) -> (r: Option<usize>)
    requires
        forall|a: T| #[trigger] p.requires((&a,)),
        forall|a: T, o: bool| #[trigger] p.ensures((&a,), o) ==> o == q(a.deep_view()),
    ensures
        opt_index(r) == first_where(list.deep_view(), q),
        r matches Some(i) ==> i < list.len() && q(list.deep_view()[i as int]),
{
    let ghost all = list.deep_view();
    let mut i: usize = 0;
    proof {
        lemma_first_where(all, q);
    }
    while i < list.len()
        invariant
            forall|a: T| #[trigger] p.requires((&a,)),
            forall|a: T, o: bool| #[trigger] p.ensures((&a,), o) ==> o == q(a.deep_view()),
            all == list.deep_view(),
            i <= list.len(),
            forall|j: int| 0 <= j < i ==> !q(#[trigger] all[j]),
            match first_where(all, q) {
                Some(i) => 0 <= i < all.len() && q(all[i]) && forall|j: int|
                    0 <= j < i ==> !q(#[trigger] all[j]),
                None => forall|j: int| 0 <= j < all.len() ==> !q(#[trigger] all[j]),
            },
        decreases list.len() - i,
    {
        assert(all[i as int] == list@[i as int].deep_view());
        if p(&list[i]) {
            return Some(i);
        }
        i += 1;
    }
    None
}

/// Finds the last element in `p`, which decides `q`.
pub(crate) fn find_last<T: DeepView>(
    list: &Vec<T>,
    p: impl Fn(&T) -> bool,
    Ghost(q): Ghost<spec_fn(T::V) -> bool>,
) -> (r: Option<usize>)
    requires
        forall|a: T| #[trigger] p.requires((&a,)),
        forall|a: T, o: bool| #[trigger] p.ensures((&a,), o) ==> o == q(a.deep_view()),
    ensures
        opt_index(r) == last_where(list.deep_view(), q),
        r matches Some(i) ==> i < list.len() && q(list.deep_view()[i as int]),
{
    let ghost all = list.deep_view();
    let mut i: usize = list.len();
    proof {
        lemma_last_where(all, q);
    }
    while i > 0
        invariant
            forall|a: T| #[trigger] p.requires((&a,)),
            forall|a: T, o: bool| #[trigger] p.ensures((&a,), o) ==> o == q(a.deep_view()),
            all == list.deep_view(),
            i <= list.len(),
            forall|j: int| i <= j < list.len() ==> !q(#[trigger] all[j]),
            match last_where(all, q) {
                Some(i) => 0 <= i < all.len() && q(all[i]) && forall|j: int|
                    i < j < all.len() ==> !q(#[trigger] all[j]),
                None => forall|j: int| 0 <= j < all.len() ==> !q(#[trigger] all[j]),
            },
        decreases i,
    {
        i -= 1;
        assert(all[i as int] == list@[i as int].deep_view());
        if p(&list[i]) {
            return Some(i);
        }
    }
    None
}

/// Whether some element is in `p`, which decides `q`.
pub(crate) fn any_in<T: DeepView>(
    list: &Vec<T>,
    p: impl Fn(&T) -> bool,
    Ghost(q): Ghost<spec_fn(T::V) -> bool>,
) -> (r: bool)
    requires
        forall|a: T| #[trigger] p.requires((&a,)),
        forall|a: T, o: bool| #[trigger] p.ensures((&a,), o) ==> o == q(a.deep_view()),
    ensures
        r == exists|i: int| 0 <= i < list.len() && q(#[trigger] list.deep_view()[i]),
{
    proof {
        lemma_first_where(list.deep_view(), q);
    }
    find_first(list, p, Ghost(q)).is_some()
}

// ---------------------------------------------------------------------------
// Mapping and filtering
// ---------------------------------------------------------------------------

/// The results of `f`, which computes `g`, on each element.
pub(crate) fn map_list<A: DeepView, B: DeepView>(
    list: &Vec<A>,
    f: impl Fn(&A) -> B,
    Ghost(g): Ghost<spec_fn(A::V) -> B::V>,
) -> (r: Vec<B>)
    requires
        forall|a: A| #[trigger] f.requires((&a,)),
        forall|a: A, b: B| #[trigger] f.ensures((&a,), b) ==> b.deep_view() == g(a.deep_view()),
    ensures
        r.deep_view() == list.deep_view().map_values(g),
{
    let ghost want = list.deep_view().map_values(g);
    let mut out: Vec<B> = Vec::new();
    let mut i: usize = 0;
    assert(out.deep_view() =~= want.take(0));
    while i < list.len()
        invariant
            forall|a: A| #[trigger] f.requires((&a,)),
            forall|a: A, b: B| #[trigger]
                f.ensures((&a,), b) ==> b.deep_view() == g(a.deep_view()),
            want == list.deep_view().map_values(g),
            i <= list.len(),
            out.deep_view() == want.take(i as int),
        decreases list.len() - i,
    {
        let b = f(&list[i]);
        let ghost v = b.deep_view();
        let ghost before = out.deep_view();
        out.push(b);
        assert(out.deep_view() =~= before.push(v));
        assert(want.take(i as int).push(want[i as int]) =~= want.take(i + 1));
        i += 1;
    }
    assert(want.take(i as int) =~= want);
    out
}

/// Copies of the elements in `p`, which decides `q`.
pub(crate) fn keep_list<T: DeepView + Clone>(
    list: &Vec<T>,
    p: impl Fn(&T) -> bool,
    Ghost(q): Ghost<spec_fn(T::V) -> bool>,
) -> (r: Vec<T>)
    requires
        forall|a: T, b: T| #[trigger]
            call_ensures(T::clone, (&a,), b) ==> b.deep_view() == a.deep_view(),
        forall|a: T| #[trigger] p.requires((&a,)),
        forall|a: T, o: bool| #[trigger] p.ensures((&a,), o) ==> o == q(a.deep_view()),
    ensures
        r.deep_view() == list.deep_view().filter(q),
{
    let ghost all = list.deep_view();
    let mut out: Vec<T> = Vec::new();
    let mut i: usize = 0;
    proof {
        reveal(Seq::filter);
        assert(all.take(0) =~= Seq::<T::V>::empty());
        assert(all.take(0).filter(q) =~= Seq::<T::V>::empty());
    }
    assert(out.deep_view() =~= all.take(0).filter(q));
    while i < list.len()
        invariant
            forall|a: T, b: T| #[trigger]
                call_ensures(T::clone, (&a,), b) ==> b.deep_view() == a.deep_view(),
            forall|a: T| #[trigger] p.requires((&a,)),
            forall|a: T, o: bool| #[trigger] p.ensures((&a,), o) ==> o == q(a.deep_view()),
            all == list.deep_view(),
            i <= list.len(),
            out.deep_view() == all.take(i as int).filter(q),
        decreases list.len() - i,
    {
        let ghost before = out.deep_view();
        proof {
            lemma_filter_push(all.take(i as int), all[i as int], q);
            assert(all.take(i as int).push(all[i as int]) =~= all.take(i + 1));
        }
        assert(all[i as int] == list@[i as int].deep_view());
        if p(&list[i]) {
            let copy = list[i].clone();
            let ghost c = copy.deep_view();
            out.push(copy);
            assert(out.deep_view() =~= before.push(c));
        }
        i += 1;
    }
    assert(all.take(i as int) =~= all);
    out
}

/// How many elements are in `p`, which decides `q`.
pub(crate) fn count_in<T: DeepView>(
    list: &Vec<T>,
    p: impl Fn(&T) -> bool,
    Ghost(q): Ghost<spec_fn(T::V) -> bool>,
) -> (r: usize)
    requires
        forall|a: T| #[trigger] p.requires((&a,)),
        forall|a: T, o: bool| #[trigger] p.ensures((&a,), o) ==> o == q(a.deep_view()),
    ensures
        r == list.deep_view().filter(q).len(),
{
    let ghost all = list.deep_view();
    let mut n: usize = 0;
    let mut i: usize = 0;
    proof {
        reveal(Seq::filter);
        assert(all.take(0) =~= Seq::<T::V>::empty());
    }
    while i < list.len()
        invariant
            forall|a: T| #[trigger] p.requires((&a,)),
            forall|a: T, o: bool| #[trigger] p.ensures((&a,), o) ==> o == q(a.deep_view()),
            all == list.deep_view(),
            n <= i <= list.len(),
            n == all.take(i as int).filter(q).len(),
        decreases list.len() - i,
    {
        proof {
            lemma_filter_push(all.take(i as int), all[i as int], q);
            assert(all.take(i as int).push(all[i as int]) =~= all.take(i + 1));
        }
        assert(all[i as int] == list@[i as int].deep_view());
        if p(&list[i]) {
            n += 1;
        }
        i += 1;
    }
    assert(all.take(i as int) =~= all);
    n
}

/// Copies of the first `count` elements.
pub(crate) fn first_of<T: DeepView + Clone>(list: &Vec<T>, count: usize) -> (r: Vec<T>)
    requires
        forall|a: T, b: T| #[trigger]
            call_ensures(T::clone, (&a,), b) ==> b.deep_view() == a.deep_view(),
    ensures
        r.deep_view() == leading(list.deep_view(), count as int),
{
    let ghost all = list.deep_view();
    let end: usize = if count < list.len() {
        count
    } else {
        list.len()
    };
    let mut out: Vec<T> = Vec::new();
    let mut i: usize = 0;
    assert(out.deep_view() =~= all.take(0));
    while i < end
        invariant
            forall|a: T, b: T| #[trigger]
                call_ensures(T::clone, (&a,), b) ==> b.deep_view() == a.deep_view(),
            all == list.deep_view(),
            i <= end <= list.len(),
            out.deep_view() == all.take(i as int),
        decreases end - i,
    {
        let copy = list[i].clone();
        let ghost c = copy.deep_view();
        let ghost before = out.deep_view();
        out.push(copy);
        assert(out.deep_view() =~= before.push(c));
        assert(all.take(i as int).push(all[i as int]) =~= all.take(i + 1));
        i += 1;
    }
    assert(count >= list.len() ==> all.take(i as int) =~= all);
    out
}

/// The first `count` elements, or all where there are fewer.
pub open spec fn leading<T>(s: Seq<T>, count: int) -> Seq<T> {
    if count < s.len() {
        s.take(count)
    } else {
        s
    }
}

// ---------------------------------------------------------------------------
// One element for each key
// ---------------------------------------------------------------------------

/// The best element for each key, in the order in which the keys first
/// occur. A later element takes the place of an earlier one with its key
/// where it is better.
pub open spec fn best_per_key<V>(
    s: Seq<V>,
    key: spec_fn(V) -> Seq<Seq<char>>,
    better: spec_fn(V, V) -> bool,
) -> Seq<V>
    decreases s.len(),
{
    if s.len() == 0 {
        s
    } else {
        let found = best_per_key(s.drop_last(), key, better);
        let x = s.last();
        match first_where(found, |v: V| key(v) == key(x)) {
            Some(i) => if better(x, found[i]) {
                found.update(i, x)
            } else {
                found
            },
            None => found.push(x),
        }
    }
}

/// One element for each key that occurs, none twice, and none that is worse
/// than another with its key.
pub proof fn lemma_best_per_key<V>(
    s: Seq<V>,
    key: spec_fn(V) -> Seq<Seq<char>>,
    better: spec_fn(V, V) -> bool,
)
    requires
        forall|a: V, b: V, c: V|
            !(#[trigger] better(a, b)) && !(#[trigger] better(b, c)) ==> !better(a, c),
        forall|a: V, b: V| #[trigger] better(a, b) ==> !better(b, a),
        forall|a: V| !#[trigger] better(a, a),
    ensures
        forall|i: int, j: int|
            0 <= i < j < best_per_key(s, key, better).len() ==> key(
                #[trigger] best_per_key(s, key, better)[i],
            ) != key(#[trigger] best_per_key(s, key, better)[j]),
        forall|i: int|
            0 <= i < best_per_key(s, key, better).len() ==> s.contains(
                #[trigger] best_per_key(s, key, better)[i],
            ),
        forall|x: V| #[trigger]
            s.contains(x) ==> exists|i: int|
                0 <= i < best_per_key(s, key, better).len() && key(
                    #[trigger] best_per_key(s, key, better)[i],
                ) == key(x) && !better(x, best_per_key(s, key, better)[i]),
    decreases s.len(),
{
    if s.len() > 0 {
        let shorter = s.drop_last();
        let found = best_per_key(shorter, key, better);
        let x = s.last();
        let r = best_per_key(s, key, better);
        lemma_best_per_key(shorter, key, better);
        let same = |v: V| key(v) == key(x);
        lemma_first_where(found, same);
        assert(s =~= shorter.push(x));
        assert forall|i: int| 0 <= i < r.len() implies s.contains(#[trigger] r[i]) by {
            if r[i] == x {
                assert(s[s.len() - 1] == x);
            } else {
                assert(found[i] == r[i]);
                assert(shorter.contains(found[i]));
                let k = shorter.index_of(found[i]);
                assert(s[k] == r[i]);
            }
        }
        assert forall|i: int, j: int| 0 <= i < j < r.len() implies key(#[trigger] r[i]) != key(
            #[trigger] r[j],
        ) by {
            match first_where(found, same) {
                Some(k) => {
                    assert(key(found[k]) == key(x));
                    assert(key(found[i]) == key(r[i]) && key(found[j]) == key(r[j]));
                },
                None => {
                    assert(found[i] == r[i]);
                    if j < found.len() {
                        assert(found[j] == r[j]);
                    } else {
                        assert(!same(found[i]));
                    }
                },
            }
        }
        assert forall|y: V| #[trigger] s.contains(y) implies exists|i: int|
            0 <= i < r.len() && key(#[trigger] r[i]) == key(y) && !better(y, r[i]) by {
            if shorter.contains(y) {
                let i = choose|i: int|
                    0 <= i < found.len() && key(#[trigger] found[i]) == key(y) && !better(
                        y,
                        found[i],
                    );
                match first_where(found, same) {
                    Some(k) => {
                        if i == k && better(x, found[k]) {
                            assert(r[i] == x);
                            assert(!better(found[k], x));
                            assert(!better(y, x));
                        } else {
                            assert(r[i] == found[i]);
                        }
                    },
                    None => {
                        assert(r[i] == found[i]);
                    },
                }
            } else {
                let m = s.index_of(y);
                assert(s[m] == y);
                if m < shorter.len() {
                    assert(shorter[m] == y);
                }
                assert(y == x);
                match first_where(found, same) {
                    Some(k) => {
                        assert(key(r[k]) == key(x));
                    },
                    None => {
                        assert(r[found.len() as int] == x);
                    },
                }
            }
        }
    }
}

/// The best element for each key.
pub(crate) fn best_of<T: DeepView + Clone>(
    list: &Vec<T>,
    same_key: impl Fn(&T, &T) -> bool,
    better: impl Fn(&T, &T) -> bool,
    Ghost(key): Ghost<spec_fn(T::V) -> Seq<Seq<char>>>,
    Ghost(over): Ghost<spec_fn(T::V, T::V) -> bool>,
) -> (r: Vec<T>)
    requires
        forall|a: T, b: T| #[trigger]
            call_ensures(T::clone, (&a,), b) ==> b.deep_view() == a.deep_view(),
        forall|a: T, b: T| #[trigger] same_key.requires((&a, &b)),
        forall|a: T, b: T, o: bool| #[trigger]
            same_key.ensures((&a, &b), o) ==> o == (key(a.deep_view()) == key(b.deep_view())),
        forall|a: T, b: T| #[trigger] better.requires((&a, &b)),
        forall|a: T, b: T, o: bool| #[trigger]
            better.ensures((&a, &b), o) ==> o == over(a.deep_view(), b.deep_view()),
    ensures
        r.deep_view() == best_per_key(list.deep_view(), key, over),
{
    let ghost all = list.deep_view();
    let mut out: Vec<T> = Vec::new();
    let mut i: usize = 0;
    assert(all.take(0) =~= Seq::<T::V>::empty());
    assert(out.deep_view() =~= best_per_key(all.take(0), key, over));
    while i < list.len()
        invariant
            forall|a: T, b: T| #[trigger]
                call_ensures(T::clone, (&a,), b) ==> b.deep_view() == a.deep_view(),
            forall|a: T, b: T| #[trigger] same_key.requires((&a, &b)),
            forall|a: T, b: T, o: bool| #[trigger]
                same_key.ensures((&a, &b), o) ==> o == (key(a.deep_view()) == key(b.deep_view())),
            forall|a: T, b: T| #[trigger] better.requires((&a, &b)),
            forall|a: T, b: T, o: bool| #[trigger]
                better.ensures((&a, &b), o) ==> o == over(a.deep_view(), b.deep_view()),
            all == list.deep_view(),
            i <= list.len(),
            out.deep_view() == best_per_key(all.take(i as int), key, over),
        decreases list.len() - i,
    {
        let x = &list[i];
        let ghost found = out.deep_view();
        let ghost same = |v: T::V| key(v) == key(x.deep_view());
        assert(all.take(i + 1).drop_last() =~= all.take(i as int));
        assert(all.take(i + 1).last() == x.deep_view());
        let mut at: usize = 0;
        proof {
            lemma_first_where(found, same);
        }
        while at < out.len() && !same_key(&out[at], x)
            invariant
                forall|a: T, b: T| #[trigger] same_key.requires((&a, &b)),
                forall|a: T, b: T, o: bool| #[trigger]
                    same_key.ensures((&a, &b), o) ==> o == (key(a.deep_view()) == key(
                        b.deep_view(),
                    )),
                same == |v: T::V| key(v) == key(x.deep_view()),
                found == out.deep_view(),
                at <= out.len(),
                forall|j: int| 0 <= j < at ==> !same(#[trigger] found[j]),
            decreases out.len() - at,
        {
            assert(found[at as int] == out@[at as int].deep_view());
            at += 1;
        }
        if at < out.len() {
            assert(same(found[at as int]));
            assert(first_where(found, same) == Some(at as int));
            assert(found[at as int] == out@[at as int].deep_view());
            if better(x, &out[at]) {
                let copy = x.clone();
                out.set(at, copy);
                assert(out.deep_view() =~= found.update(at as int, x.deep_view()));
            }
        } else {
            assert(first_where(found, same) is None);
            let copy = x.clone();
            out.push(copy);
            assert(out.deep_view() =~= found.push(x.deep_view()));
        }
        i += 1;
    }
    assert(all.take(i as int) =~= all);
    out
}

/// What a filter keeps is what was there and is wanted.
pub proof fn lemma_kept<T>(s: Seq<T>, keep: spec_fn(T) -> bool)
    ensures
        forall|x: T| #[trigger] s.filter(keep).contains(x) <==> s.contains(x) && keep(x),
{
    assert forall|x: T| #[trigger] s.filter(keep).contains(x) <==> s.contains(x) && keep(x) by {
        if s.filter(keep).contains(x) {
            s.lemma_filter_contains_rev(keep, x);
            let k = s.filter(keep).index_of(x);
            s.lemma_filter_pred(keep, k);
        }
        if s.contains(x) && keep(x) {
            s.lemma_filter_contains(keep, s.index_of(x));
        }
    }
}

} // verus!
