//! Tables: values under texts as keys, held in the order of the keys.

use vstd::prelude::*;

use crate::order::{lemma_take_contains, sorted_set_of, strictly_ascending, text_set};
use crate::text::{
    lemma_text_order_flip, lemma_text_order_same, lemma_text_order_transitive, order_text,
    text_order, Side,
};

verus! {

// ---------------------------------------------------------------------------
// The model
// ---------------------------------------------------------------------------

/// The keys ascend, so none occurs twice.
pub open spec fn keys_ascend<V>(s: Seq<(Seq<char>, V)>) -> bool {
    forall|i: int, j: int|
        0 <= i < j < s.len() ==> text_order((#[trigger] s[i]).0, (#[trigger] s[j]).0)
            == Side::Before
}

pub open spec fn has_key<V>(s: Seq<(Seq<char>, V)>, key: Seq<char>) -> bool {
    exists|i: int| 0 <= i < s.len() && (#[trigger] s[i]).0 == key
}

/// What stands under `key`.
pub open spec fn entry_at<V>(s: Seq<(Seq<char>, V)>, key: Seq<char>) -> Option<V> {
    if has_key(s, key) {
        Some(s[choose|i: int| 0 <= i < s.len() && (#[trigger] s[i]).0 == key].1)
    } else {
        None
    }
}

/// `s` with `v` under `key`, in place of what stood there.
pub open spec fn put_entry<V>(s: Seq<(Seq<char>, V)>, key: Seq<char>, v: V) -> Seq<
    (Seq<char>, V),
>
    decreases s.len(),
{
    if s.len() == 0 {
        s.push((key, v))
    } else {
        match text_order(s.last().0, key) {
            Side::Before => s.push((key, v)),
            Side::Same => s.drop_last().push((key, v)),
            Side::After => put_entry(s.drop_last(), key, v).push(s.last()),
        }
    }
}

/// `s` without what stands under `key`.
pub open spec fn drop_entry<V>(s: Seq<(Seq<char>, V)>, key: Seq<char>) -> Seq<(Seq<char>, V)>
    decreases s.len(),
{
    if s.len() == 0 {
        s
    } else if s.last().0 == key {
        drop_entry(s.drop_last(), key)
    } else {
        drop_entry(s.drop_last(), key).push(s.last())
    }
}

/// The values, in the order of their keys.
pub open spec fn values_of<V>(s: Seq<(Seq<char>, V)>) -> Seq<V> {
    s.map_values(|e: (Seq<char>, V)| e.1)
}

// ---------------------------------------------------------------------------
// Laws
// ---------------------------------------------------------------------------

/// There is one value under a key.
pub proof fn lemma_entry_unique<V>(s: Seq<(Seq<char>, V)>, i: int)
    requires
        keys_ascend(s),
        0 <= i < s.len(),
    ensures
        entry_at(s, s[i].0) == Some(s[i].1),
{
    let key = s[i].0;
    let k = choose|k: int| 0 <= k < s.len() && (#[trigger] s[k]).0 == key;
    assert(0 <= k < s.len() && s[k].0 == key);
    lemma_text_order_same(key, key);
    if k < i {
        assert(text_order(s[k].0, s[i].0) == Side::Before);
    } else if i < k {
        assert(text_order(s[i].0, s[k].0) == Side::Before);
    }
}

proof fn lemma_put_members<V>(s: Seq<(Seq<char>, V)>, key: Seq<char>, v: V)
    requires
        keys_ascend(s),
    ensures
        keys_ascend(put_entry(s, key, v)),
        forall|e: (Seq<char>, V)|
            #![trigger put_entry(s, key, v).contains(e)]
            #![trigger s.contains(e)]
            put_entry(s, key, v).contains(e) <==> (e == (key, v) || (s.contains(e) && e.0 != key)),
    decreases s.len(),
{
    let r = put_entry(s, key, v);
    let n = (key, v);
    if s.len() == 0 {
        assert(r[0] == n);
        assert forall|e: (Seq<char>, V)|
            #[trigger] r.contains(e) <==> (e == n || (s.contains(e) && e.0 != key)) by {
            if r.contains(e) {
                assert(r[r.index_of(e)] == e);
            }
        }
    } else {
        let last = s.last();
        let shorter = s.drop_last();
        lemma_text_order_same(last.0, key);
        assert(keys_ascend(shorter));
        assert(s =~= shorter.push(last));
        lemma_push_contains(shorter, last);
        assert forall|e: (Seq<char>, V)| #[trigger] shorter.contains(e) implies text_order(e.0, last.0)
            == Side::Before by {
            let k = shorter.index_of(e);
            assert(shorter[k] == e);
            assert(s[k] == e && s[s.len() - 1] == last);
        }
        match text_order(last.0, key) {
            Side::Before => {
                lemma_push_contains(s, n);
                assert forall|e: (Seq<char>, V)| #[trigger] s.contains(e) implies text_order(e.0, key)
                    == Side::Before by {
                    if e != last {
                        lemma_before_chain(e.0, last.0, key);
                    }
                }
                lemma_push_ascends(s, n);
                assert forall|e: (Seq<char>, V)|
                    #[trigger] r.contains(e) <==> (e == n || (s.contains(e) && e.0 != key)) by {
                    lemma_text_order_same(e.0, key);
                }
            },
            Side::Same => {
                lemma_push_contains(shorter, n);
                lemma_push_ascends(shorter, n);
                assert forall|e: (Seq<char>, V)|
                    #[trigger] r.contains(e) <==> (e == n || (s.contains(e) && e.0 != key)) by {
                    lemma_text_order_same(e.0, key);
                }
            },
            Side::After => {
                lemma_put_members(shorter, key, v);
                let inner = put_entry(shorter, key, v);
                lemma_push_contains(inner, last);
                lemma_text_order_flip(last.0, key);
                assert forall|e: (Seq<char>, V)| #[trigger] inner.contains(e) implies text_order(
                    e.0,
                    last.0,
                ) == Side::Before by {
                    if e != n {
                        assert(shorter.contains(e));
                    }
                }
                lemma_push_ascends(inner, last);
                assert forall|e: (Seq<char>, V)|
                    #[trigger] r.contains(e) <==> (e == n || (s.contains(e) && e.0 != key)) by {
                    lemma_text_order_same(e.0, key);
                }
            },
        }
    }
}

proof fn lemma_before_chain(a: Seq<char>, b: Seq<char>, c: Seq<char>)
    requires
        text_order(a, b) == Side::Before,
        text_order(b, c) == Side::Before,
    ensures
        text_order(a, c) == Side::Before,
{
    lemma_text_order_transitive(a, b, c);
    lemma_text_order_same(a, c);
    lemma_text_order_flip(a, b);
}

proof fn lemma_push_contains<T>(s: Seq<T>, x: T)
    ensures
        forall|e: T|
            #![trigger s.push(x).contains(e)]
            #![trigger s.contains(e)]
            s.push(x).contains(e) <==> (s.contains(e) || e == x),
{
    let p = s.push(x);
    lemma_take_contains(p, s.len() as int);
    assert(p.take(s.len() as int) =~= s);
    assert(p.take(s.len() as int + 1) =~= p);
}

proof fn lemma_push_ascends<V>(s: Seq<(Seq<char>, V)>, n: (Seq<char>, V))
    requires
        keys_ascend(s),
        forall|e: (Seq<char>, V)| #[trigger] s.contains(e) ==> text_order(e.0, n.0) == Side::Before,
    ensures
        keys_ascend(s.push(n)),
{
    let p = s.push(n);
    assert forall|i: int, j: int| 0 <= i < j < p.len() implies text_order(
        (#[trigger] p[i]).0,
        (#[trigger] p[j]).0,
    ) == Side::Before by {
        assert(p[i] == s[i]);
        if j < s.len() {
            assert(p[j] == s[j]);
        } else {
            assert(s.contains(s[i]));
        }
    }
}

/// Putting a value under a key: the key then holds that value, every other
/// key holds what it held, and the keys still ascend.
pub proof fn lemma_put<V>(s: Seq<(Seq<char>, V)>, key: Seq<char>, v: V)
    requires
        keys_ascend(s),
    ensures
        keys_ascend(put_entry(s, key, v)),
        entry_at(put_entry(s, key, v), key) == Some(v),
        forall|k: Seq<char>|
            k != key ==> #[trigger] entry_at(put_entry(s, key, v), k) == entry_at(s, k),
{
    lemma_put_members(s, key, v);
    let r = put_entry(s, key, v);
    assert(r.contains((key, v)));
    lemma_entry_unique(r, r.index_of((key, v)));
    assert forall|k: Seq<char>| k != key implies #[trigger] entry_at(r, k) == entry_at(s, k) by {
        lemma_same_entries(r, s, k);
    }
}

proof fn lemma_same_entries<V>(r: Seq<(Seq<char>, V)>, s: Seq<(Seq<char>, V)>, k: Seq<char>)
    requires
        keys_ascend(r),
        keys_ascend(s),
        forall|v: V| r.contains((k, v)) <==> s.contains((k, v)),
    ensures
        entry_at(r, k) == entry_at(s, k),
{
    if has_key(s, k) {
        let i = choose|i: int| 0 <= i < s.len() && (#[trigger] s[i]).0 == k;
        assert(s.contains((k, s[i].1)));
        assert(r.contains((k, s[i].1)));
        let j = r.index_of((k, s[i].1));
        lemma_entry_unique(r, j);
        lemma_entry_unique(s, i);
    }
    if has_key(r, k) {
        let i = choose|i: int| 0 <= i < r.len() && (#[trigger] r[i]).0 == k;
        assert(r.contains((k, r[i].1)));
        assert(s.contains((k, r[i].1)));
        let j = s.index_of((k, r[i].1));
        assert(s[j].0 == k);
    }
}

/// Dropping a key: it then holds nothing, every other key holds what it
/// held, and the keys still ascend.
pub proof fn lemma_drop<V>(s: Seq<(Seq<char>, V)>, key: Seq<char>)
    requires
        keys_ascend(s),
    ensures
        keys_ascend(drop_entry(s, key)),
        entry_at(drop_entry(s, key), key) is None,
        forall|k: Seq<char>|
            k != key ==> #[trigger] entry_at(drop_entry(s, key), k) == entry_at(s, k),
{
    lemma_drop_members(s, key);
    let r = drop_entry(s, key);
    assert forall|k: Seq<char>| k != key implies #[trigger] entry_at(r, k) == entry_at(s, k) by {
        lemma_same_entries(r, s, k);
    }
    if has_key(r, key) {
        let i = choose|i: int| 0 <= i < r.len() && (#[trigger] r[i]).0 == key;
        assert(r.contains(r[i]));
    }
}

proof fn lemma_drop_members<V>(s: Seq<(Seq<char>, V)>, key: Seq<char>)
    requires
        keys_ascend(s),
    ensures
        keys_ascend(drop_entry(s, key)),
        forall|e: (Seq<char>, V)|
            #![trigger drop_entry(s, key).contains(e)]
            #![trigger s.contains(e)]
            drop_entry(s, key).contains(e) <==> (s.contains(e) && e.0 != key),
    decreases s.len(),
{
    if s.len() > 0 {
        let last = s.last();
        let shorter = s.drop_last();
        assert(keys_ascend(shorter));
        assert(s =~= shorter.push(last));
        lemma_push_contains(shorter, last);
        lemma_drop_members(shorter, key);
        let inner = drop_entry(shorter, key);
        if last.0 != key {
            lemma_push_contains(inner, last);
            assert forall|e: (Seq<char>, V)| #[trigger] inner.contains(e) implies text_order(e.0, last.0)
                == Side::Before by {
                assert(shorter.contains(e));
                let k = shorter.index_of(e);
                assert(shorter[k] == e);
                assert(s[k] == e && s[s.len() - 1] == last);
            }
            lemma_push_ascends(inner, last);
        }
    }
}

/// Putting twice under one key is putting the second value.
pub proof fn lemma_put_twice<V>(s: Seq<(Seq<char>, V)>, key: Seq<char>, v: V, w: V)
    requires
        keys_ascend(s),
    ensures
        put_entry(put_entry(s, key, v), key, w) == put_entry(s, key, w),
    decreases s.len(),
{
    lemma_text_order_same(key, key);
    if s.len() == 0 {
        assert(s.push((key, v)).drop_last() =~= s);
    } else {
        let shorter = s.drop_last();
        assert(keys_ascend(shorter));
        lemma_text_order_same(s.last().0, key);
        match text_order(s.last().0, key) {
            Side::Before => {
                assert(s.push((key, v)).drop_last() =~= s);
            },
            Side::Same => {
                assert(shorter.push((key, v)).drop_last() =~= shorter);
            },
            Side::After => {
                lemma_put_twice(shorter, key, v, w);
                assert(put_entry(shorter, key, v).push(s.last()).drop_last() =~= put_entry(
                    shorter,
                    key,
                    v,
                ));
            },
        }
    }
}

/// Dropping a key undoes putting a value under one that held nothing.
pub proof fn lemma_drop_undoes_put<V>(s: Seq<(Seq<char>, V)>, key: Seq<char>, v: V)
    requires
        keys_ascend(s),
        entry_at(s, key) is None,
    ensures
        drop_entry(put_entry(s, key, v), key) == s,
    decreases s.len(),
{
    lemma_drop_absent(s, key);
    if s.len() == 0 {
        assert(s.push((key, v)).drop_last() =~= s);
    } else {
        let shorter = s.drop_last();
        lemma_text_order_same(s.last().0, key);
        assert(s[s.len() - 1] == s.last());
        assert(!has_key(shorter, key)) by {
            if has_key(shorter, key) {
                let i = choose|i: int| 0 <= i < shorter.len() && (#[trigger] shorter[i]).0 == key;
                assert(s[i].0 == key);
            }
        }
        match text_order(s.last().0, key) {
            Side::Before => {
                assert(s.push((key, v)).drop_last() =~= s);
            },
            Side::Same => {
                assert(has_key(s, key));
            },
            Side::After => {
                lemma_drop_undoes_put(shorter, key, v);
                let inner = put_entry(shorter, key, v);
                assert(inner.push(s.last()).drop_last() =~= inner);
                assert(shorter.push(s.last()) =~= s);
            },
        }
    }
}

/// Dropping a key that holds nothing changes nothing.
pub proof fn lemma_drop_absent<V>(s: Seq<(Seq<char>, V)>, key: Seq<char>)
    requires
        entry_at(s, key) is None,
    ensures
        drop_entry(s, key) == s,
    decreases s.len(),
{
    if s.len() > 0 {
        let shorter = s.drop_last();
        assert(s[s.len() - 1] == s.last());
        if has_key(shorter, key) {
            let i = choose|i: int| 0 <= i < shorter.len() && (#[trigger] shorter[i]).0 == key;
            assert(s[i].0 == key);
        }
        lemma_drop_absent(shorter, key);
        assert(shorter.push(s.last()) =~= s);
    }
}

// ---------------------------------------------------------------------------
// The table
// ---------------------------------------------------------------------------

/// A value under its key.
pub struct Entry<T> {
    pub key: String,
    pub value: T,
}

impl<T: DeepView> DeepView for Entry<T> {
    type V = (Seq<char>, T::V);

    open spec fn deep_view(&self) -> (Seq<char>, T::V) {
        (self.key@, self.value.deep_view())
    }
}

/// Values under texts as keys.
pub struct Table<T: DeepView> {
    rows: Vec<Entry<T>>,
}

impl<T: DeepView> Table<T> {
    #[verifier::type_invariant]
    spec fn ordered(self) -> bool {
        keys_ascend(self.rows.deep_view())
    }

    /// The keys and their values, in the order of the keys.
    pub closed spec fn entries(self) -> Seq<(Seq<char>, T::V)> {
        self.rows.deep_view()
    }

    /// A table that holds nothing.
    pub fn new() -> (r: Table<T>)
        ensures
            r.entries() == Seq::<(Seq<char>, T::V)>::empty(),
    {
        let rows: Vec<Entry<T>> = Vec::new();
        assert(rows.deep_view() =~= Seq::<(Seq<char>, T::V)>::empty());
        Table { rows }
    }

    /// How many keys hold a value.
    pub fn len(&self) -> (r: usize)
        ensures
            r == self.entries().len(),
            keys_ascend(self.entries()),
    {
        proof {
            use_type_invariant(self);
        }
        self.rows.len()
    }

    /// The value at position `i` in the order of the keys.
    pub fn value_at(&self, i: usize) -> (r: &T)
        requires
            i < self.entries().len(),
        ensures
            r.deep_view() == self.entries()[i as int].1,
            r.deep_view() == values_of(self.entries())[i as int],
    {
        &self.rows[i].value
    }

    /// The key at position `i`.
    pub fn key_at(&self, i: usize) -> (r: &str)
        requires
            i < self.entries().len(),
        ensures
            r@ == self.entries()[i as int].0,
    {
        self.rows[i].key.as_str()
    }

    /// Where `key` stands or would stand, and whether it is there.
    fn position(&self, key: &str) -> (r: (usize, bool))
        ensures
            r.0 <= self.rows.len(),
            r.1 ==> r.0 < self.rows.len() && self.entries()[r.0 as int].0 == key@,
            !r.1 ==> !has_key(self.entries(), key@),
            !r.1 && r.0 > 0 ==> text_order(self.entries()[r.0 - 1].0, key@) == Side::Before,
            forall|j: int|
                (r.0 < j < self.rows.len() || (!r.1 && r.0 <= j < self.rows.len())) ==> text_order(
                    (#[trigger] self.entries()[j]).0,
                    key@,
                ) == Side::After,
    {
        proof {
            use_type_invariant(self);
        }
        let ghost s = self.entries();
        let mut at: usize = self.rows.len();
        while at > 0
            invariant
                s == self.entries(),
                keys_ascend(s),
                at <= self.rows.len(),
                forall|j: int|
                    at <= j < self.rows.len() ==> text_order((#[trigger] s[j]).0, key@)
                        == Side::After,
            decreases at,
        {
            proof {
                lemma_text_order_same(s[at - 1].0, key@);
            }
            assert(s[at - 1].0 == self.rows@[at - 1].key@);
            match order_text(&self.rows[at - 1].key, key) {
                Side::After => {
                    at -= 1;
                },
                Side::Same => {
                    return (at - 1, true);
                },
                Side::Before => {
                    assert forall|j: int| 0 <= j < s.len() implies (#[trigger] s[j]).0 != key@ by {
                        lemma_text_order_same(s[j].0, key@);
                        if j < at - 1 {
                            lemma_before_chain(s[j].0, s[at - 1].0, key@);
                        }
                    }
                    return (at, false);
                },
            }
        }
        assert forall|j: int| 0 <= j < s.len() implies (#[trigger] s[j]).0 != key@ by {
            lemma_text_order_same(s[j].0, key@);
        }
        (at, false)
    }

    /// What stands under `key`.
    pub fn get(&self, key: &str) -> (r: Option<&T>)
        ensures
            r is Some <==> entry_at(self.entries(), key@) is Some,
            r matches Some(v) ==> entry_at(self.entries(), key@) == Some(v.deep_view()),
    {
        proof {
            use_type_invariant(self);
        }
        let (at, found) = self.position(key);
        if found {
            proof {
                lemma_entry_unique(self.entries(), at as int);
            }
            Some(&self.rows[at].value)
        } else {
            None
        }
    }

    /// Puts a value under `key`, in place of what stood there.
    pub fn put(&mut self, key: &str, value: T)
        ensures
            final(self).entries() == put_entry(old(self).entries(), key@, value.deep_view()),
            keys_ascend(old(self).entries()),
            keys_ascend(final(self).entries()),
    {
        proof {
            use_type_invariant(&*self);
        }
        let (at, found) = self.position(key);
        let mut rows: Vec<Entry<T>> = Vec::new();
        std::mem::swap(&mut rows, &mut self.rows);
        let ghost s = rows.deep_view();
        let ghost v = value.deep_view();
        proof {
            lemma_put(s, key@, v);
            lemma_put_at(s, key@, v, at as int, found);
        }
        if found {
            rows.set(at, Entry { key: key.to_owned(), value });
            assert(rows.deep_view() =~= s.update(at as int, (key@, v)));
        } else {
            rows.insert(at, Entry { key: key.to_owned(), value });
            assert(rows.deep_view() =~= s.insert(at as int, (key@, v)));
        }
        self.rows = rows;
    }

    /// Takes away what stands under `key`.
    pub fn remove(&mut self, key: &str) -> (r: Option<T>)
        ensures
            final(self).entries() == drop_entry(old(self).entries(), key@),
            r.deep_view() == entry_at(old(self).entries(), key@),
            keys_ascend(old(self).entries()),
            keys_ascend(final(self).entries()),
    {
        proof {
            use_type_invariant(&*self);
        }
        let (at, found) = self.position(key);
        let mut rows: Vec<Entry<T>> = Vec::new();
        std::mem::swap(&mut rows, &mut self.rows);
        let ghost s = rows.deep_view();
        proof {
            lemma_drop(s, key@);
        }
        if found {
            proof {
                lemma_entry_unique(s, at as int);
                lemma_drop_at(s, at as int);
            }
            let taken = rows.remove(at);
            assert(rows.deep_view() =~= s.remove(at as int));
            self.rows = rows;
            Some(taken.value)
        } else {
            proof {
                lemma_drop_absent(s, key@);
            }
            self.rows = rows;
            None
        }
    }
}

proof fn lemma_put_at<V>(s: Seq<(Seq<char>, V)>, key: Seq<char>, v: V, at: int, found: bool)
    requires
        0 <= at <= s.len(),
        found ==> at < s.len() && s[at].0 == key,
        !found && at > 0 ==> text_order(s[at - 1].0, key) == Side::Before,
        forall|j: int|
            (at < j < s.len() || (!found && at <= j < s.len())) ==> text_order(
                (#[trigger] s[j]).0,
                key,
            ) == Side::After,
    ensures
        put_entry(s, key, v) == if found {
            s.update(at, (key, v))
        } else {
            s.insert(at, (key, v))
        },
    decreases s.len(),
{
    lemma_text_order_same(key, key);
    if s.len() == 0 {
        assert(s.push((key, v)) =~= s.insert(0, (key, v)));
    } else if found && at == s.len() - 1 {
        assert(s.drop_last().push((key, v)) =~= s.update(at, (key, v)));
    } else if !found && at == s.len() {
        assert(s.push((key, v)) =~= s.insert(at, (key, v)));
    } else {
        let shorter = s.drop_last();
        assert(text_order(s[s.len() - 1].0, key) == Side::After);
        lemma_put_at(shorter, key, v, at, found);
        if found {
            assert(shorter.update(at, (key, v)).push(s.last()) =~= s.update(at, (key, v)));
        } else {
            assert(shorter.insert(at, (key, v)).push(s.last()) =~= s.insert(at, (key, v)));
        }
    }
}

proof fn lemma_drop_at<V>(s: Seq<(Seq<char>, V)>, at: int)
    requires
        keys_ascend(s),
        0 <= at < s.len(),
    ensures
        drop_entry(s, s[at].0) == s.remove(at),
    decreases s.len(),
{
    let key = s[at].0;
    let shorter = s.drop_last();
    lemma_text_order_same(key, key);
    if at == s.len() - 1 {
        if has_key(shorter, key) {
            let i = choose|i: int| 0 <= i < shorter.len() && (#[trigger] shorter[i]).0 == key;
            assert(text_order(s[i].0, s[at].0) == Side::Before);
        }
        lemma_drop_absent(shorter, key);
        assert(shorter =~= s.remove(at));
    } else {
        assert(text_order(s[at].0, s[s.len() - 1].0) == Side::Before);
        assert(keys_ascend(shorter));
        lemma_drop_at(shorter, at);
        assert(shorter.remove(at).push(s.last()) =~= s.remove(at));
    }
}

// ---------------------------------------------------------------------------
// Sets of texts
// ---------------------------------------------------------------------------

spec fn listed_keys(s: Seq<Seq<char>>) -> Seq<(Seq<char>, ())>
    decreases s.len(),
{
    if s.len() == 0 {
        Seq::empty()
    } else {
        put_entry(listed_keys(s.drop_last()), s.last(), ())
    }
}

proof fn lemma_listed_keys(s: Seq<Seq<char>>)
    ensures
        keys_ascend(listed_keys(s)),
        forall|t: Seq<char>| #[trigger] has_key(listed_keys(s), t) <==> s.contains(t),
    decreases s.len(),
{
    if s.len() > 0 {
        let less = s.drop_last();
        let before = listed_keys(less);
        lemma_listed_keys(less);
        lemma_put(before, s.last(), ());
        assert(s =~= less.push(s.last()));
        lemma_push_contains(less, s.last());
        assert forall|t: Seq<char>| #[trigger] has_key(listed_keys(s), t) <==> s.contains(t) by {
            assert(has_key(before, t) <==> less.contains(t));
            assert(less.push(s.last()).contains(t) <==> (less.contains(t) || t == s.last()));
            assert(entry_at(listed_keys(s), t) is Some <==> has_key(listed_keys(s), t));
            assert(entry_at(before, t) is Some <==> has_key(before, t));
        }
    }
}

/// The set of some texts has those texts, in ascending order.
pub proof fn lemma_text_set(s: Seq<Seq<char>>)
    ensures
        sorted_set_of(text_set(s), s),
{
    let entries = listed_keys(s);
    lemma_listed_keys(s);
    let r = entries.map_values(|e: (Seq<char>, ())| e.0);
    assert(strictly_ascending(r)) by {
        assert forall|i: int, j: int| 0 <= i < j < r.len() implies text_order(
            #[trigger] r[i],
            #[trigger] r[j],
        ) == Side::Before by {
            assert(text_order(entries[i].0, entries[j].0) == Side::Before);
        }
    }
    assert forall|t: Seq<char>| r.contains(t) <==> s.contains(t) by {
        assert(has_key(entries, t) <==> s.contains(t));
        if r.contains(t) {
            let i = r.index_of(t);
            assert(entries[i].0 == t);
        }
        if has_key(entries, t) {
            let i = choose|i: int| 0 <= i < entries.len() && (#[trigger] entries[i]).0 == t;
            assert(r[i] == t);
        }
    }
    assert(sorted_set_of(r, s));
}

/// The set of no texts is empty.
pub proof fn lemma_text_set_empty()
    ensures
        text_set(Seq::<Seq<char>>::empty()) == Seq::<Seq<char>>::empty(),
{
    let none = Seq::<Seq<char>>::empty();
    lemma_text_set(none);
    let r = text_set(none);
    if r.len() > 0 {
        assert(r.contains(r[0]));
        assert(none.contains(r[0]));
    }
    assert(r =~= none);
}

} // verus!
