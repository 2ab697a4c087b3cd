//! What holds of paths and lists: how paths are put together and told apart, and
//! which of several equals comes first.

use vstd::prelude::*;

use crate::laws_requests::{lemma_end_cut, lemma_start_cut};
use crate::list::{best_per_key, first_where, lemma_best_per_key, lemma_first_where};
use crate::order::{lemma_filter_push, lemma_insert_class, lemma_sort_permutes, stable_sort};
use crate::path::{
    below, component_key, components_of, is_step, origin_of, path_key, path_leq, path_order,
    path_set_of, plain_path,
};
use crate::split::{
    end_unslashed, join_with, lemma_split_concat, lemma_split_join, lemma_split_plain, split_on,
    trim_end_by, trim_start_by, unslashed, white_space,
};
use crate::text::{lemma_text_order_same, text_order, texts_order, Side};

verus! {

// ---------------------------------------------------------------------------
// Paths
// ---------------------------------------------------------------------------

/// A path is put below a directory with one slash between them, and a path from
/// the root stays what it is.
pub proof fn lemma_put_below(dir: Seq<char>, path: Seq<char>)
    ensures
        path.len() > 0 && path[0] == '/' ==> below(dir, path) == path,
        (path.len() == 0 || path[0] != '/') && dir.len() > 0 && dir.last() != '/' ==> below(dir, path)
            == dir + seq!['/'] + path,
        (path.len() == 0 || path[0] != '/') && dir.len() > 0 && dir.last() == '/' ==> below(dir, path)
            == dir + path,
        (path.len() == 0 || path[0] != '/') && dir.len() == 0 ==> below(dir, path) == path,
{
    assert(Seq::<char>::empty() + path =~= path);
    if dir.len() == 0 {
        assert(dir + path =~= path);
    }
}

/// Parts without the separator come back when what they were joined to is taken
/// apart.
pub proof fn lemma_join_split(parts: Seq<Seq<char>>, sep: char)
    requires
        parts.len() > 0,
        forall|i: int| 0 <= i < parts.len() ==> !(#[trigger] parts[i]).contains(sep),
    ensures
        split_on(join_with(parts, seq![sep]), sep) == parts,
    decreases parts.len(),
{
    let last = parts.last();
    assert(parts[parts.len() - 1] == last);
    lemma_split_plain(last, sep);
    if parts.len() == 1 {
        assert(parts =~= seq![last]);
    } else {
        let front = parts.drop_last();
        assert forall|i: int| 0 <= i < front.len() implies !(#[trigger] front[i]).contains(sep) by {
            assert(front[i] == parts[i]);
        }
        lemma_join_split(front, sep);
        lemma_split_concat(join_with(front, seq![sep]), last, sep);
        assert(front + seq![last] =~= parts);
    }
}

/// A path is plain just where none of its parts is empty, a dot or two dots.
pub proof fn lemma_plain_paths(parts: Seq<Seq<char>>)
    requires
        parts.len() > 0,
        forall|i: int| 0 <= i < parts.len() ==> !(#[trigger] parts[i]).contains('/'),
    ensures
        plain_path(join_with(parts, seq!['/'])) <==> forall|i: int|
            0 <= i < parts.len() ==> (#[trigger] parts[i]).len() > 0 && parts[i] != "."@ && parts[i]
                != ".."@,
{
    lemma_join_split(parts, '/');
}

/// Two files of one directory stand in the order of their names, and a directory
/// before what lies in it.
pub proof fn lemma_paths_beside(dir: Seq<char>, a: Seq<char>, b: Seq<char>)
    requires
        dir.len() > 0,
        is_step(a),
        a != ".."@,
        !a.contains('/'),
        is_step(b),
        b != ".."@,
        !b.contains('/'),
    ensures
        path_order(dir + seq!['/'] + a, dir + seq!['/'] + b) == text_order(a, b),
        path_order(dir, dir + seq!['/'] + a) == Side::Before,
{
    lemma_components_below(dir, a);
    lemma_components_below(dir, b);
    let front = path_key(dir);
    let x = component_key(a);
    let y = component_key(b);
    assert(path_key(dir + seq!['/'] + a) =~= front.push(x));
    assert(path_key(dir + seq!['/'] + b) =~= front.push(y));
    lemma_common_front(front, x, y);
    reveal_strlit("/");
    assert("/"@ =~= seq!['/']);
    assert(a != "/"@) by {
        if a == "/"@ {
            assert(a[0] == '/');
        }
    }
    assert(b != "/"@) by {
        if b == "/"@ {
            assert(b[0] == '/');
        }
    }
    assert(x == "3"@ + a && y == "3"@ + b);
    reveal_strlit("3");
    assert(x.drop_first() =~= a && y.drop_first() =~= b);
    assert(x[0] == '3' && y[0] == '3');
}

/// The components of a file are those of its directory and its name.
pub proof fn lemma_components_below(dir: Seq<char>, name: Seq<char>)
    requires
        dir.len() > 0,
        is_step(name),
        !name.contains('/'),
    ensures
        components_of(dir + seq!['/'] + name) == components_of(dir).push(name),
{
    let step = |piece: Seq<char>| is_step(piece);
    let whole = dir + seq!['/'] + name;
    lemma_split_concat(dir, name, '/');
    lemma_split_plain(name, '/');
    lemma_split_join(dir, '/');
    Seq::filter_distributes_over_add(split_on(dir, '/'), seq![name], step);
    assert(seq![name] =~= Seq::<Seq<char>>::empty().push(name));
    lemma_filter_push(Seq::<Seq<char>>::empty(), name, step);
    assert(Seq::<Seq<char>>::empty().filter(step) =~= Seq::<Seq<char>>::empty()) by {
        reveal(Seq::filter);
    }
    assert(whole[0] == dir[0]);
    assert(split_on(whole, '/')[0] == split_on(dir, '/')[0]);
    assert(origin_of(whole) == origin_of(dir));
    assert(components_of(whole) =~= components_of(dir).push(name));
}

proof fn lemma_common_front(front: Seq<Seq<char>>, x: Seq<char>, y: Seq<char>)
    ensures
        texts_order(front.push(x), front.push(y)) == text_order(x, y),
        texts_order(front, front.push(x)) == Side::Before,
    decreases front.len(),
{
    if front.len() == 0 {
        assert(front.push(x).drop_first() =~= Seq::<Seq<char>>::empty());
        assert(front.push(y).drop_first() =~= Seq::<Seq<char>>::empty());
        assert(texts_order(front.push(x).drop_first(), front.push(y).drop_first()) == Side::Same);
    } else {
        let rest = front.drop_first();
        lemma_text_order_same(front[0], front[0]);
        lemma_common_front(rest, x, y);
        assert(front.push(x).drop_first() =~= rest.push(x));
        assert(front.push(y).drop_first() =~= rest.push(y));
    }
}

/// Of paths that are spelled differently but lead to one place, one is kept.
pub proof fn lemma_path_set_once(paths: Seq<Seq<char>>, i: int, j: int)
    requires
        0 <= i < j < path_set_of(paths).len(),
    ensures
        components_of(path_set_of(paths)[i]) != components_of(path_set_of(paths)[j]),
{
    let key = |p: Seq<char>| components_of(p);
    let never = |a: Seq<char>, b: Seq<char>| false;
    let once = best_per_key(paths, key, never);
    let leq = |a: Seq<char>, b: Seq<char>| path_leq(a, b);
    let set = path_set_of(paths);
    lemma_best_per_key(paths, key, never);
    lemma_sort_permutes(once, leq);
    assert(once.no_duplicates()) by {
        assert forall|m: int, n: int| 0 <= m < n < once.len() implies once[m] != once[n] by {
            assert(key(once[m]) != key(once[n]));
        }
    }
    once.lemma_multiset_has_no_duplicates();
    set.lemma_multiset_has_no_duplicates_conv();
    assert(set.contains(set[i]) && set.contains(set[j]));
    assert(once.contains(set[i]) && once.contains(set[j]));
    let m = once.index_of(set[i]);
    let n = once.index_of(set[j]);
    assert(once[m] == set[i] && once[n] == set[j]);
    assert(set[i] != set[j]);
    if m < n {
        assert(key(once[m]) != key(once[n]));
    } else {
        assert(key(once[n]) != key(once[m]));
    }
}

// ---------------------------------------------------------------------------
// Slashes
// ---------------------------------------------------------------------------

/// What ends in slashes loses them all, and nothing else.
pub proof fn lemma_slashes_cut(s: Seq<char>)
    ensures
        ({
            let r = end_unslashed(s);
            &&& r.len() <= s.len() && r == s.take(r.len() as int)
            &&& r.len() > 0 ==> r.last() != '/'
            &&& forall|i: int| r.len() <= i < s.len() ==> #[trigger] s[i] == '/'
        }),
{
    let slash = |c: char| c == '/';
    lemma_end_cut(s, slash);
    let r = end_unslashed(s);
    assert forall|i: int| r.len() <= i < s.len() implies #[trigger] s[i] == '/' by {
        assert(slash(s[i]));
    }
}

/// A root channel loses the slashes on both sides.
pub proof fn lemma_root_unslashed(root: Seq<char>, before: nat, after: nat)
    requires
        root.len() > 0,
        root[0] != '/',
        root.last() != '/',
    ensures
        unslashed(Seq::new(before, |i: int| '/') + root + Seq::new(after, |i: int| '/')) == root,
{
    let slash = |c: char| c == '/';
    let left = Seq::new(before, |i: int| '/');
    let right = Seq::new(after, |i: int| '/');
    let s = left + root + right;
    let cut = trim_start_by(s, slash);
    lemma_start_cut(s, slash);
    assert(!slash(s[before as int]));
    if s.len() - cut.len() < before {
        assert(cut.len() > 0);
        assert(cut[0] == s[s.len() - cut.len()]);
        assert(slash(cut[0]));
    }
    assert(s.len() - cut.len() == before);
    assert(cut =~= root + right);
    let r = trim_end_by(cut, slash);
    lemma_end_cut(cut, slash);
    assert(!slash(cut[root.len() - 1]));
    if r.len() > root.len() {
        assert(r.last() == cut[r.len() - 1]);
        assert(slash(r.last()));
    }
    if r.len() < root.len() {
        assert(slash(cut[root.len() - 1]));
    }
    assert(r =~= root);
}

/// White space is what Unicode calls so.
pub proof fn lemma_white_space(c: char)
    ensures
        white_space(c) <==> ({
            let n = c as int;
            n == 9 || n == 10 || n == 11 || n == 12 || n == 13 || n == 32 || n == 133 || n == 160
                || n == 5760 || (8192 <= n <= 8202) || n == 8232 || n == 8233 || n == 8239 || n
                == 8287 || n == 12288
        }),
{
}

// ---------------------------------------------------------------------------
// Equals
// ---------------------------------------------------------------------------

/// Sorting leaves those in the order they had that may stand either way.
pub proof fn lemma_sort_stable<T>(s: Seq<T>, leq: spec_fn(T, T) -> bool, class: spec_fn(T) -> bool)
    requires
        forall|a: T, b: T| #[trigger] class(a) && #[trigger] class(b) ==> leq(a, b),
    ensures
        stable_sort(s, leq).filter(class) == s.filter(class),
    decreases s.len(),
{
    if s.len() > 0 {
        let front = s.drop_last();
        let sorted = stable_sort(front, leq);
        lemma_sort_stable(front, leq, class);
        lemma_insert_class(sorted, s.last(), leq, class);
        lemma_filter_push(sorted, s.last(), class);
        lemma_filter_push(front, s.last(), class);
        assert(front.push(s.last()) =~= s);
    }
}

/// Of several that are as good, the first is kept: what is kept is better than
/// all before it, and nothing after it is better.
pub proof fn lemma_first_of_best<V>(
    s: Seq<V>,
    key: spec_fn(V) -> Seq<Seq<char>>,
    better: spec_fn(V, V) -> bool,
    k: int,
) -> (i: int)
    requires
        0 <= k < best_per_key(s, key, better).len(),
        forall|a: V, b: V, c: V|
            !(#[trigger] better(a, b)) && !(#[trigger] better(b, c)) ==> !better(a, c),
        forall|a: V, b: V| #[trigger] better(a, b) ==> !better(b, a),
        forall|a: V| !#[trigger] better(a, a),
    ensures
        0 <= i < s.len(),
        best_per_key(s, key, better)[k] == s[i],
        forall|j: int|
            0 <= j < i && key(#[trigger] s[j]) == key(s[i]) ==> better(s[i], s[j]),
        forall|j: int|
            i < j < s.len() && key(#[trigger] s[j]) == key(s[i]) ==> !better(s[j], s[i]),
    decreases s.len(),
{
    let front = s.drop_last();
    let found = best_per_key(front, key, better);
    let x = s.last();
    let same = |v: V| key(v) == key(x);
    lemma_first_where(found, same);
    lemma_best_per_key(front, key, better);
    match first_where(found, same) {
        Some(m) => {
            if m == k && better(x, found[m]) {
                let i = lemma_first_of_best(front, key, better, m);
                assert forall|j: int|
                    0 <= j < s.len() - 1 && key(#[trigger] s[j]) == key(x) implies better(
                    x,
                    s[j],
                ) by {
                    assert(front[j] == s[j]);
                    assert(front[i] == found[m]);
                    if !better(x, s[j]) {
                        if j <= i {
                            assert(j == i || better(front[i], front[j]));
                            assert(!better(front[j], front[i]));
                        } else {
                            assert(!better(front[j], front[i]));
                        }
                        assert(!better(x, front[i]));
                    }
                }
                s.len() - 1
            } else {
                let i = lemma_first_of_best(front, key, better, k);
                assert(front[i] == s[i]);
                assert forall|j: int|
                    0 <= j < i && key(#[trigger] s[j]) == key(s[i]) implies better(s[i], s[j]) by {
                    assert(front[j] == s[j]);
                }
                assert forall|j: int|
                    i < j < s.len() && key(#[trigger] s[j]) == key(s[i]) implies !better(
                    s[j],
                    s[i],
                ) by {
                    if j < front.len() {
                        assert(front[j] == s[j]);
                    } else {
                        assert(key(found[k]) == key(x));
                        assert(same(found[k]));
                        assert(k == m) by {
                            if m < k {
                                assert(key(found[m]) != key(found[k]));
                            }
                        }
                    }
                }
                i
            }
        },
        None => {
            if k < found.len() {
                let i = lemma_first_of_best(front, key, better, k);
                assert(front[i] == s[i]);
                assert forall|j: int|
                    0 <= j < i && key(#[trigger] s[j]) == key(s[i]) implies better(s[i], s[j]) by {
                    assert(front[j] == s[j]);
                }
                assert forall|j: int|
                    i < j < s.len() && key(#[trigger] s[j]) == key(s[i]) implies !better(
                    s[j],
                    s[i],
                ) by {
                    if j < front.len() {
                        assert(front[j] == s[j]);
                    } else {
                        assert(same(found[k]));
                    }
                }
                i
            } else {
                assert forall|j: int|
                    0 <= j < s.len() - 1 && key(#[trigger] s[j]) == key(x) implies better(
                    x,
                    s[j],
                ) by {
                    assert(front[j] == s[j]);
                    assert(front.contains(front[j]));
                    let n = choose|n: int|
                        0 <= n < found.len() && key(#[trigger] found[n]) == key(front[j]) && !better(
                            front[j],
                            found[n],
                        );
                    assert(same(found[n]));
                }
                s.len() - 1
            }
        },
    }
}

} // verus!
