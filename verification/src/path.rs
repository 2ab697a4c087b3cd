//! File paths as texts.

use vstd::prelude::*;
use vstd::string::*;

use crate::list::{any_in, best_of, best_per_key, keep_list};
use crate::model::copy_list;
use crate::order::{lemma_filter_all, lemma_filter_push, sort_list, stable_sort};
use crate::split::{
    join, join_with, lemma_join_split, lemma_split_concat, lemma_split_join, lemma_split_plain,
    split, split_on,
};
use crate::text::{
    joined, lemma_texts_order_flip, lemma_texts_order_same, lemma_texts_order_transitive,
    order_texts, same_text, texts_order, Side,
};

verus! {

/// `p` begins at the root.
pub open spec fn is_absolute(p: Seq<char>) -> bool {
    p.len() > 0 && p[0] == '/'
}

/// The path `b` as seen from the directory `a`.
pub open spec fn below(a: Seq<char>, b: Seq<char>) -> Seq<char> {
    if is_absolute(b) {
        b
    } else if a.len() == 0 || a.last() == '/' {
        a + b
    } else {
        a + seq!['/'] + b
    }
}

/// Whether `p` begins at the root.
fn absolute(p: &str) -> (r: bool)
    ensures
        r == is_absolute(p@),
{
    p.unicode_len() > 0 && p.get_char(0) == '/'
}

/// The path `b` as seen from the directory `a`.
pub fn path_join(a: &str, b: &str) -> (r: String)
    ensures
        r@ == below(a@, b@),
{
    if absolute(b) {
        return b.to_owned();
    }
    let len = a.unicode_len();
    if len == 0 || a.get_char(len - 1) == '/' {
        return joined(a, b);
    }
    let mut out = a.to_owned();
    out.push('/');
    out.append(b);
    assert(out@ =~= below(a@, b@));
    out
}

/// A piece between slashes that counts.
pub open spec fn is_step(piece: Seq<char>) -> bool {
    piece.len() > 0 && piece != "."@
}

/// What a path begins with besides its steps: the root, or the directory that
/// it starts from where it names that one.
pub open spec fn origin_of(p: Seq<char>) -> Seq<Seq<char>> {
    if is_absolute(p) {
        seq!["/"@]
    } else if split_on(p, '/')[0] == "."@ {
        seq!["."@]
    } else {
        Seq::empty()
    }
}

/// The components of a path. Repeated and trailing slashes and inner dots do
/// not count.
pub open spec fn components_of(p: Seq<char>) -> Seq<Seq<char>> {
    origin_of(p) + split_on(p, '/').filter(|piece: Seq<char>| is_step(piece))
}

fn step(piece: &String) -> (r: bool)
    ensures
        r == is_step(piece@),
{
    !piece.as_str().is_empty() && !same_text(piece, ".")
}

/// The components of a path.
pub fn components(p: &str) -> (r: Vec<String>)
    ensures
        r.deep_view() == components_of(p@),
{
    let pieces = split(p, '/');
    proof {
        lemma_split_join(p@, '/');
    }
    let mut out: Vec<String> = Vec::new();
    assert(out.deep_view() =~= Seq::<Seq<char>>::empty());
    assert(pieces.deep_view()[0] == pieces@[0]@);
    if absolute(p) {
        out.push("/".to_owned());
        assert(out.deep_view() =~= seq!["/"@]);
    } else if same_text(&pieces[0], ".") {
        out.push(".".to_owned());
        assert(out.deep_view() =~= seq!["."@]);
    }
    let mut steps = keep_list(&pieces, step, Ghost(|piece: Seq<char>| is_step(piece)));
    let ghost first = out.deep_view();
    let ghost rest = steps.deep_view();
    out.append(&mut steps);
    assert(out.deep_view() =~= first + rest);
    out
}

/// The path with the given components.
pub open spec fn path_of(components: Seq<Seq<char>>) -> Seq<char> {
    if components.len() > 0 && components[0] == "/"@ {
        "/"@ + join_with(components.drop_first(), "/"@)
    } else {
        join_with(components, "/"@)
    }
}

/// The directory that holds `p`; none for the root and the empty path.
pub open spec fn parent_of(p: Seq<char>) -> Option<Seq<char>> {
    let all = components_of(p);
    if all.len() == 0 || all.last() == "/"@ {
        None
    } else {
        Some(path_of(all.drop_last()))
    }
}

/// The directory that holds `p`.
pub fn parent(p: &str) -> (r: Option<String>)
    ensures
        r.deep_view() == parent_of(p@),
{
    let mut all = components(p);
    let ghost whole = all.deep_view();
    if all.len() == 0 {
        return None;
    }
    assert(whole.last() == all@.last()@);
    let last = all.pop().unwrap();
    if same_text(&last, "/") {
        return None;
    }
    assert(all.deep_view() =~= whole.drop_last());
    if all.len() > 0 {
        assert(whole.drop_last()[0] == all@[0]@);
        if same_text(&all[0], "/") {
            let steps = tail(&all);
            return Some(joined("/", &join(&steps, "/")));
        }
    }
    Some(join(&all, "/"))
}

/// All but the first.
fn tail(texts: &Vec<String>) -> (r: Vec<String>)
    requires
        texts.len() > 0,
    ensures
        r.deep_view() == texts.deep_view().drop_first(),
{
    let ghost want = texts.deep_view().drop_first();
    let mut out: Vec<String> = Vec::new();
    let mut i: usize = 1;
    assert(out.deep_view() =~= want.take(0));
    while i < texts.len()
        invariant
            want == texts.deep_view().drop_first(),
            1 <= i <= texts.len(),
            out.deep_view() == want.take(i - 1),
        decreases texts.len() - i,
    {
        let ghost before = out.deep_view();
        out.push(texts[i].clone());
        assert(out.deep_view() =~= before.push(texts@[i as int]@));
        assert(want.take(i - 1).push(want[i - 1]) =~= want.take(i as int));
        i += 1;
    }
    assert(want.take(i - 1) =~= want);
    out
}

/// The last component of `p`, where it is a name.
pub open spec fn file_name_of(p: Seq<char>) -> Option<Seq<char>> {
    let all = components_of(p);
    if all.len() == 0 || all.last() == "/"@ || all.last() == "."@ || all.last() == ".."@ {
        None
    } else {
        Some(all.last())
    }
}

/// The last component of `p`, where it is a name.
pub fn file_name(p: &str) -> (r: Option<String>)
    ensures
        r.deep_view() == file_name_of(p@),
{
    let all = components(p);
    if all.len() == 0 {
        return None;
    }
    let last = &all[all.len() - 1];
    assert(all.deep_view().last() == last@);
    if same_text(last, "/") || same_text(last, ".") || same_text(last, "..") {
        return None;
    }
    Some(last.clone())
}

/// A path that leads step by step further down: no part of it is empty, `.` or
/// `..`.
pub open spec fn plain_path(path: Seq<char>) -> bool {
    forall|i: int|
        0 <= i < split_on(path, '/').len() ==> {
            let part = #[trigger] split_on(path, '/')[i];
            part.len() > 0 && part != ".."@ && part != "."@
        }
}

fn odd_part(part: &String) -> (r: bool)
    ensures
        r == (part@.len() == 0 || part@ == ".."@ || part@ == "."@),
{
    part.as_str().is_empty() || same_text(part, "..") || same_text(part, ".")
}

/// Whether `path` leads step by step further down.
pub fn is_plain_path(path: &str) -> (r: bool)
    ensures
        r == plain_path(path@),
{
    let parts = split(path, '/');
    let odd = any_in(
        &parts,
        odd_part,
        Ghost(|p: Seq<char>| p.len() == 0 || p == ".."@ || p == "."@),
    );
    proof {
        let all = split_on(path@, '/');
        if plain_path(path@) {
            assert forall|i: int| 0 <= i < all.len() implies !((#[trigger] all[i]).len() == 0
                || all[i] == ".."@ || all[i] == "."@) by {}
        }
    }
    !odd
}

// ---------------------------------------------------------------------------
// The order of paths
// ---------------------------------------------------------------------------

/// A component as it is ordered: the root, then the present and the upper
/// directory, then the names.
pub open spec fn component_key(c: Seq<char>) -> Seq<char> {
    if c == "/"@ {
        "0"@
    } else if c == "."@ {
        "1"@
    } else if c == ".."@ {
        "2"@
    } else {
        "3"@ + c
    }
}

/// What paths are ordered by.
pub open spec fn path_key(p: Seq<char>) -> Seq<Seq<char>> {
    components_of(p).map_values(|c: Seq<char>| component_key(c))
}

fn key_of(c: &String) -> (r: String)
    ensures
        r@ == component_key(c@),
{
    if same_text(c, "/") {
        "0".to_owned()
    } else if same_text(c, ".") {
        "1".to_owned()
    } else if same_text(c, "..") {
        "2".to_owned()
    } else {
        joined("3", c)
    }
}

/// How the path `a` stands to the path `b`.
pub open spec fn path_order(a: Seq<char>, b: Seq<char>) -> Side {
    texts_order(path_key(a), path_key(b))
}

/// How the path `a` stands to the path `b`.
pub fn order_paths(a: &str, b: &str) -> (r: Side)
    ensures
        r == path_order(a@, b@),
{
    let left = crate::list::map_list(
        &components(a),
        key_of,
        Ghost(|c: Seq<char>| component_key(c)),
    );
    let right = crate::list::map_list(
        &components(b),
        key_of,
        Ghost(|c: Seq<char>| component_key(c)),
    );
    let x = borrowed(&left);
    let y = borrowed(&right);
    order_texts(&x, &y)
}

/// The same texts, borrowed.
fn borrowed<'a>(texts: &'a Vec<String>) -> (r: Vec<&'a str>)
    ensures
        r.deep_view() == texts.deep_view(),
{
    let ghost want = texts.deep_view();
    let mut out: Vec<&'a str> = Vec::new();
    let mut i: usize = 0;
    assert(out.deep_view() =~= want.take(0));
    while i < texts.len()
        invariant
            want == texts.deep_view(),
            i <= texts.len(),
            out.deep_view() == want.take(i as int),
        decreases texts.len() - i,
    {
        let ghost before = out.deep_view();
        out.push(texts[i].as_str());
        assert(out.deep_view() =~= before.push(texts@[i as int]@));
        assert(want.take(i as int).push(want[i as int]) =~= want.take(i + 1));
        i += 1;
    }
    assert(want.take(i as int) =~= want);
    out
}

pub open spec fn path_leq(a: Seq<char>, b: Seq<char>) -> bool {
    path_order(a, b) != Side::After
}

fn path_le(a: &String, b: &String) -> (r: bool)
    ensures
        r == path_leq(a@, b@),
{
    order_paths(a, b) != Side::After
}

/// The paths in order.
pub open spec fn sorted_paths_of(paths: Seq<Seq<char>>) -> Seq<Seq<char>> {
    stable_sort(paths, |a: Seq<char>, b: Seq<char>| path_leq(a, b))
}

/// The paths in order.
pub fn sorted_paths(paths: &Vec<String>) -> (r: Vec<String>)
    ensures
        r.deep_view() == sorted_paths_of(paths.deep_view()),
{
    sort_list(copy_list(paths), path_le, Ghost(|a: Seq<char>, b: Seq<char>| path_leq(a, b)))
}

/// The paths in order, each once.
pub open spec fn path_set_of(paths: Seq<Seq<char>>) -> Seq<Seq<char>> {
    sorted_paths_of(
        best_per_key(
            paths,
            |p: Seq<char>| components_of(p),
            |a: Seq<char>, b: Seq<char>| false,
        ),
    )
}

fn same_path(a: &String, b: &String) -> (r: bool)
    ensures
        r == (components_of(a@) == components_of(b@)),
{
    let left = components(a);
    let right = components(b);
    let x = borrowed(&left);
    let y = borrowed(&right);
    proof {
        lemma_texts_order_same(x.deep_view(), y.deep_view());
    }
    order_texts(&x, &y) == Side::Same
}

fn never(a: &String, b: &String) -> (r: bool)
    ensures
        !r,
{
    false
}

/// The paths in order, each once.
pub fn path_set(paths: &Vec<String>) -> (r: Vec<String>)
    ensures
        r.deep_view() == path_set_of(paths.deep_view()),
{
    let once = best_of(
        paths,
        same_path,
        never,
        Ghost(|p: Seq<char>| components_of(p)),
        Ghost(|a: Seq<char>, b: Seq<char>| false),
    );
    sorted_paths(&once)
}

/// The paths of a set are the given ones, up to spelling, each once.
pub proof fn lemma_path_set(paths: Seq<Seq<char>>)
    ensures
        forall|p: Seq<char>| #[trigger]
            path_set_of(paths).contains(p) ==> paths.contains(p),
        forall|p: Seq<char>| #[trigger]
            paths.contains(p) ==> exists|q: Seq<char>| #[trigger]
                path_set_of(paths).contains(q) && components_of(q) == components_of(p),
        forall|i: int, j: int|
            0 <= i < j < path_set_of(paths).len() ==> path_order(
                #[trigger] path_set_of(paths)[i],
                #[trigger] path_set_of(paths)[j],
            ) != Side::After,
{
    let key = |p: Seq<char>| components_of(p);
    let over = |a: Seq<char>, b: Seq<char>| false;
    let leq = |a: Seq<char>, b: Seq<char>| path_leq(a, b);
    let once = best_per_key(paths, key, over);
    crate::list::lemma_best_per_key(paths, key, over);
    crate::order::lemma_sort_permutes(once, leq);
    lemma_path_order();
    crate::order::lemma_sort_ascends(once, leq);
    let set = path_set_of(paths);
    assert forall|p: Seq<char>| #[trigger] set.contains(p) implies paths.contains(p) by {
        assert(once.contains(p));
        let i = once.index_of(p);
        assert(paths.contains(once[i]));
    }
    assert forall|p: Seq<char>| #[trigger] paths.contains(p) implies exists|q: Seq<char>| #[trigger]
        set.contains(q) && components_of(q) == components_of(p) by {
        let i = choose|i: int|
            0 <= i < once.len() && key(#[trigger] once[i]) == key(p) && !over(p, once[i]);
        assert(once.contains(once[i]));
        assert(set.contains(once[i]));
    }
    assert forall|i: int, j: int| 0 <= i < j < set.len() implies path_order(
        #[trigger] set[i],
        #[trigger] set[j],
    ) != Side::After by {
        assert(leq(set[i], set[j]));
    }
}

/// Paths stand in one order.
pub proof fn lemma_path_order()
    ensures
        crate::order::total_preorder(|a: Seq<char>, b: Seq<char>| path_leq(a, b)),
{
    let leq = |a: Seq<char>, b: Seq<char>| path_leq(a, b);
    assert forall|a: Seq<char>, b: Seq<char>| #[trigger] leq(a, b) || leq(b, a) by {
        lemma_texts_order_flip(path_key(a), path_key(b));
    }
    assert forall|a: Seq<char>, b: Seq<char>, c: Seq<char>| #[trigger] leq(a, b) && #[trigger] leq(
        b,
        c,
    ) implies leq(a, c) by {
        lemma_texts_order_transitive(path_key(a), path_key(b), path_key(c));
    }
}

// ---------------------------------------------------------------------------
// Laws
// ---------------------------------------------------------------------------

/// The steps of a path.
pub open spec fn steps_of(p: Seq<char>) -> Seq<Seq<char>> {
    split_on(p, '/').filter(|piece: Seq<char>| is_step(piece))
}

/// The components of a path below a directory are those of the directory,
/// then the steps of the path.
pub proof fn lemma_below_components(a: Seq<char>, b: Seq<char>)
    requires
        !is_absolute(b),
    ensures
        components_of(below(a, b)) == if a.len() == 0 {
            components_of(b)
        } else {
            components_of(a) + steps_of(b)
        },
{
    let step = |piece: Seq<char>| is_step(piece);
    let sep = seq!['/'];
    if a.len() == 0 {
        assert(below(a, b) =~= b);
    } else if a.last() == '/' {
        let front = a.drop_last();
        let none = Seq::<char>::empty();
        assert(a =~= front + sep + none);
        assert(below(a, b) =~= front + sep + b);
        lemma_split_concat(front, b, '/');
        lemma_split_concat(front, none, '/');
        lemma_split_join(front, '/');
        lemma_split_plain(none, '/');
        Seq::filter_distributes_over_add(split_on(front, '/'), split_on(b, '/'), step);
        Seq::filter_distributes_over_add(split_on(front, '/'), split_on(none, '/'), step);
        assert(split_on(none, '/') =~= Seq::<Seq<char>>::empty().push(none));
        lemma_filter_push(Seq::<Seq<char>>::empty(), none, step);
        assert(Seq::<Seq<char>>::empty().filter(step) =~= Seq::<Seq<char>>::empty()) by {
            reveal(Seq::filter);
        }
        assert(split_on(a, '/')[0] == split_on(front, '/')[0]);
        assert(split_on(below(a, b), '/')[0] == split_on(front, '/')[0]);
        assert(below(a, b)[0] == a[0]);
        assert(components_of(below(a, b)) =~= components_of(a) + steps_of(b));
    } else {
        assert(below(a, b) =~= a + sep + b);
        lemma_split_concat(a, b, '/');
        lemma_split_join(a, '/');
        Seq::filter_distributes_over_add(split_on(a, '/'), split_on(b, '/'), step);
        assert(below(a, b)[0] == a[0]);
        assert(components_of(below(a, b)) =~= components_of(a) + steps_of(b));
    }
}

/// A plain path below a directory goes on from there step by step, and never
/// up.
pub proof fn lemma_plain_below(dir: Seq<char>, path: Seq<char>)
    requires
        plain_path(path),
        dir.len() > 0,
    ensures
        components_of(below(dir, path)) == components_of(dir) + split_on(path, '/'),
        split_on(path, '/').len() > 0,
        !split_on(path, '/').contains(".."@),
{
    let parts = split_on(path, '/');
    let step = |piece: Seq<char>| is_step(piece);
    lemma_split_join(path, '/');
    assert(!is_absolute(path)) by {
        if is_absolute(path) {
            let none = Seq::<char>::empty();
            let rest = path.skip(1);
            assert(path =~= none + seq!['/'] + rest);
            lemma_split_concat(none, rest, '/');
            lemma_split_plain(none, '/');
            assert(parts[0].len() == 0);
        }
    }
    lemma_below_components(dir, path);
    assert forall|i: int| 0 <= i < parts.len() implies step(#[trigger] parts[i]) by {}
    lemma_filter_all(parts, step);
    if parts.contains(".."@) {
        let i = parts.index_of(".."@);
        assert(parts[i] == ".."@);
    }
}

/// The directory of a file in the directory `dir` is `dir`, up to spelling.
pub proof fn lemma_parent(dir: Seq<char>, file: Seq<char>)
    requires
        dir.len() > 0,
        !is_absolute(dir),
        split_on(dir, '/')[0].len() > 0,
        is_step(file),
        !file.contains('/'),
    ensures
        ({
            let found = parent_of(dir + seq!['/'] + file);
            &&& found is Some
            &&& !is_absolute(found->0)
            &&& components_of(found->0) == components_of(dir)
            &&& steps_of(found->0) == steps_of(dir)
        }),
{
    reveal_strlit("/");
    reveal_strlit(".");
    let step = |piece: Seq<char>| is_step(piece);
    let whole = dir + seq!['/'] + file;
    let pieces = split_on(dir, '/');
    let steps = steps_of(dir);
    let origin = origin_of(dir);
    lemma_split_concat(dir, file, '/');
    lemma_split_plain(file, '/');
    lemma_split_join(dir, '/');
    Seq::filter_distributes_over_add(pieces, seq![file], step);
    assert(seq![file] =~= Seq::<Seq<char>>::empty().push(file));
    lemma_filter_push(Seq::<Seq<char>>::empty(), file, step);
    assert(Seq::<Seq<char>>::empty().filter(step) =~= Seq::<Seq<char>>::empty()) by {
        reveal(Seq::filter);
    }
    assert(whole[0] == dir[0]);
    assert(split_on(whole, '/')[0] == pieces[0]);
    let all = components_of(whole);
    let comps = components_of(dir);
    assert(all =~= comps.push(file));
    assert(all.last() == file);
    assert(file != "/"@) by {
        if file == "/"@ {
            assert(file[0] == '/');
            assert(file.contains('/'));
        }
    }
    assert(all.drop_last() =~= comps);
    assert forall|k: int| 0 <= k < comps.len() implies !(#[trigger] comps[k]).contains('/') by {
        if k < origin.len() {
            assert(comps[k] == "."@);
        } else {
            let m = k - origin.len();
            assert(comps[k] == steps[m]);
            assert(steps.contains(steps[m]));
            pieces.lemma_filter_contains_rev(step, steps[m]);
            let n = pieces.index_of(steps[m]);
            assert(!pieces[n].contains('/'));
        }
    }
    assert(comps.len() > 0) by {
        if pieces[0] != "."@ {
            assert(step(pieces[0]));
            pieces.lemma_filter_contains(step, 0);
            assert(steps.contains(pieces[0]));
        }
    }
    assert(comps[0] != "/"@) by {
        if comps[0] == "/"@ {
            assert(comps[0][0] == '/');
            assert(comps[0].contains('/'));
        }
    }
    assert("/"@ =~= seq!['/']);
    lemma_join_split(comps, '/');
    let found = path_of(comps);
    assert(split_on(found, '/') == comps);
    // The first component is the first piece of the directory.
    assert(comps[0] == pieces[0]) by {
        if pieces[0] != "."@ {
            assert(step(pieces[0]));
            assert(pieces =~= seq![pieces[0]] + pieces.drop_first());
            Seq::filter_distributes_over_add(seq![pieces[0]], pieces.drop_first(), step);
            assert(seq![pieces[0]] =~= Seq::<Seq<char>>::empty().push(pieces[0]));
            lemma_filter_push(Seq::<Seq<char>>::empty(), pieces[0], step);
        }
    }
    assert(!is_absolute(found)) by {
        if is_absolute(found) {
            lemma_first_piece(found);
        }
    }
    lemma_filter_twice(pieces, step);
    Seq::filter_distributes_over_add(origin, steps, step);
    assert(origin.filter(step) =~= Seq::<Seq<char>>::empty()) by {
        reveal(Seq::filter);
        if origin.len() > 0 {
            assert(origin =~= Seq::<Seq<char>>::empty().push("."@));
            lemma_filter_push(Seq::<Seq<char>>::empty(), "."@, step);
        }
    }
    assert(steps_of(found) =~= steps);
    assert(origin_of(found) =~= origin);
}

/// A path from the root has nothing before its first slash.
proof fn lemma_first_piece(p: Seq<char>)
    requires
        is_absolute(p),
    ensures
        split_on(p, '/')[0].len() == 0,
{
    let none = Seq::<char>::empty();
    let rest = p.drop_first();
    assert(p =~= none + seq!['/'] + rest);
    lemma_split_concat(none, rest, '/');
    lemma_split_plain(none, '/');
}

proof fn lemma_filter_twice(s: Seq<Seq<char>>, keep: spec_fn(Seq<char>) -> bool)
    ensures
        s.filter(keep).filter(keep) == s.filter(keep),
    decreases s.len(),
{
    if s.len() == 0 {
        reveal(Seq::filter);
    } else {
        let less = s.drop_last();
        lemma_filter_twice(less, keep);
        assert(s =~= less.push(s.last()));
        lemma_filter_push(less, s.last(), keep);
        if keep(s.last()) {
            lemma_filter_push(less.filter(keep), s.last(), keep);
        }
    }
}

} // verus!
