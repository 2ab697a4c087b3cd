//! The dependency graph of the recipes: nodes in columns by the length of
//! their longest dependency chain. A node's colour tells the build state of
//! its package.

use vstd::prelude::*;
use vstd::string::*;
use vstd::utf8::*;

pub use crate::drawing::xml_escape;
pub use crate::levels::longest_path_levels;
pub use crate::sweep::barycenter_passes;
use crate::levels::{lemma_levels, levels_of, within};
use crate::list::{find_last, last_where, lemma_last_where, map_list, opt_index};
use crate::model::DepModel;
use crate::order::{lemma_filter_push, lemma_sort_permutes, sort_list, stable_sort};
use crate::records::{PackageRow, PackageRowModel};
use crate::status::{state_of, version_from, State, Upstream, UpstreamModel};
use crate::sweep::{lemma_listed, lemma_sweeps_rearrange, listed, sweeps};
use crate::table::{entry_at, Table};
use crate::text::{holds_text, int_order, order_text, order_u64, same_text, text_order, Side};

verus! {

/// The version that the repository has of a package.
#[derive(Debug)]
pub struct RepoVersion {
    pub version: Upstream,
    pub release: String,
}

#[verifier::ext_equal]
pub struct RepoVersionModel {
    pub version: UpstreamModel,
    pub release: Seq<char>,
}

impl DeepView for RepoVersion {
    type V = RepoVersionModel;

    open spec fn deep_view(&self) -> RepoVersionModel {
        RepoVersionModel { version: self.version.deep_view(), release: self.release@ }
    }
}

/// A node: `x` and `y` are its upper left corner in pixels, `w` its width in
/// tenths of a pixel.
#[derive(Debug)]
pub struct GraphNode {
    pub name: String,
    pub level: usize,
    pub state: State,
    pub x: u128,
    pub y: u128,
    pub w: u128,
}

#[verifier::ext_equal]
pub struct GraphNodeModel {
    pub name: Seq<char>,
    pub level: int,
    pub state: State,
    pub x: int,
    pub y: int,
    pub w: int,
}

impl DeepView for GraphNode {
    type V = GraphNodeModel;

    open spec fn deep_view(&self) -> GraphNodeModel {
        GraphNodeModel {
            name: self.name@,
            level: self.level as int,
            state: self.state,
            x: self.x as int,
            y: self.y as int,
            w: self.w as int,
        }
    }
}

/// The graph. An edge is the places of a dependency and of its dependent among
/// the nodes; `width` and `height` are in pixels.
#[derive(Debug)]
pub struct Graph {
    pub nodes: Vec<GraphNode>,
    pub edges: Vec<(usize, usize)>,
    pub width: u128,
    pub height: u128,
}

#[verifier::ext_equal]
pub struct GraphModel {
    pub nodes: Seq<GraphNodeModel>,
    pub edges: Seq<(usize, usize)>,
    pub width: int,
    pub height: int,
}

impl DeepView for Graph {
    type V = GraphModel;

    open spec fn deep_view(&self) -> GraphModel {
        GraphModel {
            nodes: self.nodes.deep_view(),
            edges: self.edges@,
            width: self.width as int,
            height: self.height as int,
        }
    }
}

/// The row that the dependency `name` of row `i` means: the one of that name
/// or, where there is none, one that provides it; none where that is row `i`
/// itself.
pub open spec fn dependency_row(rows: Seq<PackageRowModel>, i: int, name: Seq<char>) -> Option<
    int,
> {
    let found = match last_where(rows, |r: PackageRowModel| r.name == name) {
        Some(t) => Some(t),
        None => last_where(rows, |r: PackageRowModel| r.provides.contains(name)),
    };
    match found {
        Some(t) => if t == i {
            None
        } else {
            Some(t)
        },
        None => None,
    }
}

fn find_dependency(rows: &Vec<PackageRow>, i: usize, name: &str) -> (r: Option<usize>)
    ensures
        opt_index(r) == dependency_row(rows.deep_view(), i as int, name@),
        r matches Some(t) ==> t < rows.len(),
{
    let named = |r: &PackageRow| -> (o: bool)
        ensures
            o == (r.name@ == name@),
        { same_text(&r.name, name) };
    let provides = |r: &PackageRow| -> (o: bool)
        ensures
            o == r.deep_view().provides.contains(name@),
        { holds_text(&r.provides, name) };
    let found = match find_last(rows, named, Ghost(|r: PackageRowModel| r.name == name@)) {
        Some(t) => Some(t),
        None => find_last(
            rows,
            provides,
            Ghost(|r: PackageRowModel| r.provides.contains(name@)),
        ),
    };
    match found {
        Some(t) => if t == i {
            None
        } else {
            Some(t)
        },
        None => None,
    }
}

/// The rows that the dependencies `deps` of row `i` mean.
pub open spec fn dependency_rows(
    rows: Seq<PackageRowModel>,
    i: int,
    deps: Seq<DepModel>,
) -> Seq<usize>
    decreases deps.len(),
{
    if deps.len() == 0 {
        Seq::empty()
    } else {
        let before = dependency_rows(rows, i, deps.drop_last());
        match dependency_row(rows, i, deps.last().name) {
            Some(t) => before.push(t as usize),
            None => before,
        }
    }
}

/// For each row the rows that it depends on.
pub open spec fn resolved_rows(rows: Seq<PackageRowModel>) -> Seq<Seq<usize>> {
    Seq::new(rows.len(), |i: int| dependency_rows(rows, i, rows[i].dependencies))
}

fn find_dependencies(rows: &Vec<PackageRow>, i: usize) -> (r: Vec<usize>)
    requires
        i < rows.len(),
    ensures
        r@ == dependency_rows(
            rows.deep_view(),
            i as int,
            rows.deep_view()[i as int].dependencies,
        ),
        forall|k: int| 0 <= k < r.len() ==> #[trigger] r@[k] < rows.len(),
{
    let deps = &rows[i].dependencies;
    let ghost all = deps.deep_view();
    let mut out: Vec<usize> = Vec::new();
    let mut k: usize = 0;
    assert(all.take(0) =~= Seq::<DepModel>::empty());
    while k < deps.len()
        invariant
            all == deps.deep_view(),
            k <= deps.len(),
            out@ == dependency_rows(rows.deep_view(), i as int, all.take(k as int)),
            forall|k: int| 0 <= k < out.len() ==> #[trigger] out@[k] < rows.len(),
        decreases deps.len() - k,
    {
        assert(all.take(k + 1).drop_last() =~= all.take(k as int));
        assert(all[k as int] == deps@[k as int].deep_view());
        if let Some(t) = find_dependency(rows, i, &deps[k].name) {
            out.push(t);
        }
        k += 1;
    }
    assert(all.take(k as int) =~= all);
    out
}

/// An edge from each dependency of each node to the node.
pub open spec fn edges_of(resolved: Seq<Seq<usize>>) -> Seq<(usize, usize)>
    decreases resolved.len(),
{
    if resolved.len() == 0 {
        Seq::empty()
    } else {
        let me = (resolved.len() - 1) as usize;
        edges_of(resolved.drop_last()) + resolved.last().map_values(|d: usize| (d, me))
    }
}

fn list_edges(resolved: &Vec<Vec<usize>>) -> (r: Vec<(usize, usize)>)
    requires
        within(resolved.deep_view()),
    ensures
        r@ == edges_of(resolved.deep_view()),
        forall|e: int|
            0 <= e < r.len() ==> (#[trigger] r@[e]).0 < resolved.len() && r@[e].1
                < resolved.len(),
{
    let ghost all = resolved.deep_view();
    let mut out: Vec<(usize, usize)> = Vec::new();
    let mut i: usize = 0;
    assert(all.take(0) =~= Seq::<Seq<usize>>::empty());
    while i < resolved.len()
        invariant
            all == resolved.deep_view(),
            within(all),
            i <= resolved.len(),
            out@ == edges_of(all.take(i as int)),
            forall|e: int|
                0 <= e < out.len() ==> (#[trigger] out@[e]).0 < resolved.len() && out@[e].1
                    < resolved.len(),
        decreases resolved.len() - i,
    {
        let deps = &resolved[i];
        let ghost before = out@;
        let ghost more = deps@.map_values(|d: usize| (d, i));
        assert(all[i as int] =~= deps@);
        let mut k: usize = 0;
        assert(before + more.take(0) =~= before);
        while k < deps.len()
            invariant
                all == resolved.deep_view(),
                within(all),
                i < resolved.len(),
                all[i as int] == deps@,
                more == deps@.map_values(|d: usize| (d, i)),
                k <= deps.len(),
                out@ == before + more.take(k as int),
                forall|e: int|
                    0 <= e < out.len() ==> (#[trigger] out@[e]).0 < resolved.len() && out@[e].1
                        < resolved.len(),
            decreases deps.len() - k,
        {
            assert(all[i as int][k as int] < all.len());
            out.push((deps[k], i));
            assert((before + more.take(k as int)).push(more[k as int]) =~= before + more.take(
                k + 1,
            ));
            k += 1;
        }
        assert(more.take(k as int) =~= more);
        assert(all.take(i + 1).drop_last() =~= all.take(i as int));
        i += 1;
    }
    assert(all.take(i as int) =~= all);
    out
}

/// A row on its way to its slot.
struct Ranked {
    index: usize,
    level: usize,
    name: String,
}

pub struct RankedModel {
    pub index: usize,
    pub level: usize,
    pub name: Seq<char>,
}

impl DeepView for Ranked {
    type V = RankedModel;

    closed spec fn deep_view(&self) -> RankedModel {
        RankedModel { index: self.index, level: self.level, name: self.name@ }
    }
}

pub open spec fn ranked_leq(a: RankedModel, b: RankedModel) -> bool {
    int_order(a.level as int, b.level as int).or_spec(text_order(a.name, b.name)) != Side::After
}

fn ranked_le(a: &Ranked, b: &Ranked) -> (r: bool)
    ensures
        r == ranked_leq(a.deep_view(), b.deep_view()),
{
    order_u64(a.level as u64, b.level as u64).or(order_text(&a.name, &b.name)) != Side::After
}

/// The rows by level and name.
pub open spec fn first_order(rows: Seq<PackageRowModel>, levels: Seq<usize>) -> Seq<usize> {
    stable_sort(
        Seq::new(
            rows.len(),
            |i: int| RankedModel { index: i as usize, level: levels[i], name: rows[i].name },
        ),
        |a: RankedModel, b: RankedModel| ranked_leq(a, b),
    ).map_values(|r: RankedModel| r.index)
}

fn ranked_index(r: &Ranked) -> (o: usize)
    ensures
        o == r.deep_view().index,
{
    r.index
}

fn initial_order(rows: &Vec<PackageRow>, levels: &Vec<usize>) -> (r: Vec<usize>)
    requires
        levels.len() == rows.len(),
    ensures
        r@ == first_order(rows.deep_view(), levels@),
{
    let ghost all = rows.deep_view();
    let ghost want = Seq::new(
        all.len(),
        |i: int| RankedModel { index: i as usize, level: levels@[i], name: all[i].name },
    );
    let mut ranked: Vec<Ranked> = Vec::new();
    let mut i: usize = 0;
    assert(ranked.deep_view() =~= want.take(0));
    while i < rows.len()
        invariant
            levels.len() == rows.len(),
            all == rows.deep_view(),
            want == Seq::new(
                all.len(),
                |i: int| RankedModel { index: i as usize, level: levels@[i], name: all[i].name },
            ),
            i <= rows.len(),
            ranked.deep_view() == want.take(i as int),
        decreases rows.len() - i,
    {
        let ghost before = ranked.deep_view();
        let next = Ranked { index: i, level: levels[i], name: rows[i].name.clone() };
        let ghost n = next.deep_view();
        ranked.push(next);
        assert(ranked.deep_view() =~= before.push(n));
        assert(all[i as int] == rows@[i as int].deep_view());
        assert(want.take(i as int).push(want[i as int]) =~= want.take(i + 1));
        i += 1;
    }
    assert(want.take(i as int) =~= want);
    let sorted = sort_list(
        ranked,
        ranked_le,
        Ghost(|a: RankedModel, b: RankedModel| ranked_leq(a, b)),
    );
    let r = map_list(&sorted, ranked_index, Ghost(|r: RankedModel| r.index));
    assert(r.deep_view() =~= r@);
    r
}

/// The nodes at `level`.
pub open spec fn on_level(levels: Seq<usize>, level: usize) -> spec_fn(usize) -> bool {
    |i: usize| levels[i as int] == level
}

/// How many entries before the `k`-th are at its level.
pub open spec fn slot_of(order: Seq<usize>, levels: Seq<usize>, k: int) -> nat {
    order.take(k).filter(on_level(levels, levels[order[k] as int])).len()
}

/// The greatest number of entries at one level among the first `count`.
pub open spec fn tallest(order: Seq<usize>, levels: Seq<usize>, count: nat) -> nat
    decreases count,
{
    if count == 0 {
        0
    } else {
        let before = tallest(order, levels, (count - 1) as nat);
        let here = slot_of(order, levels, count - 1) + 1;
        if here > before {
            here
        } else {
            before
        }
    }
}

/// The highest level.
pub open spec fn highest(levels: Seq<usize>) -> usize
    decreases levels.len(),
{
    if levels.len() == 0 {
        0
    } else {
        let before = highest(levels.drop_last());
        if levels.last() > before {
            levels.last()
        } else {
            before
        }
    }
}

/// The width of a node with the given name, in tenths of a pixel.
pub open spec fn node_width(name: Seq<char>) -> int {
    let w: int = 64 * encode_utf8(name).len() + 140int;
    if w > 560 {
        w
    } else {
        560
    }
}

/// The node in the `k`-th place.
pub open spec fn node_at(
    rows: Seq<PackageRowModel>,
    published: Seq<(Seq<char>, RepoVersionModel)>,
    levels: Seq<usize>,
    order: Seq<usize>,
    k: int,
) -> GraphNodeModel {
    let row = rows[order[k] as int];
    let level = levels[order[k] as int];
    GraphNodeModel {
        name: row.name,
        level: level as int,
        state: state_of(
            version_from(0, row.version, row.release),
            match entry_at(published, row.name) {
                Some(p) => Some(version_from(0, p.version, p.release)),
                None => None,
            },
        ),
        x: 56 * level,
        y: 29 * slot_of(order, levels, k) as int,
        w: node_width(row.name),
    }
}

/// The levels of the rows.
pub open spec fn row_levels(rows: Seq<PackageRowModel>) -> Seq<usize> {
    levels_of(resolved_rows(rows)).map_values(|l: nat| l as usize)
}

/// The order in which the rows are placed.
pub open spec fn placed(rows: Seq<PackageRowModel>) -> Seq<usize> {
    let levels = row_levels(rows);
    sweeps(first_order(rows, levels), 4, levels, edges_of(resolved_rows(rows)))
}

/// The place of a row among the nodes.
pub open spec fn place_of(order: Seq<usize>, row: usize) -> usize {
    order.index_of(row) as usize
}

/// An edge between rows as one between their nodes.
pub open spec fn between_places(order: Seq<usize>) -> spec_fn((usize, usize)) -> (usize, usize) {
    |e: (usize, usize)| (place_of(order, e.0), place_of(order, e.1))
}

/// The graph of `rows`, where `published` has the builds by package name.
pub open spec fn graph_of(
    rows: Seq<PackageRowModel>,
    published: Seq<(Seq<char>, RepoVersionModel)>,
) -> GraphModel {
    let levels = row_levels(rows);
    let order = placed(rows);
    GraphModel {
        nodes: Seq::new(rows.len(), |k: int| node_at(rows, published, levels, order, k)),
        edges: edges_of(resolved_rows(rows)).map_values(between_places(order)),
        width: 56 * highest(levels) + 150,
        height: 29 * tallest(order, levels, rows.len()) as int,
    }
}

/// The ends of all edges are nodes, and the nodes are measured.
pub open spec fn drawable(g: GraphModel) -> bool {
    &&& forall|e: int|
        0 <= e < g.edges.len() ==> (#[trigger] g.edges[e]).0 < g.nodes.len() && g.edges[e].1
            < g.nodes.len()
    &&& forall|k: int| 0 <= k < g.nodes.len() ==> measured(#[trigger] g.nodes[k])
}

/// The lengths of a node leave room to add them up.
pub open spec fn measured(n: GraphNodeModel) -> bool {
    n.x <= 56 * u64::MAX && n.y <= 29 * u64::MAX && n.w <= 64 * u64::MAX + 140
}

fn resolve_rows(rows: &Vec<PackageRow>) -> (r: Vec<Vec<usize>>)
    ensures
        r.deep_view() == resolved_rows(rows.deep_view()),
        within(r.deep_view()),
{
    let ghost all = rows.deep_view();
    let ghost want = resolved_rows(all);
    let mut out: Vec<Vec<usize>> = Vec::new();
    let mut i: usize = 0;
    assert(out.deep_view() =~= want.take(0));
    while i < rows.len()
        invariant
            all == rows.deep_view(),
            want == resolved_rows(all),
            i <= rows.len(),
            out.deep_view() == want.take(i as int),
            forall|j: int, k: int|
                0 <= j < i && 0 <= k < want[j].len() ==> (#[trigger] want[j][k]) < rows.len(),
        decreases rows.len() - i,
    {
        let deps = find_dependencies(rows, i);
        let ghost before = out.deep_view();
        let ghost d = deps@;
        assert(deps.deep_view() =~= deps@);
        out.push(deps);
        assert(out.deep_view() =~= before.push(d));
        assert(d == want[i as int]);
        assert(want.take(i as int).push(want[i as int]) =~= want.take(i + 1));
        i += 1;
    }
    assert(want.take(i as int) =~= want);
    out
}

fn highest_of(levels: &Vec<usize>) -> (r: usize)
    ensures
        r == highest(levels@),
{
    let mut top: usize = 0;
    let mut i: usize = 0;
    assert(levels@.take(0) =~= Seq::<usize>::empty());
    while i < levels.len()
        invariant
            i <= levels.len(),
            top == highest(levels@.take(i as int)),
        decreases levels.len() - i,
    {
        assert(levels@.take(i + 1).drop_last() =~= levels@.take(i as int));
        if levels[i] > top {
            top = levels[i];
        }
        i += 1;
    }
    assert(levels@.take(i as int) =~= levels@);
    top
}

/// The width of a node with the given name, in tenths of a pixel.
fn width_of(name: &str) -> (r: u128)
    ensures
        r == node_width(name@),
        r <= 64 * u64::MAX + 140,
{
    let w: u128 = 64 * name.as_bytes().len() as u128 + 140;
    if w > 560 {
        w
    } else {
        560
    }
}

/// The build state of a row.
fn row_state(row: &PackageRow, published: &Table<RepoVersion>) -> (r: State)
    ensures
        r == state_of(
            version_from(0, row.deep_view().version, row.deep_view().release),
            match entry_at(published.entries(), row.deep_view().name) {
                Some(p) => Some(version_from(0, p.version, p.release)),
                None => None,
            },
        ),
{
    match published.get(&row.name) {
        Some(p) => crate::status::derive(&row.version, &row.release, Some((&p.version, p.release.as_str()))),
        None => crate::status::derive(&row.version, &row.release, None),
    }
}

proof fn lemma_first_order(rows: Seq<PackageRowModel>, levels: Seq<usize>)
    requires
        levels.len() == rows.len(),
        rows.len() <= usize::MAX,
    ensures
        first_order(rows, levels).len() == rows.len(),
        forall|s: int|
            0 <= s < rows.len() ==> (#[trigger] first_order(rows, levels)[s]) < rows.len(),
{
    let ranked = Seq::new(
        rows.len(),
        |i: int| RankedModel { index: i as usize, level: levels[i], name: rows[i].name },
    );
    let leq = |a: RankedModel, b: RankedModel| ranked_leq(a, b);
    let sorted = stable_sort(ranked, leq);
    lemma_sort_permutes(ranked, leq);
    assert forall|s: int| 0 <= s < rows.len() implies (#[trigger] first_order(rows, levels)[s])
        < rows.len() by {
        assert(sorted.contains(sorted[s]));
        assert(ranked.contains(sorted[s]));
        let i = ranked.index_of(sorted[s]);
        assert(sorted[s] == ranked[i]);
    }
}

/// Counts `level` in.
fn count_level(
    counts: &mut Vec<usize>,
    level: usize,
    Ghost(seen): Ghost<Seq<usize>>,
    Ghost(next): Ghost<usize>,
    Ghost(levels): Ghost<Seq<usize>>,
) -> (slot: usize)
    requires
        level == levels[next as int],
        seen.len() < usize::MAX,
        forall|l: usize|
            #![trigger on_level(levels, l)]
            if l < old(counts).len() {
                old(counts)@[l as int] == seen.filter(on_level(levels, l)).len()
            } else {
                seen.filter(on_level(levels, l)).len() == 0
            },
    ensures
        slot == seen.filter(on_level(levels, level)).len(),
        slot <= seen.len(),
        forall|l: usize|
            #![trigger on_level(levels, l)]
            if l < final(counts).len() {
                final(counts)@[l as int] == seen.push(next).filter(on_level(levels, l)).len()
            } else {
                seen.push(next).filter(on_level(levels, l)).len() == 0
            },
{
    let ghost first = counts@;
    while counts.len() <= level
        invariant
            first.len() <= counts.len(),
            forall|l: int| 0 <= l < first.len() ==> #[trigger] counts@[l] == first[l],
            forall|l: int| first.len() <= l < counts.len() ==> #[trigger] counts@[l] == 0,
            counts.len() <= level + 1 || counts.len() == first.len(),
        decreases level + 1 - counts.len(),
    {
        counts.push(0);
    }
    proof {
        assert(on_level(levels, level)(next));
        seen.lemma_filter_len(on_level(levels, level));
    }
    let slot = counts[level];
    assert(slot == seen.filter(on_level(levels, level)).len());
    counts.set(level, slot + 1);
    assert forall|l: usize|
        #![trigger on_level(levels, l)]
        if l < counts.len() {
            counts@[l as int] == seen.push(next).filter(on_level(levels, l)).len()
        } else {
            seen.push(next).filter(on_level(levels, l)).len() == 0
        } by {
        lemma_filter_push(seen, next, on_level(levels, l));
        assert(on_level(levels, l)(next) == (l == level));
    }
    slot
}

/// The place of each row.
fn list_places(order: &Vec<usize>) -> (r: Vec<usize>)
    requires
        order@.no_duplicates(),
        forall|k: int| 0 <= k < order.len() ==> (#[trigger] order@[k]) < order.len(),
        forall|i: int| 0 <= i < order.len() ==> #[trigger] order@.contains(i as usize),
    ensures
        r.len() == order.len(),
        forall|i: int|
            0 <= i < r.len() ==> (#[trigger] r@[i]) == place_of(order@, i as usize) && r@[i]
                < order.len(),
{
    let mut out: Vec<usize> = Vec::new();
    let mut k: usize = 0;
    while k < order.len()
        invariant
            k <= order.len(),
            out.len() == k,
        decreases order.len() - k,
    {
        out.push(0);
        k += 1;
    }
    k = 0;
    while k < order.len()
        invariant
            forall|k: int| 0 <= k < order.len() ==> (#[trigger] order@[k]) < order.len(),
            order@.no_duplicates(),
            k <= order.len(),
            out.len() == order.len(),
            forall|j: int| 0 <= j < k ==> out@[(#[trigger] order@[j]) as int] == j,
        decreases order.len() - k,
    {
        let ghost before = out@;
        out.set(order[k], k);
        assert forall|j: int| 0 <= j < k + 1 implies out@[(#[trigger] order@[j]) as int] == j by {
            if j < k {
                assert(order@[j] != order@[k as int]);
                assert(before[order@[j] as int] == j);
            }
        }
        k += 1;
    }
    assert forall|i: int| 0 <= i < out.len() implies (#[trigger] out@[i]) == place_of(
        order@,
        i as usize,
    ) && out@[i] < order.len() by {
        assert(order@.contains(i as usize));
        let j = order@.index_of(i as usize);
        assert(out@[order@[j] as int] == j);
    }
    out
}

/// The edges between rows as edges between their nodes.
fn move_edges(edges: &Vec<(usize, usize)>, places: &Vec<usize>, Ghost(order): Ghost<Seq<usize>>) -> (r:
    Vec<(usize, usize)>)
    requires
        forall|e: int|
            0 <= e < edges.len() ==> (#[trigger] edges@[e]).0 < places.len() && edges@[e].1
                < places.len(),
        forall|i: int|
            0 <= i < places.len() ==> (#[trigger] places@[i]) == place_of(order, i as usize)
                && places@[i] < places.len(),
    ensures
        r@ == edges@.map_values(between_places(order)),
        forall|e: int|
            0 <= e < r.len() ==> (#[trigger] r@[e]).0 < places.len() && r@[e].1 < places.len(),
{
    let ghost want = edges@.map_values(between_places(order));
    let mut out: Vec<(usize, usize)> = Vec::new();
    let mut e: usize = 0;
    while e < edges.len()
        invariant
            want == edges@.map_values(between_places(order)),
            forall|e: int|
                0 <= e < edges.len() ==> (#[trigger] edges@[e]).0 < places.len() && edges@[e].1
                    < places.len(),
            forall|i: int|
                0 <= i < places.len() ==> (#[trigger] places@[i]) == place_of(order, i as usize)
                    && places@[i] < places.len(),
            e <= edges.len(),
            out@ == want.take(e as int),
            forall|e: int|
                0 <= e < out.len() ==> (#[trigger] out@[e]).0 < places.len() && out@[e].1
                    < places.len(),
        decreases edges.len() - e,
    {
        let (a, b) = edges[e];
        assert(edges@[e as int].0 < places.len());
        assert(places@[a as int] < places.len() && places@[b as int] < places.len());
        out.push((places[a], places[b]));
        assert(want.take(e as int).push(want[e as int]) =~= want.take(e + 1));
        e += 1;
    }
    assert(want.take(e as int) =~= want);
    out
}

/// Builds the graph of `rows`, where `published` has the builds by package
/// name.
pub fn build(rows: &Vec<PackageRow>, published: &Table<RepoVersion>) -> (r: Graph)
    ensures
        r.deep_view() == graph_of(rows.deep_view(), published.entries()),
        drawable(r.deep_view()),
{
    let ghost all = rows.deep_view();
    let ghost builds = published.entries();
    let resolved = resolve_rows(rows);
    let edges = list_edges(&resolved);
    let levels = longest_path_levels(&resolved);
    proof {
        let named = levels@.map_values(|l: usize| l as nat);
        assert(named.len() == levels.len());
        assert(levels@ =~= row_levels(all)) by {
            assert forall|j: int| 0 <= j < levels.len() implies levels@[j] == #[trigger] row_levels(
                all,
            )[j] by {
                assert(named[j] == levels@[j] as nat);
            }
        }
        lemma_first_order(all, levels@);
    }
    let mut order = initial_order(rows, &levels);
    let ghost start = order@;
    barycenter_passes(&mut order, &levels, &edges, rows.len(), 4);
    assert(order@ == placed(all));
    proof {
        lemma_listed(start, order@, levels@, rows.len());
    }
    let ghost want = Seq::new(
        all.len(),
        |k: int| node_at(all, builds, levels@, order@, k),
    );
    let mut counts: Vec<usize> = Vec::new();
    let mut tall: usize = 0;
    let mut nodes: Vec<GraphNode> = Vec::new();
    let mut k: usize = 0;
    assert(nodes.deep_view() =~= want.take(0));
    proof {
        reveal(Seq::filter);
        assert(order@.take(0) =~= Seq::<usize>::empty());
    }
    while k < order.len()
        invariant
            all == rows.deep_view(),
            builds == published.entries(),
            order.len() == rows.len(),
            levels.len() == rows.len(),
            listed(order@, levels@, rows.len()),
            want == Seq::new(all.len(), |k: int| node_at(all, builds, levels@, order@, k)),
            k <= order.len(),
            nodes.deep_view() == want.take(k as int),
            forall|j: int| 0 <= j < k ==> measured(#[trigger] want[j]),
            tall <= k,
            tall == tallest(order@, levels@, k as nat),
            forall|l: usize|
                #![trigger on_level(levels@, l)]
                if l < counts.len() {
                    counts@[l as int] == order@.take(k as int).filter(on_level(levels@, l)).len()
                } else {
                    order@.take(k as int).filter(on_level(levels@, l)).len() == 0
                },
        decreases order.len() - k,
    {
        let i = order[k];
        let level = levels[i];
        let slot = count_level(
            &mut counts,
            level,
            Ghost(order@.take(k as int)),
            Ghost(i),
            Ghost(levels@),
        );
        assert(order@.take(k as int).push(i) =~= order@.take(k + 1));
        if slot >= tall {
            tall = slot + 1;
        }
        let node = GraphNode {
            name: rows[i].name.clone(),
            level,
            state: row_state(&rows[i], published),
            x: 56 * level as u128,
            y: 29 * slot as u128,
            w: width_of(&rows[i].name),
        };
        assert(all[i as int] == rows@[i as int].deep_view());
        assert(node.deep_view() == want[k as int]);
        let ghost n = node.deep_view();
        let ghost before = nodes.deep_view();
        nodes.push(node);
        assert(nodes.deep_view() =~= before.push(n));
        assert(want.take(k as int).push(want[k as int]) =~= want.take(k + 1));
        k += 1;
    }
    assert(want.take(k as int) =~= want);
    proof {
        lemma_every_row_placed(all);
    }
    let places = list_places(&order);
    Graph {
        nodes,
        edges: move_edges(&edges, &places, Ghost(order@)),
        width: 56 * highest_of(&levels) as u128 + 150,
        height: 29 * tall as u128,
    }
}

// ---------------------------------------------------------------------------
// Laws
// ---------------------------------------------------------------------------

/// Every row has its place, and one only.
pub proof fn lemma_every_row_placed(rows: Seq<PackageRowModel>)
    requires
        rows.len() <= usize::MAX,
    ensures
        placed(rows).len() == rows.len(),
        placed(rows).no_duplicates(),
        forall|i: int|
            0 <= i < rows.len() ==> #[trigger] placed(rows).contains(i as usize),
        forall|k: int| 0 <= k < rows.len() ==> (#[trigger] placed(rows)[k]) < rows.len(),
{
    broadcast use vstd::seq_lib::group_to_multiset_ensures;

    lemma_row_edges(rows);
    lemma_levels(resolved_rows(rows));
    let levels = row_levels(rows);
    let ranked = Seq::new(
        rows.len(),
        |i: int| RankedModel { index: i as usize, level: levels[i], name: rows[i].name },
    );
    let leq = |a: RankedModel, b: RankedModel| ranked_leq(a, b);
    let sorted = stable_sort(ranked, leq);
    let start = first_order(rows, levels);
    let order = placed(rows);
    lemma_sort_permutes(ranked, leq);
    lemma_first_order(rows, levels);
    lemma_sweeps_rearrange(start, 4, levels, edges_of(resolved_rows(rows)));
    lemma_listed(start, order, levels, rows.len() as usize);
    assert(ranked.no_duplicates());
    ranked.lemma_multiset_has_no_duplicates();
    sorted.lemma_multiset_has_no_duplicates_conv();
    assert forall|a: int, b: int| 0 <= a < b < start.len() implies start[a] != start[b] by {
        assert(sorted.contains(sorted[a]) && sorted.contains(sorted[b]));
        assert(ranked.contains(sorted[a]) && ranked.contains(sorted[b]));
        let i = ranked.index_of(sorted[a]);
        let j = ranked.index_of(sorted[b]);
        assert(sorted[a] != sorted[b]);
        assert(sorted[a] == ranked[i] && sorted[b] == ranked[j]);
    }
    assert(start.no_duplicates());
    start.lemma_multiset_has_no_duplicates();
    order.lemma_multiset_has_no_duplicates_conv();
    assert forall|i: int| 0 <= i < rows.len() implies #[trigger] order.contains(i as usize) by {
        assert(ranked.contains(ranked[i]));
        assert(sorted.contains(ranked[i]));
        let k = sorted.index_of(ranked[i]);
        assert(start[k] == i as usize);
        assert(start.contains(i as usize));
        assert(start.to_multiset().count(i as usize) > 0);
        assert(order.to_multiset().count(i as usize) > 0);
    }
}

/// No two nodes of a graph share their corner.
pub proof fn lemma_nodes_apart(
    rows: Seq<PackageRowModel>,
    published: Seq<(Seq<char>, RepoVersionModel)>,
    i: int,
    j: int,
)
    requires
        0 <= i < j < rows.len(),
        rows.len() <= usize::MAX,
    ensures
        ({
            let a = graph_of(rows, published).nodes[i];
            let b = graph_of(rows, published).nodes[j];
            a.x != b.x || a.y != b.y
        }),
{
    let levels = row_levels(rows);
    let order = placed(rows);
    lemma_every_row_placed(rows);
    if levels[order[i] as int] == levels[order[j] as int] {
        let here = on_level(levels, levels[order[i] as int]);
        assert(order.take(i).push(order[i]) =~= order.take(i + 1));
        lemma_filter_push(order.take(i), order[i], here);
        lemma_filter_grows(order, i + 1, j, here);
        assert(slot_of(order, levels, i) < slot_of(order, levels, j));
    }
}

proof fn lemma_filter_grows(order: Seq<usize>, i: int, j: int, keep: spec_fn(usize) -> bool)
    requires
        0 <= i <= j <= order.len(),
    ensures
        order.take(i).filter(keep).len() <= order.take(j).filter(keep).len(),
    decreases j - i,
{
    if i < j {
        lemma_filter_grows(order, i, j - 1, keep);
        lemma_filter_push(order.take(j - 1), order[j - 1], keep);
        assert(order.take(j - 1).push(order[j - 1]) =~= order.take(j));
    }
}

/// Every edge of a graph leads from the node of a dependency to the node of its
/// dependent, and not from a node to itself.
pub proof fn lemma_edges_between_nodes(
    rows: Seq<PackageRowModel>,
    published: Seq<(Seq<char>, RepoVersionModel)>,
    e: int,
)
    requires
        rows.len() <= usize::MAX,
        0 <= e < graph_of(rows, published).edges.len(),
    ensures
        ({
            let g = graph_of(rows, published);
            let (from, to) = g.edges[e];
            let dependency = placed(rows)[from as int];
            let dependent = placed(rows)[to as int];
            &&& from < g.nodes.len() && to < g.nodes.len() && from != to
            &&& g.nodes[from as int].name == rows[dependency as int].name
            &&& g.nodes[to as int].name == rows[dependent as int].name
            &&& resolved_rows(rows)[dependent as int].contains(dependency)
        }),
{
    let resolved = resolved_rows(rows);
    let order = placed(rows);
    lemma_every_row_placed(rows);
    lemma_row_edges(rows);
    lemma_edge_from(resolved, e);
    let (d, me) = edges_of(resolved)[e];
    assert(order.contains(d as int as usize) && order.contains(me as int as usize));
}

/// Every dependency that was found has its edge.
pub proof fn lemma_dependency_drawn(
    rows: Seq<PackageRowModel>,
    published: Seq<(Seq<char>, RepoVersionModel)>,
    i: int,
    k: int,
)
    requires
        rows.len() <= usize::MAX,
        0 <= i < rows.len(),
        0 <= k < resolved_rows(rows)[i].len(),
    ensures
        graph_of(rows, published).edges.contains(
            (
                place_of(placed(rows), resolved_rows(rows)[i][k]),
                place_of(placed(rows), i as usize),
            ),
        ),
{
    let resolved = resolved_rows(rows);
    let between = between_places(placed(rows));
    lemma_edge_of(resolved, i, k);
    let e = edges_of(resolved).index_of((resolved[i][k], i as usize));
    let edges = edges_of(resolved).map_values(between);
    assert(edges[e] == between((resolved[i][k], i as usize)));
}

proof fn lemma_edge_from(resolved: Seq<Seq<usize>>, e: int)
    requires
        resolved.len() <= usize::MAX,
        0 <= e < edges_of(resolved).len(),
    ensures
        edges_of(resolved)[e].1 < resolved.len(),
        resolved[edges_of(resolved)[e].1 as int].contains(edges_of(resolved)[e].0),
    decreases resolved.len(),
{
    if resolved.len() > 0 {
        let fewer = resolved.drop_last();
        let before = edges_of(fewer);
        if e < before.len() {
            lemma_edge_from(fewer, e);
            assert(edges_of(resolved)[e] == before[e]);
        } else {
            let k = e - before.len();
            assert(resolved.last()[k] == edges_of(resolved)[e].0);
        }
    }
}

proof fn lemma_edge_of(resolved: Seq<Seq<usize>>, i: int, k: int)
    requires
        resolved.len() <= usize::MAX,
        0 <= i < resolved.len(),
        0 <= k < resolved[i].len(),
    ensures
        edges_of(resolved).contains((resolved[i][k], i as usize)),
    decreases resolved.len(),
{
    let fewer = resolved.drop_last();
    let before = edges_of(fewer);
    let edge = (resolved[i][k], i as usize);
    if i < resolved.len() - 1 {
        lemma_edge_of(fewer, i, k);
        let e = before.index_of(edge);
        assert(edges_of(resolved)[e] == edge);
    } else {
        assert(edges_of(resolved)[before.len() + k] == edge);
    }
}

/// The rows found for dependencies are rows, and none is found for itself.
pub proof fn lemma_row_edges(rows: Seq<PackageRowModel>)
    requires
        rows.len() <= usize::MAX,
    ensures
        within(resolved_rows(rows)),
        forall|e: int|
            #![trigger edges_of(resolved_rows(rows))[e]]
            0 <= e < edges_of(resolved_rows(rows)).len() ==> {
                let (a, b) = edges_of(resolved_rows(rows))[e];
                a < rows.len() && b < rows.len() && a != b
            },
{
    let resolved = resolved_rows(rows);
    assert forall|i: int, k: int| 0 <= i < resolved.len() && 0 <= k < resolved[i].len() implies (
    #[trigger] resolved[i][k]) < rows.len() && resolved[i][k] != i by {
        lemma_dependency_rows(rows, i, rows[i].dependencies);
    }
    lemma_edge_ends(resolved, rows.len());
}

proof fn lemma_dependency_rows(rows: Seq<PackageRowModel>, i: int, deps: Seq<DepModel>)
    requires
        rows.len() <= usize::MAX,
    ensures
        forall|k: int|
            0 <= k < dependency_rows(rows, i, deps).len() ==> (#[trigger] dependency_rows(
                rows,
                i,
                deps,
            )[k]) < rows.len() && dependency_rows(rows, i, deps)[k] != i,
    decreases deps.len(),
{
    if deps.len() > 0 {
        let name = deps.last().name;
        lemma_dependency_rows(rows, i, deps.drop_last());
        lemma_last_where(rows, |r: PackageRowModel| r.name == name);
        lemma_last_where(rows, |r: PackageRowModel| r.provides.contains(name));
        let before = dependency_rows(rows, i, deps.drop_last());
        let all = dependency_rows(rows, i, deps);
        assert forall|k: int| 0 <= k < all.len() implies (#[trigger] all[k]) < rows.len() && all[k]
            != i by {
            if k < before.len() {
                assert(all[k] == before[k]);
            }
        }
    }
}

proof fn lemma_edge_ends(resolved: Seq<Seq<usize>>, n: nat)
    requires
        resolved.len() <= n <= usize::MAX,
        forall|i: int, k: int|
            0 <= i < resolved.len() && 0 <= k < resolved[i].len() ==> (#[trigger] resolved[i][k])
                < n && resolved[i][k] != i,
    ensures
        forall|e: int|
            #![trigger edges_of(resolved)[e]]
            0 <= e < edges_of(resolved).len() ==> {
                let (a, b) = edges_of(resolved)[e];
                a < n && b < resolved.len() && a != b
            },
    decreases resolved.len(),
{
    if resolved.len() > 0 {
        let fewer = resolved.drop_last();
        assert forall|i: int, k: int| 0 <= i < fewer.len() && 0 <= k < fewer[i].len() implies (
        #[trigger] fewer[i][k]) < n && fewer[i][k] != i by {
            assert(resolved[i][k] == fewer[i][k]);
        }
        lemma_edge_ends(fewer, n);
        let before = edges_of(fewer);
        let all = edges_of(resolved);
        let me = resolved.len() - 1;
        assert forall|e: int| #![trigger all[e]] 0 <= e < all.len() implies {
            let (a, b) = all[e];
            a < n && b < resolved.len() && a != b
        } by {
            if e < before.len() {
                assert(all[e] == before[e]);
            } else {
                let k = e - before.len();
                assert(resolved[me][k] < n && resolved[me][k] != me);
            }
        }
    }
}

} // verus!
