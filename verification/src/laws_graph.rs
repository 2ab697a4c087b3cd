//! What holds of the dependency graph, told of the rows that it is drawn from.

use vstd::prelude::*;
use vstd::utf8::*;

use crate::digits::{decimal, lemma_numeral_round_trip};
use crate::graph::{
    dependency_row, dependency_rows, edges_of, graph_of, highest, lemma_dependency_drawn,
    lemma_edges_between_nodes, lemma_every_row_placed, lemma_row_edges, place_of, placed,
    resolved_rows, row_levels, slot_of, tallest, RepoVersionModel,
};
use crate::laws_builds::compares;
use crate::levels::{acyclic, lemma_levels, lemma_levels_acyclic, levels_of};
use crate::list::lemma_last_where;
use crate::model::DepModel;
use crate::records::PackageRowModel;
use crate::status::State;
use crate::table::entry_at;

verus! {

/// The row `t` is the one that a dependency on `name` means: the last one of
/// that name or, where no row has it, the last one that provides it.
pub open spec fn meant(rows: Seq<PackageRowModel>, name: Seq<char>, t: int) -> bool {
    &&& 0 <= t < rows.len()
    &&& if exists|u: int| 0 <= u < rows.len() && (#[trigger] rows[u]).name == name {
        rows[t].name == name && forall|u: int|
            t < u < rows.len() ==> (#[trigger] rows[u]).name != name
    } else {
        rows[t].provides.contains(name) && forall|u: int|
            t < u < rows.len() ==> !(#[trigger] rows[u]).provides.contains(name)
    }
}

proof fn lemma_meant(rows: Seq<PackageRowModel>, i: int, name: Seq<char>, t: int)
    ensures
        dependency_row(rows, i, name) == Some(t) <==> meant(rows, name, t) && t != i,
{
    let named = |r: PackageRowModel| r.name == name;
    let provides = |r: PackageRowModel| r.provides.contains(name);
    lemma_last_where(rows, named);
    lemma_last_where(rows, provides);
    if exists|u: int| 0 <= u < rows.len() && (#[trigger] rows[u]).name == name {
        let u = choose|u: int| 0 <= u < rows.len() && (#[trigger] rows[u]).name == name;
        assert(named(rows[u]));
    }
    if meant(rows, name, t) {
        assert(named(rows[t]) || provides(rows[t]));
    }
}

/// Every dependency, wherever it stands in the list of its row, has its edge:
/// from the node of the row that it means to the node of the row that has it.
pub proof fn lemma_every_dependency_drawn(
    rows: Seq<PackageRowModel>,
    builds: Seq<(Seq<char>, RepoVersionModel)>,
    i: int,
    k: int,
    t: int,
)
    requires
        rows.len() <= usize::MAX,
        0 <= i < rows.len(),
        0 <= k < rows[i].dependencies.len(),
        meant(rows, rows[i].dependencies[k].name, t),
        t != i,
    ensures
        exists|a: usize, b: usize| #[trigger]
            graph_of(rows, builds).edges.contains((a, b)) && a < rows.len() && b < rows.len()
                && placed(rows)[a as int] == t && placed(rows)[b as int] == i,
{
    let deps = rows[i].dependencies;
    lemma_meant(rows, i, deps[k].name, t);
    lemma_found(rows, i, deps, k, t);
    let mine = resolved_rows(rows)[i];
    let m = mine.index_of(t as usize);
    lemma_dependency_drawn(rows, builds, i, m);
    lemma_every_row_placed(rows);
    let order = placed(rows);
    assert(order.contains(t as usize) && order.contains(i as usize));
    let a = place_of(order, t as usize);
    let b = place_of(order, i as usize);
    assert(graph_of(rows, builds).edges.contains((a, b)));
}

proof fn lemma_found(rows: Seq<PackageRowModel>, i: int, deps: Seq<DepModel>, k: int, t: int)
    requires
        0 <= k < deps.len(),
        dependency_row(rows, i, deps[k].name) == Some(t),
    ensures
        dependency_rows(rows, i, deps).contains(t as usize),
    decreases deps.len(),
{
    let less = deps.drop_last();
    let before = dependency_rows(rows, i, less);
    let all = dependency_rows(rows, i, deps);
    if k < less.len() {
        assert(less[k] == deps[k]);
        lemma_found(rows, i, less, k, t);
        let m = before.index_of(t as usize);
        assert(all[m] == t as usize);
    } else {
        assert(all[all.len() - 1] == t as usize);
    }
}

/// Every edge is that of a dependency: the row of its first node is what a
/// dependency of the row of its second node means.
pub proof fn lemma_every_edge_meant(
    rows: Seq<PackageRowModel>,
    builds: Seq<(Seq<char>, RepoVersionModel)>,
    e: int,
)
    requires
        rows.len() <= usize::MAX,
        0 <= e < graph_of(rows, builds).edges.len(),
    ensures
        ({
            let (a, b) = graph_of(rows, builds).edges[e];
            let t = placed(rows)[a as int] as int;
            let i = placed(rows)[b as int] as int;
            &&& a < rows.len() && b < rows.len() && 0 <= i < rows.len() && t != i
            &&& exists|k: int|
                0 <= k < rows[i].dependencies.len() && meant(
                    rows,
                    (#[trigger] rows[i].dependencies[k]).name,
                    t,
                )
        }),
{
    lemma_edges_between_nodes(rows, builds, e);
    lemma_every_row_placed(rows);
    let (a, b) = graph_of(rows, builds).edges[e];
    let t = placed(rows)[a as int];
    let i = placed(rows)[b as int] as int;
    lemma_found_from(rows, i, rows[i].dependencies, t);
}

proof fn lemma_found_from(rows: Seq<PackageRowModel>, i: int, deps: Seq<DepModel>, t: usize)
    requires
        rows.len() <= usize::MAX,
        dependency_rows(rows, i, deps).contains(t),
    ensures
        t != i,
        exists|k: int| 0 <= k < deps.len() && meant(rows, (#[trigger] deps[k]).name, t as int),
    decreases deps.len(),
{
    let less = deps.drop_last();
    let before = dependency_rows(rows, i, less);
    let all = dependency_rows(rows, i, deps);
    let last = deps.last().name;
    let m = all.index_of(t);
    if before.contains(t) {
        lemma_found_from(rows, i, less, t);
        let k = choose|k: int|
            0 <= k < less.len() && meant(rows, (#[trigger] less[k]).name, t as int);
        assert(deps[k] == less[k]);
    } else {
        if m < before.len() {
            assert(before[m] == t);
        }
        let own = dependency_row(rows, i, last);
        assert(own is Some);
        lemma_meant(rows, i, last, own->0);
        assert(own->0 == t);
        assert(deps[deps.len() - 1].name == last);
    }
}

/// How many of the first `count` dependencies of row `i` mean another row.
pub open spec fn found_among(rows: Seq<PackageRowModel>, i: int, count: nat) -> nat
    decreases count,
{
    if count == 0 {
        0
    } else {
        found_among(rows, i, (count - 1) as nat) + if exists|t: int|
            t != i && #[trigger] meant(rows, rows[i].dependencies[count - 1].name, t) {
            1nat
        } else {
            0
        }
    }
}

/// How many dependencies of the first `count` rows mean another row.
pub open spec fn found_in(rows: Seq<PackageRowModel>, count: nat) -> nat
    decreases count,
{
    if count == 0 {
        0
    } else {
        found_in(rows, (count - 1) as nat) + found_among(
            rows,
            count - 1,
            rows[count - 1].dependencies.len(),
        )
    }
}

proof fn lemma_found_count(rows: Seq<PackageRowModel>, i: int, count: nat)
    requires
        0 <= i < rows.len(),
        count <= rows[i].dependencies.len(),
    ensures
        dependency_rows(rows, i, rows[i].dependencies.take(count as int)).len() == found_among(
            rows,
            i,
            count,
        ),
    decreases count,
{
    let deps = rows[i].dependencies;
    if count > 0 {
        lemma_found_count(rows, i, (count - 1) as nat);
        let here = deps.take(count as int);
        assert(here.drop_last() =~= deps.take(count - 1));
        let name = deps[count - 1].name;
        assert(here.last().name == name);
        match dependency_row(rows, i, name) {
            Some(t) => {
                lemma_meant(rows, i, name, t);
            },
            None => {
                assert forall|t: int| t != i implies !#[trigger] meant(rows, name, t) by {
                    lemma_meant(rows, i, name, t);
                }
            },
        }
    }
}

proof fn lemma_edge_count(rows: Seq<PackageRowModel>, count: nat)
    requires
        count <= rows.len(),
    ensures
        edges_of(resolved_rows(rows).take(count as int)).len() == found_in(rows, count),
    decreases count,
{
    let resolved = resolved_rows(rows);
    if count > 0 {
        lemma_edge_count(rows, (count - 1) as nat);
        let here = resolved.take(count as int);
        assert(here.drop_last() =~= resolved.take(count - 1));
        let deps = rows[count - 1].dependencies;
        assert(deps.take(deps.len() as int) =~= deps);
        lemma_found_count(rows, count - 1, deps.len());
        assert(here.last() == dependency_rows(rows, count - 1, deps));
    }
}

/// There are as many edges as dependencies that mean another row.
pub proof fn lemma_edges_counted(
    rows: Seq<PackageRowModel>,
    builds: Seq<(Seq<char>, RepoVersionModel)>,
)
    ensures
        graph_of(rows, builds).edges.len() == found_in(rows, rows.len()),
{
    let resolved = resolved_rows(rows);
    lemma_edge_count(rows, rows.len());
    assert(resolved.take(rows.len() as int) =~= resolved);
}

/// Every row has its node, with its name and its state: missing just where the
/// repository has no build of that name, else how that build stands to the row
/// by upstream version and release. The node stands in the column of its level.
pub proof fn lemma_nodes_tell_rows(
    rows: Seq<PackageRowModel>,
    builds: Seq<(Seq<char>, RepoVersionModel)>,
    k: int,
)
    requires
        rows.len() <= usize::MAX,
        0 <= k < rows.len(),
    ensures
        graph_of(rows, builds).nodes.len() == rows.len(),
        0 <= placed(rows)[k] < rows.len(),
        ({
            let node = graph_of(rows, builds).nodes[k];
            let row = rows[placed(rows)[k] as int];
            let build = entry_at(builds, row.name);
            &&& node.name == row.name
            &&& node.x == 56 * node.level && 0 <= node.level < rows.len()
            &&& node.level == levels_of(resolved_rows(rows))[placed(rows)[k] as int]
            &&& node.state == State::Missing <==> build is None
            &&& build is Some ==> forall|m: u32, n: u32|
                row.release == #[trigger] decimal(m as nat) && build->0.release
                    == #[trigger] decimal(n as nat) ==> compares(
                    node.state,
                    row.version.rank,
                    m,
                    build->0.version.rank,
                    n,
                )
        }),
{
    lemma_every_row_placed(rows);
    lemma_row_edges(rows);
    lemma_levels(resolved_rows(rows));
    let node = graph_of(rows, builds).nodes[k];
    let i = placed(rows)[k] as int;
    let row = rows[i];
    assert(levels_of(resolved_rows(rows))[i] < rows.len());
    assert(row_levels(rows)[i] == levels_of(resolved_rows(rows))[i] as usize);
    if let Some(build) = entry_at(builds, row.name) {
        assert forall|m: u32, n: u32|
            row.release == #[trigger] decimal(m as nat) && build.release == #[trigger] decimal(
                n as nat,
            ) implies compares(node.state, row.version.rank, m, build.version.rank, n) by {
            lemma_numeral_round_trip(m);
            lemma_numeral_round_trip(n);
        }
    }
}

/// No chain of dependencies comes back to where it began: `height` falls from
/// every row to the rows that its dependencies mean.
pub open spec fn no_cycle(rows: Seq<PackageRowModel>, height: spec_fn(int) -> nat) -> bool {
    forall|i: int, k: int, t: int|
        0 <= i < rows.len() && 0 <= k < rows[i].dependencies.len() && t != i && #[trigger] meant(
            rows,
            rows[i].dependencies[k].name,
            t,
        ) ==> height(t) < #[trigger] height(i)
}

/// Where no chain of dependencies comes back to where it began, every edge
/// leads from a column to one further right, and what depends on nothing
/// stands in the first column.
pub proof fn lemma_edges_lead_right(
    rows: Seq<PackageRowModel>,
    builds: Seq<(Seq<char>, RepoVersionModel)>,
    height: spec_fn(int) -> nat,
    e: int,
)
    requires
        rows.len() <= usize::MAX,
        no_cycle(rows, height),
        0 <= e < graph_of(rows, builds).edges.len(),
    ensures
        ({
            let g = graph_of(rows, builds);
            let (a, b) = g.edges[e];
            g.nodes[a as int].x < g.nodes[b as int].x
        }),
{
    let resolved = resolved_rows(rows);
    lemma_every_row_placed(rows);
    lemma_row_edges(rows);
    lemma_edges_between_nodes(rows, builds, e);
    lemma_no_cycle(rows, height);
    let (a, b) = graph_of(rows, builds).edges[e];
    let t = placed(rows)[a as int];
    let i = placed(rows)[b as int] as int;
    lemma_nodes_tell_rows(rows, builds, a as int);
    lemma_nodes_tell_rows(rows, builds, b as int);
    lemma_levels_acyclic(resolved, height, i);
    let m = resolved[i].index_of(t);
    assert(levels_of(resolved)[resolved[i][m] as int] < levels_of(resolved)[i]);
}

proof fn lemma_no_cycle(rows: Seq<PackageRowModel>, height: spec_fn(int) -> nat)
    requires
        rows.len() <= usize::MAX,
        no_cycle(rows, height),
    ensures
        acyclic(resolved_rows(rows), height),
{
    let resolved = resolved_rows(rows);
    assert forall|i: int, k: int|
        0 <= i < resolved.len() && 0 <= k < resolved[i].len() implies height(
        (#[trigger] resolved[i][k]) as int,
    ) < height(i) by {
        let t = resolved[i][k];
        let deps = rows[i].dependencies;
        assert(resolved[i] == dependency_rows(rows, i, deps));
        assert(dependency_rows(rows, i, deps).contains(t));
        lemma_found_from(rows, i, deps, t);
        let m = choose|m: int|
            0 <= m < deps.len() && meant(rows, (#[trigger] deps[m]).name, t as int);
        assert(meant(rows, rows[i].dependencies[m].name, t as int));
        assert(height(t as int) < height(i));
    }
}

/// Where no chain of dependencies comes back to where it began, a row none of
/// whose dependencies means another row stands in the first column, and any
/// other just to the right of one that it depends on.
pub proof fn lemma_columns(
    rows: Seq<PackageRowModel>,
    builds: Seq<(Seq<char>, RepoVersionModel)>,
    height: spec_fn(int) -> nat,
    k: int,
)
    requires
        rows.len() <= usize::MAX,
        no_cycle(rows, height),
        0 <= k < rows.len(),
    ensures
        ({
            let g = graph_of(rows, builds);
            let i = placed(rows)[k] as int;
            if exists|m: int, t: int|
                0 <= m < rows[i].dependencies.len() && t != i && #[trigger] meant(
                    rows,
                    rows[i].dependencies[m].name,
                    t,
                ) {
                exists|a: usize| #[trigger]
                    g.edges.contains((a, k as usize)) && g.nodes[k].x == g.nodes[a as int].x + 56
            } else {
                g.nodes[k].x == 0
            }
        }),
{
    let g = graph_of(rows, builds);
    let resolved = resolved_rows(rows);
    let order = placed(rows);
    let i = order[k] as int;
    let deps = rows[i].dependencies;
    lemma_every_row_placed(rows);
    lemma_row_edges(rows);
    lemma_no_cycle(rows, height);
    lemma_nodes_tell_rows(rows, builds, k);
    lemma_levels_acyclic(resolved, height, i);
    if exists|m: int, t: int|
        0 <= m < deps.len() && t != i && #[trigger] meant(rows, deps[m].name, t) {
        let (m, t) = choose|m: int, t: int|
            0 <= m < deps.len() && t != i && #[trigger] meant(rows, deps[m].name, t);
        lemma_meant(rows, i, deps[m].name, t);
        lemma_found(rows, i, deps, m, t);
        assert(resolved[i].len() > 0);
        let n = choose|n: int|
            0 <= n < resolved[i].len() && levels_of(resolved)[i] == levels_of(
                resolved,
            )[(#[trigger] resolved[i][n]) as int] + 1;
        lemma_dependency_drawn(rows, builds, i, n);
        let d = resolved[i][n];
        assert(d < rows.len());
        assert(order.contains(d as int as usize));
        let a = place_of(order, d);
        assert(order[order.index_of(d)] == d);
        assert(place_of(order, i as usize) == k) by {
            assert(order.contains(i as usize));
        }
        assert(g.edges.contains((a, k as usize)));
        lemma_nodes_tell_rows(rows, builds, a as int);
    } else {
        if resolved[i].len() > 0 {
            assert(dependency_rows(rows, i, deps).contains(resolved[i][0]));
            lemma_found_from(rows, i, deps, resolved[i][0]);
            let m = choose|m: int|
                0 <= m < deps.len() && meant(rows, (#[trigger] deps[m]).name, resolved[i][0] as int);
            assert(meant(rows, deps[m].name, resolved[i][0] as int));
        }
    }
}

proof fn lemma_highest(levels: Seq<usize>, i: int)
    requires
        0 <= i < levels.len(),
    ensures
        levels[i] <= highest(levels),
    decreases levels.len(),
{
    let less = levels.drop_last();
    if i < less.len() {
        lemma_highest(less, i);
        assert(less[i] == levels[i]);
    }
}

proof fn lemma_tallest(order: Seq<usize>, levels: Seq<usize>, count: nat, k: int)
    requires
        0 <= k < count,
    ensures
        slot_of(order, levels, k) < tallest(order, levels, count),
    decreases count,
{
    if k < count - 1 {
        lemma_tallest(order, levels, (count - 1) as nat, k);
    }
}

/// Every node lies within the picture, with room for its height and a name,
/// and is wide enough for its own.
pub proof fn lemma_nodes_inside(
    rows: Seq<PackageRowModel>,
    builds: Seq<(Seq<char>, RepoVersionModel)>,
    k: int,
)
    requires
        rows.len() <= usize::MAX,
        0 <= k < rows.len(),
    ensures
        ({
            let g = graph_of(rows, builds);
            let node = g.nodes[k];
            &&& 0 <= node.x && node.x + 150 <= g.width
            &&& 0 <= node.y && node.y + 29 <= g.height
            &&& node.w >= 560 && node.w >= 64 * encode_utf8(node.name).len() + 140
            &&& node.w == 560 || node.w == 64 * encode_utf8(node.name).len() + 140
        }),
{
    lemma_every_row_placed(rows);
    lemma_row_edges(rows);
    lemma_levels(resolved_rows(rows));
    let levels = row_levels(rows);
    let order = placed(rows);
    lemma_highest(levels, order[k] as int);
    lemma_tallest(order, levels, rows.len(), k);
}

/// How many edges lead to the first `count` rows.
pub open spec fn edges_before(resolved: Seq<Seq<usize>>, count: int) -> nat
    decreases count,
{
    if count <= 0 {
        0
    } else {
        edges_before(resolved, count - 1) + resolved[count - 1].len()
    }
}

proof fn lemma_edges_before(resolved: Seq<Seq<usize>>, count: int)
    requires
        0 <= count < resolved.len(),
    ensures
        edges_before(resolved.drop_last(), count) == edges_before(resolved, count),
        edges_of(resolved.take(count)).len() == edges_before(resolved, count),
    decreases count,
{
    if count == 0 {
        assert(resolved.take(0) =~= Seq::<Seq<usize>>::empty());
    } else {
        lemma_edges_before(resolved, count - 1);
        assert(resolved.take(count).drop_last() =~= resolved.take(count - 1));
        assert(resolved.take(count).last() == resolved[count - 1]);
    }
}

/// The edges come row by row, and for each row in the order of what was found
/// for its dependencies.
pub proof fn lemma_edges_in_turn(resolved: Seq<Seq<usize>>, i: int, k: int)
    requires
        resolved.len() <= usize::MAX,
        0 <= i < resolved.len(),
        0 <= k < resolved[i].len(),
    ensures
        ({
            let at = edges_before(resolved, i) + k;
            &&& at < edges_of(resolved).len()
            &&& edges_of(resolved)[at] == (resolved[i][k], i as usize)
        }),
    decreases resolved.len(),
{
    let less = resolved.drop_last();
    if i < less.len() {
        assert(less[i] == resolved[i]);
        lemma_edges_in_turn(less, i, k);
        lemma_edges_before(resolved, i);
    } else {
        lemma_edges_before(resolved, i);
        assert(resolved.take(i) =~= less);
    }
}

/// What is found for the dependencies of a row comes in their order: one more
/// dependency adds the row that it means, unless that is the row itself or there
/// is none.
pub proof fn lemma_dependencies_in_turn(
    rows: Seq<PackageRowModel>,
    i: int,
    deps: Seq<DepModel>,
    dep: DepModel,
    t: int,
)
    ensures
        meant(rows, dep.name, t) && t != i ==> dependency_rows(rows, i, deps.push(dep))
            == dependency_rows(rows, i, deps).push(t as usize),
        meant(rows, dep.name, i) ==> dependency_rows(rows, i, deps.push(dep)) == dependency_rows(
            rows,
            i,
            deps,
        ),
        (forall|u: int| !#[trigger] meant(rows, dep.name, u)) ==> dependency_rows(
            rows,
            i,
            deps.push(dep),
        ) == dependency_rows(rows, i, deps),
{
    assert(deps.push(dep).drop_last() =~= deps);
    lemma_meant(rows, i, dep.name, t);
    match dependency_row(rows, i, dep.name) {
        Some(u) => {
            lemma_meant(rows, i, dep.name, u);
            if meant(rows, dep.name, i) {
                lemma_one_meant(rows, dep.name, i, u);
            }
        },
        None => {},
    }
}

/// A name means one row at most.
proof fn lemma_one_meant(rows: Seq<PackageRowModel>, name: Seq<char>, t: int, u: int)
    requires
        meant(rows, name, t),
        meant(rows, name, u),
    ensures
        t == u,
{
    if t < u {
        assert(rows[u].name == name || rows[u].provides.contains(name));
    } else if u < t {
        assert(rows[t].name == name || rows[t].provides.contains(name));
    }
}

} // verus!
