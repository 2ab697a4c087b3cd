//! What holds of the picture of a graph: where the nodes stand, how they are
//! ordered within their columns, and what is written for nodes and edges.

use vstd::prelude::*;

use crate::digits::decimal;
use crate::drawing::{
    edge_text, edge_texts, escape_char, escaped, head_text, node_text, node_texts, pixels, svg_of,
};
use crate::graph::{
    edges_of, first_order, graph_of, highest, lemma_every_row_placed, lemma_row_edges, on_level,
    placed, ranked_leq, resolved_rows, row_levels, slot_of, tallest, GraphModel, GraphNodeModel,
    RankedModel, RepoVersionModel,
};
use crate::laws_client::lemma_groups;
use crate::laws_requests::lemma_four;
use crate::levels::lemma_levels;
use crate::list::{last_where, lemma_last_where};
use crate::order::{
    lemma_filter_push, lemma_sort_ascends, lemma_sort_permutes, stable_sort, total_preorder,
};
use crate::records::PackageRowModel;
use crate::sweep::{
    drawn, exchanged, moved_back, moved_forth, neighbors_of, place, place_sum, sweep, sweeps,
};
use crate::text::{concat, lemma_text_order_flip, lemma_text_order_transitive, text_order, Side};

verus! {

// ---------------------------------------------------------------------------
// Places
// ---------------------------------------------------------------------------

/// How many of the first `count` nodes stand in the column at `x`.
pub open spec fn in_column(nodes: Seq<GraphNodeModel>, x: int, count: int) -> nat
    decreases count,
{
    if count <= 0 {
        0
    } else {
        in_column(nodes, x, count - 1) + if nodes[count - 1].x == x {
            1nat
        } else {
            0nat
        }
    }
}

proof fn lemma_in_column(
    rows: Seq<PackageRowModel>,
    builds: Seq<(Seq<char>, RepoVersionModel)>,
    level: usize,
    count: int,
)
    requires
        rows.len() <= usize::MAX,
        0 <= count <= rows.len(),
    ensures
        placed(rows).take(count).filter(on_level(row_levels(rows), level)).len() == in_column(
            graph_of(rows, builds).nodes,
            56 * level,
            count,
        ),
    decreases count,
{
    let order = placed(rows);
    let here = on_level(row_levels(rows), level);
    lemma_every_row_placed(rows);
    if count == 0 {
        assert(order.take(0) =~= Seq::<usize>::empty());
        reveal(Seq::filter);
    } else {
        lemma_in_column(rows, builds, level, count - 1);
        assert(order.take(count - 1).push(order[count - 1]) =~= order.take(count));
        lemma_filter_push(order.take(count - 1), order[count - 1], here);
    }
}

/// The nodes of a column stand one under the other, without a gap and in the
/// order in which they are placed.
pub proof fn lemma_stacked(
    rows: Seq<PackageRowModel>,
    builds: Seq<(Seq<char>, RepoVersionModel)>,
    k: int,
)
    requires
        rows.len() <= usize::MAX,
        0 <= k < rows.len(),
    ensures
        ({
            let nodes = graph_of(rows, builds).nodes;
            nodes[k].y == 29 * in_column(nodes, nodes[k].x as int, k)
        }),
{
    let order = placed(rows);
    lemma_every_row_placed(rows);
    lemma_in_column(rows, builds, row_levels(rows)[order[k] as int], k);
}

proof fn lemma_highest_found(levels: Seq<usize>) -> (i: int)
    requires
        levels.len() > 0,
    ensures
        0 <= i < levels.len(),
        levels[i] == highest(levels),
    decreases levels.len(),
{
    let less = levels.drop_last();
    if less.len() == 0 || levels.last() > highest(less) {
        if levels.last() <= highest(less) {
            assert(highest(less) == 0);
        }
        levels.len() - 1
    } else {
        lemma_highest_found(less)
    }
}

proof fn lemma_tallest_found(order: Seq<usize>, levels: Seq<usize>, count: nat) -> (k: int)
    requires
        count > 0,
    ensures
        0 <= k < count,
        slot_of(order, levels, k) + 1 == tallest(order, levels, count),
    decreases count,
{
    let before = tallest(order, levels, (count - 1) as nat);
    if slot_of(order, levels, count - 1) + 1 > before {
        count - 1
    } else {
        lemma_tallest_found(order, levels, (count - 1) as nat)
    }
}

/// The picture is no larger than it has to be: some node reaches its right
/// border and some node its lower one. The picture of nothing has no height.
pub proof fn lemma_picture_size(
    rows: Seq<PackageRowModel>,
    builds: Seq<(Seq<char>, RepoVersionModel)>,
) -> (ends: (int, int))
    requires
        rows.len() <= usize::MAX,
    ensures
        ({
            let g = graph_of(rows, builds);
            if rows.len() == 0 {
                g.width == 150 && g.height == 0
            } else {
                &&& 0 <= ends.0 < rows.len() && g.nodes[ends.0].x + 150 == g.width
                &&& 0 <= ends.1 < rows.len() && g.nodes[ends.1].y + 29 == g.height
            }
        }),
{
    let levels = row_levels(rows);
    let order = placed(rows);
    lemma_every_row_placed(rows);
    lemma_row_edges(rows);
    lemma_levels(resolved_rows(rows));
    if rows.len() == 0 {
        (0, 0)
    } else {
        let i = lemma_highest_found(levels);
        assert(order.contains(i as usize));
        let a = order.index_of(i as usize);
        let b = lemma_tallest_found(order, levels, rows.len());
        (a, b)
    }
}

// ---------------------------------------------------------------------------
// Order within the columns
// ---------------------------------------------------------------------------

/// The rows begin in the order of their columns, and by name within each.
pub proof fn lemma_first_placing(rows: Seq<PackageRowModel>, levels: Seq<usize>, s: int, t: int)
    requires
        rows.len() <= usize::MAX,
        levels.len() == rows.len(),
        0 <= s < t < rows.len(),
    ensures
        ({
            let start = first_order(rows, levels);
            let a = start[s] as int;
            let b = start[t] as int;
            &&& start.len() == rows.len()
            &&& levels[a] < levels[b] || (levels[a] == levels[b] && text_order(
                rows[a].name,
                rows[b].name,
            ) != Side::After)
        }),
{
    let ranked = Seq::new(
        rows.len(),
        |i: int| RankedModel { index: i as usize, level: levels[i], name: rows[i].name },
    );
    let leq = |a: RankedModel, b: RankedModel| ranked_leq(a, b);
    let sorted = stable_sort(ranked, leq);
    lemma_sort_permutes(ranked, leq);
    assert(total_preorder(leq)) by {
        assert forall|a: RankedModel, b: RankedModel| #[trigger] leq(a, b) || leq(b, a) by {
            lemma_text_order_flip(a.name, b.name);
        }
        assert forall|a: RankedModel, b: RankedModel, c: RankedModel| #[trigger] leq(a, b)
            && #[trigger] leq(b, c) implies leq(a, c) by {
            if a.level == b.level && b.level == c.level {
                lemma_text_order_transitive(a.name, b.name, c.name);
            }
        }
    }
    lemma_sort_ascends(ranked, leq);
    assert(leq(sorted[s], sorted[t]));
    assert(sorted.contains(sorted[s]) && sorted.contains(sorted[t]));
    assert(ranked.contains(sorted[s]) && ranked.contains(sorted[t]));
    let i = ranked.index_of(sorted[s]);
    let j = ranked.index_of(sorted[t]);
    assert(sorted[s] == ranked[i] && sorted[t] == ranked[j]);
}

/// From there on, four times all places are gone through in turn, forth and
/// back, and the node at each is drawn toward its neighbours.
pub proof fn lemma_placing(rows: Seq<PackageRowModel>)
    ensures
        ({
            let levels = row_levels(rows);
            let edges = edges_of(resolved_rows(rows));
            let n = rows.len();
            let start = first_order(rows, levels);
            let once = sweep(start, 0, start.len(), levels, edges);
            let twice = sweep(once, 1, start.len(), levels, edges);
            let thrice = sweep(twice, 2, start.len(), levels, edges);
            placed(rows) == sweep(thrice, 3, start.len(), levels, edges)
        }),
{
    reveal_with_fuel(sweeps, 5);
}

/// A sweep draws the node at one place after the other: from the first to the
/// last in an even pass, from the last to the first in an odd one.
pub proof fn lemma_sweep_in_turn(
    order: Seq<usize>,
    pass: int,
    count: nat,
    levels: Seq<usize>,
    edges: Seq<(usize, usize)>,
)
    requires
        count < order.len(),
    ensures
        sweep(order, pass, 0, levels, edges) == order,
        pass % 2 == 0 ==> sweep(order, pass, count + 1, levels, edges) == drawn(
            sweep(order, pass, count, levels, edges),
            count as int,
            levels,
            edges,
        ),
        pass % 2 != 0 ==> sweep(order, pass, count + 1, levels, edges) == drawn(
            sweep(order, pass, count, levels, edges),
            order.len() - 1 - count,
            levels,
            edges,
        ),
{
}

/// The neighbours of a node are the other ends of its edges.
pub proof fn lemma_neighbors(edges: Seq<(usize, usize)>, node: usize, other: usize)
    ensures
        neighbors_of(edges, node).contains(other) <==> edges.contains((node, other))
            || edges.contains((other, node)),
    decreases edges.len(),
{
    if edges.len() > 0 {
        let less = edges.drop_last();
        lemma_neighbors(less, node, other);
        let (a, b) = edges.last();
        let before = neighbors_of(less, node);
        let half = if a == node {
            before.push(b)
        } else {
            before
        };
        let all = neighbors_of(edges, node);
        assert(edges =~= less.push((a, b)));
        assert(before.push(b).contains(other) <==> before.contains(other) || b == other) by {
            lemma_pushed(before, b, other);
        }
        lemma_pushed(half, a, other);
        lemma_pushed(less, (a, b), (node, other));
        lemma_pushed(less, (a, b), (other, node));
    }
}

proof fn lemma_pushed<T>(s: Seq<T>, x: T, y: T)
    ensures
        s.push(x).contains(y) <==> s.contains(y) || x == y,
{
    let all = s.push(x);
    if s.contains(y) {
        assert(all[s.index_of(y)] == y);
    }
    if x == y {
        assert(all[s.len() as int] == y);
    }
    if all.contains(y) {
        let k = all.index_of(y);
        if k < s.len() {
            assert(s[k] == y);
        }
    }
}

proof fn lemma_place(order: Seq<usize>, i: int)
    requires
        order.no_duplicates(),
        0 <= i < order.len(),
    ensures
        place(order, order[i]) == i,
{
    lemma_last_where(order, |x: usize| x == order[i]);
    match last_where(order, |x: usize| x == order[i]) {
        Some(j) => {
            assert(order[j] == order[i]);
        },
        None => {
            assert(order[i] == order[i]);
        },
    }
}

/// The entry at `s` stands at `t` now, and those between have moved by one.
pub open spec fn shifted(order: Seq<usize>, s: int, t: int) -> Seq<usize> {
    order.remove(s).insert(t, order[s])
}

/// A place behind the average `sum / count`.
#[verifier::opaque]
pub open spec fn behind_average(place: int, sum: int, count: int) -> bool {
    place * count > sum
}

/// A place before the average `sum / count`.
#[verifier::opaque]
pub open spec fn before_average(place: int, sum: int, count: int) -> bool {
    place * count < sum
}

/// The entries from `t` to the one at `slot` are of its column and stand behind
/// the average.
pub open spec fn all_behind(
    order: Seq<usize>,
    t: int,
    slot: int,
    levels: Seq<usize>,
    sum: int,
    count: int,
) -> bool {
    forall|j: int|
        t <= j < slot ==> levels[(#[trigger] order[j]) as int] == levels[order[slot] as int]
            && behind_average(j, sum, count)
}

/// The entries behind the one at `slot`, up to `t`, are of its column and stand
/// before the average.
pub open spec fn all_before(
    order: Seq<usize>,
    slot: int,
    t: int,
    levels: Seq<usize>,
    sum: int,
    count: int,
) -> bool {
    forall|j: int|
        slot < j <= t ==> levels[(#[trigger] order[j]) as int] == levels[order[slot] as int]
            && before_average(j, sum, count)
}

proof fn lemma_back(
    order: Seq<usize>,
    now: Seq<usize>,
    slot: int,
    s: int,
    levels: Seq<usize>,
    sum: int,
    count: int,
) -> (t: int)
    requires
        order.no_duplicates(),
        0 <= s <= slot < order.len(),
        now == shifted(order, slot, s),
        all_behind(order, s, slot, levels, sum, count),
    ensures
        0 <= t <= s,
        moved_back(now, s, levels, order, sum, count) == (shifted(order, slot, t), t),
        all_behind(order, t, slot, levels, sum, count),
        t > 0 && levels[order[t - 1] as int] == levels[order[slot] as int] ==> !behind_average(
            t - 1,
            sum,
            count,
        ),
    decreases s,
{
    let before = s - 1;
    assert(now[s] == order[slot]);
    if s > 0 {
        assert(now[before] == order[before]);
        lemma_place(order, before);
        assert(behind_average(before, sum, count) == (place(order, now[before]) * count > sum)) by {
            reveal(behind_average);
        }
    }
    if s > 0 && levels[now[before] as int] == levels[now[s] as int] && behind_average(
        before,
        sum,
        count,
    ) {
        let next = exchanged(now, before, s);
        assert(next =~= shifted(order, slot, before));
        assert(levels[order[before] as int] == levels[order[slot] as int]);
        assert forall|j: int| before <= j < slot implies levels[(#[trigger] order[j]) as int]
            == levels[order[slot] as int] && behind_average(j, sum, count) by {
            if j != before {
                assert(s <= j);
            }
        }
        assert(all_behind(order, before, slot, levels, sum, count));
        lemma_back(order, next, slot, before, levels, sum, count)
    } else {
        s
    }
}

proof fn lemma_forth(
    order: Seq<usize>,
    now: Seq<usize>,
    slot: int,
    s: int,
    levels: Seq<usize>,
    sum: int,
    count: int,
) -> (t: int)
    requires
        order.no_duplicates(),
        0 <= slot <= s < order.len(),
        now == shifted(order, slot, s),
        all_before(order, slot, s, levels, sum, count),
    ensures
        s <= t < order.len(),
        moved_forth(now, s, levels, order, sum, count) == shifted(order, slot, t),
        all_before(order, slot, t, levels, sum, count),
        t + 1 < order.len() && levels[order[t + 1] as int] == levels[order[slot] as int]
            ==> !before_average(t + 1, sum, count),
    decreases order.len() - s,
{
    let after = s + 1;
    assert(now[s] == order[slot]);
    if after < order.len() {
        assert(now[after] == order[after]);
        lemma_place(order, after);
        assert(before_average(after, sum, count) == (place(order, now[after]) * count < sum)) by {
            reveal(before_average);
        }
    }
    if after < order.len() && levels[now[after] as int] == levels[now[s] as int] && before_average(
        after,
        sum,
        count,
    ) {
        let next = exchanged(now, after, s);
        assert(next =~= shifted(order, slot, after));
        assert(levels[order[after] as int] == levels[order[slot] as int]);
        assert forall|j: int| slot < j <= after implies levels[(#[trigger] order[j]) as int]
            == levels[order[slot] as int] && before_average(j, sum, count) by {
            if j != after {
                assert(j <= s);
            }
        }
        assert(all_before(order, slot, after, levels, sum, count));
        lemma_forth(order, next, slot, after, levels, sum, count)
    } else {
        s
    }
}

/// The sum of the places at which the given nodes stand.
pub open spec fn places_sum(order: Seq<usize>, nodes: Seq<usize>) -> int
    decreases nodes.len(),
{
    if nodes.len() == 0 {
        0
    } else {
        order.index_of(nodes[0]) + places_sum(order, nodes.drop_first())
    }
}

proof fn lemma_places_sum(order: Seq<usize>, nodes: Seq<usize>)
    requires
        order.no_duplicates(),
        forall|k: int| 0 <= k < nodes.len() ==> order.contains(#[trigger] nodes[k]),
    ensures
        place_sum(order, nodes) == places_sum(order, nodes),
    decreases nodes.len(),
{
    if nodes.len() == 1 {
        lemma_place(order, order.index_of(nodes[0]));
        assert(nodes.drop_first() =~= Seq::<usize>::empty());
        assert(nodes.drop_last() =~= Seq::<usize>::empty());
        assert(place_sum(order, nodes.drop_last()) == 0);
        assert(places_sum(order, nodes.drop_first()) == 0);
    } else if nodes.len() > 1 {
        let rest = nodes.drop_first();
        let front = nodes.drop_last();
        let middle = rest.drop_last();
        assert forall|k: int| 0 <= k < rest.len() implies order.contains(#[trigger] rest[k]) by {
            assert(rest[k] == nodes[k + 1]);
        }
        lemma_places_sum(order, rest);
        assert forall|k: int| 0 <= k < front.len() implies order.contains(#[trigger] front[k]) by {
            assert(front[k] == nodes[k]);
        }
        lemma_places_sum(order, front);
        assert forall|k: int| 0 <= k < middle.len() implies order.contains(#[trigger] middle[k]) by {
            assert(middle[k] == nodes[k + 1]);
        }
        lemma_places_sum(order, middle);
        assert(front.drop_first() =~= middle);
        assert(front[0] == nodes[0] && rest.last() == nodes.last());
    }
}

/// A node is drawn toward the average place of its neighbours: it moves within
/// its column, past just those nodes that stand on the other side of the
/// average, and the others keep their order. A node without neighbours stays.
pub proof fn lemma_drawn_toward(
    order: Seq<usize>,
    slot: int,
    levels: Seq<usize>,
    edges: Seq<(usize, usize)>,
) -> (t: int)
    requires
        order.no_duplicates(),
        0 <= slot < order.len(),
        forall|k: int|
            0 <= k < neighbors_of(edges, order[slot]).len() ==> order.contains(
                #[trigger] neighbors_of(edges, order[slot])[k],
            ),
    ensures
        ({
            let near = neighbors_of(edges, order[slot]);
            let sum = places_sum(order, near);
            let count = near.len() as int;
            let level = levels[order[slot] as int];
            &&& 0 <= t < order.len() && drawn(order, slot, levels, edges) == shifted(order, slot, t)
            &&& count == 0 ==> t == slot
            &&& all_behind(order, t, slot, levels, sum, count)
            &&& all_before(order, slot, t, levels, sum, count)
            &&& count > 0 && 0 < t <= slot && levels[order[t - 1] as int] == level
                ==> !behind_average(t - 1, sum, count)
            &&& count > 0 && slot <= t < order.len() - 1 && levels[order[t + 1] as int] == level
                ==> !before_average(t + 1, sum, count)
        }),
{
    let near = neighbors_of(edges, order[slot]);
    let count = near.len() as int;
    let sum = place_sum(order, near);
    assert(shifted(order, slot, slot) =~= order);
    lemma_places_sum(order, near);
    if count == 0 {
        slot
    } else {
        let t = lemma_back(order, order, slot, slot, levels, sum, count);
        let half = shifted(order, slot, t);
        if t < slot {
            assert(half[t + 1] == order[t]);
            lemma_place(order, t);
            assert(half[t] == order[slot]);
            assert(behind_average(t, sum, count)) by {
                assert(levels[order[t] as int] == levels[order[slot] as int]);
            }
            assert(t * count > sum) by {
                reveal(behind_average);
            }
            assert(moved_forth(half, t, levels, order, sum, count) == half);
            t
        } else {
            lemma_forth(order, half, slot, slot, levels, sum, count)
        }
    }
}

// ---------------------------------------------------------------------------
// What is written
// ---------------------------------------------------------------------------

/// A length is rounded to whole pixels: to the nearest, and to the even one
/// where two are as near.
pub proof fn lemma_pixels(tenths: int)
    ensures
        -5 <= 10 * pixels(tenths) - tenths <= 5,
        10 * pixels(tenths) - tenths == 5 || 10 * pixels(tenths) - tenths == -5 ==> pixels(tenths)
            % 2 == 0,
{
}

/// The text of one part.
proof fn lemma_one(a: Seq<char>)
    ensures
        concat(seq![a]) == a,
{
    assert(seq![a].drop_last() =~= Seq::<Seq<char>>::empty());
    assert(concat(seq![a].drop_last()) =~= Seq::<char>::empty());
    assert(concat(seq![a]) =~= a);
}

/// One part more stands behind the others.
proof fn lemma_then(parts: Seq<Seq<char>>, last: Seq<char>)
    ensures
        concat(parts.push(last)) == concat(parts) + last,
{
    assert(parts.push(last).drop_last() =~= parts);
}

/// An edge is a curve from the middle of the right side of the one node to the
/// middle of the left side of the other, level at both ends.
pub proof fn lemma_edge_text(a: GraphNodeModel, b: GraphNodeModel)
    ensures
        ({
            let x1 = decimal(pixels(10 * a.x + a.w) as nat);
            let y1 = decimal((a.y + 11) as nat);
            let x2 = decimal(b.x as nat);
            let y2 = decimal((b.y + 11) as nat);
            let mid = decimal(pixels((10 * a.x + a.w + 10 * b.x) / 2) as nat);
            edge_text(a, b) == "<path d=\"M"@ + x1 + ","@ + y1 + " C"@ + mid + ","@ + y1 + " "@
                + mid + ","@ + y2
                + " "@ + x2 + ","@ + y2
                + "\" fill=\"none\" stroke=\"#c9c5bc\" stroke-width=\"1\"/>"@
        }),
{
    let x1 = decimal(pixels(10 * a.x + a.w) as nat);
    let y1 = decimal((a.y + 11) as nat);
    let x2 = decimal(b.x as nat);
    let y2 = decimal((b.y + 11) as nat);
    let mid = decimal(pixels((10 * a.x + a.w + 10 * b.x) / 2) as nat);


    let p1 = seq!["<path d=\"M"@];
    lemma_one("<path d=\"M"@);
    let p2 = p1.push(x1);
    lemma_then(p1, x1);
    let p3 = p2.push(","@);
    lemma_then(p2, ","@);
    let p4 = p3.push(y1);
    lemma_then(p3, y1);
    let p5 = p4.push(" C"@);
    lemma_then(p4, " C"@);
    let p6 = p5.push(mid);
    lemma_then(p5, mid);
    let p7 = p6.push(","@);
    lemma_then(p6, ","@);
    let p8 = p7.push(y1);
    lemma_then(p7, y1);
    let p9 = p8.push(" "@);
    lemma_then(p8, " "@);
    let p10 = p9.push(mid);
    lemma_then(p9, mid);
    let p11 = p10.push(","@);
    lemma_then(p10, ","@);
    let p12 = p11.push(y2);
    lemma_then(p11, y2);
    let p13 = p12.push(" "@);
    lemma_then(p12, " "@);
    let p14 = p13.push(x2);
    lemma_then(p13, x2);
    let p15 = p14.push(","@);
    lemma_then(p14, ","@);
    let p16 = p15.push(y2);
    lemma_then(p15, y2);
    let p17 = p16.push("\" fill=\"none\" stroke=\"#c9c5bc\" stroke-width=\"1\"/>"@);
    lemma_then(p16, "\" fill=\"none\" stroke=\"#c9c5bc\" stroke-width=\"1\"/>"@);
    assert(p17 =~= seq![
        "<path d=\"M"@, x1, ","@, y1, " C"@, mid, ","@, y1, " "@, mid, ","@, y2, " "@, x2, ","@,
        y2, "\" fill=\"none\" stroke=\"#c9c5bc\" stroke-width=\"1\"/>"@,
    ]);
}

/// A node is a box in the colour of its state, at its place and of its width,
/// that leads to the page of its package and has its name in the middle.
pub proof fn lemma_node_text(n: GraphNodeModel)
    ensures
        node_text(n) == "<a href=\"/package/"@ + n.name + "\" target=\"_top\"><title>"@ + n.name
            + " · "@
            + n.state.label_spec() + "</title><rect class=\"st-"@ + n.state.label_spec()
            + "\" x=\""@
            + decimal(n.x as nat) + "\" y=\""@ + decimal(n.y as nat) + "\" width=\""@
            + decimal(pixels(n.w) as nat) + "\" height=\"22\" rx=\"4\"/></a><text x=\""@
            + decimal(pixels(10 * n.x + n.w / 2) as nat) + "\" y=\""@
            + decimal(pixels(10 * n.y + 145) as nat)
            + "\" fill=\"#ffffff\" style=\"pointer-events:none\">"@ + escaped(n.name) + "</text>"@,
{
    let p1 = seq!["<a href=\"/package/"@];
    lemma_one("<a href=\"/package/"@);
    let p2 = p1.push(n.name);
    lemma_then(p1, n.name);
    let p3 = p2.push("\" target=\"_top\"><title>"@);
    lemma_then(p2, "\" target=\"_top\"><title>"@);
    let p4 = p3.push(n.name);
    lemma_then(p3, n.name);
    let p5 = p4.push(" · "@);
    lemma_then(p4, " · "@);
    let p6 = p5.push(n.state.label_spec());
    lemma_then(p5, n.state.label_spec());
    let p7 = p6.push("</title><rect class=\"st-"@);
    lemma_then(p6, "</title><rect class=\"st-"@);
    let p8 = p7.push(n.state.label_spec());
    lemma_then(p7, n.state.label_spec());
    let p9 = p8.push("\" x=\""@);
    lemma_then(p8, "\" x=\""@);
    let p10 = p9.push(decimal(n.x as nat));
    lemma_then(p9, decimal(n.x as nat));
    let p11 = p10.push("\" y=\""@);
    lemma_then(p10, "\" y=\""@);
    let p12 = p11.push(decimal(n.y as nat));
    lemma_then(p11, decimal(n.y as nat));
    let p13 = p12.push("\" width=\""@);
    lemma_then(p12, "\" width=\""@);
    let p14 = p13.push(decimal(pixels(n.w) as nat));
    lemma_then(p13, decimal(pixels(n.w) as nat));
    let p15 = p14.push("\" height=\"22\" rx=\"4\"/></a><text x=\""@);
    lemma_then(p14, "\" height=\"22\" rx=\"4\"/></a><text x=\""@);
    let p16 = p15.push(decimal(pixels(10 * n.x + n.w / 2) as nat));
    lemma_then(p15, decimal(pixels(10 * n.x + n.w / 2) as nat));
    let p17 = p16.push("\" y=\""@);
    lemma_then(p16, "\" y=\""@);
    let p18 = p17.push(decimal(pixels(10 * n.y + 145) as nat));
    lemma_then(p17, decimal(pixels(10 * n.y + 145) as nat));
    let p19 = p18.push("\" fill=\"#ffffff\" style=\"pointer-events:none\">"@);
    lemma_then(p18, "\" fill=\"#ffffff\" style=\"pointer-events:none\">"@);
    let p20 = p19.push(escaped(n.name));
    lemma_then(p19, escaped(n.name));
    let p21 = p20.push("</text>"@);
    lemma_then(p20, "</text>"@);
    assert(p21 =~= seq![
        "<a href=\"/package/"@, n.name, "\" target=\"_top\"><title>"@, n.name, " · "@,
        n.state.label_spec(), "</title><rect class=\"st-"@, n.state.label_spec(), "\" x=\""@,
        decimal(n.x as nat), "\" y=\""@, decimal(n.y as nat), "\" width=\""@,
        decimal(pixels(n.w) as nat), "\" height=\"22\" rx=\"4\"/></a><text x=\""@,
        decimal(pixels(10 * n.x + n.w / 2) as nat), "\" y=\""@,
        decimal(pixels(10 * n.y + 145) as nat),
        "\" fill=\"#ffffff\" style=\"pointer-events:none\">"@, escaped(n.name), "</text>"@,
    ]);
}

/// The picture is as large as the graph, and has all edges and then all nodes.
pub proof fn lemma_picture(g: GraphModel)
    ensures
        head_text(g) == "<svg xmlns=\"http://www.w3.org/2000/svg\" viewBox=\"0 0 "@
            + decimal(g.width as nat)
            + " "@ + decimal(g.height as nat)
            + "\" font-family=\"ui-monospace,Menlo,Consolas,monospace\" font-size=\"11\">"@,
        svg_of(g) == head_text(g) + concat(
            Seq::new(
                g.edges.len(),
                |e: int| edge_text(g.nodes[g.edges[e].0 as int], g.nodes[g.edges[e].1 as int]),
            ),
        ) + concat(Seq::new(g.nodes.len(), |k: int| node_text(g.nodes[k]))) + "</svg>"@,
{
    let p = seq![
        "<svg xmlns=\"http://www.w3.org/2000/svg\" viewBox=\"0 0 "@, decimal(g.width as nat), " "@,
        decimal(g.height as nat),
    ];
    let q = seq!["\" font-family=\"ui-monospace,Menlo,Consolas,monospace\" font-size=\"11\">"@];
    lemma_groups(p, q);
    lemma_four(p[0], p[1], p[2], p[3]);
    lemma_one(q[0]);
    assert(p + q =~= seq![p[0], p[1], p[2], p[3], q[0]]);
    assert(head_text(g) =~= "<svg xmlns=\"http://www.w3.org/2000/svg\" viewBox=\"0 0 "@
        + decimal(g.width as nat) + " "@ + decimal(g.height as nat)
        + "\" font-family=\"ui-monospace,Menlo,Consolas,monospace\" font-size=\"11\">"@);
    let edges = Seq::new(
        g.edges.len(),
        |e: int| edge_text(g.nodes[g.edges[e].0 as int], g.nodes[g.edges[e].1 as int]),
    );
    let nodes = Seq::new(g.nodes.len(), |k: int| node_text(g.nodes[k]));
    assert(edge_texts(g) =~= edges);
    assert(node_texts(g) =~= nodes);
    lemma_four(head_text(g), concat(edges), concat(nodes), "</svg>"@);
}

/// A text is written character by character; the three that XML has for itself
/// are spelled out, and any other stays.
pub proof fn lemma_escaped(s: Seq<char>, c: char)
    ensures
        escaped(Seq::empty()).len() == 0,
        escaped(s.push(c)) == escaped(s) + if c == '&' {
            "&amp;"@
        } else if c == '<' {
            "&lt;"@
        } else if c == '>' {
            "&gt;"@
        } else {
            seq![c]
        },
{
    let each = |c: char| escape_char(c);
    let all = s.push(c).map_values(each);
    assert(all.drop_last() =~= s.map_values(each));
    assert(all.last() == escape_char(c));
    assert(Seq::<char>::empty().map_values(each) =~= Seq::<Seq<char>>::empty());
}

} // verus!
