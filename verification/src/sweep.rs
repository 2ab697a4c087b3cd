//! The order of the nodes within the columns of the dependency graph: each
//! node is drawn toward its neighbours, so that few edges cross.

use vstd::prelude::*;

use crate::list::last_where;

verus! {

/// The other ends of the edges at `node`, one for each end that is there.
pub open spec fn neighbors_of(edges: Seq<(usize, usize)>, node: usize) -> Seq<usize>
    decreases edges.len(),
{
    if edges.len() == 0 {
        Seq::empty()
    } else {
        let (a, b) = edges.last();
        let before = neighbors_of(edges.drop_last(), node);
        let half = if a == node {
            before.push(b)
        } else {
            before
        };
        if b == node {
            half.push(a)
        } else {
            half
        }
    }
}

/// Where `node` stands in `order`; 0 where it does not.
pub open spec fn place(order: Seq<usize>, node: usize) -> int {
    match last_where(order, |x: usize| x == node) {
        Some(i) => i,
        None => 0,
    }
}

/// The sum of the places of `nodes` in `order`.
pub open spec fn place_sum(order: Seq<usize>, nodes: Seq<usize>) -> int
    decreases nodes.len(),
{
    if nodes.len() == 0 {
        0
    } else {
        place_sum(order, nodes.drop_last()) + place(order, nodes.last())
    }
}

/// `order` with the entries at `i` and `j` exchanged.
pub open spec fn exchanged(order: Seq<usize>, i: int, j: int) -> Seq<usize> {
    order.update(i, order[j]).update(j, order[i])
}

/// The entry at `s` moves back past the entries of its level that had their
/// place after the average `sum / count` of its neighbours.
pub open spec fn moved_back(
    order: Seq<usize>,
    s: int,
    levels: Seq<usize>,
    from: Seq<usize>,
    sum: int,
    count: int,
) -> (Seq<usize>, int)
    decreases s,
{
    if s > 0 && levels[order[s - 1] as int] == levels[order[s] as int] && place(from, order[s - 1])
        * count > sum {
        moved_back(exchanged(order, s - 1, s), s - 1, levels, from, sum, count)
    } else {
        (order, s)
    }
}

/// The entry at `s` moves forth past the entries of its level that had their
/// place before the average `sum / count` of its neighbours.
pub open spec fn moved_forth(
    order: Seq<usize>,
    s: int,
    levels: Seq<usize>,
    from: Seq<usize>,
    sum: int,
    count: int,
) -> Seq<usize>
    decreases order.len() - s,
{
    if 0 <= s && s + 1 < order.len() && levels[order[s + 1] as int] == levels[order[s] as int]
        && place(from, order[s + 1]) * count < sum {
        moved_forth(exchanged(order, s + 1, s), s + 1, levels, from, sum, count)
    } else {
        order
    }
}

/// The entry at `slot` moves within its level toward the average place of its
/// neighbours. An entry without neighbours stays.
pub open spec fn drawn(
    order: Seq<usize>,
    slot: int,
    levels: Seq<usize>,
    edges: Seq<(usize, usize)>,
) -> Seq<usize> {
    let near = neighbors_of(edges, order[slot]);
    if near.len() == 0 {
        order
    } else {
        let sum = place_sum(order, near);
        let (half, s) = moved_back(order, slot, levels, order, sum, near.len() as int);
        moved_forth(half, s, levels, order, sum, near.len() as int)
    }
}

/// The slot that comes `k`-th in a sweep over `len` slots, forth in an even
/// pass and back in an odd one.
pub open spec fn swept(pass: int, k: int, len: int) -> int {
    if pass % 2 == 0 {
        k
    } else {
        len - 1 - k
    }
}

/// `order` after the first `count` slots of a sweep.
pub open spec fn sweep(
    order: Seq<usize>,
    pass: int,
    count: nat,
    levels: Seq<usize>,
    edges: Seq<(usize, usize)>,
) -> Seq<usize>
    decreases count,
{
    if count == 0 {
        order
    } else {
        drawn(
            sweep(order, pass, (count - 1) as nat, levels, edges),
            swept(pass, count - 1, order.len() as int),
            levels,
            edges,
        )
    }
}

/// `order` after `passes` sweeps.
pub open spec fn sweeps(
    order: Seq<usize>,
    passes: nat,
    levels: Seq<usize>,
    edges: Seq<(usize, usize)>,
) -> Seq<usize>
    decreases passes,
{
    if passes == 0 {
        order
    } else {
        sweep(
            sweeps(order, (passes - 1) as nat, levels, edges),
            passes - 1,
            order.len(),
            levels,
            edges,
        )
    }
}

/// `after` has the entries of `before`, each slot at the level it had.
pub open spec fn rearranged(before: Seq<usize>, after: Seq<usize>, levels: Seq<usize>) -> bool {
    &&& after.len() == before.len()
    &&& after.to_multiset() == before.to_multiset()
    &&& forall|s: int|
        0 <= s < before.len() ==> levels[(#[trigger] after[s]) as int] == levels[before[s] as int]
}

proof fn lemma_exchanged(order: Seq<usize>, i: int, j: int, levels: Seq<usize>)
    requires
        0 <= i < order.len(),
        0 <= j < order.len(),
        i != j,
        levels[order[i] as int] == levels[order[j] as int],
    ensures
        rearranged(order, exchanged(order, i, j), levels),
{
    broadcast use vstd::seq_lib::group_to_multiset_ensures;

    let half = order.update(i, order[j]);
    assert(half[j] == order[j]);
    vstd::seq_lib::to_multiset_update(order, i, order[j]);
    vstd::seq_lib::to_multiset_update(half, j, order[i]);
    let m = order.to_multiset();
    assert(order.contains(order[i]) && order.contains(order[j]));
    assert(exchanged(order, i, j).to_multiset() =~= m);
}

proof fn lemma_rearranged_chain(
    a: Seq<usize>,
    b: Seq<usize>,
    c: Seq<usize>,
    levels: Seq<usize>,
)
    requires
        rearranged(a, b, levels),
        rearranged(b, c, levels),
    ensures
        rearranged(a, c, levels),
{
    assert forall|s: int| 0 <= s < a.len() implies levels[(#[trigger] c[s]) as int]
        == levels[a[s] as int] by {
        assert(levels[c[s] as int] == levels[b[s] as int]);
    }
}

proof fn lemma_moved_back(
    order: Seq<usize>,
    s: int,
    levels: Seq<usize>,
    from: Seq<usize>,
    sum: int,
    count: int,
)
    requires
        0 <= s < order.len(),
    ensures
        rearranged(order, moved_back(order, s, levels, from, sum, count).0, levels),
        0 <= moved_back(order, s, levels, from, sum, count).1 <= s,
    decreases s,
{
    if s > 0 && levels[order[s - 1] as int] == levels[order[s] as int] && place(from, order[s - 1])
        * count > sum {
        let next = exchanged(order, s - 1, s);
        lemma_exchanged(order, s - 1, s, levels);
        lemma_moved_back(next, s - 1, levels, from, sum, count);
        lemma_rearranged_chain(
            order,
            next,
            moved_back(next, s - 1, levels, from, sum, count).0,
            levels,
        );
    }
}

proof fn lemma_moved_forth(
    order: Seq<usize>,
    s: int,
    levels: Seq<usize>,
    from: Seq<usize>,
    sum: int,
    count: int,
)
    requires
        0 <= s < order.len(),
    ensures
        rearranged(order, moved_forth(order, s, levels, from, sum, count), levels),
    decreases order.len() - s,
{
    if s + 1 < order.len() && levels[order[s + 1] as int] == levels[order[s] as int] && place(
        from,
        order[s + 1],
    ) * count < sum {
        let next = exchanged(order, s + 1, s);
        lemma_exchanged(order, s + 1, s, levels);
        lemma_moved_forth(next, s + 1, levels, from, sum, count);
        lemma_rearranged_chain(
            order,
            next,
            moved_forth(next, s + 1, levels, from, sum, count),
            levels,
        );
    }
}

proof fn lemma_drawn(
    order: Seq<usize>,
    slot: int,
    levels: Seq<usize>,
    edges: Seq<(usize, usize)>,
)
    requires
        0 <= slot < order.len(),
    ensures
        rearranged(order, drawn(order, slot, levels, edges), levels),
{
    let near = neighbors_of(edges, order[slot]);
    if near.len() > 0 {
        let sum = place_sum(order, near);
        let count = near.len() as int;
        lemma_moved_back(order, slot, levels, order, sum, count);
        let (half, s) = moved_back(order, slot, levels, order, sum, count);
        lemma_moved_forth(half, s, levels, order, sum, count);
        lemma_rearranged_chain(
            order,
            half,
            moved_forth(half, s, levels, order, sum, count),
            levels,
        );
    }
}

proof fn lemma_sweep(
    order: Seq<usize>,
    pass: int,
    count: nat,
    levels: Seq<usize>,
    edges: Seq<(usize, usize)>,
)
    requires
        count <= order.len(),
    ensures
        rearranged(order, sweep(order, pass, count, levels, edges), levels),
    decreases count,
{
    if count > 0 {
        let less = (count - 1) as nat;
        let before = sweep(order, pass, less, levels, edges);
        let slot = swept(pass, count - 1, order.len() as int);
        lemma_sweep(order, pass, less, levels, edges);
        lemma_drawn(before, slot, levels, edges);
        lemma_rearranged_chain(order, before, drawn(before, slot, levels, edges), levels);
    }
}

/// The sweeps only rearrange: no node is lost or doubled, and every slot
/// keeps its level.
pub proof fn lemma_sweeps_rearrange(
    order: Seq<usize>,
    passes: nat,
    levels: Seq<usize>,
    edges: Seq<(usize, usize)>,
)
    ensures
        rearranged(order, sweeps(order, passes, levels, edges), levels),
    decreases passes,
{
    if passes > 0 {
        let less = (passes - 1) as nat;
        let before = sweeps(order, less, levels, edges);
        lemma_sweeps_rearrange(order, less, levels, edges);
        lemma_sweep(before, passes - 1, order.len(), levels, edges);
        lemma_rearranged_chain(
            order,
            before,
            sweep(before, passes - 1, order.len(), levels, edges),
            levels,
        );
    }
}

/// The other ends of the edges at `node`.
fn near(edges: &Vec<(usize, usize)>, node: usize) -> (r: Vec<usize>)
    ensures
        r@ == neighbors_of(edges@, node),
{
    let mut out: Vec<usize> = Vec::new();
    let mut i: usize = 0;
    assert(edges@.take(0) =~= Seq::<(usize, usize)>::empty());
    while i < edges.len()
        invariant
            i <= edges.len(),
            out@ == neighbors_of(edges@.take(i as int), node),
        decreases edges.len() - i,
    {
        assert(edges@.take(i + 1).drop_last() =~= edges@.take(i as int));
        let (a, b) = edges[i];
        if a == node {
            out.push(b);
        }
        if b == node {
            out.push(a);
        }
        i += 1;
    }
    assert(edges@.take(i as int) =~= edges@);
    out
}

/// The place of each of `n` nodes in `order`.
fn places(order: &Vec<usize>, n: usize) -> (r: Vec<usize>)
    requires
        forall|s: int| 0 <= s < order.len() ==> #[trigger] order@[s] < n,
    ensures
        r.len() == n,
        forall|k: usize| k < n ==> (#[trigger] r@[k as int]) == place(order@, k),
{
    let mut out: Vec<usize> = Vec::new();
    while out.len() < n
        invariant
            out.len() <= n,
            forall|k: int| 0 <= k < out.len() ==> #[trigger] out@[k] == 0,
        decreases n - out.len(),
    {
        out.push(0);
    }
    let mut s: usize = 0;
    assert(order@.take(0) =~= Seq::<usize>::empty());
    while s < order.len()
        invariant
            s <= order.len(),
            out.len() == n,
            forall|s: int| 0 <= s < order.len() ==> #[trigger] order@[s] < n,
            forall|k: usize| k < n ==> (#[trigger] out@[k as int]) == place(
                order@.take(s as int),
                k,
            ),
        decreases order.len() - s,
    {
        assert(order@.take(s + 1).drop_last() =~= order@.take(s as int));
        let node = order[s];
        out.set(node, s);
        assert forall|k: usize| k < n implies (#[trigger] out@[k as int]) == place(
            order@.take(s + 1),
            k,
        ) by {
            assert(order@.take(s + 1).last() == node);
        }
        s += 1;
    }
    assert(order@.take(s as int) =~= order@);
    out
}

/// The sum of the places of `nodes`.
fn sum_of(pos: &Vec<usize>, nodes: &Vec<usize>, Ghost(order): Ghost<Seq<usize>>) -> (r: u128)
    requires
        forall|k: usize| k < pos.len() ==> (#[trigger] pos@[k as int]) == place(order, k),
        forall|i: int| 0 <= i < nodes.len() ==> (#[trigger] nodes@[i]) < pos.len(),
    ensures
        r == place_sum(order, nodes@),
{
    let mut sum: u128 = 0;
    let mut i: usize = 0;
    assert(nodes@.take(0) =~= Seq::<usize>::empty());
    while i < nodes.len()
        invariant
            forall|k: usize| k < pos.len() ==> (#[trigger] pos@[k as int]) == place(order, k),
            forall|i: int| 0 <= i < nodes.len() ==> (#[trigger] nodes@[i]) < pos.len(),
            i <= nodes.len(),
            sum == place_sum(order, nodes@.take(i as int)),
            sum <= i * 0xffff_ffff_ffff_ffff,
        decreases nodes.len() - i,
    {
        assert(nodes@.take(i + 1).drop_last() =~= nodes@.take(i as int));
        let p = pos[nodes[i]];
        sum = sum + p as u128;
        i += 1;
    }
    assert(nodes@.take(i as int) =~= nodes@);
    sum
}

/// `p` times `count`.
fn times(p: usize, count: usize) -> (r: u128)
    ensures
        r == p * count,
{
    assert(p * count <= 0xffff_ffff_ffff_ffff * 0xffff_ffff_ffff_ffff) by (nonlinear_arith)
        requires
            p <= 0xffff_ffff_ffff_ffff,
            count <= 0xffff_ffff_ffff_ffff,
    ;
    assert(0 <= p * count) by (nonlinear_arith);
    p as u128 * count as u128
}

/// The entries of `order` are among `n` nodes, which have levels.
pub open spec fn listed(order: Seq<usize>, levels: Seq<usize>, n: usize) -> bool {
    &&& n <= levels.len()
    &&& forall|s: int| 0 <= s < order.len() ==> #[trigger] order[s] < n
}

pub proof fn lemma_listed(before: Seq<usize>, after: Seq<usize>, levels: Seq<usize>, n: usize)
    requires
        listed(before, levels, n),
        rearranged(before, after, levels),
    ensures
        listed(after, levels, n),
{
    broadcast use vstd::seq_lib::group_to_multiset_ensures;

    assert forall|s: int| 0 <= s < after.len() implies #[trigger] after[s] < n by {
        assert(after.contains(after[s]));
        assert(after.to_multiset().count(after[s]) > 0);
        assert(before.to_multiset().count(after[s]) > 0);
        assert(before.contains(after[s]));
        let k = before.index_of(after[s]);
        assert(before[k] < n);
    }
}

/// Moves the entry at `slot` within its level toward its neighbours.
fn draw(
    order: &mut Vec<usize>,
    slot: usize,
    levels: &Vec<usize>,
    edges: &Vec<(usize, usize)>,
    n: usize,
)
    requires
        slot < old(order).len(),
        listed(old(order)@, levels@, n),
        forall|e: int|
            0 <= e < edges.len() ==> (#[trigger] edges@[e]).0 < n && edges@[e].1 < n,
    ensures
        final(order)@ == drawn(old(order)@, slot as int, levels@, edges@),
{
    let ghost from = order@;
    let near = near(edges, order[slot]);
    if near.len() == 0 {
        return;
    }
    let pos = places(order, n);
    proof {
        lemma_neighbors_listed(edges@, order@[slot as int], n);
    }
    let sum = sum_of(&pos, &near, Ghost(from));
    let count = near.len();
    let ghost (half, stop) = moved_back(from, slot as int, levels@, from, sum as int, count as int);
    let mut s: usize = slot;
    while s > 0 && levels[order[s - 1]] == levels[order[s]] && times(pos[order[s - 1]], count) > sum
        invariant
            s < order.len(),
            listed(order@, levels@, n),
            pos.len() == n,
            forall|k: usize| k < n ==> (#[trigger] pos@[k as int]) == place(from, k),
            moved_back(order@, s as int, levels@, from, sum as int, count as int) == (half, stop),
            order.len() == from.len(),
        decreases s,
    {
        let ghost before = order@;
        let a = order[s - 1];
        let b = order[s];
        order.set(s - 1, b);
        order.set(s, a);
        proof {
            assert(order@ =~= exchanged(before, s - 1, s as int));
            lemma_exchanged(before, s - 1, s as int, levels@);
            lemma_listed(before, order@, levels@, n);
        }
        s = s - 1;
    }
    let ghost last = moved_forth(half, stop, levels@, from, sum as int, count as int);
    while s + 1 < order.len() && levels[order[s + 1]] == levels[order[s]] && times(
        pos[order[s + 1]],
        count,
    ) < sum
        invariant
            s < order.len(),
            listed(order@, levels@, n),
            pos.len() == n,
            forall|k: usize| k < n ==> (#[trigger] pos@[k as int]) == place(from, k),
            moved_forth(order@, s as int, levels@, from, sum as int, count as int) == last,
        decreases order.len() - s,
    {
        let ghost before = order@;
        let a = order[s + 1];
        let b = order[s];
        order.set(s + 1, b);
        order.set(s, a);
        proof {
            assert(order@ =~= exchanged(before, s + 1, s as int));
            lemma_exchanged(before, s + 1, s as int, levels@);
            lemma_listed(before, order@, levels@, n);
        }
        s = s + 1;
    }
}

proof fn lemma_neighbors_listed(edges: Seq<(usize, usize)>, node: usize, n: usize)
    requires
        forall|e: int| 0 <= e < edges.len() ==> (#[trigger] edges[e]).0 < n && edges[e].1 < n,
    ensures
        forall|i: int|
            0 <= i < neighbors_of(edges, node).len() ==> (#[trigger] neighbors_of(edges, node)[i])
                < n,
    decreases edges.len(),
{
    if edges.len() > 0 {
        let fewer = edges.drop_last();
        assert forall|e: int| 0 <= e < fewer.len() implies (#[trigger] fewer[e]).0 < n
            && fewer[e].1 < n by {
            assert(edges[e] == fewer[e]);
        }
        assert(edges[edges.len() - 1] == edges.last());
        lemma_neighbors_listed(fewer, node, n);
        let known = neighbors_of(fewer, node);
        let all = neighbors_of(edges, node);
        assert forall|i: int| 0 <= i < all.len() implies (#[trigger] all[i]) < n by {
            if i < known.len() {
                assert(all[i] == known[i]);
            }
        }
    }
}

/// Rearranges `order` within the levels, in `passes` sweeps that alternate in
/// direction, so that nodes come near their neighbours and edges cross less.
pub fn barycenter_passes(
    order: &mut Vec<usize>,
    levels: &Vec<usize>,
    edges: &Vec<(usize, usize)>,
    n: usize,
    passes: usize,
)
    requires
        n <= levels.len(),
        forall|s: int| 0 <= s < old(order).len() ==> #[trigger] old(order)@[s] < n,
        forall|e: int|
            0 <= e < edges.len() ==> (#[trigger] edges@[e]).0 < n && edges@[e].1 < n,
    ensures
        final(order)@ == sweeps(old(order)@, passes as nat, levels@, edges@),
        rearranged(old(order)@, final(order)@, levels@),
{
    let ghost first = order@;
    let len = order.len();
    let mut pass: usize = 0;
    while pass < passes
        invariant
            len == first.len(),
            order.len() == len,
            pass <= passes,
            listed(first, levels@, n),
            forall|e: int|
                0 <= e < edges.len() ==> (#[trigger] edges@[e]).0 < n && edges@[e].1 < n,
            order@ == sweeps(first, pass as nat, levels@, edges@),
        decreases passes - pass,
    {
        let ghost before = order@;
        proof {
            lemma_sweeps_rearrange(first, pass as nat, levels@, edges@);
            lemma_listed(first, before, levels@, n);
        }
        let mut k: usize = 0;
        while k < len
            invariant
                len == before.len(),
                order.len() == len,
                k <= len,
                listed(before, levels@, n),
                forall|e: int|
                    0 <= e < edges.len() ==> (#[trigger] edges@[e]).0 < n && edges@[e].1 < n,
                order@ == sweep(before, pass as int, k as nat, levels@, edges@),
            decreases len - k,
        {
            proof {
                lemma_sweep(before, pass as int, k as nat, levels@, edges@);
                lemma_listed(before, order@, levels@, n);
            }
            let slot = if pass % 2 == 0 {
                k
            } else {
                len - 1 - k
            };
            draw(order, slot, levels, edges, n);
            k += 1;
            proof {
                lemma_sweep(before, pass as int, k as nat, levels@, edges@);
            }
        }
        pass += 1;
        proof {
            lemma_sweeps_rearrange(first, pass as nat, levels@, edges@);
        }
    }
    proof {
        lemma_sweeps_rearrange(first, pass as nat, levels@, edges@);
    }
}

} // verus!
