//! The columns of the dependency graph: how far each node stands above the
//! nodes without dependencies.

use vstd::prelude::*;

verus! {

/// Every dependency is a node.
pub open spec fn within(resolved: Seq<Seq<usize>>) -> bool {
    forall|i: int, k: int|
        0 <= i < resolved.len() && 0 <= k < resolved[i].len() ==> (#[trigger] resolved[i][k])
            < resolved.len()
}

/// What is known of the level of a node.
pub enum Mark {
    Unseen,
    /// It is being worked out.
    Open,
    At(nat),
}

/// How far a dependency lifts its dependents: one above its own level. A
/// dependency that is being worked out closes a cycle and lifts nothing.
pub open spec fn lift(mark: Mark) -> nat {
    match mark {
        Mark::At(level) => level + 1,
        _ => 0,
    }
}

/// What is known of the levels after node `i` was asked for its own. At most
/// `depth` nodes are worked out within each other.
pub open spec fn visit(
    resolved: Seq<Seq<usize>>,
    marks: Seq<Mark>,
    i: int,
    depth: nat,
) -> Seq<Mark>
    decreases depth, 0nat,
{
    if !(marks[i] is Unseen) || depth == 0 {
        marks
    } else {
        let (after, level) = visit_all(
            resolved,
            marks.update(i, Mark::Open),
            resolved[i],
            (depth - 1) as nat,
        );
        after.update(i, Mark::At(level))
    }
}

/// What is known of the levels after each of `deps` was asked for its own,
/// and how far they lift a node that depends on them.
pub open spec fn visit_all(
    resolved: Seq<Seq<usize>>,
    marks: Seq<Mark>,
    deps: Seq<usize>,
    depth: nat,
) -> (Seq<Mark>, nat)
    decreases depth, deps.len(),
{
    if deps.len() == 0 {
        (marks, 0)
    } else {
        let (before, level) = visit_all(resolved, marks, deps.drop_last(), depth);
        let after = visit(resolved, before, deps.last() as int, depth);
        let own = lift(after[deps.last() as int]);
        (
            after,
            if own > level {
                own
            } else {
                level
            },
        )
    }
}

/// What is known of the levels after the first `count` nodes were asked.
pub open spec fn visit_first(resolved: Seq<Seq<usize>>, count: nat) -> Seq<Mark>
    decreases count,
{
    if count == 0 {
        Seq::new(resolved.len(), |i: int| Mark::Unseen)
    } else {
        visit(
            resolved,
            visit_first(resolved, (count - 1) as nat),
            count - 1,
            resolved.len(),
        )
    }
}

/// The level that was found for a node.
pub open spec fn level_in(mark: Mark) -> nat {
    match mark {
        Mark::At(level) => level,
        _ => 0,
    }
}

/// The level of each node: the length of its longest dependency chain, where
/// the dependencies that close a cycle are left out.
pub open spec fn levels_of(resolved: Seq<Seq<usize>>) -> Seq<nat> {
    visit_first(resolved, resolved.len()).map_values(|m: Mark| level_in(m))
}

// ---------------------------------------------------------------------------
// Counting
// ---------------------------------------------------------------------------

/// How many nodes have not been asked yet.
pub open spec fn unseen(marks: Seq<Mark>) -> nat
    decreases marks.len(),
{
    if marks.len() == 0 {
        0
    } else {
        unseen(marks.drop_last()) + if marks.last() is Unseen {
            1nat
        } else {
            0
        }
    }
}

/// How many nodes have their level.
pub open spec fn closed_count(marks: Seq<Mark>) -> nat
    decreases marks.len(),
{
    if marks.len() == 0 {
        0
    } else {
        closed_count(marks.drop_last()) + if marks.last() is At {
            1nat
        } else {
            0
        }
    }
}

proof fn lemma_count_update(marks: Seq<Mark>, i: int, mark: Mark)
    requires
        0 <= i < marks.len(),
    ensures
        unseen(marks.update(i, mark)) == unseen(marks) - (if marks[i] is Unseen {
            1int
        } else {
            0
        }) + if mark is Unseen {
            1int
        } else {
            0
        },
        closed_count(marks.update(i, mark)) == closed_count(marks) - (if marks[i] is At {
            1int
        } else {
            0
        }) + if mark is At {
            1int
        } else {
            0
        },
    decreases marks.len(),
{
    let next = marks.update(i, mark);
    if i < marks.len() - 1 {
        lemma_count_update(marks.drop_last(), i, mark);
        assert(next.drop_last() =~= marks.drop_last().update(i, mark));
    } else {
        assert(next.drop_last() =~= marks.drop_last());
    }
}

proof fn lemma_count_bound(marks: Seq<Mark>)
    ensures
        unseen(marks) <= marks.len(),
        closed_count(marks) <= marks.len(),
        (exists|i: int| 0 <= i < marks.len() && #[trigger] marks[i] is Unseen) ==> unseen(marks)
            > 0,
    decreases marks.len(),
{
    if marks.len() > 0 {
        lemma_count_bound(marks.drop_last());
        if exists|i: int| 0 <= i < marks.len() && #[trigger] marks[i] is Unseen {
            let i = choose|i: int| 0 <= i < marks.len() && #[trigger] marks[i] is Unseen;
            if i < marks.len() - 1 {
                assert(marks.drop_last()[i] is Unseen);
            }
        }
    }
}

// ---------------------------------------------------------------------------
// What every state of the work keeps
// ---------------------------------------------------------------------------

/// Every level is below the number of nodes that have theirs.
pub open spec fn levels_fit(marks: Seq<Mark>) -> bool {
    forall|j: int|
        0 <= j < marks.len() && (#[trigger] marks[j]) is At ==> marks[j]->0 < closed_count(marks)
}

/// A node above level 0 has a dependency on the level just below.
pub open spec fn lifted(marks: Seq<Mark>, deps: Seq<usize>, level: nat) -> bool {
    level > 0 ==> exists|k: int|
        0 <= k < deps.len() && marks[(#[trigger] deps[k]) as int] == Mark::At((level - 1) as nat)
}

/// Every node above level 0 has a dependency on the level just below.
pub open spec fn all_lifted(resolved: Seq<Seq<usize>>, marks: Seq<Mark>) -> bool {
    forall|j: int|
        0 <= j < marks.len() && (#[trigger] marks[j]) is At ==> lifted(
            marks,
            resolved[j],
            marks[j]->0,
        )
}

/// What is known stays.
pub open spec fn kept(marks: Seq<Mark>, after: Seq<Mark>) -> bool {
    &&& after.len() == marks.len()
    &&& unseen(after) <= unseen(marks)
    &&& closed_count(after) >= closed_count(marks)
    &&& forall|j: int|
        0 <= j < marks.len() && !(marks[j] is Unseen) ==> #[trigger] after[j] == marks[j]
}

proof fn lemma_lifted_kept(marks: Seq<Mark>, after: Seq<Mark>, deps: Seq<usize>, level: nat)
    requires
        lifted(marks, deps, level),
        forall|k: int| 0 <= k < deps.len() ==> (#[trigger] deps[k]) < marks.len(),
        after.len() == marks.len(),
        forall|j: int| 0 <= j < marks.len() && marks[j] is At ==> #[trigger] after[j] == marks[j],
    ensures
        lifted(after, deps, level),
{
    if level > 0 {
        let k = choose|k: int|
            0 <= k < deps.len() && marks[(#[trigger] deps[k]) as int] == Mark::At(
                (level - 1) as nat,
            );
        assert(after[deps[k] as int] == marks[deps[k] as int]);
    }
}

proof fn lemma_visit_keeps(
    resolved: Seq<Seq<usize>>,
    marks: Seq<Mark>,
    i: int,
    depth: nat,
)
    requires
        within(resolved),
        marks.len() == resolved.len(),
        0 <= i < resolved.len(),
        unseen(marks) <= depth,
        levels_fit(marks),
        all_lifted(resolved, marks),
    ensures
        kept(marks, visit(resolved, marks, i, depth)),
        levels_fit(visit(resolved, marks, i, depth)),
        all_lifted(resolved, visit(resolved, marks, i, depth)),
        marks[i] is Unseen ==> visit(resolved, marks, i, depth)[i] is At,
        !(visit(resolved, marks, i, depth)[i] is Unseen),
    decreases depth, 0nat,
{
    if marks[i] is Unseen {
        lemma_count_bound(marks);
        lemma_count_update(marks, i, Mark::Open);
        let opened = marks.update(i, Mark::Open);
        let deps = resolved[i];
        let inner = (depth - 1) as nat;
        assert(levels_fit(opened)) by {
            assert forall|j: int| 0 <= j < opened.len() && (
            #[trigger] opened[j]) is At implies opened[j]->0 < closed_count(opened) by {
                assert(marks[j] == opened[j]);
            }
        }
        assert forall|j: int, k: int|
            0 <= j < resolved.len() && 0 <= k < resolved[j].len() implies (
        #[trigger] resolved[j][k]) < marks.len() by {}
        assert(all_lifted(resolved, opened)) by {
            assert forall|j: int| 0 <= j < opened.len() && (
            #[trigger] opened[j]) is At implies lifted(opened, resolved[j], opened[j]->0) by {
                assert(marks[j] == opened[j]);
                lemma_lifted_kept(marks, opened, resolved[j], marks[j]->0);
            }
        }
        assert forall|k: int| 0 <= k < deps.len() implies (#[trigger] deps[k])
            < resolved.len() by {
            assert(resolved[i][k] == deps[k]);
        }
        lemma_visit_all_keeps(resolved, opened, deps, inner);
        let (after, level) = visit_all(resolved, opened, deps, inner);
        let last = after.update(i, Mark::At(level));
        assert(after[i] == opened[i]);
        lemma_count_update(after, i, Mark::At(level));
        assert(kept(marks, last)) by {
            assert forall|j: int| 0 <= j < marks.len() && !(
            marks[j] is Unseen) implies #[trigger] last[j] == marks[j] by {
                assert(opened[j] == marks[j]);
                assert(after[j] == opened[j]);
            }
        }
        assert(levels_fit(last)) by {
            assert forall|j: int| 0 <= j < last.len() && (#[trigger] last[j]) is At implies last[j]->0
                < closed_count(last) by {
                if j != i {
                    assert(after[j] == last[j]);
                }
            }
        }
        assert forall|j: int| 0 <= j < last.len() && (#[trigger] last[j]) is At implies lifted(
            last,
            resolved[j],
            last[j]->0,
        ) by {
            if j == i {
                lemma_lifted_kept(after, last, deps, level);
            } else {
                assert(after[j] == last[j]);
                lemma_lifted_kept(after, last, resolved[j], after[j]->0);
            }
        }
    }
}

proof fn lemma_visit_all_keeps(
    resolved: Seq<Seq<usize>>,
    marks: Seq<Mark>,
    deps: Seq<usize>,
    depth: nat,
)
    requires
        within(resolved),
        marks.len() == resolved.len(),
        forall|k: int| 0 <= k < deps.len() ==> (#[trigger] deps[k]) < resolved.len(),
        unseen(marks) <= depth,
        levels_fit(marks),
        all_lifted(resolved, marks),
    ensures
        kept(marks, visit_all(resolved, marks, deps, depth).0),
        levels_fit(visit_all(resolved, marks, deps, depth).0),
        all_lifted(resolved, visit_all(resolved, marks, deps, depth).0),
        lifted(
            visit_all(resolved, marks, deps, depth).0,
            deps,
            visit_all(resolved, marks, deps, depth).1,
        ),
        visit_all(resolved, marks, deps, depth).1 <= closed_count(
            visit_all(resolved, marks, deps, depth).0,
        ),
    decreases depth, deps.len(),
{
    if deps.len() > 0 {
        let fewer = deps.drop_last();
        let d = deps.last() as int;
        assert(deps[deps.len() - 1] == deps.last());
        assert forall|k: int| 0 <= k < fewer.len() implies (#[trigger] fewer[k])
            < resolved.len() by {
            assert(deps[k] == fewer[k]);
        }
        lemma_visit_all_keeps(resolved, marks, fewer, depth);
        let (before, level) = visit_all(resolved, marks, fewer, depth);
        lemma_visit_keeps(resolved, before, d, depth);
        let after = visit(resolved, before, d, depth);
        let own = lift(after[d]);
        let high = if own > level {
            own
        } else {
            level
        };
        assert(visit_all(resolved, marks, deps, depth) == (after, high));
        assert forall|j: int| 0 <= j < marks.len() && !(
        marks[j] is Unseen) implies #[trigger] after[j] == marks[j] by {
            assert(before[j] == marks[j]);
        }
        if own > level {
            assert(after[deps[deps.len() - 1] as int] == Mark::At((high - 1) as nat));
        } else {
            lemma_lifted_kept(before, after, fewer, level);
            if level > 0 {
                let k = choose|k: int|
                    0 <= k < fewer.len() && after[(#[trigger] fewer[k]) as int] == Mark::At(
                        (level - 1) as nat,
                    );
                assert(deps[k] == fewer[k]);
            }
        }
    }
}

proof fn lemma_visit_first_keeps(resolved: Seq<Seq<usize>>, count: nat)
    requires
        within(resolved),
        count <= resolved.len(),
    ensures
        visit_first(resolved, count).len() == resolved.len(),
        levels_fit(visit_first(resolved, count)),
        all_lifted(resolved, visit_first(resolved, count)),
        forall|j: int| 0 <= j < resolved.len() ==> !((#[trigger] visit_first(resolved, count)[j])
            is Open),
        forall|j: int| 0 <= j < count ==> (#[trigger] visit_first(resolved, count)[j]) is At,
    decreases count,
{
    if count > 0 {
        let less = (count - 1) as nat;
        let before = visit_first(resolved, less);
        let marks = visit_first(resolved, count);
        lemma_visit_first_keeps(resolved, less);
        lemma_count_bound(before);
        lemma_visit_keeps(resolved, before, count - 1, resolved.len());
        lemma_visit_opens(resolved, before, count - 1, resolved.len());
        assert forall|j: int| 0 <= j < count implies (#[trigger] marks[j]) is At by {
            if j < less {
                assert(before[j] is At);
            } else {
                assert(!(before[j] is Open));
            }
        }
    }
}

/// Asking a node leaves no further node open.
proof fn lemma_visit_opens(
    resolved: Seq<Seq<usize>>,
    marks: Seq<Mark>,
    i: int,
    depth: nat,
)
    requires
        within(resolved),
        marks.len() == resolved.len(),
        0 <= i < resolved.len(),
    ensures
        visit(resolved, marks, i, depth).len() == marks.len(),
        forall|j: int|
            0 <= j < marks.len() && (#[trigger] visit(resolved, marks, i, depth)[j]) is Open
                ==> marks[j] is Open,
    decreases depth, 0nat,
{
    if marks[i] is Unseen && depth > 0 {
        let opened = marks.update(i, Mark::Open);
        let deps = resolved[i];
        assert forall|k: int| 0 <= k < deps.len() implies (#[trigger] deps[k])
            < resolved.len() by {
            assert(resolved[i][k] == deps[k]);
        }
        lemma_visit_all_opens(resolved, opened, deps, (depth - 1) as nat);
    }
}

proof fn lemma_visit_all_opens(
    resolved: Seq<Seq<usize>>,
    marks: Seq<Mark>,
    deps: Seq<usize>,
    depth: nat,
)
    requires
        within(resolved),
        marks.len() == resolved.len(),
        forall|k: int| 0 <= k < deps.len() ==> (#[trigger] deps[k]) < resolved.len(),
    ensures
        visit_all(resolved, marks, deps, depth).0.len() == marks.len(),
        forall|j: int|
            0 <= j < marks.len() && (#[trigger] visit_all(resolved, marks, deps, depth).0[j])
                is Open ==> marks[j] is Open,
    decreases depth, deps.len(),
{
    if deps.len() > 0 {
        let fewer = deps.drop_last();
        assert(deps[deps.len() - 1] == deps.last());
        assert forall|k: int| 0 <= k < fewer.len() implies (#[trigger] fewer[k])
            < resolved.len() by {
            assert(deps[k] == fewer[k]);
        }
        lemma_visit_all_opens(resolved, marks, fewer, depth);
        lemma_visit_opens(
            resolved,
            visit_all(resolved, marks, fewer, depth).0,
            deps.last() as int,
            depth,
        );
    }
}

// ---------------------------------------------------------------------------
// The levels
// ---------------------------------------------------------------------------

/// What was found out about a node.
#[derive(Clone, Copy)]
enum Seen {
    Unseen,
    Open,
    At(usize),
}

spec fn mark_of(seen: Seen) -> Mark {
    match seen {
        Seen::Unseen => Mark::Unseen,
        Seen::Open => Mark::Open,
        Seen::At(level) => Mark::At(level as nat),
    }
}

spec fn marks_of(seen: Seq<Seen>) -> Seq<Mark> {
    seen.map_values(|s: Seen| mark_of(s))
}

/// Works out the level of node `i`; the result is how far it lifts its
/// dependents.
fn walk(
    i: usize,
    resolved: &Vec<Vec<usize>>,
    seen: &mut Vec<Seen>,
    Ghost(depth): Ghost<nat>,
) -> (r: usize)
    requires
        within(resolved.deep_view()),
        i < resolved.len(),
        old(seen).len() == resolved.len(),
        unseen(marks_of(old(seen)@)) <= depth,
        levels_fit(marks_of(old(seen)@)),
        all_lifted(resolved.deep_view(), marks_of(old(seen)@)),
    ensures
        final(seen).len() == resolved.len(),
        marks_of(final(seen)@) == visit(
            resolved.deep_view(),
            marks_of(old(seen)@),
            i as int,
            depth,
        ),
        r == lift(marks_of(final(seen)@)[i as int]),
    decreases depth,
{
    let ghost all = resolved.deep_view();
    let ghost first = marks_of(seen@);
    proof {
        lemma_count_bound(first);
        assert(first[i as int] == mark_of(seen@[i as int]));
    }
    match seen[i] {
        Seen::At(level) => {
            return level + 1;
        },
        Seen::Open => {
            return 0;
        },
        Seen::Unseen => {},
    }
    proof {
        lemma_count_update(first, i as int, Mark::Open);
        lemma_visit_keeps(all, first, i as int, depth);
    }
    seen.set(i, Seen::Open);
    let ghost second = marks_of(seen@);
    assert(second =~= first.update(i as int, Mark::Open));
    assert(levels_fit(second)) by {
        assert forall|j: int| 0 <= j < second.len() && (#[trigger] second[j]) is At implies second[j]->0
            < closed_count(second) by {
            assert(first[j] == second[j]);
        }
    }
    assert(all_lifted(all, second)) by {
        assert forall|j: int| 0 <= j < second.len() && (#[trigger] second[j]) is At implies lifted(
            second,
            all[j],
            second[j]->0,
        ) by {
            assert(first[j] == second[j]);
            assert forall|k: int| 0 <= k < all[j].len() implies (#[trigger] all[j][k])
                < first.len() by {}
            lemma_lifted_kept(first, second, all[j], first[j]->0);
        }
    }
    let deps = &resolved[i];
    assert(all[i as int] =~= deps@);
    let mut level: usize = 0;
    let mut k: usize = 0;
    assert(deps@.take(0) =~= Seq::<usize>::empty());
    while k < deps.len()
        invariant
            all == resolved.deep_view(),
            within(all),
            i < resolved.len(),
            all[i as int] == deps@,
            depth > 0,
            seen.len() == resolved.len(),
            k <= deps.len(),
            second.len() == resolved.len(),
            unseen(second) < depth,
            levels_fit(second),
            all_lifted(all, second),
            visit_all(all, second, deps@.take(k as int), (depth - 1) as nat) == (
                marks_of(seen@),
                level as nat,
            ),
        decreases deps.len() - k,
    {
        let d = deps[k];
        proof {
            assert(all[i as int][k as int] < all.len());
            assert forall|m: int| 0 <= m < k implies (#[trigger] deps@.take(k as int)[m])
                < all.len() by {
                assert(all[i as int][m] < all.len());
            }
            lemma_visit_all_keeps(all, second, deps@.take(k as int), (depth - 1) as nat);
        }
        assert(deps@.take(k + 1).drop_last() =~= deps@.take(k as int));
        let own = walk(d, resolved, seen, Ghost((depth - 1) as nat));
        if own > level {
            level = own;
        }
        k += 1;
    }
    assert(deps@.take(k as int) =~= deps@);
    let ghost third = marks_of(seen@);
    proof {
        assert forall|m: int| 0 <= m < deps@.len() implies (#[trigger] deps@[m]) < all.len() by {
            assert(all[i as int][m] < all.len());
        }
        lemma_visit_all_keeps(all, second, deps@, (depth - 1) as nat);
        lemma_count_bound(third.update(i as int, Mark::At(level as nat)));
        assert(third[i as int] == second[i as int]);
        lemma_count_update(third, i as int, Mark::At(level as nat));
    }
    seen.set(i, Seen::At(level));
    assert(marks_of(seen@) =~= third.update(i as int, Mark::At(level as nat)));
    level + 1
}

/// The level of each node. With cycles, too, it is below the number of nodes.
pub fn longest_path_levels(resolved: &Vec<Vec<usize>>) -> (r: Vec<usize>)
    requires
        within(resolved.deep_view()),
    ensures
        r.len() == resolved.len(),
        r@.map_values(|l: usize| l as nat) == levels_of(resolved.deep_view()),
        forall|i: int| 0 <= i < r.len() ==> #[trigger] r@[i] < resolved.len(),
{
    let ghost all = resolved.deep_view();
    let mut seen: Vec<Seen> = Vec::new();
    let mut i: usize = 0;
    while i < resolved.len()
        invariant
            i <= resolved.len(),
            seen.len() == i,
            forall|j: int| 0 <= j < i ==> #[trigger] seen@[j] == Seen::Unseen,
        decreases resolved.len() - i,
    {
        seen.push(Seen::Unseen);
        i += 1;
    }
    assert(marks_of(seen@) =~= visit_first(all, 0));
    i = 0;
    while i < resolved.len()
        invariant
            all == resolved.deep_view(),
            within(all),
            i <= resolved.len(),
            seen.len() == resolved.len(),
            marks_of(seen@) == visit_first(all, i as nat),
        decreases resolved.len() - i,
    {
        proof {
            lemma_visit_first_keeps(all, i as nat);
            lemma_count_bound(marks_of(seen@));
        }
        walk(i, resolved, &mut seen, Ghost(resolved.len() as nat));
        i += 1;
    }
    let ghost marks = marks_of(seen@);
    proof {
        lemma_visit_first_keeps(all, all.len());
        lemma_count_bound(marks);
    }
    let mut out: Vec<usize> = Vec::new();
    i = 0;
    while i < seen.len()
        invariant
            i <= seen.len(),
            seen.len() == resolved.len(),
            marks == marks_of(seen@),
            levels_fit(marks),
            closed_count(marks) <= marks.len(),
            out.len() == i,
            forall|j: int| 0 <= j < i ==> (#[trigger] out@[j]) as nat == level_in(marks[j]),
            forall|j: int| 0 <= j < i ==> #[trigger] out@[j] < resolved.len(),
        decreases seen.len() - i,
    {
        assert(marks[i as int] == mark_of(seen@[i as int]));
        let level: usize = match seen[i] {
            Seen::At(level) => level,
            _ => 0,
        };
        out.push(level);
        i += 1;
    }
    assert(out@.map_values(|l: usize| l as nat) =~= levels_of(all));
    out
}

// ---------------------------------------------------------------------------
// Laws
// ---------------------------------------------------------------------------

/// Every node has a level below the number of nodes, with cycles too, and a
/// node above level 0 has a dependency on the level just below its own.
pub proof fn lemma_levels(resolved: Seq<Seq<usize>>)
    requires
        within(resolved),
    ensures
        levels_of(resolved).len() == resolved.len(),
        forall|i: int|
            0 <= i < resolved.len() ==> #[trigger] levels_of(resolved)[i] < resolved.len(),
        forall|i: int|
            0 <= i < resolved.len() && #[trigger] levels_of(resolved)[i] > 0 ==> exists|k: int|
                0 <= k < resolved[i].len() && levels_of(resolved)[(
                #[trigger] resolved[i][k]) as int] + 1 == levels_of(resolved)[i],
{
    let levels = levels_of(resolved);
    let marks = visit_first(resolved, resolved.len());
    lemma_visit_first_keeps(resolved, resolved.len());
    lemma_count_bound(marks);
    assert forall|i: int| 0 <= i < resolved.len() implies #[trigger] levels[i]
        < resolved.len() by {
        assert(marks[i] is At);
    }
    assert forall|i: int| 0 <= i < resolved.len() && #[trigger] levels[i]
        > 0 implies exists|k: int|
        0 <= k < resolved[i].len() && levels[(#[trigger] resolved[i][k]) as int] + 1
            == levels[i] by {
        assert(marks[i] is At);
        assert(lifted(marks, resolved[i], marks[i]->0));
        let k = choose|k: int|
            0 <= k < resolved[i].len() && marks[(#[trigger] resolved[i][k]) as int] == Mark::At(
                (marks[i]->0 - 1) as nat,
            );
        assert(levels[resolved[i][k] as int] + 1 == levels[i]);
    }
}

/// `height` is lower at each dependency of a node than at the node, so no
/// chain of dependencies comes back to where it began.
pub open spec fn acyclic(resolved: Seq<Seq<usize>>, height: spec_fn(int) -> nat) -> bool {
    forall|i: int, k: int|
        0 <= i < resolved.len() && 0 <= k < resolved[i].len() ==> height(
            (#[trigger] resolved[i][k]) as int,
        ) < height(i)
}

/// All of `deps` have levels, below `level`.
spec fn all_below(marks: Seq<Mark>, deps: Seq<usize>, level: nat) -> bool {
    forall|k: int|
        0 <= k < deps.len() ==> marks[(#[trigger] deps[k]) as int] is At
            && marks[deps[k] as int]->0 < level
}

/// The levels of nodes below `top` are above those of their dependencies, and
/// no such node is being worked out.
spec fn settled(
    resolved: Seq<Seq<usize>>,
    marks: Seq<Mark>,
    height: spec_fn(int) -> nat,
    top: nat,
) -> bool {
    forall|j: int|
        0 <= j < resolved.len() && height(j) < top ==> {
            &&& !((#[trigger] marks[j]) is Open)
            &&& marks[j] is At ==> all_below(marks, resolved[j], marks[j]->0)
        }
}

/// What was known stays, and what is new lies below `top`.
spec fn grows(
    marks: Seq<Mark>,
    after: Seq<Mark>,
    height: spec_fn(int) -> nat,
    top: nat,
) -> bool {
    &&& after.len() == marks.len()
    &&& unseen(after) <= unseen(marks)
    &&& forall|j: int|
        0 <= j < marks.len() && !(marks[j] is Unseen) ==> #[trigger] after[j] == marks[j]
    &&& forall|j: int|
        0 <= j < marks.len() && marks[j] is Unseen && !((#[trigger] after[j]) is Unseen) ==> height(
            j,
        ) < top
}

proof fn lemma_below_kept(marks: Seq<Mark>, after: Seq<Mark>, deps: Seq<usize>, level: nat)
    requires
        all_below(marks, deps, level),
        forall|k: int| 0 <= k < deps.len() ==> (#[trigger] deps[k]) < marks.len(),
        after.len() == marks.len(),
        forall|j: int| 0 <= j < marks.len() && marks[j] is At ==> #[trigger] after[j] == marks[j],
    ensures
        all_below(after, deps, level),
{
    assert forall|k: int| 0 <= k < deps.len() implies after[(#[trigger] deps[k]) as int] is At
        && after[deps[k] as int]->0 < level by {
        assert(marks[deps[k] as int] is At);
    }
}

proof fn lemma_visit_settles(
    resolved: Seq<Seq<usize>>,
    marks: Seq<Mark>,
    i: int,
    depth: nat,
    height: spec_fn(int) -> nat,
    top: nat,
)
    requires
        within(resolved),
        acyclic(resolved, height),
        marks.len() == resolved.len(),
        0 <= i < resolved.len(),
        height(i) < top,
        unseen(marks) <= depth,
        settled(resolved, marks, height, top),
    ensures
        settled(resolved, visit(resolved, marks, i, depth), height, top),
        grows(marks, visit(resolved, marks, i, depth), height, top),
        visit(resolved, marks, i, depth)[i] is At,
    decreases depth, 0nat,
{
    if marks[i] is Unseen {
        lemma_count_bound(marks);
        lemma_count_update(marks, i, Mark::Open);
        let opened = marks.update(i, Mark::Open);
        let deps = resolved[i];
        let inner = (depth - 1) as nat;
        assert forall|j: int, k: int|
            0 <= j < resolved.len() && 0 <= k < resolved[j].len() implies (
        #[trigger] resolved[j][k]) < marks.len() by {}
        assert(settled(resolved, opened, height, height(i))) by {
            assert forall|j: int| 0 <= j < resolved.len() && height(j) < height(i) implies {
                &&& !((#[trigger] opened[j]) is Open)
                &&& opened[j] is At ==> all_below(opened, resolved[j], opened[j]->0)
            } by {
                assert(opened[j] == marks[j]);
                if marks[j] is At {
                    assert(all_below(marks, resolved[j], marks[j]->0));
                    lemma_below_kept(marks, opened, resolved[j], marks[j]->0);
                }
            }
        }
        assert forall|k: int| 0 <= k < deps.len() implies (#[trigger] deps[k]) < resolved.len()
            && height(deps[k] as int) < height(i) by {
            assert(resolved[i][k] == deps[k]);
        }
        lemma_visit_all_settles(resolved, opened, deps, inner, height, height(i));
        let (after, level) = visit_all(resolved, opened, deps, inner);
        let last = after.update(i, Mark::At(level));
        assert(after[i] == opened[i]);
        lemma_count_update(after, i, Mark::At(level));
        assert(grows(marks, last, height, top)) by {
            assert forall|j: int| 0 <= j < marks.len() && !(
            marks[j] is Unseen) implies #[trigger] last[j] == marks[j] by {
                assert(opened[j] == marks[j]);
                assert(after[j] == opened[j]);
            }
            assert forall|j: int|
                0 <= j < marks.len() && marks[j] is Unseen && !((
                #[trigger] last[j]) is Unseen) implies height(j) < top by {
                if j != i {
                    assert(opened[j] is Unseen);
                    assert(!(after[j] is Unseen));
                }
            }
        }
        assert forall|j: int| 0 <= j < resolved.len() && height(j) < top implies {
            &&& !((#[trigger] last[j]) is Open)
            &&& last[j] is At ==> all_below(last, resolved[j], last[j]->0)
        } by {
            if j == i {
                lemma_below_kept(after, last, deps, level);
            } else if !(marks[j] is Unseen) {
                assert(last[j] == marks[j]);
                if marks[j] is At {
                    assert(all_below(marks, resolved[j], marks[j]->0));
                    lemma_below_kept(marks, last, resolved[j], marks[j]->0);
                }
            } else if !(after[j] is Unseen) {
                assert(opened[j] is Unseen);
                assert(height(j) < height(i));
                assert(!(after[j] is Open));
                assert(all_below(after, resolved[j], after[j]->0));
                lemma_below_kept(after, last, resolved[j], after[j]->0);
            }
        }
    } else {
        assert(!(marks[i] is Open));
    }
}

proof fn lemma_visit_all_settles(
    resolved: Seq<Seq<usize>>,
    marks: Seq<Mark>,
    deps: Seq<usize>,
    depth: nat,
    height: spec_fn(int) -> nat,
    top: nat,
)
    requires
        within(resolved),
        acyclic(resolved, height),
        marks.len() == resolved.len(),
        forall|k: int|
            0 <= k < deps.len() ==> (#[trigger] deps[k]) < resolved.len() && height(deps[k] as int)
                < top,
        unseen(marks) <= depth,
        settled(resolved, marks, height, top),
    ensures
        settled(resolved, visit_all(resolved, marks, deps, depth).0, height, top),
        grows(marks, visit_all(resolved, marks, deps, depth).0, height, top),
        all_below(
            visit_all(resolved, marks, deps, depth).0,
            deps,
            visit_all(resolved, marks, deps, depth).1,
        ),
    decreases depth, deps.len(),
{
    if deps.len() > 0 {
        let fewer = deps.drop_last();
        let d = deps.last();
        assert(deps[deps.len() - 1] == d);
        assert forall|k: int| 0 <= k < fewer.len() implies (#[trigger] fewer[k]) < resolved.len()
            && height(fewer[k] as int) < top by {
            assert(deps[k] == fewer[k]);
        }
        lemma_visit_all_settles(resolved, marks, fewer, depth, height, top);
        let (before, level) = visit_all(resolved, marks, fewer, depth);
        lemma_visit_settles(resolved, before, d as int, depth, height, top);
        let after = visit(resolved, before, d as int, depth);
        lemma_below_kept(before, after, fewer, level);
        let own = lift(after[d as int]);
        let high = if own > level {
            own
        } else {
            level
        };
        assert(visit_all(resolved, marks, deps, depth) == (after, high));
        assert(grows(marks, after, height, top)) by {
            assert forall|j: int|
                0 <= j < marks.len() && marks[j] is Unseen && !((
                #[trigger] after[j]) is Unseen) implies height(j) < top by {
                if before[j] is Unseen {
                }
            }
            assert forall|j: int| 0 <= j < marks.len() && !(
            marks[j] is Unseen) implies #[trigger] after[j] == marks[j] by {
                assert(before[j] == marks[j]);
            }
        }
        assert forall|k: int| 0 <= k < deps.len() implies after[(#[trigger] deps[k]) as int] is At
            && after[deps[k] as int]->0 < high by {
            if k < fewer.len() {
                assert(fewer[k] == deps[k]);
            }
        }
    }
}

proof fn lemma_visit_first_settles(
    resolved: Seq<Seq<usize>>,
    count: nat,
    height: spec_fn(int) -> nat,
    top: nat,
)
    requires
        within(resolved),
        acyclic(resolved, height),
        count <= resolved.len(),
        forall|i: int| 0 <= i < resolved.len() ==> #[trigger] height(i) < top,
    ensures
        visit_first(resolved, count).len() == resolved.len(),
        settled(resolved, visit_first(resolved, count), height, top),
    decreases count,
{
    if count > 0 {
        let less = (count - 1) as nat;
        let before = visit_first(resolved, less);
        lemma_visit_first_settles(resolved, less, height, top);
        lemma_count_bound(before);
        assert(height(less as int) < top);
        lemma_visit_settles(resolved, before, less as int, resolved.len(), height, top);
    }
}

/// A number above the heights of the first `count` nodes.
spec fn above(height: spec_fn(int) -> nat, count: nat) -> nat
    decreases count,
{
    if count == 0 {
        0
    } else {
        height(count - 1) + 1 + above(height, (count - 1) as nat)
    }
}

proof fn lemma_above(height: spec_fn(int) -> nat, count: nat)
    ensures
        forall|j: int| 0 <= j < count ==> #[trigger] height(j) < above(height, count),
    decreases count,
{
    if count > 0 {
        lemma_above(height, (count - 1) as nat);
    }
}

/// Where no chain of dependencies comes back to where it began, a node
/// without dependencies has level 0, and every other node stands just above
/// the highest of its dependencies: its level is the length of its longest
/// chain.
pub proof fn lemma_levels_acyclic(
    resolved: Seq<Seq<usize>>,
    height: spec_fn(int) -> nat,
    i: int,
)
    requires
        within(resolved),
        acyclic(resolved, height),
        0 <= i < resolved.len(),
    ensures
        levels_of(resolved).len() == resolved.len(),
        resolved[i].len() == 0 ==> levels_of(resolved)[i] == 0,
        forall|k: int|
            0 <= k < resolved[i].len() ==> levels_of(resolved)[(#[trigger] resolved[i][k]) as int]
                < levels_of(resolved)[i],
        resolved[i].len() > 0 ==> exists|k: int|
            0 <= k < resolved[i].len() && levels_of(resolved)[i] == levels_of(
                resolved,
            )[(#[trigger] resolved[i][k]) as int] + 1,
{
    let n = resolved.len();
    let top = above(height, n);
    let levels = levels_of(resolved);
    lemma_above(height, n);
    lemma_visit_first_settles(resolved, n, height, top);
    lemma_visit_first_keeps(resolved, n);
    lemma_levels(resolved);
    let marks = visit_first(resolved, n);
    assert(marks[i] is At);
    assert(height(i) < top);
    assert(all_below(marks, resolved[i], marks[i]->0));
    assert forall|k: int| 0 <= k < resolved[i].len() implies levels[(
    #[trigger] resolved[i][k]) as int] < levels[i] by {
        assert(marks[resolved[i][k] as int] is At);
    }
    if resolved[i].len() > 0 {
        assert(levels[resolved[i][0] as int] < levels[i]);
    }
    if levels[i] > 0 {
        let k = choose|k: int|
            0 <= k < resolved[i].len() && levels[(#[trigger] resolved[i][k]) as int] + 1
                == levels[i];
        assert(levels[i] == levels[resolved[i][k] as int] + 1);
    }
}

} // verus!
