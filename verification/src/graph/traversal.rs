//! Traversals of a graph over the vertices `0 .. n`, given by its
//! adjacency table: depth first, with the call stack or with a stack of
//! its own, and breadth first.

use vstd::prelude::*;
use std::collections::VecDeque;
use super::index_search::{adjacency_ok, as_ints, graph_of, lemma_graph_wf, lemma_row_entry};
use super::shortest_path::IndexGraph;

verus! {

/// The number of vertices that have not been seen.
pub open spec fn unseen(seen: Seq<bool>) -> nat
    decreases seen.len(),
{
    if seen.len() == 0 {
        0
    } else {
        unseen(seen.drop_last()) + if seen[seen.len() - 1] {
            0nat
        } else {
            1nat
        }
    }
}

/// The number of entries of `pending` that name a vertex seen already.
pub open spec fn stale(pending: Seq<usize>, seen: Seq<bool>) -> nat
    decreases pending.len(),
{
    if pending.len() == 0 {
        0
    } else {
        stale(pending.drop_last(), seen) + if seen[pending[pending.len() - 1] as int] {
            1nat
        } else {
            0nat
        }
    }
}

/// Marking an unseen vertex as seen leaves one unseen vertex less.
pub proof fn lemma_unseen_marked(seen: Seq<bool>, v: int)
    requires
        0 <= v < seen.len(),
        !seen[v],
    ensures
        unseen(seen.update(v, true)) + 1 == unseen(seen),
    decreases seen.len(),
{
    let marked = seen.update(v, true);
    if v == seen.len() - 1 {
        assert(marked.drop_last() =~= seen.drop_last());
    } else {
        lemma_unseen_marked(seen.drop_last(), v);
        assert(marked.drop_last() =~= seen.drop_last().update(v, true));
    }
}

/// Taking the first entry out of the pending ones takes its share out of
/// the stale ones.
pub proof fn lemma_stale_front(pending: Seq<usize>, seen: Seq<bool>)
    requires
        pending.len() > 0,
    ensures
        stale(pending, seen) == stale(pending.drop_first(), seen) + if seen[pending[0] as int] {
            1nat
        } else {
            0nat
        },
    decreases pending.len(),
{
    if pending.len() == 1 {
        assert(pending.drop_last() =~= Seq::<usize>::empty());
        assert(pending.drop_first() =~= Seq::<usize>::empty());
    } else {
        lemma_stale_front(pending.drop_last(), seen);
        assert(pending.drop_last().drop_first() =~= pending.drop_first().drop_last());
    }
}

/// `to` can be reached from `from` by following edges.
pub open spec fn reaches(g: IndexGraph, from: int, to: int) -> bool {
    g.reachable(from, to)
}

/// Every vertex reaches itself, and what a vertex reaches reaches what
/// its edges lead to.
pub proof fn lemma_reaches_step(g: IndexGraph, from: int, via: int, to: int)
    requires
        g.wf(),
        0 <= from < g.n,
    ensures
        reaches(g, from, from),
        reaches(g, from, via) && g.has_edge(via, to) ==> reaches(g, from, to),
{
    assert(g.connects(seq![from], from, from));
    if reaches(g, from, via) && g.has_edge(via, to) {
        let p = choose|p: Seq<int>| g.connects(p, from, via);
        let q = p.push(to);
        assert(g.weight.contains_key((via, to)));
        assert forall|i: int| 0 <= i < q.len() - 1 implies g.has_edge(#[trigger] q[i], q[i + 1]) by {
            if i < p.len() - 1 {
                assert(g.has_edge(p[i], p[i + 1]));
                assert(q[i] == p[i] && q[i + 1] == p[i + 1]);
            }
        }
        assert forall|i: int| 0 <= i < q.len() implies 0 <= #[trigger] q[i] < g.n by {
            if i < p.len() {
                assert(q[i] == p[i]);
            }
        }
        assert(g.connects(q, from, to));
    }
}

/// A set of vertices that holds `from` and, with each of its vertices,
/// what the edges of that vertex lead to, holds everything that `from`
/// reaches.
pub proof fn lemma_closed_holds_reachable(g: IndexGraph, seen: Seq<bool>, from: int, to: int)
    requires
        g.wf(),
        seen.len() == g.n,
        0 <= from < g.n,
        seen[from],
        forall|u: int, w: int| 0 <= u < g.n && seen[u] && #[trigger] g.has_edge(u, w) ==> seen[w],
        reaches(g, from, to),
    ensures
        seen[to],
{
    let p = choose|p: Seq<int>| g.connects(p, from, to);
    lemma_path_stays(g, seen, p, p.len() - 1);
}

proof fn lemma_path_stays(g: IndexGraph, seen: Seq<bool>, p: Seq<int>, i: int)
    requires
        g.wf(),
        seen.len() == g.n,
        g.is_path(p),
        seen[p[0]],
        forall|u: int, w: int| 0 <= u < g.n && seen[u] && #[trigger] g.has_edge(u, w) ==> seen[w],
        0 <= i < p.len(),
    ensures
        seen[p[i]],
    decreases i,
{
    if i > 0 {
        lemma_path_stays(g, seen, p, i - 1);
        assert(g.has_edge(p[i - 1], p[i - 1 + 1]));
        assert(0 <= p[i - 1] < g.n);
    }
}

/// What a traversal from `start` has to give: the vertices that `start`
/// reaches, `start` first.
pub open spec fn traversal_of(g: IndexGraph, start: int, order: Seq<int>) -> bool {
    &&& order.len() > 0
    &&& order[0] == start
    &&& forall|v: int| order.contains(v) <==> reaches(g, start, v)
}

/// The state of a traversal is sound: the list holds the seen vertices,
/// which `start` reaches.
spec fn visited_ok(g: IndexGraph, start: int, seen: Seq<bool>, result: Seq<usize>) -> bool {
    &&& seen.len() == g.n
    &&& forall|i: int| 0 <= i < result.len() ==> (#[trigger] result[i]) < g.n && seen[result[i] as int]
    &&& forall|v: int| 0 <= v < g.n && #[trigger] seen[v] ==> as_ints(result).contains(v)
    &&& forall|v: int| 0 <= v < g.n && #[trigger] seen[v] ==> reaches(g, start, v)
}

/// Visits `v` and, through the call stack, every vertex that can be
/// reached from it without passing a vertex seen before.
fn visit(
    rows: &Vec<Vec<(usize, u32)>>,
    v: usize,
    result: &mut Vec<usize>,
    seen: &mut Vec<bool>,
    Ghost(start): Ghost<int>,
)
    requires
        adjacency_ok(rows@),
        v < rows@.len(),
        0 <= start < rows@.len(),
        visited_ok(graph_of(rows@), start, old(seen)@, old(result)@),
        !old(seen)@[v as int],
        reaches(graph_of(rows@), start, v as int),
        as_ints(old(result)@).no_duplicates(),
    ensures
        visited_ok(graph_of(rows@), start, final(seen)@, final(result)@),
        as_ints(final(result)@).no_duplicates(),
        final(seen)@[v as int],
        final(result)@.len() > old(result)@.len(),
        final(result)@.subrange(0, old(result)@.len() as int) == old(result)@,
        final(result)@[old(result)@.len() as int] == v,
        forall|u: int| 0 <= u < rows@.len() && old(seen)@[u] ==> #[trigger] final(seen)@[u],
        forall|u: int, w: int|
            0 <= u < rows@.len() && final(seen)@[u] && !old(seen)@[u] && #[trigger] graph_of(
                rows@,
            ).has_edge(u, w) ==> final(seen)@[w],
    decreases unseen(old(seen)@),
{
    let ghost g = graph_of(rows@);
    let ghost seen0 = seen@;
    let ghost result0 = result@;
    let n = rows.len();
    proof {
        lemma_graph_wf(rows@);
        lemma_unseen_marked(seen0, v as int);
    }
    result.push(v);
    seen.set(v, true);
    proof {
        assert(as_ints(result@) =~= as_ints(result0).push(v as int));
        assert forall|u: int| 0 <= u < g.n && #[trigger] seen@[u] implies as_ints(
            result@,
        ).contains(u) by {
            if u == v {
                assert(as_ints(result@)[result0.len() as int] == v);
            } else {
                assert(as_ints(result0).contains(u));
                let i = as_ints(result0).index_of(u);
                assert(as_ints(result@)[i] == u);
            }
        }
        assert forall|i: int, j: int|
            0 <= i < result@.len() && 0 <= j < result@.len() && i != j implies as_ints(result@)[i]
            != as_ints(result@)[j] by {
            if i < result0.len() && j < result0.len() {
                assert(as_ints(result0)[i] != as_ints(result0)[j]);
            } else if i < result0.len() {
                assert(seen0[result0[i] as int]);
            } else {
                assert(seen0[result0[j] as int]);
            }
        }
    }
    let mut k: usize = 0;
    while k < rows[v].len()
        invariant
            adjacency_ok(rows@),
            g == graph_of(rows@),
            g.wf(),
            n == rows@.len(),
            v < n,
            0 <= start < n,
            seen0.len() == n,
            seen0 == old(seen)@,
            !seen0[v as int],
            k <= rows@[v as int]@.len(),
            visited_ok(g, start, seen@, result@),
            as_ints(result@).no_duplicates(),
            seen@[v as int],
            reaches(g, start, v as int),
            result@.len() > result0.len(),
            result@.subrange(0, result0.len() as int) == result0,
            result@[result0.len() as int] == v,
            unseen(seen@) < unseen(seen0),
            forall|u: int| 0 <= u < n && seen0[u] ==> #[trigger] seen@[u],
            forall|u: int, w: int|
                0 <= u < n && seen@[u] && !seen0[u] && u != v && #[trigger] g.has_edge(u, w)
                    ==> seen@[w],
            forall|j: int| 0 <= j < k ==> seen@[(#[trigger] rows@[v as int]@[j]).0 as int],
        decreases rows@[v as int]@.len() - k,
    {
        let neighbor = rows[v][k].0;
        proof {
            lemma_row_entry(rows@, v as int, k as int);
            lemma_reaches_step(g, start, v as int, neighbor as int);
        }
        if !seen[neighbor] {
            let ghost seen1 = seen@;
            let ghost result1 = result@;
            visit(rows, neighbor, result, seen, Ghost(start));
            proof {
                assert(result@.subrange(0, result0.len() as int) =~= result1.subrange(
                    0,
                    result1.len() as int,
                ).subrange(0, result0.len() as int));
                assert(result@[result0.len() as int] == result@.subrange(
                    0,
                    result1.len() as int,
                )[result0.len() as int]);
                lemma_unseen_marked(seen1, neighbor as int);
                lemma_unseen_grows(seen1.update(neighbor as int, true), seen@);
            }
        }
        k += 1;
    }
    proof {
        assert forall|u: int, w: int|
            0 <= u < n && seen@[u] && !seen0[u] && #[trigger] g.has_edge(u, w) implies seen@[w] by {
            if u == v {
                assert(g.weight.contains_key((v as int, w)));
                let j = choose|j: int|
                    0 <= j < rows@[v as int]@.len() && (#[trigger] rows@[v as int]@[j]).0 == w;
                assert(seen@[rows@[v as int]@[j].0 as int]);
            }
        }
    }
}

/// Seeing more vertices leaves no more vertices unseen.
pub proof fn lemma_unseen_grows(before: Seq<bool>, after: Seq<bool>)
    requires
        before.len() == after.len(),
        forall|u: int| 0 <= u < before.len() && before[u] ==> after[u],
    ensures
        unseen(after) <= unseen(before),
    decreases before.len(),
{
    if before.len() > 0 {
        lemma_unseen_grows(before.drop_last(), after.drop_last());
    }
}

/// Creates a vector that holds `n` times `false`.
fn nothing_seen(n: usize) -> (seen: Vec<bool>)
    ensures
        seen@.len() == n,
        forall|i: int| 0 <= i < n ==> !seen@[i],
{
    let mut seen: Vec<bool> = Vec::new();
    let mut i: usize = 0;
    while i < n
        invariant
            i <= n,
            seen@.len() == i,
            forall|j: int| 0 <= j < i ==> !seen@[j],
        decreases n - i,
    {
        seen.push(false);
        i += 1;
    }
    seen
}

/// Lists the vertices that `start` reaches, depth first: each vertex is
/// followed by what is reached through its first neighbour that has not
/// been seen, then through the next, and so on.
pub fn depth_first_recursive(rows: &Vec<Vec<(usize, u32)>>, start: usize) -> (order: Vec<usize>)
    requires
        adjacency_ok(rows@),
        start < rows@.len(),
    ensures
        traversal_of(graph_of(rows@), start as int, as_ints(order@)),
        as_ints(order@).no_duplicates(),
        forall|i: int| 0 <= i < order@.len() ==> order@[i] < rows@.len(),
{
    let ghost g = graph_of(rows@);
    let mut result: Vec<usize> = Vec::new();
    let mut seen = nothing_seen(rows.len());
    proof {
        lemma_graph_wf(rows@);
        lemma_reaches_step(g, start as int, start as int, start as int);
    }
    visit(rows, start, &mut result, &mut seen, Ghost(start as int));
    proof {
        assert forall|v: int| as_ints(result@).contains(v) <==> reaches(g, start as int, v) by {
            if as_ints(result@).contains(v) {
                let i = as_ints(result@).index_of(v);
                assert(seen@[result@[i] as int]);
            }
            if reaches(g, start as int, v) {
                let p = choose|p: Seq<int>| g.connects(p, start as int, v);
                assert(0 <= p[p.len() - 1] < g.n);
                lemma_closed_holds_reachable(g, seen@, start as int, v);
            }
        }
    }
    result
}

/// What holds while a traversal with a stack or a queue of its own is
/// under way: the pending vertices are vertices that `start` reaches, and
/// what the edges of a seen vertex lead to is seen or pending.
spec fn pending_ok(
    g: IndexGraph,
    start: int,
    seen: Seq<bool>,
    pending: Seq<usize>,
) -> bool {
    &&& forall|i: int|
        0 <= i < pending.len() ==> (#[trigger] pending[i]) < g.n && reaches(
            g,
            start,
            pending[i] as int,
        )
    &&& forall|u: int, w: int|
        0 <= u < g.n && seen[u] && #[trigger] g.has_edge(u, w) ==> seen[w] || as_ints(
            pending,
        ).contains(w)
    &&& seen[start] || as_ints(pending).contains(start)
}

/// Handles one vertex taken from the pending ones: it joins the list, it
/// is marked as seen, and its neighbours that have not been seen are
/// handed to the caller for the pending ones.
fn handle(
    rows: &Vec<Vec<(usize, u32)>>,
    v: usize,
    result: &mut Vec<usize>,
    seen: &mut Vec<bool>,
    Ghost(start): Ghost<int>,
) -> (found: Vec<usize>)
    requires
        adjacency_ok(rows@),
        v < rows@.len(),
        0 <= start < rows@.len(),
        reaches(graph_of(rows@), start, v as int),
        visited_ok(graph_of(rows@), start, old(seen)@, old(result)@),
    ensures
        visited_ok(graph_of(rows@), start, final(seen)@, final(result)@),
        final(seen)@ == old(seen)@.update(v as int, true),
        final(result)@ == old(result)@.push(v),
        forall|i: int|
            0 <= i < found@.len() ==> (#[trigger] found@[i]) < rows@.len()
                && !final(seen)@[found@[i] as int]
                && reaches(graph_of(rows@), start, found@[i] as int),
        forall|w: int| #[trigger]
            graph_of(rows@).has_edge(v as int, w) ==> final(seen)@[w] || as_ints(found@).contains(w),
{
    let ghost g = graph_of(rows@);
    let ghost result0 = result@;
    let ghost seen0 = seen@;
    proof {
        lemma_graph_wf(rows@);
    }
    result.push(v);
    seen.set(v, true);
    proof {
        assert(as_ints(result@) =~= as_ints(result0).push(v as int));
        assert forall|u: int| 0 <= u < g.n && #[trigger] seen@[u] implies as_ints(
            result@,
        ).contains(u) by {
            if u == v {
                assert(as_ints(result@)[result0.len() as int] == v);
            } else {
                assert(as_ints(result0).contains(u));
                let i = as_ints(result0).index_of(u);
                assert(as_ints(result@)[i] == u);
            }
        }
    }
    let mut found: Vec<usize> = Vec::new();
    let mut k: usize = 0;
    while k < rows[v].len()
        invariant
            adjacency_ok(rows@),
            g == graph_of(rows@),
            g.wf(),
            v < rows@.len(),
            0 <= start < rows@.len(),
            seen@.len() == rows@.len(),
            reaches(g, start, v as int),
            k <= rows@[v as int]@.len(),
            forall|i: int|
                0 <= i < found@.len() ==> (#[trigger] found@[i]) < rows@.len()
                    && !seen@[found@[i] as int] && reaches(g, start, found@[i] as int),
            forall|j: int|
                0 <= j < k ==> seen@[(#[trigger] rows@[v as int]@[j]).0 as int] || as_ints(
                    found@,
                ).contains(rows@[v as int]@[j].0 as int),
        decreases rows@[v as int]@.len() - k,
    {
        let neighbor = rows[v][k].0;
        let ghost before = found@;
        proof {
            lemma_row_entry(rows@, v as int, k as int);
            lemma_reaches_step(g, start, v as int, neighbor as int);
        }
        if !seen[neighbor] {
            found.push(neighbor);
            proof {
                assert(as_ints(found@)[before.len() as int] == neighbor);
            }
        }
        proof {
            assert forall|j: int| 0 <= j < k + 1 implies seen@[(
            #[trigger] rows@[v as int]@[j]).0 as int] || as_ints(found@).contains(
                rows@[v as int]@[j].0 as int,
            ) by {
                let w = rows@[v as int]@[j].0 as int;
                if j < k && !seen@[w] {
                    assert(as_ints(before).contains(w));
                    let i = as_ints(before).index_of(w);
                    assert(as_ints(found@)[i] == w);
                }
            }
        }
        k += 1;
    }
    proof {
        assert forall|w: int| #[trigger] g.has_edge(v as int, w) implies seen@[w] || as_ints(
            found@,
        ).contains(w) by {
            assert(g.weight.contains_key((v as int, w)));
            let j = choose|j: int|
                0 <= j < rows@[v as int]@.len() && (#[trigger] rows@[v as int]@[j]).0 == w;
            assert(seen@[rows@[v as int]@[j].0 as int] || as_ints(found@).contains(
                rows@[v as int]@[j].0 as int,
            ));
        }
    }
    found
}

/// Fresh entries at the end of the pending ones add nothing stale.
proof fn lemma_stale_fresh(rest: Seq<usize>, found: Seq<usize>, seen: Seq<bool>)
    requires
        forall|i: int| 0 <= i < found.len() ==> !seen[#[trigger] found[i] as int],
    ensures
        stale(rest + found, seen) == stale(rest, seen),
    decreases found.len(),
{
    if found.len() == 0 {
        assert(rest + found =~= rest);
    } else {
        lemma_stale_fresh(rest, found.drop_last(), seen);
        assert((rest + found).drop_last() =~= rest + found.drop_last());
        assert((rest + found)[(rest + found).len() - 1] == found[found.len() - 1]);
    }
}

/// One step keeps the pending vertices sound: `v` was taken from them and
/// handled, `rest` stayed, and `found` joined.
proof fn lemma_step_keeps_pending(
    g: IndexGraph,
    start: int,
    seen: Seq<bool>,
    before: Seq<usize>,
    v: usize,
    rest: Seq<usize>,
    found: Seq<usize>,
)
    requires
        g.wf(),
        seen.len() == g.n,
        0 <= start < g.n,
        v < g.n,
        pending_ok(g, start, seen, before),
        forall|x: int| as_ints(before).contains(x) ==> x == v || as_ints(rest).contains(x),
        forall|i: int| 0 <= i < rest.len() ==> as_ints(before).contains(#[trigger] rest[i] as int),
        forall|i: int|
            0 <= i < found.len() ==> (#[trigger] found[i]) < g.n && reaches(
                g,
                start,
                found[i] as int,
            ),
        forall|w: int| #[trigger]
            g.has_edge(v as int, w) ==> seen.update(v as int, true)[w] || as_ints(found).contains(
                w,
            ),
    ensures
        pending_ok(g, start, seen.update(v as int, true), rest + found),
{
    let after = rest + found;
    let marked = seen.update(v as int, true);
    assert forall|x: int| as_ints(rest).contains(x) || as_ints(found).contains(x) implies as_ints(
        after,
    ).contains(x) by {
        if as_ints(rest).contains(x) {
            let i = as_ints(rest).index_of(x);
            assert(as_ints(after)[i] == x);
        } else {
            let i = as_ints(found).index_of(x);
            assert(as_ints(after)[rest.len() + i] == x);
        }
    }
    assert forall|i: int| 0 <= i < after.len() implies (#[trigger] after[i]) < g.n && reaches(
        g,
        start,
        after[i] as int,
    ) by {
        if i < rest.len() {
            assert(after[i] == rest[i]);
            let j = as_ints(before).index_of(rest[i] as int);
            assert(before[j] as int == rest[i] as int);
        } else {
            assert(after[i] == found[i - rest.len()]);
        }
    }
    assert forall|u: int, w: int|
        0 <= u < g.n && marked[u] && #[trigger] g.has_edge(u, w) implies marked[w] || as_ints(
        after,
    ).contains(w) by {
        assert(g.weight.contains_key((u, w)));
        if u != v {
            assert(seen[u]);
            if !seen[w] {
                assert(as_ints(before).contains(w));
            }
        }
    }
    if !seen[start] {
        assert(as_ints(before).contains(start));
    }
}

/// With nothing pending, everything that `start` reaches is in the list.
proof fn lemma_traversal_done(g: IndexGraph, start: int, seen: Seq<bool>, result: Seq<usize>)
    requires
        g.wf(),
        0 <= start < g.n,
        visited_ok(g, start, seen, result),
        pending_ok(g, start, seen, Seq::<usize>::empty()),
        result.len() > 0,
        result[0] == start,
    ensures
        traversal_of(g, start, as_ints(result)),
{
    assert forall|v: int| as_ints(result).contains(v) <==> reaches(g, start, v) by {
        if as_ints(result).contains(v) {
            let i = as_ints(result).index_of(v);
            assert(seen[result[i] as int]);
        }
        if reaches(g, start, v) {
            let p = choose|p: Seq<int>| g.connects(p, start, v);
            assert(0 <= p[p.len() - 1] < g.n);
            assert forall|u: int, w: int|
                0 <= u < g.n && seen[u] && #[trigger] g.has_edge(u, w) implies seen[w] by {
                assert(!as_ints(Seq::<usize>::empty()).contains(w));
            }
            assert(!as_ints(Seq::<usize>::empty()).contains(start));
            lemma_closed_holds_reachable(g, seen, start, v);
        }
    }
}

/// Lists the vertices that `start` reaches, depth first, with a stack in
/// place of the call stack: the vertex handled next is the one that was
/// found last. A vertex found again before it was handled is listed each
/// time it is handled.
pub fn depth_first_iterative(rows: &Vec<Vec<(usize, u32)>>, start: usize) -> (order: Vec<usize>)
    requires
        adjacency_ok(rows@),
        start < rows@.len(),
    ensures
        traversal_of(graph_of(rows@), start as int, as_ints(order@)),
        forall|i: int| 0 <= i < order@.len() ==> order@[i] < rows@.len(),
{
    let ghost g = graph_of(rows@);
    let mut result: Vec<usize> = Vec::new();
    let mut seen = nothing_seen(rows.len());
    let mut stack: Vec<usize> = Vec::new();
    stack.push(start);
    proof {
        lemma_graph_wf(rows@);
        lemma_reaches_step(g, start as int, start as int, start as int);
        assert(as_ints(stack@)[0] == start);
    }
    while stack.len() > 0
        invariant
            adjacency_ok(rows@),
            g == graph_of(rows@),
            g.wf(),
            start < rows@.len(),
            visited_ok(g, start as int, seen@, result@),
            pending_ok(g, start as int, seen@, stack@),
            result@.len() == 0 ==> stack@.len() > 0 && stack@[stack@.len() - 1] == start,
            result@.len() > 0 ==> result@[0] == start,
        decreases unseen(seen@), stale(stack@, seen@),
    {
        let ghost before = stack@;
        let ghost seen0 = seen@;
        let v = stack.pop().unwrap();
        let ghost rest = stack@;
        proof {
            assert(before.drop_last() =~= rest);
            assert(before[before.len() - 1] == v);
            assert forall|x: int| as_ints(before).contains(x) implies x == v || as_ints(
                rest,
            ).contains(x) by {
                let i = as_ints(before).index_of(x);
                if i < rest.len() {
                    assert(as_ints(rest)[i] == x);
                }
            }
            assert forall|i: int| 0 <= i < rest.len() implies as_ints(before).contains(
                #[trigger] rest[i] as int,
            ) by {
                assert(as_ints(before)[i] == rest[i] as int);
            }
        }
        let found = handle(rows, v, &mut result, &mut seen, Ghost(start as int));
        let mut j: usize = 0;
        while j < found.len()
            invariant
                j <= found@.len(),
                stack@ == rest + found@.subrange(0, j as int),
            decreases found@.len() - j,
        {
            stack.push(found[j]);
            proof {
                assert(found@.subrange(0, j + 1) =~= found@.subrange(0, j as int).push(
                    found@[j as int],
                ));
                assert(rest + found@.subrange(0, j + 1) =~= (rest + found@.subrange(
                    0,
                    j as int,
                )).push(found@[j as int]));
            }
            j += 1;
        }
        proof {
            assert(found@.subrange(0, j as int) =~= found@);
            lemma_step_keeps_pending(g, start as int, seen0, before, v, rest, found@);
            lemma_stale_fresh(rest, found@, seen@);
            if seen0[v as int] {
                assert(seen@ =~= seen0);
            } else {
                lemma_unseen_marked(seen0, v as int);
            }
        }
    }
    proof {
        assert(stack@ =~= Seq::<usize>::empty());
        lemma_traversal_done(g, start as int, seen@, result@);
    }
    result
}

/// Lists the vertices that `start` reaches, breadth first: the vertex
/// handled next is the one that has waited longest. A vertex found again
/// before it was handled is listed each time it is handled.
pub fn breadth_first(rows: &Vec<Vec<(usize, u32)>>, start: usize) -> (order: Vec<usize>)
    requires
        adjacency_ok(rows@),
        start < rows@.len(),
    ensures
        traversal_of(graph_of(rows@), start as int, as_ints(order@)),
        forall|i: int| 0 <= i < order@.len() ==> order@[i] < rows@.len(),
{
    let ghost g = graph_of(rows@);
    let mut result: Vec<usize> = Vec::new();
    let mut seen = nothing_seen(rows.len());
    let mut queue: VecDeque<usize> = VecDeque::new();
    queue.push_back(start);
    proof {
        lemma_graph_wf(rows@);
        lemma_reaches_step(g, start as int, start as int, start as int);
        assert(as_ints(queue@)[0] == start);
    }
    while queue.len() > 0
        invariant
            adjacency_ok(rows@),
            g == graph_of(rows@),
            g.wf(),
            start < rows@.len(),
            visited_ok(g, start as int, seen@, result@),
            pending_ok(g, start as int, seen@, queue@),
            result@.len() == 0 ==> queue@.len() > 0 && queue@[0] == start,
            result@.len() > 0 ==> result@[0] == start,
        decreases unseen(seen@), stale(queue@, seen@),
    {
        let ghost before = queue@;
        let ghost seen0 = seen@;
        let v = queue.pop_front().unwrap();
        let ghost rest = queue@;
        proof {
            assert(before.drop_first() =~= rest);
            lemma_stale_front(before, seen0);
            assert forall|x: int| as_ints(before).contains(x) implies x == v || as_ints(
                rest,
            ).contains(x) by {
                let i = as_ints(before).index_of(x);
                if i > 0 {
                    assert(as_ints(rest)[i - 1] == x);
                }
            }
            assert forall|i: int| 0 <= i < rest.len() implies as_ints(before).contains(
                #[trigger] rest[i] as int,
            ) by {
                assert(as_ints(before)[i + 1] == rest[i] as int);
            }
        }
        let found = handle(rows, v, &mut result, &mut seen, Ghost(start as int));
        let mut j: usize = 0;
        while j < found.len()
            invariant
                j <= found@.len(),
                queue@ == rest + found@.subrange(0, j as int),
            decreases found@.len() - j,
        {
            queue.push_back(found[j]);
            proof {
                assert(found@.subrange(0, j + 1) =~= found@.subrange(0, j as int).push(
                    found@[j as int],
                ));
                assert(rest + found@.subrange(0, j + 1) =~= (rest + found@.subrange(
                    0,
                    j as int,
                )).push(found@[j as int]));
            }
            j += 1;
        }
        proof {
            assert(found@.subrange(0, j as int) =~= found@);
            lemma_step_keeps_pending(g, start as int, seen0, before, v, rest, found@);
            lemma_stale_fresh(rest, found@, seen@);
            if seen0[v as int] {
                assert(seen@ =~= seen0);
            } else {
                lemma_unseen_marked(seen0, v as int);
            }
        }
    }
    proof {
        assert(queue@ =~= Seq::<usize>::empty());
        lemma_traversal_done(g, start as int, seen@, result@);
    }
    result
}

} // verus!
