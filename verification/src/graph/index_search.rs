//! The executable shortest-path search over vertices numbered `0 .. n`,
//! proved to compute exactly what the mathematical search defines.

use vstd::prelude::*;
use vstd::multiset::Multiset;
use super::frontier::{entry_le, Frontier};
use super::shortest_path::{
    back_chain, final_state, found_path, improves, lemma_back_chain, lemma_found_path,
    lemma_initial_inv, lemma_next_unique, lemma_order_bounded, lemma_order_not_full,
    lemma_relax_inv, lemma_settle_inv, relax, search, search_inv, IndexGraph, SearchState,
};

verus! {

/// The largest weight an edge can carry.
pub open spec fn max_weight() -> nat {
    0xffff_ffff
}

/// A row of an adjacency table is well formed if every entry `(v, w)`
/// names a vertex `v` of the graph, and no vertex is named twice.
pub open spec fn row_ok(row: Seq<(usize, u32)>, n: nat) -> bool {
    &&& forall|k: int| 0 <= k < row.len() ==> (#[trigger] row[k]).0 < n
    &&& forall|j: int, k: int|
        0 <= j < row.len() && 0 <= k < row.len() && j != k ==> (#[trigger] row[j]).0 != (
        #[trigger] row[k]).0
}

/// An adjacency table holds one well-formed row per vertex: row `u` lists
/// the edges that leave `u` as pairs of target and weight.
pub open spec fn adjacency_ok(rows: Seq<Vec<(usize, u32)>>) -> bool {
    forall|u: int| 0 <= u < rows.len() ==> row_ok((#[trigger] rows[u])@, rows.len())
}

/// Whether `row` holds an edge to `v`.
pub open spec fn row_has(row: Seq<(usize, u32)>, v: int) -> bool {
    exists|k: int| 0 <= k < row.len() && (#[trigger] row[k]).0 == v
}

/// The weight of the edge to `v` in `row`.
pub open spec fn row_weight(row: Seq<(usize, u32)>, v: int) -> nat {
    let k = choose|k: int| 0 <= k < row.len() && (#[trigger] row[k]).0 == v;
    row[k].1 as nat
}

/// The graph that an adjacency table stands for.
pub open spec fn graph_of(rows: Seq<Vec<(usize, u32)>>) -> IndexGraph {
    IndexGraph {
        n: rows.len(),
        weight: Map::new(
            |p: (int, int)| 0 <= p.0 < rows.len() && row_has(rows[p.0]@, p.1),
            |p: (int, int)| row_weight(rows[p.0]@, p.1),
        ),
    }
}

/// A sequence of vertex numbers as mathematical integers.
pub open spec fn as_ints(path: Seq<usize>) -> Seq<int> {
    path.map_values(|v: usize| v as int)
}

/// The search state that the three working arrays stand for.
pub open spec fn state_of(
    settled: Seq<bool>,
    dist: Seq<Option<u128>>,
    pred: Seq<Option<usize>>,
) -> SearchState {
    SearchState {
        settled: Set::new(|v: int| 0 <= v < settled.len() && settled[v]),
        dist: Map::new(
            |v: int| 0 <= v < dist.len() && dist[v].is_some(),
            |v: int| dist[v].unwrap() as nat,
        ),
        pred: Map::new(
            |v: int| 0 <= v < pred.len() && pred[v].is_some(),
            |v: int| pred[v].unwrap() as int,
        ),
    }
}

/// Every entry of the frontier names a discovered vertex at a distance no
/// better than the one known for it, and every discovered vertex that is
/// not settled has an entry at exactly the distance known for it.
spec fn frontier_ok(
    frontier: Multiset<(u128, usize)>,
    settled: Seq<bool>,
    dist: Seq<Option<u128>>,
) -> bool {
    &&& forall|e: (u128, usize)| #[trigger]
        frontier.count(e) > 0 ==> e.1 < dist.len() && dist[e.1 as int].is_some()
            && dist[e.1 as int].unwrap() <= e.0
    &&& forall|v: int|
        0 <= v < dist.len() && !settled[v] && (#[trigger] dist[v]).is_some() ==> frontier.count(
            (dist[v].unwrap(), v as usize),
        ) > 0
}

/// No known distance exceeds `count` times the largest weight.
spec fn dist_bounded(dist: Seq<Option<u128>>, count: nat) -> bool {
    forall|v: int|
        0 <= v < dist.len() && (#[trigger] dist[v]).is_some() ==> dist[v].unwrap() <= count
            * max_weight()
}

/// Every recorded predecessor is a vertex of the graph.
spec fn preds_in_range(pred: Seq<Option<usize>>) -> bool {
    forall|v: int|
        0 <= v < pred.len() && (#[trigger] pred[v]).is_some() ==> pred[v].unwrap() < pred.len()
}

/// Whether one of the first `k` entries of `row` leads to `v`.
spec fn seen(row: Seq<(usize, u32)>, k: int, v: int) -> bool {
    exists|j: int| 0 <= j < k && (#[trigger] row[j]).0 == v
}

/// The graph of a well-formed adjacency table is well formed.
pub proof fn lemma_graph_wf(rows: Seq<Vec<(usize, u32)>>)
    requires
        adjacency_ok(rows),
    ensures
        graph_of(rows).wf(),
{
    let g = graph_of(rows);
    assert forall|u: int, v: int| #[trigger] g.weight.contains_key((u, v)) implies 0 <= u < g.n
        && 0 <= v < g.n by {
        assert(row_ok(rows[u]@, rows.len()));
        let k = choose|k: int| 0 <= k < rows[u]@.len() && (#[trigger] rows[u]@[k]).0 == v;
        assert(rows[u]@[k].0 < rows.len());
    }
}

/// The entry at position `k` of row `u` is an edge of the graph, with the
/// weight that the entry gives.
pub proof fn lemma_row_entry(rows: Seq<Vec<(usize, u32)>>, u: int, k: int)
    requires
        adjacency_ok(rows),
        0 <= u < rows.len(),
        0 <= k < rows[u]@.len(),
    ensures
        graph_of(rows).has_edge(u, rows[u]@[k].0 as int),
        graph_of(rows).weight[(u, rows[u]@[k].0 as int)] == rows[u]@[k].1,
{
    let row = rows[u]@;
    let v = row[k].0 as int;
    assert(row_ok(row, rows.len()));
    assert(row_has(row, v));
    let j = choose|j: int| 0 <= j < row.len() && (#[trigger] row[j]).0 == v;
    assert(j == k);
}

/// Creates a vector that holds `n` copies of `value`.
fn filled<T: Copy>(n: usize, value: T) -> (v: Vec<T>)
    ensures
        v@.len() == n,
        forall|i: int| 0 <= i < n ==> v@[i] == value,
{
    let mut v: Vec<T> = Vec::new();
    let mut i: usize = 0;
    while i < n
        invariant
            i <= n,
            v@.len() == i,
            forall|j: int| 0 <= j < i ==> v@[j] == value,
        decreases n - i,
    {
        v.push(value);
        i += 1;
    }
    v
}

/// Examines the edges that leave the newly settled vertex `u`, whose
/// distance is `base`: each unsettled neighbour that gets strictly closer
/// through `u` has its distance and predecessor updated, and enters the
/// frontier at its new distance.
fn relax_edges(
    rows: &Vec<Vec<(usize, u32)>>,
    u: usize,
    base: u128,
    settled: &Vec<bool>,
    dist: &mut Vec<Option<u128>>,
    pred: &mut Vec<Option<usize>>,
    frontier: &mut Frontier,
    Ghost(before): Ghost<SearchState>,
    Ghost(count): Ghost<nat>,
)
    requires
        adjacency_ok(rows@),
        u < rows.len(),
        settled.len() == rows.len(),
        old(dist).len() == rows.len(),
        old(pred).len() == rows.len(),
        settled@[u as int],
        before == state_of(settled@.update(u as int, false), old(dist)@, old(pred)@),
        old(dist)@[u as int] == Some(base),
        frontier_ok(old(frontier)@, settled@, old(dist)@),
        dist_bounded(old(dist)@, count),
        preds_in_range(old(pred)@),
        count < usize::MAX,
    ensures
        final(dist).len() == rows.len(),
        final(pred).len() == rows.len(),
        state_of(settled@, final(dist)@, final(pred)@) == relax(graph_of(rows@), before, u as int),
        frontier_ok(final(frontier)@, settled@, final(dist)@),
        dist_bounded(final(dist)@, count + 1),
        preds_in_range(final(pred)@),
        final(frontier)@.len() >= old(frontier)@.len(),
{
    let ghost g = graph_of(rows@);
    let ghost dist0 = dist@;
    let ghost pred0 = pred@;
    let ghost row = rows@[u as int]@;
    let n = rows.len();
    proof {
        lemma_graph_wf(rows@);
        assert(row_ok(row, rows@.len()));
        assert(base <= count * max_weight());
        assert((count + 1) * max_weight() == count * max_weight() + max_weight()) by (nonlinear_arith);
        assert(count * max_weight() <= usize::MAX * max_weight()) by (nonlinear_arith)
            requires
                count < usize::MAX,
        ;
    }
    let mut k: usize = 0;
    while k < rows[u].len()
        invariant
            adjacency_ok(rows@),
            g == graph_of(rows@),
            g.wf(),
            u < rows.len(),
            n == rows.len(),
            row == rows@[u as int]@,
            row_ok(row, n as nat),
            k <= row.len(),
            settled.len() == n,
            dist.len() == n,
            pred.len() == n,
            dist0.len() == n,
            pred0.len() == n,
            settled@[u as int],
            before == state_of(settled@.update(u as int, false), dist0, pred0),
            dist0[u as int] == Some(base),
            base <= count * max_weight(),
            (count + 1) * max_weight() == count * max_weight() + max_weight(),
            count * max_weight() <= usize::MAX * max_weight(),
            dist_bounded(dist0, count),
            forall|v: int|
                0 <= v < n ==> #[trigger] dist@[v] == if seen(row, k as int, v) && improves(
                    g,
                    before,
                    u as int,
                    v,
                ) {
                    Some((base + g.weight[(u as int, v)]) as u128)
                } else {
                    dist0[v]
                },
            forall|v: int|
                0 <= v < n ==> #[trigger] pred@[v] == if seen(row, k as int, v) && improves(
                    g,
                    before,
                    u as int,
                    v,
                ) {
                    Some(u)
                } else {
                    pred0[v]
                },
            frontier_ok(frontier@, settled@, dist@),
            dist_bounded(dist@, count + 1),
            preds_in_range(pred@),
            frontier@.len() >= old(frontier)@.len(),
        decreases row.len() - k,
    {
        let edge = rows[u][k];
        let v = edge.0;
        let weight = edge.1;
        let ghost dist_in = dist@;
        let ghost pred_in = pred@;
        let ghost frontier_in = frontier@;
        proof {
            lemma_row_entry(rows@, u as int, k as int);
            assert(row[k as int] == edge);
            assert(!seen(row, k as int, v as int)) by {
                if seen(row, k as int, v as int) {
                    let j = choose|j: int| 0 <= j < k && (#[trigger] row[j]).0 == v;
                    assert(row[j].0 != row[k as int].0);
                }
            }
            assert(dist@[v as int] == dist0[v as int]);
            assert(before.settled.contains(v as int) <==> (settled@[v as int] && v != u));
            assert(before.dist.contains_key(v as int) <==> dist0[v as int].is_some());
            assert(before.dist.contains_key(u as int) && before.dist[u as int] == base);
        }
        let mut changed = false;
        if !settled[v] {
            let candidate: u128 = base + weight as u128;
            let better = match dist[v] {
                Some(known) => candidate < known,
                None => true,
            };
            if better {
                dist.set(v, Some(candidate));
                pred.set(v, Some(u));
                frontier.push((candidate, v));
                changed = true;
            }
        }
        proof {
            assert(changed == improves(g, before, u as int, v as int));
            assert forall|x: int| seen(row, k + 1, x) <==> (seen(row, k as int, x) || x
                == v) by {
                if seen(row, k + 1, x) {
                    let j = choose|j: int| 0 <= j < k + 1 && (#[trigger] row[j]).0 == x;
                    if j < k {
                        assert(seen(row, k as int, x));
                    }
                }
                if seen(row, k as int, x) {
                    let j = choose|j: int| 0 <= j < k && (#[trigger] row[j]).0 == x;
                    assert(0 <= j < k + 1 && row[j].0 == x);
                }
                if x == v {
                    assert(row[k as int].0 == x);
                }
            }
            assert forall|x: int| 0 <= x < n implies #[trigger] dist@[x] == if seen(
                row,
                k + 1,
                x,
            ) && improves(g, before, u as int, x) {
                Some((base + g.weight[(u as int, x)]) as u128)
            } else {
                dist0[x]
            } by {
                if x != v {
                    assert(dist@[x] == dist_in[x]);
                }
            }
            assert forall|x: int| 0 <= x < n implies #[trigger] pred@[x] == if seen(
                row,
                k + 1,
                x,
            ) && improves(g, before, u as int, x) {
                Some(u)
            } else {
                pred0[x]
            } by {
                if x != v {
                    assert(pred@[x] == pred_in[x]);
                }
            }
            if changed {
                let candidate = (base + weight) as u128;
                assert forall|e: (u128, usize)| #[trigger] frontier@.count(e) > 0 implies e.1
                    < dist@.len() && dist@[e.1 as int].is_some() && dist@[e.1 as int].unwrap()
                    <= e.0 by {
                    if e != (candidate, v) {
                        assert(frontier_in.count(e) > 0);
                        if e.1 != v {
                            assert(dist@[e.1 as int] == dist_in[e.1 as int]);
                        }
                    }
                }
                assert forall|x: int|
                    0 <= x < dist@.len() && !settled@[x] && (#[trigger] dist@[x]).is_some() implies frontier@.count(
                    (dist@[x].unwrap(), x as usize),
                ) > 0 by {
                    if x != v {
                        assert(dist@[x] == dist_in[x]);
                        assert(frontier_in.count((dist_in[x].unwrap(), x as usize)) > 0);
                    }
                }
                assert forall|x: int|
                    0 <= x < dist@.len() && (#[trigger] dist@[x]).is_some() implies dist@[x].unwrap()
                    <= (count + 1) * max_weight() by {
                    if x != v {
                        assert(dist@[x] == dist_in[x]);
                    }
                }
                assert forall|x: int|
                    0 <= x < pred@.len() && (#[trigger] pred@[x]).is_some() implies pred@[x].unwrap()
                    < pred@.len() by {
                    if x != v {
                        assert(pred@[x] == pred_in[x]);
                    }
                }
            }
        }
        k += 1;
    }
    proof {
        let after = state_of(settled@, dist@, pred@);
        let expected = relax(g, before, u as int);
        assert forall|v: int| improves(g, before, u as int, v) implies 0 <= v < n && seen(
            row,
            row.len() as int,
            v,
        ) by {
            assert(g.weight.contains_key((u as int, v)));
            let j = choose|j: int| 0 <= j < row.len() && (#[trigger] row[j]).0 == v;
            assert(0 <= j < row.len() && row[j].0 == v);
        }
        assert(after.settled =~= expected.settled);
        assert(after.dist =~= expected.dist) by {
            assert forall|v: int| after.dist.contains_key(v) <==> expected.dist.contains_key(
                v,
            ) by {
                if 0 <= v < n {
                    assert(dist@[v] == dist@[v]);
                }
            }
            assert forall|v: int| after.dist.contains_key(v) implies after.dist[v]
                == expected.dist[v] by {
                assert(dist@[v] == dist@[v]);
            }
        }
        assert(after.pred =~= expected.pred) by {
            assert forall|v: int| after.pred.contains_key(v) <==> expected.pred.contains_key(
                v,
            ) by {
                if 0 <= v < n {
                    assert(pred@[v] == pred@[v]);
                }
            }
            assert forall|v: int| after.pred.contains_key(v) implies after.pred[v]
                == expected.pred[v] by {
                assert(pred@[v] == pred@[v]);
            }
        }
    }
}

/// Searches the graph given by the adjacency table `rows` for a shortest
/// path from `source` to `target`.
///
/// Returns the vertices of the path from `source` to `target` inclusive,
/// or an empty vector if `target` cannot be reached. A search from a
/// vertex to itself returns that vertex alone. Among equally short paths
/// the result is the one that the search defined by
/// [`found_path`] finds: candidates leave the frontier by distance and,
/// among equal distances, by vertex number.
pub fn shortest_index_path(rows: &Vec<Vec<(usize, u32)>>, source: usize, target: usize) -> (path:
    Vec<usize>)
    requires
        adjacency_ok(rows@),
        source < rows.len(),
        target < rows.len(),
    ensures
        as_ints(path@) == found_path(graph_of(rows@), source as int, target as int),
        graph_of(rows@).reachable(source as int, target as int) ==> graph_of(rows@).is_shortest(
            as_ints(path@),
            source as int,
            target as int,
        ),
        !graph_of(rows@).reachable(source as int, target as int) ==> path@.len() == 0,
        forall|i: int| 0 <= i < path@.len() ==> path@[i] < rows.len(),
{
    let n = rows.len();
    let ghost g = graph_of(rows@);
    let ghost s = source as int;
    let ghost t = target as int;
    let mut settled: Vec<bool> = filled(n, false);
    let mut dist: Vec<Option<u128>> = filled(n, None);
    let mut pred: Vec<Option<usize>> = filled(n, None);
    let mut frontier = Frontier::new();
    dist.set(source, Some(0u128));
    frontier.push((0u128, source));
    let ghost mut order: Seq<int> = Seq::empty();
    let mut reached = false;
    proof {
        lemma_graph_wf(rows@);
        lemma_found_path(g, s, t);
        lemma_initial_inv(g, s, t);
        let start = state_of(settled@, dist@, pred@);
        assert(start.settled =~= SearchState::initial(s).settled);
        assert(start.dist =~= SearchState::initial(s).dist);
        assert(start.pred =~= SearchState::initial(s).pred);
        assert(0 * max_weight() == 0) by (nonlinear_arith);
    }
    loop
        invariant_except_break
            !reached,
            !settled@[t],
            search(g, state_of(settled@, dist@, pred@), t, (n - order.len()) as nat) == final_state(
                g,
                s,
                t,
            ),
            frontier_ok(frontier@, settled@, dist@),
            dist_bounded(dist@, order.len()),
        invariant
            n == rows.len(),
            adjacency_ok(rows@),
            g == graph_of(rows@),
            g.wf(),
            s == source as int,
            t == target as int,
            source < n,
            target < n,
            settled.len() == n,
            dist.len() == n,
            pred.len() == n,
            order.len() <= n,
            preds_in_range(pred@),
            search_inv(g, s, t, state_of(settled@, dist@, pred@), order),
        ensures
            state_of(settled@, dist@, pred@) == final_state(g, s, t),
            reached == settled@[t],
        decreases n - order.len(), frontier@.len(),
    {
        let ghost st = state_of(settled@, dist@, pred@);
        let ghost frontier_in = frontier@;
        match frontier.pop() {
            None => {
                proof {
                    if st.has_next() {
                        let v = st.next();
                        assert(st.is_next(v));
                        assert(dist@[v].is_some());
                        assert(frontier_in.count((dist@[v].unwrap(), v as usize)) > 0);
                    }
                }
                break ;
            },
            Some(entry) => {
                let u = entry.1;
                proof {
                    assert(frontier_in.count(entry) > 0);
                }
                if settled[u] {
                    proof {
                        assert forall|v: int|
                            0 <= v < dist@.len() && !settled@[v] && (
                            #[trigger] dist@[v]).is_some() implies frontier@.count(
                            (dist@[v].unwrap(), v as usize),
                        ) > 0 by {
                            assert(frontier_in.count((dist@[v].unwrap(), v as usize)) > 0);
                        }
                        assert forall|e: (u128, usize)| #[trigger] frontier@.count(e) > 0 implies e.1
                            < dist@.len() && dist@[e.1 as int].is_some()
                            && dist@[e.1 as int].unwrap() <= e.0 by {
                            assert(frontier_in.count(e) > 0);
                        }
                    }
                    continue ;
                }
                let base = entry.0;
                proof {
                    assert(dist@[u as int].is_some());
                    let known = dist@[u as int].unwrap();
                    assert(frontier_in.count((known, u)) > 0);
                    assert(entry_le(entry, (known, u)));
                    assert(base == known);
                    assert(st.is_candidate(u as int));
                    assert forall|v: int| #[trigger] st.is_candidate(v) implies st.precedes(
                        u as int,
                        v,
                    ) by {
                        assert(dist@[v].is_some());
                        assert(frontier_in.count((dist@[v].unwrap(), v as usize)) > 0);
                        assert(entry_le(entry, (dist@[v].unwrap(), v as usize)));
                    }
                    assert(st.is_next(u as int));
                    lemma_next_unique(st, u as int, st.next());
                    assert(st.has_next());
                    assert(!order.contains(u as int));
                    lemma_order_bounded(g, s, st, order);
                    lemma_order_not_full(order, n as nat, u as int);
                }
                settled.set(u, true);
                if u == target {
                    proof {
                        lemma_settle_inv(g, s, t, st, order);
                        let after = state_of(settled@, dist@, pred@);
                        assert(after.settled =~= st.settle(t).settled);
                        assert(after.dist =~= st.dist);
                        assert(after.pred =~= st.pred);
                        assert(after == st.settle(t));
                        order = order.push(u as int);
                    }
                    reached = true;
                    break ;
                }
                proof {
                    assert(st =~= state_of(settled@.update(u as int, false), dist@, pred@)) by {
                        assert(st.settled =~= state_of(
                            settled@.update(u as int, false),
                            dist@,
                            pred@,
                        ).settled);
                    }
                    assert forall|v: int|
                        0 <= v < dist@.len() && !settled@[v] && (
                        #[trigger] dist@[v]).is_some() implies frontier@.count(
                        (dist@[v].unwrap(), v as usize),
                    ) > 0 by {
                        assert(frontier_in.count((dist@[v].unwrap(), v as usize)) > 0);
                    }
                    assert forall|e: (u128, usize)| #[trigger] frontier@.count(e) > 0 implies e.1
                        < dist@.len() && dist@[e.1 as int].is_some() && dist@[e.1 as int].unwrap()
                        <= e.0 by {
                        assert(frontier_in.count(e) > 0);
                    }
                }
                relax_edges(
                    rows,
                    u,
                    base,
                    &settled,
                    &mut dist,
                    &mut pred,
                    &mut frontier,
                    Ghost(st),
                    Ghost(order.len()),
                );
                proof {
                    lemma_relax_inv(g, s, t, st, order, u as int);
                    order = order.push(u as int);
                }
            },
        }
    }
    if !reached {
        return Vec::new();
    }
    let ghost end = state_of(settled@, dist@, pred@);
    let ghost chain = back_chain(end, t, n as nat);
    proof {
        assert(end.settled.contains(t));
        assert(order.contains(t));
        assert(0 <= order.index_of(t) < order.len());
        lemma_back_chain(g, s, end, order, t, n as nat);
    }
    let mut backward: Vec<usize> = Vec::new();
    backward.push(target);
    let mut current = target;
    loop
        invariant
            n == rows.len(),
            pred.len() == n,
            end == state_of(settled@, dist@, pred@),
            preds_in_range(pred@),
            1 <= backward@.len() <= chain.len() <= n,
            forall|i: int| 0 <= i < backward@.len() ==> #[trigger] backward@[i] == chain[i],
            forall|i: int| 0 <= i < backward@.len() ==> (#[trigger] backward@[i]) < n,
            current == backward@[backward@.len() - 1],
            current < n,
            !end.pred.contains_key(chain[chain.len() - 1]),
            forall|i: int|
                0 <= i < chain.len() - 1 ==> end.pred.contains_key(#[trigger] chain[i])
                    && end.pred[chain[i]] == chain[i + 1],
        ensures
            backward@.len() == chain.len(),
        decreases chain.len() - backward@.len(),
    {
        match pred[current] {
            Some(previous) => {
                proof {
                    let i = backward@.len() - 1;
                    assert(chain[i] == current);
                    assert(end.pred.contains_key(current as int));
                    assert(end.pred[current as int] == previous);
                    assert(i < chain.len() - 1);
                }
                backward.push(previous);
                current = previous;
            },
            None => {
                proof {
                    let i = backward@.len() - 1;
                    assert(chain[i] == current);
                    assert(!end.pred.contains_key(current as int));
                    if i < chain.len() - 1 {
                        assert(end.pred.contains_key(chain[i]));
                    }
                }
                break ;
            },
        }
    }
    let mut path: Vec<usize> = Vec::new();
    let mut i: usize = backward.len();
    while i > 0
        invariant
            i <= backward@.len(),
            path@.len() == backward@.len() - i,
            forall|j: int|
                0 <= j < path@.len() ==> #[trigger] path@[j] == backward@[backward@.len() - 1 - j],
        decreases i,
    {
        i -= 1;
        path.push(backward[i]);
    }
    proof {
        assert(as_ints(path@) =~= chain.reverse());
    }
    path
}

} // verus!
