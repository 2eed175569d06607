use vstd::prelude::*;

verus! {

/// Whether some edge joins `a` and `b`, in either direction.
pub open spec fn linked(edges: Seq<(usize, usize)>, a: int, b: int) -> bool {
    exists|k: int|
        0 <= k < edges.len() && ((#[trigger] edges[k]).0 == a && edges[k].1 == b || edges[k].0 == b
            && edges[k].1 == a)
}

/// Whether every edge joins two of the vertices `0 .. n`.
pub open spec fn edges_valid(n: nat, edges: Seq<(usize, usize)>) -> bool {
    forall|k: int| 0 <= k < edges.len() ==> (#[trigger] edges[k]).0 < n && edges[k].1 < n
}

/// Whether `a` and `b` are a vertex and its parent.
pub open spec fn is_link(parent: Seq<int>, a: int, b: int) -> bool {
    (a != 0 && parent[a] == b) || (b != 0 && parent[b] == a)
}

/// Whether `parent` and `rank` arrange the graph as a tree with root 0:
/// every other vertex is joined by an edge to its parent, which has a
/// lower rank, and every edge joins a vertex and its parent.
pub open spec fn arranged(
    n: nat,
    edges: Seq<(usize, usize)>,
    parent: Seq<int>,
    rank: Seq<nat>,
) -> bool {
    &&& parent.len() == n
    &&& rank.len() == n
    &&& forall|v: int|
        1 <= v < n ==> 0 <= #[trigger] parent[v] < n && rank[parent[v]] < rank[v] && linked(
            edges,
            v,
            parent[v],
        )
    &&& forall|k: int|
        0 <= k < edges.len() ==> is_link(parent, (#[trigger] edges[k]).0 as int, edges[k].1 as int)
}

/// Whether the undirected graph with the vertices `0 .. n` and the given
/// edges is a tree: it has a vertex, and its vertices can be arranged
/// under the root 0 so that the edges are the links between a vertex and
/// its parent. An edge given more than once, or in both directions,
/// counts once.
pub open spec fn is_tree(n: nat, edges: Seq<(usize, usize)>) -> bool {
    n > 0 && exists|parent: Seq<int>, rank: Seq<nat>| arranged(n, edges, parent, rank)
}

/// The message for an edge that names a vertex outside `0 .. n`.
pub open spec fn invalid_edge() -> Seq<char> {
    "Edge refer to an invalid vertex"@
}

/// `rows` is the adjacency list of the graph: row `v` lists the vertices
/// that an edge joins to `v`, each once.
spec fn adjacency_of(rows: Seq<Vec<usize>>, n: nat, edges: Seq<(usize, usize)>) -> bool {
    &&& rows.len() == n
    &&& forall|v: int| 0 <= v < n ==> (#[trigger] rows[v])@.no_duplicates()
    &&& forall|v: int, i: int|
        0 <= v < n && 0 <= i < rows[v]@.len() ==> (#[trigger] rows[v]@[i]) < n && linked(
            edges,
            v,
            rows[v]@[i] as int,
        )
    &&& forall|v: int, w: int|
        0 <= v < n && 0 <= w < n && #[trigger] linked(edges, v, w) ==> rows[v]@.contains(w as usize)
}

/// Notes in row `from` that an edge leads to `to`, unless it is noted
/// there already.
fn connect(rows: &mut Vec<Vec<usize>>, from: usize, to: usize)
    requires
        from < old(rows)@.len(),
        old(rows)@[from as int]@.no_duplicates(),
    ensures
        final(rows)@.len() == old(rows)@.len(),
        forall|v: int| 0 <= v < old(rows)@.len() && v != from ==> final(rows)@[v] == old(rows)@[v],
        final(rows)@[from as int]@.no_duplicates(),
        final(rows)@[from as int]@.contains(to),
        forall|w: usize|
            final(rows)@[from as int]@.contains(w) <==> old(rows)@[from as int]@.contains(w) || w
                == to,
{
    let ghost before = rows@[from as int]@;
    let mut i: usize = 0;
    while i < rows[from].len()
        invariant
            from < rows@.len(),
            rows@ == old(rows)@,
            rows@[from as int]@.no_duplicates(),
            i <= rows@[from as int]@.len(),
            forall|k: int| 0 <= k < i ==> rows@[from as int]@[k] != to,
        decreases rows@[from as int]@.len() - i,
    {
        if rows[from][i] == to {
            return ;
        }
        i += 1;
    }
    rows[from].push(to);
    proof {
        let after = rows@[from as int]@;
        assert(after == before.push(to));
        assert(after[before.len() as int] == to);
        assert forall|w: usize| after.contains(w) <==> before.contains(w) || w == to by {
            if before.contains(w) {
                let k = before.index_of(w);
                assert(after[k] == w);
            }
        }
    }
}

/// Creates `n` empty rows.
fn empty_rows(n: usize) -> (rows: Vec<Vec<usize>>)
    ensures
        rows@.len() == n,
        forall|v: int| 0 <= v < n ==> (#[trigger] rows@[v])@.len() == 0,
{
    let mut rows: Vec<Vec<usize>> = Vec::new();
    let mut i: usize = 0;
    while i < n
        invariant
            i <= n,
            rows@.len() == i,
            forall|v: int| 0 <= v < i ==> (#[trigger] rows@[v])@.len() == 0,
        decreases n - i,
    {
        rows.push(Vec::new());
        i += 1;
    }
    rows
}

/// Builds the adjacency list of the graph, or returns `None` if an edge
/// names a vertex outside `0 .. n`.
fn adjacency_list(n: usize, edges: &Vec<(usize, usize)>) -> (result: Option<Vec<Vec<usize>>>)
    ensures
        match result {
            Some(rows) => edges_valid(n as nat, edges@) && adjacency_of(rows@, n as nat, edges@),
            None => !edges_valid(n as nat, edges@),
        },
{
    let mut rows = empty_rows(n);
    let mut k: usize = 0;
    proof {
        assert forall|v: int, w: int| !linked(edges@.take(0), v, w) by {}
    }
    while k < edges.len()
        invariant
            k <= edges@.len(),
            edges_valid(n as nat, edges@.take(k as int)),
            adjacency_of(rows@, n as nat, edges@.take(k as int)),
        decreases edges@.len() - k,
    {
        let (from, to) = edges[k];
        if from >= n || to >= n {
            return None;
        }
        let ghost before = rows@;
        let ghost known = edges@.take(k as int);
        let ghost grown = edges@.take(k + 1);
        connect(&mut rows, from, to);
        connect(&mut rows, to, from);
        proof {
            assert(grown =~= known.push((from, to)));
            assert forall|a: int, b: int| linked(grown, a, b) <==> linked(known, a, b) || (a == from
                && b == to) || (a == to && b == from) by {
                if linked(grown, a, b) {
                    let j = choose|j: int|
                        0 <= j < grown.len() && ((#[trigger] grown[j]).0 == a && grown[j].1 == b
                            || grown[j].0 == b && grown[j].1 == a);
                    if j < known.len() {
                        assert(known[j] == grown[j]);
                    }
                }
                if linked(known, a, b) {
                    let j = choose|j: int|
                        0 <= j < known.len() && ((#[trigger] known[j]).0 == a && known[j].1 == b
                            || known[j].0 == b && known[j].1 == a);
                    assert(grown[j] == known[j]);
                }
                if (a == from && b == to) || (a == to && b == from) {
                    assert(grown[k as int] == (from, to));
                }
            }
            assert forall|j: int| 0 <= j < grown.len() implies (#[trigger] grown[j]).0 < n
                && grown[j].1 < n by {
                if j < known.len() {
                    assert(known[j] == grown[j]);
                }
            }
            assert forall|v: int, i: int| 0 <= v < n && 0 <= i < rows@[v]@.len() implies (
            #[trigger] rows@[v]@[i]) < n && linked(grown, v, rows@[v]@[i] as int) by {
                let w = rows@[v]@[i];
                assert(rows@[v]@.contains(w));
                if before[v]@.contains(w) {
                    let i0 = before[v]@.index_of(w);
                    assert(linked(known, v, before[v]@[i0] as int));
                }
            }
            assert forall|v: int, w: int|
                0 <= v < n && 0 <= w < n && #[trigger] linked(grown, v, w) implies rows@[v]@.contains(
                w as usize,
            ) by {
                if linked(known, v, w) {
                    assert(before[v]@.contains(w as usize));
                }
            }
        }
        k += 1;
    }
    proof {
        assert(edges@.take(k as int) =~= edges@);
    }
    Some(rows)
}

/// The number of vertices that have been seen.
spec fn marked(seen: Seq<bool>) -> nat
    decreases seen.len(),
{
    if seen.len() == 0 {
        0
    } else {
        marked(seen.drop_last()) + if seen.last() {
            1nat
        } else {
            0nat
        }
    }
}

/// No more vertices have been seen than there are, and all of them have
/// been seen exactly if as many have been seen as there are.
proof fn lemma_marked(seen: Seq<bool>)
    ensures
        marked(seen) <= seen.len(),
        marked(seen) == seen.len() <==> forall|v: int| 0 <= v < seen.len() ==> seen[v],
        marked(seen) == 0 <==> forall|v: int| 0 <= v < seen.len() ==> !seen[v],
    decreases seen.len(),
{
    if seen.len() > 0 {
        let front = seen.drop_last();
        lemma_marked(front);
        if marked(seen) == seen.len() {
            assert forall|v: int| 0 <= v < seen.len() implies seen[v] by {
                if v < front.len() {
                    assert(front[v]);
                }
            }
        }
        if forall|v: int| 0 <= v < seen.len() ==> seen[v] {
            assert forall|v: int| 0 <= v < front.len() implies front[v] by {
                assert(seen[v]);
            }
        }
        if marked(seen) == 0 {
            assert forall|v: int| 0 <= v < seen.len() implies !seen[v] by {
                if v < front.len() {
                    assert(!front[v]);
                }
            }
        }
        if forall|v: int| 0 <= v < seen.len() ==> !seen[v] {
            assert forall|v: int| 0 <= v < front.len() implies !front[v] by {
                assert(!seen[v]);
            }
        }
    }
}

/// Seeing one more vertex.
proof fn lemma_marked_update(seen: Seq<bool>, v: int)
    requires
        0 <= v < seen.len(),
        !seen[v],
    ensures
        marked(seen.update(v, true)) == marked(seen) + 1,
    decreases seen.len(),
{
    let after = seen.update(v, true);
    if v == seen.len() - 1 {
        assert(after.drop_last() =~= seen.drop_last());
    } else {
        lemma_marked_update(seen.drop_last(), v);
        assert(after.drop_last() =~= seen.drop_last().update(v, true));
    }
}

/// What the walk puts on its stack when it handles `v`, which it reached
/// from `p`: each neighbour of `v` but `p`, with `v` as the vertex from
/// which it was reached.
spec fn links(row: Seq<usize>, v: usize, p: usize) -> Seq<(usize, usize)>
    decreases row.len(),
{
    if row.len() == 0 {
        Seq::empty()
    } else if row.last() != p {
        links(row.drop_last(), v, p).push((row.last(), v))
    } else {
        links(row.drop_last(), v, p)
    }
}

proof fn lemma_links(row: Seq<usize>, v: usize, p: usize)
    ensures
        forall|i: int|
            0 <= i < links(row, v, p).len() ==> (#[trigger] links(row, v, p)[i]).1 == v && links(
                row,
                v,
                p,
            )[i].0 != p && row.contains(links(row, v, p)[i].0),
        forall|b: usize| #[trigger] row.contains(b) && b != p ==> links(row, v, p).contains((b, v)),
        row.no_duplicates() ==> forall|i: int, j: int|
            0 <= i < links(row, v, p).len() && 0 <= j < links(row, v, p).len() && i != j ==> links(
                row,
                v,
                p,
            )[i].0 != links(row, v, p)[j].0,
    decreases row.len(),
{
    let all = links(row, v, p);
    if row.len() > 0 {
        let front = row.drop_last();
        let rest = links(front, v, p);
        lemma_links(front, v, p);
        assert forall|i: int| 0 <= i < all.len() implies (#[trigger] all[i]).1 == v && all[i].0 != p
            && row.contains(all[i].0) by {
            if i < rest.len() {
                assert(all[i] == rest[i]);
                let k = front.index_of(rest[i].0);
                assert(row[k] == rest[i].0);
            } else {
                assert(row[row.len() - 1] == all[i].0);
            }
        }
        assert forall|b: usize| #[trigger] row.contains(b) && b != p implies all.contains(
            (b, v),
        ) by {
            let k = row.index_of(b);
            if k < front.len() {
                assert(front[k] == b);
                assert(front.contains(b));
                let i = rest.index_of((b, v));
                assert(all[i] == (b, v));
            } else {
                assert(all[all.len() - 1] == (b, v));
            }
        }
        if row.no_duplicates() {
            assert(front.no_duplicates());
            assert forall|i: int, j: int|
                0 <= i < all.len() && 0 <= j < all.len() && i != j implies all[i].0
                != all[j].0 by {
                if i < rest.len() && j < rest.len() {
                    assert(rest[i].0 != rest[j].0);
                } else if i < rest.len() {
                    let k = front.index_of(rest[i].0);
                    assert(row[k] == rest[i].0);
                } else {
                    let k = front.index_of(rest[j].0);
                    assert(row[k] == rest[j].0);
                }
            }
        }
    }
}

/// Lists what the walk puts on its stack when it handles `v`, or returns
/// `None` if an edge joins `v` to itself.
fn links_of(row: &Vec<usize>, v: usize, p: usize) -> (found: Option<Vec<(usize, usize)>>)
    ensures
        match found {
            Some(list) => !row@.contains(v) && list@ == links(row@, v, p),
            None => row@.contains(v),
        },
{
    let mut list: Vec<(usize, usize)> = Vec::new();
    let mut i: usize = 0;
    while i < row.len()
        invariant
            i <= row@.len(),
            list@ == links(row@.take(i as int), v, p),
            forall|k: int| 0 <= k < i ==> row@[k] != v,
        decreases row@.len() - i,
    {
        let neighbor = row[i];
        if neighbor == v {
            return None;
        }
        proof {
            assert(row@.take(i + 1).drop_last() =~= row@.take(i as int));
        }
        if neighbor != p {
            list.push((neighbor, v));
        }
        i += 1;
    }
    proof {
        assert(row@.take(i as int) =~= row@);
    }
    Some(list)
}

/// The state of the walk: the vertices seen, the stack of vertices still
/// to be handled, each with the vertex from which it was reached, and
/// for each vertex seen the vertex from which it was reached and the
/// moment at which it was seen.
pub ghost struct Walk {
    pub seen: Seq<bool>,
    pub stack: Seq<(usize, usize)>,
    pub parent: Seq<int>,
    pub rank: Seq<nat>,
    pub clock: nat,
}

impl Walk {
    /// The state after `v`, reached from `p`, was taken from the stack
    /// and handled: `rest` stayed on the stack and `found` joined.
    spec fn step(self, v: usize, p: usize, rest: Seq<(usize, usize)>, found: Seq<(usize, usize)>) -> Walk {
        Walk {
            seen: self.seen.update(v as int, true),
            stack: rest + found,
            parent: self.parent.update(v as int, p as int),
            rank: self.rank.update(v as int, self.clock),
            clock: self.clock + 1,
        }
    }

    /// Whether the edge between `a`, which was seen, and `b` is accounted
    /// for: one of the two was reached from the other, or `b` waits on
    /// the stack as reached from `a`.
    spec fn accounted(self, a: int, b: int) -> bool {
        ||| a != 0 && self.parent[a] == b
        ||| b != 0 && self.seen[b] && self.parent[b] == a
        ||| self.stack.contains((b as usize, a as usize))
    }

    /// What the walk has found is part of a tree: the vertices seen are
    /// arranged under the root 0, and each edge of a vertex seen is
    /// accounted for.
    spec fn sound(self, n: nat, edges: Seq<(usize, usize)>) -> bool {
        &&& self.seen.len() == n
        &&& self.parent.len() == n
        &&& self.rank.len() == n
        &&& self.clock == marked(self.seen)
        &&& self.clock == 0 ==> self.stack == seq![(0usize, 0usize)]
        &&& self.clock > 0 ==> self.seen[0]
        &&& forall|v: int| 0 <= v < n && #[trigger] self.seen[v] ==> self.rank[v] < self.clock
        &&& forall|v: int|
            1 <= v < n && #[trigger] self.seen[v] ==> 0 <= self.parent[v] < n
                && self.seen[self.parent[v]] && self.rank[self.parent[v]] < self.rank[v] && linked(
                edges,
                v,
                self.parent[v],
            )
        &&& forall|i: int|
            0 <= i < self.stack.len() ==> (#[trigger] self.stack[i]).0 < n && self.stack[i].1 < n
                && (self.clock > 0 ==> self.stack[i].0 != self.stack[i].1
                && self.seen[self.stack[i].1 as int] && linked(
                edges,
                self.stack[i].0 as int,
                self.stack[i].1 as int,
            ))
        &&& forall|a: int, b: int|
            0 <= a < n && 0 <= b < n && self.seen[a] && #[trigger] linked(edges, a, b) ==> a != b
                && self.accounted(a, b)
    }

    /// The walk keeps to the tree given by `parent`: what waits on the
    /// stack has not been seen and was reached from its parent, nothing
    /// waits twice, and the children of a vertex seen are seen or wait.
    spec fn complete(self, n: nat, parent: Seq<int>) -> bool {
        &&& forall|i: int|
            0 <= i < self.stack.len() ==> !self.seen[(#[trigger] self.stack[i]).0 as int] && (
            self.stack[i].0 != 0 ==> parent[self.stack[i].0 as int] == self.stack[i].1
                && self.seen[self.stack[i].1 as int])
        &&& forall|i: int, j: int|
            0 <= i < self.stack.len() && 0 <= j < self.stack.len() && i != j ==> self.stack[i].0
                != self.stack[j].0
        &&& forall|x: int|
            1 <= x < n && !(#[trigger] self.seen[x]) && self.seen[parent[x]]
                ==> self.stack.contains((x as usize, parent[x] as usize))
        &&& forall|x: int| 1 <= x < n && #[trigger] self.seen[x] ==> self.seen[parent[x]]
        &&& self.seen[0] || self.stack.contains((0usize, 0usize))
    }
}

/// What stands on the stack after a step stood there before or was found.
proof fn lemma_stack_after(
    before: Seq<(usize, usize)>,
    rest: Seq<(usize, usize)>,
    found: Seq<(usize, usize)>,
    top: (usize, usize),
)
    requires
        before == rest.push(top),
    ensures
        forall|e: (usize, usize)| #[trigger]
            (rest + found).contains(e) <==> rest.contains(e) || found.contains(e),
        forall|e: (usize, usize)| #[trigger] before.contains(e) <==> rest.contains(e) || e == top,
{
    let after = rest + found;
    assert forall|e: (usize, usize)| #[trigger]
        after.contains(e) <==> rest.contains(e) || found.contains(e) by {
        if rest.contains(e) {
            let i = rest.index_of(e);
            assert(after[i] == e);
        }
        if found.contains(e) {
            let i = found.index_of(e);
            assert(after[rest.len() + i] == e);
        }
        if after.contains(e) {
            let i = after.index_of(e);
            if i < rest.len() {
                assert(rest[i] == e);
            } else {
                assert(found[i - rest.len()] == e);
            }
        }
    }
    assert forall|e: (usize, usize)| #[trigger]
        before.contains(e) <==> rest.contains(e) || e == top by {
        if rest.contains(e) {
            let i = rest.index_of(e);
            assert(before[i] == e);
        }
        if e == top {
            assert(before[rest.len() as int] == e);
        }
        if before.contains(e) {
            let i = before.index_of(e);
            if i < rest.len() {
                assert(rest[i] == e);
            }
        }
    }
}

/// A step of the walk keeps what it has found part of a tree.
proof fn lemma_sound_step(
    n: nat,
    edges: Seq<(usize, usize)>,
    rows: Seq<Vec<usize>>,
    w: Walk,
    v: usize,
    p: usize,
    rest: Seq<(usize, usize)>,
)
    requires
        adjacency_of(rows, n, edges),
        w.sound(n, edges),
        w.stack == rest.push((v, p)),
        v < n,
        p < n,
        !w.seen[v as int],
        !rows[v as int]@.contains(v),
    ensures
        w.step(v, p, rest, links(rows[v as int]@, v, p)).sound(n, edges),
{
    let row = rows[v as int]@;
    let found = links(row, v, p);
    let after = w.step(v, p, rest, found);
    lemma_links(row, v, p);
    lemma_stack_after(w.stack, rest, found, (v, p));
    lemma_marked_update(w.seen, v as int);
    lemma_marked(w.seen);
    assert(w.stack[rest.len() as int] == (v, p));
    if w.clock == 0 {
        assert(w.stack[0] == (0usize, 0usize));
        assert(rest.len() == 0);
    } else {
        assert(v != 0);
    }
    assert forall|x: int| 1 <= x < n && #[trigger] after.seen[x] implies 0 <= after.parent[x] < n
        && after.seen[after.parent[x]] && after.rank[after.parent[x]] < after.rank[x] && linked(
        edges,
        x,
        after.parent[x],
    ) by {
        if x != v {
            assert(w.seen[x]);
        }
    }
    assert forall|i: int| 0 <= i < after.stack.len() implies (#[trigger] after.stack[i]).0 < n
        && after.stack[i].1 < n && after.stack[i].0 != after.stack[i].1
        && after.seen[after.stack[i].1 as int] && linked(
        edges,
        after.stack[i].0 as int,
        after.stack[i].1 as int,
    ) by {
        if i < rest.len() {
            assert(after.stack[i] == w.stack[i]);
        } else {
            let e = found[i - rest.len()];
            assert(after.stack[i] == e);
            let k = row.index_of(e.0);
            assert(rows[v as int]@[k] == e.0);
            assert(linked(edges, v as int, e.0 as int));
            let j = choose|j: int|
                0 <= j < edges.len() && ((#[trigger] edges[j]).0 == v as int && edges[j].1
                    == e.0 as int || edges[j].0 == e.0 as int && edges[j].1 == v as int);
            assert(linked(edges, e.0 as int, v as int));
        }
    }
    assert forall|a: int, b: int|
        0 <= a < n && 0 <= b < n && after.seen[a] && #[trigger] linked(edges, a, b) implies a != b
        && after.accounted(a, b) by {
        if a == v {
            assert(row.contains(b as usize));
            if b != p {
                assert(found.contains((b as usize, v)));
                assert(after.stack.contains((b as usize, a as usize)));
            }
        } else {
            assert(w.accounted(a, b));
            if w.stack.contains((b as usize, a as usize)) {
                if (b as usize, a as usize) == (v, p) {
                    assert(w.clock > 0);
                } else {
                    assert(rest.contains((b as usize, a as usize)));
                }
            }
        }
    }
}

/// When the walk has seen every vertex and nothing is left on its stack,
/// what it has found is a tree, and it is the whole graph.
proof fn lemma_sound_done(n: nat, edges: Seq<(usize, usize)>, w: Walk)
    requires
        n > 0,
        edges_valid(n, edges),
        w.sound(n, edges),
        w.stack.len() == 0,
        w.clock == n,
    ensures
        arranged(n, edges, w.parent, w.rank),
{
    lemma_marked(w.seen);
    assert forall|k: int| 0 <= k < edges.len() implies is_link(
        w.parent,
        (#[trigger] edges[k]).0 as int,
        edges[k].1 as int,
    ) by {
        let a = edges[k].0 as int;
        let b = edges[k].1 as int;
        assert(linked(edges, a, b));
        assert(w.seen[a] && w.seen[b]);
        assert(w.accounted(a, b));
    }
    assert forall|v: int| 1 <= v < n implies 0 <= #[trigger] w.parent[v] < n
        && w.rank[w.parent[v]] < w.rank[v] && linked(edges, v, w.parent[v]) by {
        assert(w.seen[v]);
    }
}

/// In a tree the walk never takes from its stack a vertex that it has
/// seen, and never finds an edge from a vertex to itself.
proof fn lemma_complete_pop(
    n: nat,
    edges: Seq<(usize, usize)>,
    rows: Seq<Vec<usize>>,
    parent: Seq<int>,
    rank: Seq<nat>,
    w: Walk,
    v: usize,
    p: usize,
    rest: Seq<(usize, usize)>,
)
    requires
        arranged(n, edges, parent, rank),
        adjacency_of(rows, n, edges),
        w.sound(n, edges),
        w.complete(n, parent),
        w.stack == rest.push((v, p)),
        v < n,
        p < n,
    ensures
        !w.seen[v as int],
        !rows[v as int]@.contains(v),
{
    assert(w.stack[rest.len() as int] == (v, p));
    if rows[v as int]@.contains(v) {
        let i = rows[v as int]@.index_of(v);
        assert(linked(edges, v as int, rows[v as int]@[i] as int));
        let k = choose|k: int|
            0 <= k < edges.len() && ((#[trigger] edges[k]).0 == v as int && edges[k].1 == v as int
                || edges[k].0 == v as int && edges[k].1 == v as int);
        assert(is_link(parent, edges[k].0 as int, edges[k].1 as int));
        assert(rank[parent[v as int]] < rank[v as int]);
    }
}

/// Two vertices that an edge of a tree joins are a vertex and its parent.
proof fn lemma_linked_is_link(
    n: nat,
    edges: Seq<(usize, usize)>,
    parent: Seq<int>,
    rank: Seq<nat>,
    a: int,
    b: int,
)
    requires
        arranged(n, edges, parent, rank),
        linked(edges, a, b),
    ensures
        is_link(parent, a, b),
{
    let k = choose|k: int|
        0 <= k < edges.len() && ((#[trigger] edges[k]).0 == a && edges[k].1 == b || edges[k].0 == b
            && edges[k].1 == a);
    assert(is_link(parent, edges[k].0 as int, edges[k].1 as int));
}

/// In a tree a step of the walk keeps to the tree.
proof fn lemma_complete_step(
    n: nat,
    edges: Seq<(usize, usize)>,
    rows: Seq<Vec<usize>>,
    parent: Seq<int>,
    rank: Seq<nat>,
    w: Walk,
    v: usize,
    p: usize,
    rest: Seq<(usize, usize)>,
)
    requires
        arranged(n, edges, parent, rank),
        adjacency_of(rows, n, edges),
        w.sound(n, edges),
        w.complete(n, parent),
        w.stack == rest.push((v, p)),
        v < n,
        p < n,
    ensures
        w.step(v, p, rest, links(rows[v as int]@, v, p)).complete(n, parent),
{
    let row = rows[v as int]@;
    let found = links(row, v, p);
    let after = w.step(v, p, rest, found);
    lemma_complete_pop(n, edges, rows, parent, rank, w, v, p, rest);
    lemma_links(row, v, p);
    lemma_stack_after(w.stack, rest, found, (v, p));
    lemma_marked(w.seen);
    let top = rest.len() as int;
    assert(w.stack[top] == (v, p));
    assert(v < n && p < n);
    if w.clock == 0 {
        assert(w.stack[0] == (0usize, 0usize));
    } else {
        assert(v != 0);
        assert(parent[v as int] == p);
    }
    // What was found are children of `v` that have not been seen.
    assert forall|i: int| 0 <= i < found.len() implies {
        let b = (#[trigger] found[i]).0 as int;
        &&& 1 <= b < n
        &&& b != v
        &&& parent[b] == v
        &&& !w.seen[b]
    } by {
        let b = found[i].0;
        let k = row.index_of(b);
        assert(rows[v as int]@[k] == b);
        lemma_linked_is_link(n, edges, parent, rank, v as int, b as int);
        if w.seen[b as int] {
            assert(w.seen[parent[b as int]]);
        }
    }
    assert forall|i: int| 0 <= i < after.stack.len() implies !after.seen[(
    #[trigger] after.stack[i]).0 as int] && (after.stack[i].0 != 0 ==> parent[after.stack[i].0 as int]
        == after.stack[i].1 && after.seen[after.stack[i].1 as int]) by {
        if i < rest.len() {
            assert(after.stack[i] == w.stack[i]);
            assert(w.stack[i].0 != w.stack[top].0);
        } else {
            assert(after.stack[i] == found[i - rest.len()]);
        }
    }
    assert forall|i: int, j: int|
        0 <= i < after.stack.len() && 0 <= j < after.stack.len() && i != j implies after.stack[i].0
        != after.stack[j].0 by {
        if i < rest.len() && j < rest.len() {
            assert(after.stack[i] == w.stack[i] && after.stack[j] == w.stack[j]);
        } else if i < rest.len() {
            assert(after.stack[i] == w.stack[i]);
            assert(after.stack[j] == found[j - rest.len()]);
        } else if j < rest.len() {
            assert(after.stack[j] == w.stack[j]);
            assert(after.stack[i] == found[i - rest.len()]);
        } else {
            assert(after.stack[i] == found[i - rest.len()]);
            assert(after.stack[j] == found[j - rest.len()]);
        }
    }
    assert forall|x: int|
        1 <= x < n && !(#[trigger] after.seen[x]) && after.seen[parent[x]]
        implies after.stack.contains((x as usize, parent[x] as usize)) by {
        if parent[x] == v {
            assert(linked(edges, x, parent[x]));
            let k = choose|k: int|
                0 <= k < edges.len() && ((#[trigger] edges[k]).0 == x && edges[k].1 == v as int
                    || edges[k].0 == v as int && edges[k].1 == x);
            assert(linked(edges, v as int, x));
            assert(row.contains(x as usize));
            assert(rank[parent[x]] < rank[x]);
            if x == p {
                assert(v != 0);
                assert(rank[parent[v as int]] < rank[v as int]);
            }
            assert(found.contains((x as usize, v)));
        } else {
            assert(w.stack.contains((x as usize, parent[x] as usize)));
        }
    }
    assert forall|x: int| 1 <= x < n && #[trigger] after.seen[x] implies after.seen[parent[x]] by {
        if x != v {
            assert(w.seen[x]);
        }
    }
    if !after.seen[0] {
        assert(w.stack.contains((0usize, 0usize)));
    }
}

/// In a tree the walk has seen every vertex once nothing is left on its
/// stack.
proof fn lemma_all_reached(n: nat, parent: Seq<int>, rank: Seq<nat>, edges: Seq<(usize, usize)>, w: Walk, x: int)
    requires
        arranged(n, edges, parent, rank),
        w.complete(n, parent),
        w.stack.len() == 0,
        0 <= x < n,
    ensures
        w.seen[x],
    decreases rank[x],
{
    if x != 0 {
        lemma_all_reached(n, parent, rank, edges, w, parent[x]);
    }
}

/// Creates a vector that holds `n` times `false`.
fn nothing_seen(n: usize) -> (seen: Vec<bool>)
    ensures
        seen@.len() == n,
        forall|i: int| 0 <= i < n ==> !seen@[i],
{
    let mut seen: Vec<bool> = Vec::new();
    let mut i: usize = 0;
    while i < n
        invariant
            i <= n,
            seen@.len() == i,
            forall|j: int| 0 <= j < i ==> !seen@[j],
        decreases n - i,
    {
        seen.push(false);
        i += 1;
    }
    seen
}

/// Tells whether the undirected graph with the vertices `0 .. n` and the
/// given edges is a tree.
///
/// A graph without a vertex is no tree. Otherwise an edge that names a
/// vertex outside `0 .. n` is an error. An edge given more than once
/// counts once; an edge from a vertex to itself makes a loop.
///
/// The graph is walked depth first from the vertex 0, with a stack that
/// holds for each vertex the vertex from which it was reached: the graph
/// is a tree if the walk never comes to a vertex a second time and comes
/// to every vertex once.
pub fn is_graph_a_tree(n: &usize, edges: &Vec<(usize, usize)>) -> (result: Result<bool, String>)
    ensures
        match result {
            Ok(answer) => (*n == 0 || edges_valid(*n as nat, edges@)) && answer == is_tree(
                *n as nat,
                edges@,
            ),
            Err(message) => *n > 0 && !edges_valid(*n as nat, edges@) && message@
                == invalid_edge(),
        },
{
    let vertices = *n;
    // A graph without a vertex is no tree.
    if vertices == 0 {
        return Ok(false);
    }
    let rows = match adjacency_list(vertices, edges) {
        Some(rows) => rows,
        None => {
            return Err(String::from_str("Edge refer to an invalid vertex"));
        },
    };
    let ghost size = vertices as nat;
    let ghost tree = is_tree(size, edges@);
    let ghost (parent, rank) = choose|parent: Seq<int>, rank: Seq<nat>|
        arranged(size, edges@, parent, rank);
    let mut seen = nothing_seen(vertices);
    let mut count: usize = 0;
    let mut stack: Vec<(usize, usize)> = Vec::new();
    // The first vertex to handle; from where it was reached plays no
    // part.
    stack.push((0, 0));
    let ghost mut w = Walk {
        seen: seen@,
        stack: stack@,
        parent: Seq::new(size, |i: int| 0int),
        rank: Seq::new(size, |i: int| 0nat),
        clock: 0,
    };
    proof {
        lemma_marked(seen@);
        assert(stack@ =~= seq![(0usize, 0usize)]);
        assert(w.stack[0] == (0usize, 0usize));
    }
    while stack.len() > 0
        invariant
            vertices > 0,
            vertices == *n,
            size == vertices,
            tree == is_tree(size, edges@),
            tree ==> arranged(size, edges@, parent, rank),
            edges_valid(size, edges@),
            adjacency_of(rows@, size, edges@),
            w.seen == seen@,
            w.stack == stack@,
            w.clock == count,
            w.sound(size, edges@),
            tree ==> w.complete(size, parent),
        decreases vertices - count,
    {
        let ghost before = stack@;
        let (v, p) = stack.pop().unwrap();
        let ghost rest = stack@;
        proof {
            assert(before =~= rest.push((v, p)));
            assert(before[rest.len() as int] == (v, p));
            assert(v < size && p < size);
            lemma_marked(seen@);
            if tree {
                lemma_complete_pop(size, edges@, rows@, parent, rank, w, v, p, rest);
            }
        }
        // A vertex seen before closes a loop.
        if seen[v] {
            return Ok(false);
        }
        // So does an edge from the vertex to itself; the other edges,
        // but the one the walk came by, are followed later.
        let found = match links_of(&rows[v], v, p) {
            Some(found) => found,
            None => {
                return Ok(false);
            },
        };
        proof {
            lemma_marked_update(seen@, v as int);
            lemma_marked(seen@.update(v as int, true));
        }
        seen.set(v, true);
        count += 1;
        let mut i: usize = 0;
        while i < found.len()
            invariant
                i <= found@.len(),
                stack@ == rest + found@.subrange(0, i as int),
            decreases found@.len() - i,
        {
            stack.push(found[i]);
            proof {
                assert(rest + found@.subrange(0, i + 1) =~= (rest + found@.subrange(
                    0,
                    i as int,
                )).push(found@[i as int]));
            }
            i += 1;
        }
        proof {
            assert(found@.subrange(0, i as int) =~= found@);
            lemma_sound_step(size, edges@, rows@, w, v, p, rest);
            if tree {
                lemma_complete_step(size, edges@, rows@, parent, rank, w, v, p, rest);
            }
            w = w.step(v, p, rest, found@);
        }
    }
    // The walk came to fewer vertices than there are: a part of the
    // graph stands alone.
    if count != vertices {
        proof {
            if tree {
                assert forall|x: int| 0 <= x < vertices implies seen@[x] by {
                    lemma_all_reached(size, parent, rank, edges@, w, x);
                }
                lemma_marked(seen@);
            }
        }
        return Ok(false);
    }
    proof {
        lemma_sound_done(size, edges@, w);
    }
    Ok(true)
}

} // verus!
