//! The order in which a backward pass visits the computation graph.
//!
//! A graph is seen here through its adjacency: `adj[i]` lists the inputs of
//! node `i`. Every graph that the engine builds has its inputs created before
//! the node that uses them (`inputs_precede`), which makes it acyclic.
use vstd::prelude::*;

verus! {

/// Every input of a node was created before the node itself.
pub open spec fn inputs_precede(adj: Seq<Seq<usize>>) -> bool {
    forall|i: int, j: int| 0 <= i < adj.len() && 0 <= j < adj[i].len() ==> #[trigger] adj[i][j] < i
}

/// Depth-first post-order from `v`, appended to `acc`; nodes already in `acc`
/// are not visited again.
pub open spec fn dfs(adj: Seq<Seq<usize>>, v: usize, acc: Seq<usize>) -> Seq<usize>
    decreases v, 1int, 0int,
{
    if v < adj.len() && !acc.contains(v) {
        dfs_from(adj, v, 0, acc).push(v)
    } else {
        acc
    }
}

/// Visits the inputs of `v` from position `i` on, in order.
pub open spec fn dfs_from(adj: Seq<Seq<usize>>, v: usize, i: int, acc: Seq<usize>) -> Seq<usize>
    decreases v, 0int, adj[v as int].len() - i,
{
    if v < adj.len() && 0 <= i < adj[v as int].len() {
        let c = adj[v as int][i];
        let next = if c < v {
            dfs(adj, c, acc)
        } else {
            acc
        };
        dfs_from(adj, v, i + 1, next)
    } else {
        acc
    }
}

/// `u` is `v` itself or is reachable from one of the inputs of `v`.
pub open spec fn reaches(adj: Seq<Seq<usize>>, v: usize, u: usize) -> bool
    decreases v, 1int, 0int,
{
    v == u || reaches_from(adj, v, 0, u)
}

/// `u` is reachable from one of the inputs of `v` at position `i` or later.
pub open spec fn reaches_from(adj: Seq<Seq<usize>>, v: usize, i: int, u: usize) -> bool
    decreases v, 0int, adj[v as int].len() - i,
{
    if v < adj.len() && 0 <= i < adj[v as int].len() {
        let c = adj[v as int][i];
        (c < v && reaches(adj, c, u)) || reaches_from(adj, v, i + 1, u)
    } else {
        false
    }
}

/// Every input of every node in `s` occurs in `s` before that node.
pub open spec fn inputs_first(adj: Seq<Seq<usize>>, s: Seq<usize>) -> bool {
    forall|k: int, j: int|
        0 <= k < s.len() && 0 <= j < adj[s[k] as int].len() ==> s.take(k).contains(
            #[trigger] adj[s[k] as int][j],
        )
}

/// Every input of every node in `s` occurs in `s` after that node.
pub open spec fn inputs_last(adj: Seq<Seq<usize>>, s: Seq<usize>) -> bool {
    forall|p: int, j: int|
        0 <= p < s.len() && 0 <= j < adj[s[p] as int].len() ==> s.skip(p + 1).contains(
            #[trigger] adj[s[p] as int][j],
        )
}

/// The post-order in which a backward pass from `root` collects the nodes.
pub open spec fn topo_order(adj: Seq<Seq<usize>>, root: usize) -> Seq<usize> {
    dfs(adj, root, Seq::empty())
}

/// The order in which a backward pass from `root` propagates gradients.
pub open spec fn backward_schedule(adj: Seq<Seq<usize>>, root: usize) -> Seq<usize> {
    topo_order(adj, root).reverse()
}

proof fn lemma_prefix_contains(a: Seq<usize>, b: Seq<usize>, x: usize)
    requires
        a.is_prefix_of(b),
        a.contains(x),
    ensures
        b.contains(x),
{
    let q = choose|q: int| 0 <= q < a.len() && a[q] == x;
    assert(b[q] == x);
}

/// A depth-first visit only appends to `acc`, appends nodes no later than `v`,
/// and leaves `v` visited.
pub(crate) proof fn lemma_dfs_shape(adj: Seq<Seq<usize>>, v: usize, acc: Seq<usize>)
    requires
        inputs_precede(adj),
    ensures
        acc.is_prefix_of(dfs(adj, v, acc)),
        forall|k: int|
            acc.len() <= k < dfs(adj, v, acc).len() ==> dfs(adj, v, acc)[k] <= v,
        v < adj.len() ==> dfs(adj, v, acc).contains(v),
    decreases v, 1int, 0int,
{
    if v < adj.len() && !acc.contains(v) {
        lemma_dfs_from_shape(adj, v, 0, acc);
        let r = dfs_from(adj, v, 0, acc);
        let s = r.push(v);
        assert(s[r.len() as int] == v);
        assert(acc =~= s.subrange(0, acc.len() as int));
    }
}

proof fn lemma_dfs_from_shape(adj: Seq<Seq<usize>>, v: usize, i: int, acc: Seq<usize>)
    requires
        inputs_precede(adj),
        v < adj.len(),
        0 <= i,
    ensures
        acc.is_prefix_of(dfs_from(adj, v, i, acc)),
        forall|k: int|
            acc.len() <= k < dfs_from(adj, v, i, acc).len() ==> dfs_from(adj, v, i, acc)[k]
                < v,
        forall|j: int| i <= j < adj[v as int].len() ==> dfs_from(adj, v, i, acc).contains(adj[v as int][j]),
    decreases v, 0int, adj[v as int].len() - i,
{
    if i < adj[v as int].len() {
        let c = adj[v as int][i];
        assert(adj[v as int][i] < v);
        lemma_dfs_shape(adj, c, acc);
        let next = dfs(adj, c, acc);
        lemma_dfs_from_shape(adj, v, i + 1, next);
        let r = dfs_from(adj, v, i + 1, next);
        assert(acc =~= r.subrange(0, acc.len() as int)) by {
            assert forall|k: int| 0 <= k < acc.len() implies r[k] == acc[k] by {
                assert(next[k] == acc[k]);
            }
        }
        assert forall|k: int| acc.len() <= k < r.len() implies r[k] < v by {
            if k < next.len() {
                assert(r[k] == next[k]);
            }
        }
        lemma_prefix_contains(next, r, adj[v as int][i]);
    }
}

proof fn lemma_dfs_inputs_first(adj: Seq<Seq<usize>>, v: usize, acc: Seq<usize>)
    requires
        inputs_precede(adj),
        inputs_first(adj, acc),
    ensures
        inputs_first(adj, dfs(adj, v, acc)),
    decreases v, 1int, 0int,
{
    if v < adj.len() && !acc.contains(v) {
        lemma_dfs_from_inputs_first(adj, v, 0, acc);
        lemma_dfs_from_shape(adj, v, 0, acc);
        let r = dfs_from(adj, v, 0, acc);
        let s = r.push(v);
        assert forall|k: int, j: int|
            0 <= k < s.len() && 0 <= j < adj[s[k] as int].len() implies s.take(k).contains(
            #[trigger] adj[s[k] as int][j],
        ) by {
            if k < r.len() {
                assert(s.take(k) =~= r.take(k));
                assert(s[k] == r[k]);
            } else {
                assert(s.take(k) =~= r);
            }
        }
    }
}

proof fn lemma_dfs_from_inputs_first(adj: Seq<Seq<usize>>, v: usize, i: int, acc: Seq<usize>)
    requires
        inputs_precede(adj),
        inputs_first(adj, acc),
        v < adj.len(),
        0 <= i,
    ensures
        inputs_first(adj, dfs_from(adj, v, i, acc)),
    decreases v, 0int, adj[v as int].len() - i,
{
    if i < adj[v as int].len() {
        let c = adj[v as int][i];
        assert(adj[v as int][i] < v);
        lemma_dfs_inputs_first(adj, c, acc);
        lemma_dfs_from_inputs_first(adj, v, i + 1, dfs(adj, c, acc));
    }
}

proof fn lemma_dfs_no_duplicates(adj: Seq<Seq<usize>>, v: usize, acc: Seq<usize>)
    requires
        inputs_precede(adj),
        acc.no_duplicates(),
    ensures
        dfs(adj, v, acc).no_duplicates(),
    decreases v, 1int, 0int,
{
    if v < adj.len() && !acc.contains(v) {
        lemma_dfs_from_no_duplicates(adj, v, 0, acc);
        lemma_dfs_from_shape(adj, v, 0, acc);
        let r = dfs_from(adj, v, 0, acc);
        assert forall|k: int| 0 <= k < r.len() implies r[k] != v by {
            if k < acc.len() {
                assert(r[k] == acc[k]);
            }
        }
    }
}

proof fn lemma_dfs_from_no_duplicates(adj: Seq<Seq<usize>>, v: usize, i: int, acc: Seq<usize>)
    requires
        inputs_precede(adj),
        acc.no_duplicates(),
        v < adj.len(),
        0 <= i,
    ensures
        dfs_from(adj, v, i, acc).no_duplicates(),
    decreases v, 0int, adj[v as int].len() - i,
{
    if i < adj[v as int].len() {
        let c = adj[v as int][i];
        assert(adj[v as int][i] < v);
        lemma_dfs_no_duplicates(adj, c, acc);
        lemma_dfs_from_no_duplicates(adj, v, i + 1, dfs(adj, c, acc));
    }
}

proof fn lemma_dfs_within(adj: Seq<Seq<usize>>, v: usize, acc: Seq<usize>, u: usize)
    requires
        inputs_precede(adj),
        dfs(adj, v, acc).contains(u),
    ensures
        acc.contains(u) || reaches(adj, v, u),
    decreases v, 1int, 0int,
{
    if v < adj.len() && !acc.contains(v) {
        let r = dfs_from(adj, v, 0, acc);
        let s = r.push(v);
        if u != v {
            let q = choose|q: int| 0 <= q < s.len() && #[trigger] s[q] == u;
            assert(r[q] == u);
            lemma_dfs_from_within(adj, v, 0, acc, u);
        }
    }
}

proof fn lemma_dfs_from_within(adj: Seq<Seq<usize>>, v: usize, i: int, acc: Seq<usize>, u: usize)
    requires
        inputs_precede(adj),
        v < adj.len(),
        0 <= i,
        dfs_from(adj, v, i, acc).contains(u),
    ensures
        acc.contains(u) || reaches_from(adj, v, i, u),
    decreases v, 0int, adj[v as int].len() - i,
{
    if i < adj[v as int].len() {
        let c = adj[v as int][i];
        assert(adj[v as int][i] < v);
        let next = dfs(adj, c, acc);
        lemma_dfs_from_within(adj, v, i + 1, next, u);
        if next.contains(u) {
            lemma_dfs_within(adj, c, acc, u);
        }
    }
}

proof fn lemma_closed_reaches(adj: Seq<Seq<usize>>, s: Seq<usize>, v: usize, u: usize)
    requires
        inputs_precede(adj),
        inputs_first(adj, s),
        s.contains(v),
        reaches(adj, v, u),
    ensures
        s.contains(u as usize),
    decreases v, 1int, 0int,
{
    if v != u {
        lemma_closed_reaches_from(adj, s, v, 0, u);
    }
}

proof fn lemma_closed_reaches_from(adj: Seq<Seq<usize>>, s: Seq<usize>, v: usize, i: int, u: usize)
    requires
        inputs_precede(adj),
        inputs_first(adj, s),
        0 <= i,
        s.contains(v),
        reaches_from(adj, v, i, u),
    ensures
        s.contains(u as usize),
    decreases v, 0int, adj[v as int].len() - i,
{
    let c = adj[v as int][i];
    if c < v && reaches(adj, c, u) {
        let k = choose|k: int| 0 <= k < s.len() && s[k] == v;
        assert(s.take(k).contains(adj[s[k] as int][i]));
        let q = choose|q: int| 0 <= q < k && s.take(k)[q] == adj[v as int][i];
        assert(s[q] == adj[v as int][i]);
        lemma_closed_reaches(adj, s, c, u);
    } else {
        lemma_closed_reaches_from(adj, s, v, i + 1, u);
    }
}

/// The post-order of a backward pass from `root` lists every node reachable
/// from `root` exactly once, and no other node; each node comes after all of
/// its inputs, and `root` comes last.
pub proof fn lemma_topo_order(adj: Seq<Seq<usize>>, root: usize)
    requires
        inputs_precede(adj),
        0 <= root < adj.len(),
    ensures
        inputs_first(adj, topo_order(adj, root)),
        topo_order(adj, root).no_duplicates(),
        forall|u: usize| #[trigger]
            topo_order(adj, root).contains(u) <==> reaches(adj, root, u),
        topo_order(adj, root).len() > 0,
        topo_order(adj, root).last() == root,
{
    let e = Seq::<usize>::empty();
    let t = topo_order(adj, root);
    lemma_dfs_inputs_first(adj, root, e);
    lemma_dfs_no_duplicates(adj, root, e);
    lemma_dfs_shape(adj, root, e);
    assert(!e.contains(root));
    assert forall|u: usize| #[trigger] t.contains(u) <==> reaches(adj, root, u) by {
        if t.contains(u) {
            lemma_dfs_within(adj, root, e, u);
        }
        if reaches(adj, root, u) {
            lemma_closed_reaches(adj, t, root, u);
        }
    }
}

/// A backward pass from `root` starts at `root`, propagates through every node
/// reachable from `root` exactly once and through no other node, and reaches a
/// node only after every node that uses it as an input.
pub proof fn lemma_backward_schedule(adj: Seq<Seq<usize>>, root: usize)
    requires
        inputs_precede(adj),
        0 <= root < adj.len(),
    ensures
        backward_schedule(adj, root).len() > 0,
        backward_schedule(adj, root)[0] == root,
        backward_schedule(adj, root).no_duplicates(),
        forall|u: usize| #[trigger]
            backward_schedule(adj, root).contains(u) <==> reaches(adj, root, u),
        inputs_last(adj, backward_schedule(adj, root)),
{
    lemma_topo_order(adj, root);
    let t = topo_order(adj, root);
    let s = backward_schedule(adj, root);
    let n = t.len() as int;
    assert(s.len() == n);
    assert forall|p: int| 0 <= p < n implies #[trigger] s[p] == t[n - 1 - p] by {}
    assert(s[0] == t[n - 1]);
    assert forall|a: int, b: int| 0 <= a < n && 0 <= b < n && a != b implies s[a] != s[b] by {
        assert(s[a] == t[n - 1 - a]);
        assert(s[b] == t[n - 1 - b]);
    }
    assert forall|u: usize| #[trigger] s.contains(u) <==> t.contains(u) by {
        if s.contains(u) {
            let p = choose|p: int| 0 <= p < n && s[p] == u;
            assert(t[n - 1 - p] == u);
        }
        if t.contains(u) {
            let k = choose|k: int| 0 <= k < n && t[k] == u;
            assert(s[n - 1 - k] == u);
        }
    }
    assert forall|p: int, j: int|
        0 <= p < n && 0 <= j < adj[s[p] as int].len() implies s.skip(p + 1).contains(
        #[trigger] adj[s[p] as int][j],
    ) by {
        let k = n - 1 - p;
        assert(s[p] == t[k]);
        assert(t.take(k).contains(adj[t[k] as int][j]));
        let m = choose|m: int| 0 <= m < k && t.take(k)[m] == adj[t[k] as int][j];
        assert(s[n - 1 - m] == t[m]);
        assert(s.skip(p + 1)[n - 1 - m - (p + 1)] == t[m]);
    }
}

proof fn lemma_reaches_from_child(adj: Seq<Seq<usize>>, v: usize, i: int, j: int)
    requires
        inputs_precede(adj),
        v < adj.len(),
        0 <= i <= j < adj[v as int].len(),
    ensures
        reaches_from(adj, v, i, adj[v as int][j]),
    decreases j - i,
{
    let c = adj[v as int][j];
    assert(c < v);
    assert(reaches(adj, c, c));
    if i < j {
        lemma_reaches_from_child(adj, v, i + 1, j);
    } else {
        assert(adj[v as int][i] == c);
    }
}

proof fn lemma_reaches_input(adj: Seq<Seq<usize>>, root: usize, v: usize, j: int)
    requires
        inputs_precede(adj),
        reaches(adj, root, v),
        v < adj.len(),
        0 <= j < adj[v as int].len(),
    ensures
        reaches(adj, root, adj[v as int][j]),
    decreases root, 1int, 0int,
{
    if root == v {
        lemma_reaches_from_child(adj, v, 0, j);
    } else {
        lemma_reaches_from_input(adj, root, 0, v, j);
    }
}

proof fn lemma_reaches_from_input(adj: Seq<Seq<usize>>, root: usize, i: int, v: usize, j: int)
    requires
        inputs_precede(adj),
        reaches_from(adj, root, i, v),
        v < adj.len(),
        0 <= i,
        0 <= j < adj[v as int].len(),
    ensures
        reaches_from(adj, root, i, adj[v as int][j]),
    decreases root, 0int, adj[root as int].len() - i,
{
    let c = adj[root as int][i];
    if c < root && reaches(adj, c, v) {
        lemma_reaches_input(adj, c, v, j);
    } else {
        lemma_reaches_from_input(adj, root, i + 1, v, j);
    }
}

/// Whatever a node reachable from `root` uses is reachable from `root` too.
pub proof fn lemma_inputs_reachable(adj: Seq<Seq<usize>>, root: usize, v: usize)
    requires
        inputs_precede(adj),
        reaches(adj, root, v),
        v < adj.len(),
    ensures
        forall|j: int| 0 <= j < adj[v as int].len() ==> reaches(adj, root, #[trigger] adj[v as int][j]),
{
    assert forall|j: int| 0 <= j < adj[v as int].len() implies reaches(
        adj,
        root,
        #[trigger] adj[v as int][j],
    ) by {
        lemma_reaches_input(adj, root, v, j);
    }
}

} // verus!
