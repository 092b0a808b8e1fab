//! The computation graph of a scalar autograd engine.
//!
//! A [`Graph`] records every scalar [`Value`] that a computation creates: the
//! operation that produced it, the values it was computed from (its inputs),
//! its current data and its accumulated gradient. A value is a handle into the
//! graph. The arithmetic on the scalars themselves is supplied by the caller
//! (an evaluator for the forward values; the local derivative of each
//! operation for the backward pass), so the graph is generic in the scalar
//! type `T`.
use std::collections::HashSet;

use vstd::prelude::*;

use crate::topo::{
    backward_schedule,
    dfs,
    dfs_from,
    inputs_precede,
    lemma_backward_schedule,
    lemma_dfs_shape,
    lemma_inputs_reachable,
    reaches,
    topo_order,
};

verus! {

/// The operation that produced a node of the graph.
#[derive(Clone, Copy, Debug)]
pub enum Op<T> {
    /// A value created directly, with no inputs.
    Leaf,
    /// Sum of two inputs.
    Add,
    /// Difference of two inputs.
    Sub,
    /// Product of two inputs.
    Mul,
    /// Negation of one input.
    Neg,
    /// One input raised to the given exponent.
    Pow(T),
    /// Exponential of one input.
    Exp,
    /// Hyperbolic tangent of one input.
    Tanh,
    /// Rectified linear unit of one input.
    Relu,
}

impl<T> Op<T> {
    /// How many inputs a node with this operation has.
    pub open spec fn arity(self) -> nat {
        match self {
            Op::Leaf => 0,
            Op::Add => 2,
            Op::Sub => 2,
            Op::Mul => 2,
            _ => 1,
        }
    }
}

/// A handle to one node of a [`Graph`].
#[derive(Clone, Copy, Debug, PartialEq, Eq, Structural)]
pub struct Value {
    /// Position of the node in the graph, in order of creation.
    pub id: usize,
}

/// The mathematical content of a [`Graph`].
#[verifier::ext_equal]
pub struct GraphView<T> {
    /// Operation of each node.
    pub ops: Seq<Op<T>>,
    /// Inputs of each node, by position.
    pub prev: Seq<Seq<usize>>,
    /// Current data of each node.
    pub data: Seq<T>,
    /// Accumulated gradient of each node.
    pub grad: Seq<T>,
    /// The gradient that every new node starts with.
    pub zero: T,
}

impl<T> GraphView<T> {
    /// Number of nodes.
    pub open spec fn len(self) -> nat {
        self.ops.len()
    }

    /// The nodes agree in number on every field, each node has as many inputs
    /// as its operation takes, and every input was created before its user.
    pub open spec fn wf(self) -> bool {
        &&& self.prev.len() == self.ops.len()
        &&& self.data.len() == self.ops.len()
        &&& self.grad.len() == self.ops.len()
        &&& inputs_precede(self.prev)
        &&& forall|i: int| 0 <= i < self.ops.len() ==> #[trigger] self.prev[i].len() == self.ops[i].arity()
    }

    /// `v` names a node of this graph.
    pub open spec fn has(self, v: Value) -> bool {
        v.id < self.len()
    }

    /// This graph with one more node, whose gradient starts at `zero`.
    pub open spec fn push(self, op: Op<T>, prev: Seq<usize>, data: T) -> Self {
        GraphView {
            ops: self.ops.push(op),
            prev: self.prev.push(prev),
            data: self.data.push(data),
            grad: self.grad.push(self.zero),
            zero: self.zero,
        }
    }

    /// The first `n` nodes of this graph.
    pub open spec fn prefix(self, n: int) -> Self {
        GraphView {
            ops: self.ops.take(n),
            prev: self.prev.take(n),
            data: self.data.take(n),
            grad: self.grad.take(n),
            zero: self.zero,
        }
    }

    /// This graph with the data of node `i` replaced.
    pub open spec fn with_data(self, i: int, d: T) -> Self {
        GraphView {
            ops: self.ops,
            prev: self.prev,
            data: self.data.update(i, d),
            grad: self.grad,
            zero: self.zero,
        }
    }

    /// This graph with the gradient of node `i` replaced.
    pub open spec fn with_grad(self, i: int, g: T) -> Self {
        GraphView {
            ops: self.ops,
            prev: self.prev,
            data: self.data,
            grad: self.grad.update(i, g),
            zero: self.zero,
        }
    }

    /// Node `i` has inputs, and its data is a result that `eval` may give for
    /// the operation of the node on the data of its inputs (the second operand
    /// is `None` for an operation with one input).
    pub open spec fn evaluated_by<E: Fn(Op<T>, T, Option<T>) -> T>(self, i: int, eval: E) -> bool {
        let p = self.prev[i];
        &&& p.len() >= 1
        &&& call_ensures(
            eval,
            (
                self.ops[i],
                self.data[p[0] as int],
                if p.len() == 2 {
                    Some(self.data[p[1] as int])
                } else {
                    None
                },
            ),
            self.data[i],
        )
    }

    /// This graph keeps every node of `old` unchanged and only adds nodes,
    /// each with a zero gradient.
    pub open spec fn extends(self, old: Self) -> bool {
        &&& old.len() <= self.len()
        &&& self.zero == old.zero
        &&& forall|i: int| 0 <= i < old.len() ==> #[trigger] self.ops[i] == old.ops[i]
        &&& forall|i: int| 0 <= i < old.len() ==> #[trigger] self.prev[i] == old.prev[i]
        &&& forall|i: int| 0 <= i < old.len() ==> #[trigger] self.data[i] == old.data[i]
        &&& forall|i: int| 0 <= i < old.len() ==> #[trigger] self.grad[i] == old.grad[i]
        &&& forall|i: int| old.len() <= i < self.len() ==> #[trigger] self.grad[i] == self.zero
    }
}

/// `eval` accepts every operation and every pair of operands.
pub open spec fn accepts_all<T, E: Fn(Op<T>, T, Option<T>) -> T>(eval: E) -> bool {
    forall|op: Op<T>, a: T, b: Option<T>| call_requires(eval, (op, a, b))
}

/// `local` accepts every operation, output gradient, output data and operands.
pub open spec fn accepts_all_local<T, L: Fn(Op<T>, T, T, T, Option<T>) -> (T, T)>(local: L) -> bool {
    forall|op: Op<T>, up: T, out: T, a: T, b: Option<T>| call_requires(local, (op, up, out, a, b))
}

/// `acc` accepts every gradient and contribution.
pub open spec fn accepts_all_acc<T, A: Fn(T, T) -> T>(acc: A) -> bool {
    forall|x: T, y: T| call_requires(acc, (x, y))
}

/// `g2` is `g1` after one step of a backward pass at node `v`, at which
/// `local` gave the contributions `c` and `acc` gave the new gradients `s0`
/// and `s1`: `local` is given the operation of `v`, its gradient, its data and
/// the data of its inputs (the second `None` for one input); `acc` adds `c.0`
/// to the gradient of the first input and then, for a second input, `c.1` to
/// the gradient of the second input as it stands after the first addition.
pub open spec fn step_with<
    T,
    L: Fn(Op<T>, T, T, T, Option<T>) -> (T, T),
    A: Fn(T, T) -> T,
>(g1: GraphView<T>, v: int, g2: GraphView<T>, local: L, acc: A, c: (T, T), s0: T, s1: T) -> bool {
    let p = g1.prev[v];
    let b = if p.len() == 2 {
        Some(g1.data[p[1] as int])
    } else {
        None
    };
    &&& call_ensures(local, (g1.ops[v], g1.grad[v], g1.data[v], g1.data[p[0] as int], b), c)
    &&& call_ensures(acc, (g1.grad[p[0] as int], c.0), s0)
    &&& if p.len() == 2 {
        &&& call_ensures(acc, (g1.with_grad(p[0] as int, s0).grad[p[1] as int], c.1), s1)
        &&& g2 == g1.with_grad(p[0] as int, s0).with_grad(p[1] as int, s1)
    } else {
        g2 == g1.with_grad(p[0] as int, s0)
    }
}

/// `g2` is `g1` after one step of a backward pass at node `v`: nothing
/// changes if `v` has no input; otherwise some contributions and sums make
/// [`step_with`] hold.
pub open spec fn propagate_step<
    T,
    L: Fn(Op<T>, T, T, T, Option<T>) -> (T, T),
    A: Fn(T, T) -> T,
>(g1: GraphView<T>, v: int, g2: GraphView<T>, local: L, acc: A) -> bool {
    if g1.prev[v].len() == 0 {
        g2 == g1
    } else {
        exists|c: (T, T), s0: T, s1: T| #[trigger] step_with(g1, v, g2, local, acc, c, s0, s1)
    }
}

/// `states` runs from `g` to `end` through one backward-pass step per node of
/// `ids`, in order.
pub open spec fn trace<
    T,
    L: Fn(Op<T>, T, T, T, Option<T>) -> (T, T),
    A: Fn(T, T) -> T,
>(g: GraphView<T>, ids: Seq<usize>, end: GraphView<T>, states: Seq<GraphView<T>>, local: L, acc: A) -> bool {
    &&& states.len() == ids.len() + 1
    &&& states[0] == g
    &&& states[ids.len() as int] == end
    &&& forall|k: int|
        0 <= k < ids.len() ==> propagate_step(#[trigger] states[k], ids[k] as int, states[k + 1], local, acc)
}

/// `end` is `g` after the steps of a backward pass at the nodes `ids`, in
/// order.
pub open spec fn propagated<
    T,
    L: Fn(Op<T>, T, T, T, Option<T>) -> (T, T),
    A: Fn(T, T) -> T,
>(g: GraphView<T>, ids: Seq<usize>, end: GraphView<T>, local: L, acc: A) -> bool {
    exists|states: Seq<GraphView<T>>| #[trigger] trace(g, ids, end, states, local, acc)
}

/// The first `k` states of a backward-pass trace from a graph keep its
/// operations, inputs and data, and the gradients of the nodes that no node of
/// the schedule uses.
proof fn lemma_trace_prefix<
    T,
    L: Fn(Op<T>, T, T, T, Option<T>) -> (T, T),
    A: Fn(T, T) -> T,
>(
    start: GraphView<T>,
    root: usize,
    end: GraphView<T>,
    states: Seq<GraphView<T>>,
    local: L,
    acc: A,
    k: int,
)
    requires
        start.wf(),
        root < start.len(),
        trace(start, backward_schedule(start.prev, root), end, states, local, acc),
        0 <= k <= backward_schedule(start.prev, root).len(),
    ensures
        states[k].ops == start.ops,
        states[k].prev == start.prev,
        states[k].data == start.data,
        states[k].zero == start.zero,
        states[k].grad.len() == start.grad.len(),
        forall|u: int|
            0 <= u < start.len() && !reaches(start.prev, root, u as usize) ==> #[trigger] states[k].grad[u]
                == start.grad[u],
    decreases k,
{
    if k > 0 {
        let s = backward_schedule(start.prev, root);
        lemma_trace_prefix(start, root, end, states, local, acc, k - 1);
        lemma_backward_schedule(start.prev, root);
        let g1 = states[k - 1];
        let g2 = states[k];
        let v = s[k - 1];
        assert(propagate_step(g1, v as int, g2, local, acc));
        assert(s.contains(v));
        assert(reaches(start.prev, root, v));
        lemma_dfs_shape(start.prev, root, Seq::empty());
        let t = topo_order(start.prev, root);
        assert(s[k - 1] == t[t.len() - 1 - (k - 1)]);
        assert(v < start.len());
        lemma_inputs_reachable(start.prev, root, v);
        let p = g1.prev[v as int];
        if p.len() > 0 {
            let (c, s0, s1) = choose|c: (T, T), s0: T, s1: T| #[trigger] step_with(
                g1,
                v as int,
                g2,
                local,
                acc,
                c,
                s0,
                s1,
            );
            assert(reaches(start.prev, root, p[0]));
            if p.len() == 2 {
                assert(reaches(start.prev, root, p[1]));
            }
            assert forall|u: int|
                0 <= u < start.len() && !reaches(start.prev, root, u as usize) implies #[trigger] g2.grad[u]
                == start.grad[u] by {
                assert(u != p[0] as int);
                if p.len() == 2 {
                    assert(u != p[1] as int);
                }
                assert(g2.grad[u] == g1.grad[u]);
            }
        }
    }
}

/// A backward pass from `root` changes only the gradients of nodes reachable
/// from `root`: operations, inputs and data stay as they are, and so does the
/// gradient of every node that `root` does not depend on.
pub proof fn lemma_backward_touches_only_reachable<
    T,
    L: Fn(Op<T>, T, T, T, Option<T>) -> (T, T),
    A: Fn(T, T) -> T,
>(start: GraphView<T>, root: usize, end: GraphView<T>, local: L, acc: A)
    requires
        start.wf(),
        root < start.len(),
        propagated(start, backward_schedule(start.prev, root), end, local, acc),
    ensures
        end.ops == start.ops,
        end.prev == start.prev,
        end.data == start.data,
        end.zero == start.zero,
        end.grad.len() == start.grad.len(),
        forall|u: int|
            0 <= u < start.len() && !reaches(start.prev, root, u as usize) ==> #[trigger] end.grad[u]
                == start.grad[u],
{
    let s = backward_schedule(start.prev, root);
    let states = choose|states: Seq<GraphView<T>>| #[trigger] trace(start, s, end, states, local, acc);
    lemma_trace_prefix(start, root, end, states, local, acc, s.len() as int);
}

/// A computation graph of scalars of type `T`.
pub struct Graph<T> {
    ops: Vec<Op<T>>,
    prev: Vec<Vec<usize>>,
    data: Vec<T>,
    grad: Vec<T>,
    zero: T,
}

impl<T> View for Graph<T> {
    type V = GraphView<T>;

    closed spec fn view(&self) -> GraphView<T> {
        GraphView {
            ops: self.ops@,
            prev: self.prev@.map_values(|p: Vec<usize>| p@),
            data: self.data@,
            grad: self.grad@,
            zero: self.zero,
        }
    }
}

impl<T: Copy> Graph<T> {
    /// An empty graph whose new nodes start with gradient `zero`.
    pub fn new(zero: T) -> (g: Self)
        ensures
            g@.wf(),
            g@.len() == 0,
            g@.zero == zero,
    {
        let g = Graph { ops: Vec::new(), prev: Vec::new(), data: Vec::new(), grad: Vec::new(), zero };
        assert(g@.prev =~= Seq::<Seq<usize>>::empty());
        g
    }

    /// Number of nodes.
    pub fn len(&self) -> (n: usize)
        ensures
            n == self@.len(),
    {
        self.ops.len()
    }

    /// Drops every node from position `n` on, keeping the first `n` as they
    /// are. Whatever the kept nodes use was created before them, so the graph
    /// stays well formed.
    pub fn truncate(&mut self, n: usize)
        requires
            old(self)@.wf(),
            n <= old(self)@.len(),
        ensures
            final(self)@ == old(self)@.prefix(n as int),
            final(self)@.wf(),
    {
        self.ops.truncate(n);
        self.prev.truncate(n);
        self.data.truncate(n);
        self.grad.truncate(n);
        assert(self@.prev =~= old(self)@.prev.take(n as int));
        assert(self@ =~= old(self)@.prefix(n as int));
        assert(inputs_precede(self@.prev)) by {
            assert forall|i: int, j: int|
                0 <= i < self@.prev.len() && 0 <= j < self@.prev[i].len() implies #[trigger] self@.prev[i][j]
                < i by {
                assert(self@.prev[i] == old(self)@.prev[i]);
            }
        }
        assert forall|i: int| 0 <= i < self@.ops.len() implies #[trigger] self@.prev[i].len()
            == self@.ops[i].arity() by {
            assert(self@.prev[i] == old(self)@.prev[i]);
        }
    }

    /// The gradient that every new node starts with.
    pub fn zero(&self) -> (z: T)
        ensures
            z == self@.zero,
    {
        self.zero
    }

    fn push_node(&mut self, op: Op<T>, prev: Vec<usize>, d: T) -> (v: Value)
        requires
            old(self)@.wf(),
            prev@.len() == op.arity(),
            forall|k: int| 0 <= k < prev@.len() ==> prev@[k] < old(self)@.len(),
        ensures
            final(self)@ == old(self)@.push(op, prev@, d),
            final(self)@.wf(),
            v.id == old(self)@.len(),
    {
        let id = self.ops.len();
        let ghost p = prev@;
        let ghost old_view = self@;
        self.ops.push(op);
        self.prev.push(prev);
        self.data.push(d);
        let z = self.zero;
        self.grad.push(z);
        assert(self@.prev =~= old_view.prev.push(p));
        assert(self@ == old_view.push(op, p, d));
        assert(inputs_precede(self@.prev)) by {
            assert forall|i: int, j: int|
                0 <= i < self@.prev.len() && 0 <= j < self@.prev[i].len() implies #[trigger] self@.prev[i][j]
                < i by {
                if i < id {
                    assert(self@.prev[i] == old_view.prev[i]);
                }
            }
        }
        assert forall|i: int| 0 <= i < self@.ops.len() implies #[trigger] self@.prev[i].len()
            == self@.ops[i].arity() by {
            if i < id {
                assert(self@.prev[i] == old_view.prev[i]);
            }
        }
        Value { id }
    }

    /// Appends to `topo` the depth-first post-order of the nodes reachable
    /// from `v` that are not yet visited, marking them as visited.
    fn build_topo(&self, v: usize, topo: &mut Vec<usize>, visited: &mut HashSet<usize>)
        requires
            self@.wf(),
            v < self@.len(),
            forall|u: usize| u <= v ==> (old(visited)@.contains(u) <==> old(topo)@.contains(u)),
        ensures
            final(topo)@ == dfs(self@.prev, v, old(topo)@),
            forall|u: usize| u <= v ==> (final(visited)@.contains(u) <==> final(topo)@.contains(u)),
            forall|u: usize| v < u ==> (final(visited)@.contains(u) == old(visited)@.contains(u)),
        decreases v,
    {
        broadcast use vstd::std_specs::hash::group_hash_axioms;

        let ghost adj = self@.prev;
        let ghost topo0 = topo@;
        let ghost visited0 = visited@;
        if !visited.insert(v) {
            return;
        }
        let n = self.prev[v].len();
        assert(self.prev@[v as int]@ == adj[v as int]);
        let mut i: usize = 0;
        while i < n
            invariant
                self@.wf(),
                adj == self@.prev,
                v < self@.len(),
                n == adj[v as int].len(),
                self.prev@[v as int]@ == adj[v as int],
                i <= n,
                visited@.contains(v),
                !topo@.contains(v),
                dfs_from(adj, v, i as int, topo@) == dfs_from(adj, v, 0, topo0),
                forall|u: usize| u < v ==> (visited@.contains(u) <==> topo@.contains(u)),
                forall|u: usize| v < u ==> (visited@.contains(u) == visited0.contains(u)),
            decreases n - i,
        {
            let c = self.prev[v][i];
            assert(c == adj[v as int][i as int]);
            assert(c < v);
            let ghost before = topo@;
            let ghost vis_before = visited@;
            self.build_topo(c, topo, visited);
            proof {
                lemma_dfs_shape(adj, c, before);
                assert forall|u: usize| u < v implies (visited@.contains(u) <==> topo@.contains(u)) by {
                    if u > c {
                        assert(visited@.contains(u) == vis_before.contains(u));
                        if topo@.contains(u) {
                            let q = choose|q: int| 0 <= q < topo@.len() && topo@[q] == u;
                            if q >= before.len() {
                                assert(topo@[q] <= c);
                            } else {
                                assert(before[q] == topo@[q]);
                            }
                        }
                        if before.contains(u) {
                            let q = choose|q: int| 0 <= q < before.len() && before[q] == u;
                            assert(topo@[q] == before[q]);
                        }
                    }
                }
                if topo@.contains(v) {
                    let q = choose|q: int| 0 <= q < topo@.len() && topo@[q] == v;
                    if q >= before.len() {
                        assert(topo@[q] <= c);
                    } else {
                        assert(before[q] == topo@[q]);
                    }
                }
            }
            i = i + 1;
        }
        topo.push(v);
        proof {
            let r = dfs_from(adj, v, 0, topo0);
            assert(topo@ == r.push(v));
            assert forall|u: usize| u <= v implies (visited@.contains(u) <==> topo@.contains(u)) by {
                if u < v {
                    if r.contains(u) {
                        let q = choose|q: int| 0 <= q < r.len() && r[q] == u;
                        assert(topo@[q] == u);
                    }
                    if topo@.contains(u) {
                        let q = choose|q: int| 0 <= q < topo@.len() && topo@[q] == u;
                        assert(q < r.len());
                        assert(r[q] == u);
                    }
                } else {
                    assert(topo@[r.len() as int] == v);
                }
            }
        }
    }
}

impl Value {
    /// Creates a new leaf node holding `d`, with a zero gradient.
    pub fn new<T: Copy>(g: &mut Graph<T>, d: T) -> (v: Value)
        requires
            old(g)@.wf(),
        ensures
            final(g)@ == old(g)@.push(Op::Leaf, Seq::empty(), d),
            final(g)@.wf(),
            v.id == old(g)@.len(),
    {
        let p: Vec<usize> = Vec::new();
        g.push_node(Op::Leaf, p, d)
    }

    /// The current data of this node.
    pub fn data<T: Copy>(&self, g: &Graph<T>) -> (d: T)
        requires
            g@.wf(),
            g@.has(*self),
        ensures
            d == g@.data[self.id as int],
    {
        g.data[self.id]
    }

    /// Replaces the data of this node.
    pub fn set_data<T: Copy>(&self, g: &mut Graph<T>, d: T)
        requires
            old(g)@.wf(),
            old(g)@.has(*self),
        ensures
            final(g)@ == old(g)@.with_data(self.id as int, d),
            final(g)@.wf(),
    {
        g.data.set(self.id, d);
        assert(g@.prev =~= old(g)@.prev);
    }

    /// The accumulated gradient of this node.
    pub fn grad<T: Copy>(&self, g: &Graph<T>) -> (r: T)
        requires
            g@.wf(),
            g@.has(*self),
        ensures
            r == g@.grad[self.id as int],
    {
        g.grad[self.id]
    }

    /// Replaces the gradient of this node.
    pub fn set_grad<T: Copy>(&self, g: &mut Graph<T>, r: T)
        requires
            old(g)@.wf(),
            old(g)@.has(*self),
        ensures
            final(g)@ == old(g)@.with_grad(self.id as int, r),
            final(g)@.wf(),
    {
        g.grad.set(self.id, r);
        assert(g@.prev =~= old(g)@.prev);
    }

    /// The operation that produced this node.
    pub fn op<T: Copy>(&self, g: &Graph<T>) -> (o: Op<T>)
        requires
            g@.wf(),
            g@.has(*self),
        ensures
            o == g@.ops[self.id as int],
    {
        g.ops[self.id]
    }

    /// The inputs of this node, in order.
    pub fn prev<T: Copy>(&self, g: &Graph<T>) -> (r: Vec<Value>)
        requires
            g@.wf(),
            g@.has(*self),
        ensures
            r@.len() == g@.prev[self.id as int].len(),
            forall|k: int| 0 <= k < r@.len() ==> #[trigger] r@[k].id == g@.prev[self.id as int][k],
    {
        let p = &g.prev[self.id];
        assert(p@ == g@.prev[self.id as int]);
        let mut r: Vec<Value> = Vec::new();
        let mut k: usize = 0;
        while k < p.len()
            invariant
                k <= p@.len(),
                r@.len() == k,
                forall|m: int| 0 <= m < k ==> #[trigger] r@[m].id == p@[m],
            decreases p@.len() - k,
        {
            r.push(Value { id: p[k] });
            k = k + 1;
        }
        r
    }

    /// Creates the node `op(self, rhs)`; its data is what `eval` computes
    /// from the data of `self` and `rhs`.
    fn binary<T: Copy, E: Fn(Op<T>, T, Option<T>) -> T>(
        self,
        rhs: Value,
        op: Op<T>,
        g: &mut Graph<T>,
        eval: &E,
    ) -> (v: Value)
        requires
            old(g)@.wf(),
            old(g)@.has(self),
            old(g)@.has(rhs),
            op.arity() == 2,
            accepts_all(*eval),
        ensures
            final(g)@ == old(g)@.push(op, seq![self.id, rhs.id], final(g)@.data[v.id as int]),
            final(g)@.wf(),
            final(g)@.evaluated_by(v.id as int, *eval),
            v.id == old(g)@.len(),
    {
        let a = g.data[self.id];
        let b = g.data[rhs.id];
        let out = eval(op, a, Some(b));
        let mut p: Vec<usize> = Vec::new();
        p.push(self.id);
        p.push(rhs.id);
        let v = g.push_node(op, p, out);
        assert(g@.prev[v.id as int] =~= seq![self.id, rhs.id]);
        v
    }

    /// Creates the node `op(self)`; its data is what `eval` computes from the
    /// data of `self`.
    fn unary<T: Copy, E: Fn(Op<T>, T, Option<T>) -> T>(self, op: Op<T>, g: &mut Graph<T>, eval: &E) -> (v: Value)
        requires
            old(g)@.wf(),
            old(g)@.has(self),
            op.arity() == 1,
            accepts_all(*eval),
        ensures
            final(g)@ == old(g)@.push(op, seq![self.id], final(g)@.data[v.id as int]),
            final(g)@.wf(),
            final(g)@.evaluated_by(v.id as int, *eval),
            v.id == old(g)@.len(),
    {
        let a = g.data[self.id];
        let out = eval(op, a, None);
        let mut p: Vec<usize> = Vec::new();
        p.push(self.id);
        let v = g.push_node(op, p, out);
        assert(g@.prev[v.id as int] =~= seq![self.id]);
        v
    }

    /// `self + rhs`.
    pub fn add<T: Copy, E: Fn(Op<T>, T, Option<T>) -> T>(self, rhs: Value, g: &mut Graph<T>, eval: &E) -> (v: Value)
        requires
            old(g)@.wf(),
            old(g)@.has(self),
            old(g)@.has(rhs),
            accepts_all(*eval),
        ensures
            final(g)@ == old(g)@.push(Op::Add, seq![self.id, rhs.id], final(g)@.data[v.id as int]),
            final(g)@.wf(),
            final(g)@.evaluated_by(v.id as int, *eval),
            v.id == old(g)@.len(),
    {
        self.binary(rhs, Op::Add, g, eval)
    }

    /// `self - rhs`.
    pub fn sub<T: Copy, E: Fn(Op<T>, T, Option<T>) -> T>(self, rhs: Value, g: &mut Graph<T>, eval: &E) -> (v: Value)
        requires
            old(g)@.wf(),
            old(g)@.has(self),
            old(g)@.has(rhs),
            accepts_all(*eval),
        ensures
            final(g)@ == old(g)@.push(Op::Sub, seq![self.id, rhs.id], final(g)@.data[v.id as int]),
            final(g)@.wf(),
            final(g)@.evaluated_by(v.id as int, *eval),
            v.id == old(g)@.len(),
    {
        self.binary(rhs, Op::Sub, g, eval)
    }

    /// `self * rhs`.
    pub fn mul<T: Copy, E: Fn(Op<T>, T, Option<T>) -> T>(self, rhs: Value, g: &mut Graph<T>, eval: &E) -> (v: Value)
        requires
            old(g)@.wf(),
            old(g)@.has(self),
            old(g)@.has(rhs),
            accepts_all(*eval),
        ensures
            final(g)@ == old(g)@.push(Op::Mul, seq![self.id, rhs.id], final(g)@.data[v.id as int]),
            final(g)@.wf(),
            final(g)@.evaluated_by(v.id as int, *eval),
            v.id == old(g)@.len(),
    {
        self.binary(rhs, Op::Mul, g, eval)
    }

    /// `self * s` for a scalar `s`: a new leaf holding `s`, then their product.
    pub fn mul_scalar<T: Copy, E: Fn(Op<T>, T, Option<T>) -> T>(
        self,
        s: T,
        g: &mut Graph<T>,
        eval: &E,
    ) -> (v: Value)
        requires
            old(g)@.wf(),
            old(g)@.has(self),
            accepts_all(*eval),
        ensures
            final(g)@ == old(g)@.push(Op::Leaf, Seq::empty(), s).push(
                Op::Mul,
                seq![self.id, old(g)@.len() as usize],
                final(g)@.data[v.id as int],
            ),
            final(g)@.wf(),
            final(g)@.evaluated_by(v.id as int, *eval),
            v.id == old(g)@.len() + 1,
    {
        let c = Value::new(g, s);
        self.mul(c, g, eval)
    }

    /// `s * rhs` for a scalar `s`: a new leaf holding `s`, then their product.
    pub fn scalar_mul<T: Copy, E: Fn(Op<T>, T, Option<T>) -> T>(
        s: T,
        rhs: Value,
        g: &mut Graph<T>,
        eval: &E,
    ) -> (v: Value)
        requires
            old(g)@.wf(),
            old(g)@.has(rhs),
            accepts_all(*eval),
        ensures
            final(g)@ == old(g)@.push(Op::Leaf, Seq::empty(), s).push(
                Op::Mul,
                seq![old(g)@.len() as usize, rhs.id],
                final(g)@.data[v.id as int],
            ),
            final(g)@.wf(),
            final(g)@.evaluated_by(v.id as int, *eval),
            v.id == old(g)@.len() + 1,
    {
        let c = Value::new(g, s);
        c.mul(rhs, g, eval)
    }

    /// `-self`.
    pub fn neg<T: Copy, E: Fn(Op<T>, T, Option<T>) -> T>(self, g: &mut Graph<T>, eval: &E) -> (v: Value)
        requires
            old(g)@.wf(),
            old(g)@.has(self),
            accepts_all(*eval),
        ensures
            final(g)@ == old(g)@.push(Op::Neg, seq![self.id], final(g)@.data[v.id as int]),
            final(g)@.wf(),
            final(g)@.evaluated_by(v.id as int, *eval),
            v.id == old(g)@.len(),
    {
        self.unary(Op::Neg, g, eval)
    }

    /// `self` raised to `exponent`.
    pub fn pow<T: Copy, E: Fn(Op<T>, T, Option<T>) -> T>(&self, exponent: T, g: &mut Graph<T>, eval: &E) -> (v: Value)
        requires
            old(g)@.wf(),
            old(g)@.has(*self),
            accepts_all(*eval),
        ensures
            final(g)@ == old(g)@.push(Op::Pow(exponent), seq![self.id], final(g)@.data[v.id as int]),
            final(g)@.wf(),
            final(g)@.evaluated_by(v.id as int, *eval),
            v.id == old(g)@.len(),
    {
        self.unary(Op::Pow(exponent), g, eval)
    }

    /// The exponential of `self`.
    pub fn exp<T: Copy, E: Fn(Op<T>, T, Option<T>) -> T>(self, g: &mut Graph<T>, eval: &E) -> (v: Value)
        requires
            old(g)@.wf(),
            old(g)@.has(self),
            accepts_all(*eval),
        ensures
            final(g)@ == old(g)@.push(Op::Exp, seq![self.id], final(g)@.data[v.id as int]),
            final(g)@.wf(),
            final(g)@.evaluated_by(v.id as int, *eval),
            v.id == old(g)@.len(),
    {
        self.unary(Op::Exp, g, eval)
    }

    /// The hyperbolic tangent of `self`.
    pub fn tanh<T: Copy, E: Fn(Op<T>, T, Option<T>) -> T>(self, g: &mut Graph<T>, eval: &E) -> (v: Value)
        requires
            old(g)@.wf(),
            old(g)@.has(self),
            accepts_all(*eval),
        ensures
            final(g)@ == old(g)@.push(Op::Tanh, seq![self.id], final(g)@.data[v.id as int]),
            final(g)@.wf(),
            final(g)@.evaluated_by(v.id as int, *eval),
            v.id == old(g)@.len(),
    {
        self.unary(Op::Tanh, g, eval)
    }

    /// The rectified linear unit of `self`.
    pub fn relu<T: Copy, E: Fn(Op<T>, T, Option<T>) -> T>(self, g: &mut Graph<T>, eval: &E) -> (v: Value)
        requires
            old(g)@.wf(),
            old(g)@.has(self),
            accepts_all(*eval),
        ensures
            final(g)@ == old(g)@.push(Op::Relu, seq![self.id], final(g)@.data[v.id as int]),
            final(g)@.wf(),
            final(g)@.evaluated_by(v.id as int, *eval),
            v.id == old(g)@.len(),
    {
        self.unary(Op::Relu, g, eval)
    }

    /// Backward pass from this node: sets its gradient to `seed`, then visits
    /// the nodes reachable from it in reverse depth-first post-order (each
    /// node after every node that uses it) and, at each node with inputs,
    /// asks `local` for the contributions to the gradients of its inputs and
    /// adds them with `acc`, first input first. Returns the nodes in the order
    /// visited. Only gradients change.
    pub fn backward<T: Copy, L: Fn(Op<T>, T, T, T, Option<T>) -> (T, T), A: Fn(T, T) -> T>(
        &self,
        g: &mut Graph<T>,
        seed: T,
        local: &L,
        acc: &A,
    ) -> (order: Vec<Value>)
        requires
            old(g)@.wf(),
            old(g)@.has(*self),
            accepts_all_local(*local),
            accepts_all_acc(*acc),
        ensures
            final(g)@.wf(),
            final(g)@.ops == old(g)@.ops,
            final(g)@.prev == old(g)@.prev,
            final(g)@.data == old(g)@.data,
            final(g)@.zero == old(g)@.zero,
            order@.len() == backward_schedule(old(g)@.prev, self.id).len(),
            forall|k: int|
                0 <= k < order@.len() ==> #[trigger] order@[k].id == backward_schedule(
                    old(g)@.prev,
                    self.id,
                )[k],
            propagated(
                old(g)@.with_grad(self.id as int, seed),
                backward_schedule(old(g)@.prev, self.id),
                final(g)@,
                *local,
                *acc,
            ),
    {
        g.grad.set(self.id, seed);
        assert(g@.prev =~= old(g)@.prev);
        let sched = g.schedule(self.id);
        let ghost s = backward_schedule(old(g)@.prev, self.id);
        let ghost start = g@;
        proof {
            lemma_dfs_shape(start.prev, self.id, Seq::empty());
            assert forall|k: int| 0 <= k < s.len() implies #[trigger] s[k] < start.len() by {
                let t = topo_order(start.prev, self.id);
                assert(s[k] == t[t.len() - 1 - k]);
            }
        }
        let ghost mut states: Seq<GraphView<T>> = seq![start];
        let mut order: Vec<Value> = Vec::new();
        let mut k: usize = 0;
        while k < sched.len()
            invariant
                sched@ == s,
                forall|m: int| 0 <= m < s.len() ==> #[trigger] s[m] < start.len(),
                start.wf(),
                g@.wf(),
                g@.ops == start.ops,
                g@.prev == start.prev,
                g@.data == start.data,
                g@.zero == start.zero,
                accepts_all_local(*local),
                accepts_all_acc(*acc),
                k <= s.len(),
                order@.len() == k,
                forall|m: int| 0 <= m < k ==> #[trigger] order@[m].id == s[m],
                states.len() == k + 1,
                states[0] == start,
                states[k as int] == g@,
                forall|m: int|
                    0 <= m < k ==> propagate_step(#[trigger] states[m], s[m] as int, states[m + 1], *local, *acc),
            decreases s.len() - k,
        {
            let v = sched[k];
            let ghost mid = g@;
            g.propagate_node(v, local, acc);
            proof {
                let old_states = states;
                states = states.push(g@);
                assert forall|m: int| 0 <= m < k + 1 implies propagate_step(
                    #[trigger] states[m],
                    s[m] as int,
                    states[m + 1],
                    *local,
                    *acc,
                ) by {
                    if m < k {
                        assert(states[m] == old_states[m]);
                        assert(states[m + 1] == old_states[m + 1]);
                    }
                }
            }
            order.push(Value { id: v });
            k = k + 1;
        }
        assert(trace(start, s, g@, states, *local, *acc));
        order
    }
}

impl<T: Copy> Graph<T> {
    /// The backward schedule from `root`, as node positions.
    fn schedule(&self, root: usize) -> (r: Vec<usize>)
        requires
            self@.wf(),
            root < self@.len(),
        ensures
            r@ == backward_schedule(self@.prev, root),
    {
        let mut visited: HashSet<usize> = HashSet::new();
        let mut topo: Vec<usize> = Vec::new();
        self.build_topo(root, &mut topo, &mut visited);
        let ghost t = topo_order(self@.prev, root);
        assert(topo@ == t);
        let mut r: Vec<usize> = Vec::new();
        let mut k = topo.len();
        while k > 0
            invariant
                k <= topo@.len(),
                topo@ == t,
                r@.len() == topo@.len() - k,
                forall|m: int| 0 <= m < r@.len() ==> #[trigger] r@[m] == t[t.len() - 1 - m],
            decreases k,
        {
            k = k - 1;
            r.push(topo[k]);
        }
        assert(r@ =~= t.reverse());
        r
    }

    /// One step of a backward pass at node `v`.
    fn propagate_node<L: Fn(Op<T>, T, T, T, Option<T>) -> (T, T), A: Fn(T, T) -> T>(
        &mut self,
        v: usize,
        local: &L,
        acc: &A,
    )
        requires
            old(self)@.wf(),
            v < old(self)@.len(),
            accepts_all_local(*local),
            accepts_all_acc(*acc),
        ensures
            final(self)@.wf(),
            final(self)@.ops == old(self)@.ops,
            final(self)@.prev == old(self)@.prev,
            final(self)@.data == old(self)@.data,
            final(self)@.zero == old(self)@.zero,
            propagate_step(old(self)@, v as int, final(self)@, *local, *acc),
    {
        let ghost g1 = self@;
        let n = self.prev[v].len();
        assert(self.prev@[v as int]@ == g1.prev[v as int]);
        if n == 0 {
            return;
        }
        let p0 = self.prev[v][0];
        assert(p0 < v);
        let op = self.ops[v];
        let up = self.grad[v];
        let out = self.data[v];
        let a = self.data[p0];
        let b = if n == 2 {
            let p1 = self.prev[v][1];
            assert(p1 < v);
            Some(self.data[p1])
        } else {
            None
        };
        let c = local(op, up, out, a, b);
        let s0 = acc(self.grad[p0], c.0);
        self.grad.set(p0, s0);
        assert(self@.prev =~= g1.prev);
        let ghost g2 = self@;
        assert(g2 == g1.with_grad(p0 as int, s0));
        let ghost p = g1.prev[v as int];
        let ghost bb = if p.len() == 2 {
            Some(g1.data[p[1] as int])
        } else {
            None
        };
        assert(bb == b);
        if n == 2 {
            let p1 = self.prev[v][1];
            assert(self.prev@[v as int]@ == g1.prev[v as int]);
            let s1 = acc(self.grad[p1], c.1);
            self.grad.set(p1, s1);
            assert(self@.prev =~= g1.prev);
            assert(self@ == g2.with_grad(p1 as int, s1));
            assert(call_ensures(*local, (g1.ops[v as int], g1.grad[v as int], g1.data[v as int], g1.data[p[0] as int], bb), c));
            assert(call_ensures(*acc, (g1.grad[p[0] as int], c.0), s0));
            assert(call_ensures(*acc, (g1.with_grad(p[0] as int, s0).grad[p[1] as int], c.1), s1));
            assert(self@ == g1.with_grad(p[0] as int, s0).with_grad(p[1] as int, s1));
            assert(step_with(g1, v as int, self@, *local, *acc, c, s0, s1));
        } else {
            assert(call_ensures(*local, (g1.ops[v as int], g1.grad[v as int], g1.data[v as int], g1.data[p[0] as int], bb), c));
            assert(call_ensures(*acc, (g1.grad[p[0] as int], c.0), s0));
            assert(step_with(g1, v as int, self@, *local, *acc, c, s0, s0));
        }
    }
}

} // verus!
