//! Neurons, layers and multi-layer perceptrons whose parameters are leaves of
//! a computation [`Graph`].
use vstd::prelude::*;

use crate::hyper_engine::{
    accepts_all,
    accepts_all_acc,
    accepts_all_local,
    propagated,
    Graph,
    GraphView,
    Op,
    Value,
};
use crate::topo::backward_schedule;
use crate::text::{decimal, joined, push_decimal};

verus! {

/// `new` is `old` followed by nodes with operations `ops` and inputs `prev`,
/// each added node with a zero gradient; the nodes of `old` are unchanged.
pub open spec fn appended<T>(
    old: GraphView<T>,
    new: GraphView<T>,
    ops: Seq<Op<T>>,
    prev: Seq<Seq<usize>>,
) -> bool {
    &&& new.extends(old)
    &&& new.ops == old.ops + ops
    &&& new.prev == old.prev + prev
}

/// Every node of `g` from position `start` on holds data that `eval` may give
/// for it.
pub open spec fn evaluated_from<T, E: Fn(Op<T>, T, Option<T>) -> T>(
    g: GraphView<T>,
    start: int,
    eval: E,
) -> bool {
    forall|i: int| start <= i < g.len() ==> #[trigger] g.evaluated_by(i, eval)
}

/// Every value in `vs` names a node of `g`.
pub open spec fn all_in<T>(g: GraphView<T>, vs: Seq<Value>) -> bool {
    forall|k: int| 0 <= k < vs.len() ==> g.has(#[trigger] vs[k])
}

/// Some value of `ps` names node `i`.
pub open spec fn names(ps: Seq<Value>, i: int) -> bool {
    exists|k: int| 0 <= k < ps.len() && #[trigger] ps[k].id == i
}

/// `g` with the gradient of every node named in `ps` set to `g.zero`.
pub open spec fn with_zero_grads<T>(g: GraphView<T>, ps: Seq<Value>) -> GraphView<T> {
    GraphView {
        ops: g.ops,
        prev: g.prev,
        data: g.data,
        grad: Seq::new(
            g.grad.len(),
            |i: int|
                if names(ps, i) {
                    g.zero
                } else {
                    g.grad[i]
                },
        ),
        zero: g.zero,
    }
}

proof fn lemma_extends_trans<T>(a: GraphView<T>, b: GraphView<T>, c: GraphView<T>)
    requires
        b.extends(a),
        c.extends(b),
    ensures
        c.extends(a),
{
    assert forall|i: int| a.len() <= i < c.len() implies #[trigger] c.grad[i] == c.zero by {
        if i < b.len() {
            assert(c.grad[i] == b.grad[i]);
        }
    }
}

proof fn lemma_appended_trans<T>(
    a: GraphView<T>,
    b: GraphView<T>,
    c: GraphView<T>,
    o1: Seq<Op<T>>,
    p1: Seq<Seq<usize>>,
    o2: Seq<Op<T>>,
    p2: Seq<Seq<usize>>,
)
    requires
        appended(a, b, o1, p1),
        appended(b, c, o2, p2),
    ensures
        appended(a, c, o1 + o2, p1 + p2),
{
    lemma_extends_trans(a, b, c);
    assert(c.ops =~= a.ops + (o1 + o2));
    assert(c.prev =~= a.prev + (p1 + p2));
}

/// Nodes that were evaluated before `b` extended `a` stay evaluated.
proof fn lemma_evaluated_kept<T, E: Fn(Op<T>, T, Option<T>) -> T>(
    a: GraphView<T>,
    b: GraphView<T>,
    start: int,
    eval: E,
)
    requires
        a.wf(),
        b.extends(a),
        0 <= start,
        evaluated_from(a, start, eval),
    ensures
        forall|i: int| start <= i < a.len() ==> #[trigger] b.evaluated_by(i, eval),
{
    assert forall|i: int| start <= i < a.len() implies #[trigger] b.evaluated_by(i, eval) by {
        assert(a.evaluated_by(i, eval));
        assert(b.ops[i] == a.ops[i]);
        assert(b.prev[i] == a.prev[i]);
        assert(b.data[i] == a.data[i]);
        let p = a.prev[i];
        if p.len() > 0 {
            assert(a.prev[i][0] < i);
            assert(b.data[p[0] as int] == a.data[p[0] as int]);
        }
        if p.len() == 2 {
            assert(a.prev[i][1] < i);
            assert(b.data[p[1] as int] == a.data[p[1] as int]);
        }
    }
}

proof fn lemma_appended_push<T, E: Fn(Op<T>, T, Option<T>) -> T>(
    a: GraphView<T>,
    b: GraphView<T>,
    c: GraphView<T>,
    ops: Seq<Op<T>>,
    prev: Seq<Seq<usize>>,
    op: Op<T>,
    p: Seq<usize>,
    eval: E,
)
    requires
        a.wf(),
        b.wf(),
        appended(a, b, ops, prev),
        evaluated_from(b, a.len() as int, eval),
        c == b.push(op, p, c.data[b.len() as int]),
        c.evaluated_by(b.len() as int, eval),
    ensures
        appended(a, c, ops.push(op), prev.push(p)),
        evaluated_from(c, a.len() as int, eval),
{
    assert(c.extends(b));
    lemma_extends_trans(a, b, c);
    assert(c.ops =~= a.ops + ops.push(op));
    assert(c.prev =~= a.prev + prev.push(p));
    lemma_evaluated_kept(b, c, a.len() as int, eval);
}

/// Something with trainable parameters.
pub trait Module {
    /// The trainable parameters, in order.
    spec fn params(&self) -> Seq<Value>;

    /// Returns the trainable parameters, in order.
    fn parameters(&self) -> (r: Vec<Value>)
        ensures
            r@ == self.params(),
    ;

    /// Sets the gradient of every parameter to the graph's zero; no other
    /// part of the graph changes.
    fn zero_grad<T: Copy>(&self, g: &mut Graph<T>)
        requires
            old(g)@.wf(),
            all_in(old(g)@, self.params()),
        ensures
            final(g)@ == with_zero_grads(old(g)@, self.params()),
            final(g)@.wf(),
    {
        let ps = self.parameters();
        let z = g.zero();
        let ghost g0 = g@;
        let mut k: usize = 0;
        assert(g@ =~= with_zero_grads(g0, ps@.take(0)));
        while k < ps.len()
            invariant
                ps@ == self.params(),
                k <= ps@.len(),
                all_in(g0, ps@),
                g0.wf(),
                z == g0.zero,
                g@.wf(),
                g@ == with_zero_grads(g0, ps@.take(k as int)),
            decreases ps@.len() - k,
        {
            let p = ps[k];
            assert(g0.has(ps@[k as int]));
            let ghost before = g@;
            p.set_grad(g, z);
            proof {
                assert forall|i: int| 0 <= i < g0.grad.len() implies names(ps@.take(k + 1), i) == (
                names(ps@.take(k as int), i) || i == p.id) by {
                    if names(ps@.take(k + 1), i) {
                        let m = choose|m: int| 0 <= m < k + 1 && #[trigger] ps@.take(k + 1)[m].id == i;
                        if m < k {
                            assert(ps@.take(k as int)[m].id == i);
                        }
                    }
                    if names(ps@.take(k as int), i) {
                        let m = choose|m: int| 0 <= m < k && #[trigger] ps@.take(k as int)[m].id == i;
                        assert(ps@.take(k + 1)[m].id == i);
                    }
                    if i == p.id {
                        assert(ps@.take(k + 1)[k as int].id == i);
                    }
                }
                let target = with_zero_grads(g0, ps@.take(k + 1));
                assert forall|i: int| 0 <= i < g0.grad.len() implies #[trigger] g@.grad[i]
                    == target.grad[i] by {
                    if i == p.id {
                        assert(ps@.take(k + 1)[k as int] == p);
                        assert(ps@.take(k + 1)[k as int].id == i);
                        assert(names(ps@.take(k + 1), i));
                    } else {
                        assert(g@.grad[i] == before.grad[i]);
                        assert(names(ps@.take(k + 1), i) == names(ps@.take(k as int), i));
                    }
                }
                assert(g@.grad =~= target.grad);
                assert(g@ =~= target);
            }
            k = k + 1;
        }
        assert(ps@.take(ps@.len() as int) =~= ps@);
    }
}

/// The mathematical content of a [`Neuron`].
pub struct NeuronView {
    /// One weight per input.
    pub w: Seq<Value>,
    /// The bias.
    pub b: Value,
    /// Whether the output goes through a rectified linear unit.
    pub nonlin: bool,
}

impl NeuronView {
    /// Weights followed by the bias.
    pub open spec fn params(self) -> Seq<Value> {
        self.w.push(self.b)
    }

    /// Number of products in a forward pass on `n` inputs.
    pub open spec fn terms(self, n: nat) -> nat {
        if self.w.len() <= n {
            self.w.len()
        } else {
            n
        }
    }

    /// Number of nodes a forward pass on `n` inputs creates.
    pub open spec fn forward_len(self, n: nat) -> nat {
        2 * self.terms(n) + if self.nonlin {
            1nat
        } else {
            0nat
        }
    }

    /// The running sum after `k` terms, when the forward pass starts at
    /// position `base`: the bias, then the `k`-th sum node.
    pub open spec fn running_sum(self, base: int, k: int) -> usize {
        if k == 0 {
            self.b.id
        } else {
            (base + 2 * k - 1) as usize
        }
    }

    /// Operations of the nodes a forward pass on `n` inputs creates: a product
    /// and a sum per term, then a rectified linear unit if `nonlin`.
    pub open spec fn forward_ops<T>(self, n: nat) -> Seq<Op<T>> {
        Seq::new(
            self.forward_len(n),
            |i: int|
                if i == 2 * self.terms(n) {
                    Op::Relu
                } else if i % 2 == 0 {
                    Op::Mul
                } else {
                    Op::Add
                },
        )
    }

    /// Inputs of the nodes a forward pass on `x` creates from position `base`
    /// on: term `k` is `w[k] * x[k]` and is added to the running sum.
    pub open spec fn forward_prev(self, x: Seq<Value>, base: int) -> Seq<Seq<usize>> {
        Seq::new(
            self.forward_len(x.len()),
            |i: int|
                if i == 2 * self.terms(x.len()) {
                    seq![self.running_sum(base, i / 2)]
                } else if i % 2 == 0 {
                    seq![self.w[i / 2].id, x[i / 2].id]
                } else {
                    seq![self.running_sum(base, i / 2), (base + i - 1) as usize]
                },
        )
    }

    /// The output of a forward pass on `n` inputs from position `base` on.
    pub open spec fn forward_out(self, n: nat, base: int) -> Value {
        if self.nonlin {
            Value { id: (base + 2 * self.terms(n)) as usize }
        } else {
            Value { id: self.running_sum(base, self.terms(n) as int) }
        }
    }
}

/// A single neuron: a weighted sum of its inputs plus a bias, optionally
/// followed by a rectified linear unit.
pub struct Neuron {
    w: Vec<Value>,
    b: Value,
    nonlin: bool,
}

impl View for Neuron {
    type V = NeuronView;

    closed spec fn view(&self) -> NeuronView {
        NeuronView { w: self.w@, b: self.b, nonlin: self.nonlin }
    }
}

impl Neuron {
    /// A neuron with `nin` weights and a bias, all new leaves of `g`: each
    /// weight holds a value drawn from `init`, the bias holds the graph's zero.
    /// The weights are created first, in order, then the bias.
    pub fn new<T: Copy, F: Fn() -> T>(g: &mut Graph<T>, nin: usize, nonlin: bool, init: &F) -> (n:
        Neuron)
        requires
            old(g)@.wf(),
            call_requires(*init, ()),
        ensures
            final(g)@.wf(),
            final(g)@.extends(old(g)@),
            final(g)@.len() == old(g)@.len() + nin + 1,
            forall|i: int| old(g)@.len() <= i < final(g)@.len() ==> #[trigger] final(g)@.ops[i] is Leaf,
            n@.w.len() == nin,
            n@.nonlin == nonlin,
            forall|k: int| 0 <= k < n@.params().len() ==> #[trigger] n@.params()[k].id == old(g)@.len() + k,
            forall|k: int| 0 <= k < nin ==> call_ensures(*init, (), #[trigger] final(g)@.data[n@.w[k].id as int]),
            final(g)@.data[n@.b.id as int] == old(g)@.zero,
    {
        let ghost g0 = g@;
        let mut w: Vec<Value> = Vec::new();
        let mut k: usize = 0;
        while k < nin
            invariant
                g0.wf(),
                g@.wf(),
                call_requires(*init, ()),
                k <= nin,
                w@.len() == k,
                g@.extends(g0),
                g@.len() == g0.len() + k,
                forall|i: int| g0.len() <= i < g@.len() ==> #[trigger] g@.ops[i] is Leaf,
                forall|m: int| 0 <= m < k ==> #[trigger] w@[m].id == g0.len() + m,
                forall|m: int| 0 <= m < k ==> call_ensures(*init, (), #[trigger] g@.data[w@[m].id as int]),
            decreases nin - k,
        {
            let d = init();
            let ghost before = g@;
            let v = Value::new(g, d);
            proof {
                lemma_extends_trans(g0, before, g@);
                assert forall|m: int| 0 <= m < k implies call_ensures(
                    *init,
                    (),
                    #[trigger] g@.data[w@[m].id as int],
                ) by {
                    assert(g@.data[w@[m].id as int] == before.data[w@[m].id as int]);
                }
            }
            w.push(v);
            k = k + 1;
        }
        let ghost before = g@;
        let z = g.zero();
        let b = Value::new(g, z);
        proof {
            lemma_extends_trans(g0, before, g@);
            assert forall|m: int| 0 <= m < nin implies call_ensures(
                *init,
                (),
                #[trigger] g@.data[w@[m].id as int],
            ) by {
                assert(g@.data[w@[m].id as int] == before.data[w@[m].id as int]);
            }
        }
        let n = Neuron { w, b, nonlin };
        assert(forall|m: int| 0 <= m < nin ==> n@.params()[m] == n@.w[m]);
        assert(n@.params()[nin as int] == n@.b);
        n
    }

    /// Forward pass on the inputs `x`: the bias plus, for each `k` below both
    /// lengths, the product of weight `k` and input `k`, each product and each
    /// partial sum a new node; then a rectified linear unit if the neuron is
    /// nonlinear. With no term and no nonlinearity the output is the bias.
    pub fn forward<T: Copy, E: Fn(Op<T>, T, Option<T>) -> T>(
        &self,
        g: &mut Graph<T>,
        x: &[Value],
        eval: &E,
    ) -> (out: Value)
        requires
            old(g)@.wf(),
            all_in(old(g)@, self@.params()),
            all_in(old(g)@, x@),
            accepts_all(*eval),
        ensures
            final(g)@.wf(),
            appended(
                old(g)@,
                final(g)@,
                self@.forward_ops(x@.len()),
                self@.forward_prev(x@, old(g)@.len() as int),
            ),
            evaluated_from(final(g)@, old(g)@.len() as int, *eval),
            out == self@.forward_out(x@.len(), old(g)@.len() as int),
            final(g)@.has(out),
    {
        let ghost g0 = g@;
        let ghost base = g0.len() as int;
        let ghost n = self@;
        let ghost ops = n.forward_ops::<T>(x@.len());
        let ghost prev = n.forward_prev(x@, base);
        let m = if self.w.len() <= x.len() {
            self.w.len()
        } else {
            x.len()
        };
        assert(m == n.terms(x@.len()));
        assert(forall|k: int| 0 <= k < n.w.len() ==> n.params()[k] == n.w[k]);
        assert(n.params()[n.w.len() as int] == n.b);
        let mut act = self.b;
        let mut k: usize = 0;
        assert(g@.extends(g0));
        assert(g@.ops =~= g0.ops + ops.take(0));
        assert(g@.prev =~= g0.prev + prev.take(0));
        while k < m
            invariant
                g0.wf(),
                g@.wf(),
                base == g0.len(),
                n == self@,
                ops == n.forward_ops::<T>(x@.len()),
                prev == n.forward_prev(x@, base),
                m == n.terms(x@.len()),
                m <= n.w.len(),
                m <= x@.len(),
                all_in(g0, n.params()),
                all_in(g0, x@),
                forall|j: int| 0 <= j < n.w.len() ==> n.params()[j] == n.w[j],
                accepts_all(*eval),
                k <= m,
                appended(g0, g@, ops.take(2 * k), prev.take(2 * k)),
                evaluated_from(g@, base, *eval),
                g@.len() == base + 2 * k,
                act.id == n.running_sum(base, k as int),
                g@.has(act),
            decreases m - k,
        {
            let ghost g1 = g@;
            assert(g0.has(n.params()[k as int]));
            assert(g0.has(x@[k as int]));
            let t = self.w[k].mul(x[k], g, eval);
            proof {
                assert(ops.take(2 * k).push(Op::Mul) =~= ops.take(2 * k + 1));
                assert(prev[2 * k] == seq![n.w[k as int].id, x@[k as int].id]);
                assert(prev.take(2 * k).push(seq![n.w[k as int].id, x@[k as int].id]) =~= prev.take(
                    2 * k + 1,
                ));
                lemma_appended_push(
                    g0,
                    g1,
                    g@,
                    ops.take(2 * k),
                    prev.take(2 * k),
                    Op::Mul,
                    seq![n.w[k as int].id, x@[k as int].id],
                    *eval,
                );
            }
            let ghost g2 = g@;
            let a2 = act.add(t, g, eval);
            proof {
                assert(ops.take(2 * k + 1).push(Op::Add) =~= ops.take(2 * k + 2));
                assert(prev[2 * k + 1] == seq![act.id, t.id]);
                assert(prev.take(2 * k + 1).push(seq![act.id, t.id]) =~= prev.take(2 * k + 2));
                lemma_appended_push(
                    g0,
                    g2,
                    g@,
                    ops.take(2 * k + 1),
                    prev.take(2 * k + 1),
                    Op::Add,
                    seq![act.id, t.id],
                    *eval,
                );
            }
            act = a2;
            k = k + 1;
        }
        if self.nonlin {
            let ghost g1 = g@;
            let r = act.relu(g, eval);
            proof {
                assert(ops.take(2 * k).push(Op::Relu) =~= ops);
                assert(prev.take(2 * k).push(seq![act.id]) =~= prev);
                lemma_appended_push(
                    g0,
                    g1,
                    g@,
                    ops.take(2 * k),
                    prev.take(2 * k),
                    Op::Relu,
                    seq![act.id],
                    *eval,
                );
            }
            r
        } else {
            assert(ops.take(2 * k) =~= ops);
            assert(prev.take(2 * k) =~= prev);
            act
        }
    }
}

impl Module for Neuron {
    open spec fn params(&self) -> Seq<Value> {
        self@.params()
    }

    fn parameters(&self) -> (r: Vec<Value>) {
        let mut r: Vec<Value> = Vec::new();
        let mut k: usize = 0;
        while k < self.w.len()
            invariant
                k <= self.w@.len(),
                r@ == self.w@.take(k as int),
            decreases self.w@.len() - k,
        {
            r.push(self.w[k]);
            k = k + 1;
            assert(r@ =~= self.w@.take(k as int));
        }
        r.push(self.b);
        assert(r@ =~= self@.params());
        r
    }
}

/// Every weight of `n` holds a value that `init` may give, and its bias holds
/// the graph's zero.
pub open spec fn initialized<T, F: Fn() -> T>(g: GraphView<T>, n: NeuronView, init: F) -> bool {
    &&& forall|k: int| 0 <= k < n.w.len() ==> call_ensures(init, (), #[trigger] g.data[n.w[k].id as int])
    &&& g.data[n.b.id as int] == g.zero
}

proof fn lemma_initialized_kept<T, F: Fn() -> T>(
    a: GraphView<T>,
    b: GraphView<T>,
    n: NeuronView,
    init: F,
)
    requires
        b.extends(a),
        all_in(a, n.params()),
        initialized(a, n, init),
    ensures
        initialized(b, n, init),
{
    assert forall|k: int| 0 <= k < n.w.len() implies call_ensures(
        init,
        (),
        #[trigger] b.data[n.w[k].id as int],
    ) by {
        assert(n.params()[k] == n.w[k]);
        assert(a.has(n.params()[k]));
    }
    assert(n.params()[n.w.len() as int] == n.b);
}

/// The parameters of the neurons `ns`, neuron after neuron.
pub open spec fn layer_params(ns: Seq<NeuronView>) -> Seq<Value>
    decreases ns.len(),
{
    if ns.len() == 0 {
        Seq::empty()
    } else {
        layer_params(ns.drop_last()) + ns.last().params()
    }
}

/// Operations of the nodes a forward pass of the neurons `ns` on `n` inputs
/// creates, neuron after neuron.
pub open spec fn layer_ops<T>(ns: Seq<NeuronView>, n: nat) -> Seq<Op<T>>
    decreases ns.len(),
{
    if ns.len() == 0 {
        Seq::empty()
    } else {
        layer_ops(ns.drop_last(), n) + ns.last().forward_ops(n)
    }
}

/// Inputs of the nodes a forward pass of the neurons `ns` on `x` creates from
/// position `base` on.
pub open spec fn layer_prev(ns: Seq<NeuronView>, x: Seq<Value>, base: int) -> Seq<Seq<usize>>
    decreases ns.len(),
{
    if ns.len() == 0 {
        Seq::empty()
    } else {
        let p = layer_prev(ns.drop_last(), x, base);
        p + ns.last().forward_prev(x, base + p.len())
    }
}

/// Outputs of a forward pass of the neurons `ns` on `x` from position `base`
/// on, one per neuron.
pub open spec fn layer_out(ns: Seq<NeuronView>, x: Seq<Value>, base: int) -> Seq<Value>
    decreases ns.len(),
{
    if ns.len() == 0 {
        Seq::empty()
    } else {
        let p = layer_prev(ns.drop_last(), x, base);
        layer_out(ns.drop_last(), x, base).push(ns.last().forward_out(x.len(), base + p.len()))
    }
}

/// Every neuron of `ns` has its parameters in `g`.
pub open spec fn neurons_in<T>(g: GraphView<T>, ns: Seq<NeuronView>) -> bool {
    forall|j: int| 0 <= j < ns.len() ==> all_in(g, #[trigger] ns[j].params())
}

proof fn lemma_all_in_kept<T>(a: GraphView<T>, b: GraphView<T>, vs: Seq<Value>)
    requires
        a.len() <= b.len(),
        all_in(a, vs),
    ensures
        all_in(b, vs),
{
    assert forall|k: int| 0 <= k < vs.len() implies b.has(#[trigger] vs[k]) by {
        assert(a.has(vs[k]));
    }
}

proof fn lemma_neurons_in_kept<T>(a: GraphView<T>, b: GraphView<T>, ns: Seq<NeuronView>)
    requires
        a.len() <= b.len(),
        neurons_in(a, ns),
    ensures
        neurons_in(b, ns),
{
    assert forall|j: int| 0 <= j < ns.len() implies all_in(b, #[trigger] ns[j].params()) by {
        lemma_all_in_kept(a, b, ns[j].params());
    }
}

/// The views of the neurons `ns`.
pub open spec fn neuron_views(ns: Seq<Neuron>) -> Seq<NeuronView> {
    ns.map_values(|n: Neuron| n@)
}

/// A layer of neurons that all read the same inputs.
pub struct Layer {
    neurons: Vec<Neuron>,
}

impl View for Layer {
    type V = Seq<NeuronView>;

    closed spec fn view(&self) -> Seq<NeuronView> {
        neuron_views(self.neurons@)
    }
}

impl Layer {
    /// A layer of `nout` new neurons with `nin` weights each, created one
    /// after the other as by [`Neuron::new`].
    pub fn new<T: Copy, F: Fn() -> T>(
        g: &mut Graph<T>,
        nin: usize,
        nout: usize,
        nonlin: bool,
        init: &F,
    ) -> (l: Layer)
        requires
            old(g)@.wf(),
            call_requires(*init, ()),
        ensures
            final(g)@.wf(),
            final(g)@.extends(old(g)@),
            final(g)@.len() == old(g)@.len() + layer_params(l@).len(),
            forall|i: int| old(g)@.len() <= i < final(g)@.len() ==> #[trigger] final(g)@.ops[i] is Leaf,
            l@.len() == nout,
            forall|j: int| 0 <= j < nout ==> (#[trigger] l@[j]).w.len() == nin && l@[j].nonlin == nonlin,
            forall|k: int|
                0 <= k < layer_params(l@).len() ==> #[trigger] layer_params(l@)[k].id == old(g)@.len() + k,
            forall|j: int| 0 <= j < nout ==> initialized(final(g)@, #[trigger] l@[j], *init),
    {
        let ghost g0 = g@;
        let mut neurons: Vec<Neuron> = Vec::new();
        let mut j: usize = 0;
        while j < nout
            invariant
                g0.wf(),
                g@.wf(),
                call_requires(*init, ()),
                j <= nout,
                neurons@.len() == j,
                g@.extends(g0),
                g@.len() == g0.len() + layer_params(neuron_views(neurons@)).len(),
                forall|i: int| g0.len() <= i < g@.len() ==> #[trigger] g@.ops[i] is Leaf,
                forall|m: int|
                    0 <= m < j ==> (#[trigger] neurons@[m]@).w.len() == nin && neurons@[m]@.nonlin
                        == nonlin,
                forall|k: int|
                    0 <= k < layer_params(neuron_views(neurons@)).len() ==> #[trigger] layer_params(
                        neuron_views(neurons@),
                    )[k].id == g0.len() + k,
                neurons_in(g@, neuron_views(neurons@)),
                forall|m: int| 0 <= m < j ==> initialized(g@, #[trigger] neurons@[m]@, *init),
            decreases nout - j,
        {
            let ghost g1 = g@;
            let ghost vs = neuron_views(neurons@);
            let n = Neuron::new(g, nin, nonlin, init);
            let ghost nv = n@;
            neurons.push(n);
            proof {
                let vs2 = neuron_views(neurons@);
                assert(vs2 =~= vs.push(nv));
                assert(vs2.drop_last() =~= vs);
                assert(layer_params(vs2) == layer_params(vs) + nv.params());
                lemma_extends_trans(g0, g1, g@);
                assert forall|i: int| g0.len() <= i < g@.len() implies #[trigger] g@.ops[i] is Leaf by {
                    if i < g1.len() {
                        assert(g@.ops[i] == g1.ops[i]);
                    }
                }
                assert forall|k: int| 0 <= k < layer_params(vs2).len() implies #[trigger] layer_params(
                    vs2,
                )[k].id == g0.len() + k by {
                    if k < layer_params(vs).len() {
                        assert(layer_params(vs2)[k] == layer_params(vs)[k]);
                    } else {
                        assert(layer_params(vs2)[k] == nv.params()[k - layer_params(vs).len()]);
                    }
                }
                assert(all_in(g@, nv.params()));
                lemma_neurons_in_kept(g1, g@, vs);
                assert forall|m: int| 0 <= m < vs2.len() implies all_in(g@, #[trigger] vs2[m].params()) by {
                    if m < vs.len() {
                        assert(vs2[m] == vs[m]);
                    }
                }
                assert forall|m: int| 0 <= m < j + 1 implies initialized(g@, #[trigger] neurons@[m]@, *init) by {
                    if m < j {
                        assert(neurons@[m]@ == vs[m]);
                        assert(all_in(g1, vs[m].params()));
                        lemma_initialized_kept(g1, g@, vs[m], *init);
                    }
                }
                assert forall|m: int| 0 <= m < j + 1 implies (#[trigger] neurons@[m]@).w.len() == nin
                    && neurons@[m]@.nonlin == nonlin by {
                    if m < j {
                        assert(neurons@[m]@ == vs[m]);
                    }
                }
            }
            j = j + 1;
        }
        let l = Layer { neurons };
        assert(l@ =~= neuron_views(neurons@));
        assert forall|m: int| 0 <= m < nout implies initialized(g@, #[trigger] l@[m], *init) by {
            assert(l@[m] == neurons@[m]@);
        }
        l
    }

    /// Forward pass on the inputs `x`: each neuron's forward pass in turn, all
    /// on `x`; returns the neurons' outputs in order.
    pub fn forward<T: Copy, E: Fn(Op<T>, T, Option<T>) -> T>(
        &self,
        g: &mut Graph<T>,
        x: &[Value],
        eval: &E,
    ) -> (out: Vec<Value>)
        requires
            old(g)@.wf(),
            all_in(old(g)@, layer_params(self@)),
            all_in(old(g)@, x@),
            accepts_all(*eval),
        ensures
            final(g)@.wf(),
            appended(
                old(g)@,
                final(g)@,
                layer_ops(self@, x@.len()),
                layer_prev(self@, x@, old(g)@.len() as int),
            ),
            evaluated_from(final(g)@, old(g)@.len() as int, *eval),
            out@ == layer_out(self@, x@, old(g)@.len() as int),
            all_in(final(g)@, out@),
    {
        let ghost g0 = g@;
        let ghost base = g0.len() as int;
        let ghost ns = self@;
        proof {
            lemma_layer_params_in(g0, ns);
        }
        let mut out: Vec<Value> = Vec::new();
        let mut j: usize = 0;
        assert(ns.take(0) =~= Seq::<NeuronView>::empty());
        assert(g@.extends(g0));
        assert(g@.ops =~= g0.ops + layer_ops::<T>(ns.take(0), x@.len()));
        assert(g@.prev =~= g0.prev + layer_prev(ns.take(0), x@, base));
        while j < self.neurons.len()
            invariant
                g0.wf(),
                g@.wf(),
                base == g0.len(),
                ns == self@,
                ns.len() == self.neurons@.len(),
                neurons_in(g0, ns),
                all_in(g0, x@),
                accepts_all(*eval),
                j <= ns.len(),
                appended(g0, g@, layer_ops::<T>(ns.take(j as int), x@.len()), layer_prev(ns.take(j as int), x@, base)),
                evaluated_from(g@, base, *eval),
                out@ == layer_out(ns.take(j as int), x@, base),
                all_in(g@, out@),
            decreases ns.len() - j,
        {
            let ghost g1 = g@;
            let ghost pre = ns.take(j as int);
            let ghost post = ns.take(j + 1);
            assert(post.drop_last() =~= pre);
            assert(post.last() == ns[j as int]);
            assert(self.neurons@[j as int]@ == ns[j as int]);
            proof {
                assert(all_in(g0, ns[j as int].params()));
                lemma_all_in_kept(g0, g@, ns[j as int].params());
                lemma_all_in_kept(g0, g@, x@);
            }
            let o = self.neurons[j].forward(g, x, eval);
            proof {
                let p = layer_prev(pre, x@, base);
                assert(g1.prev.len() == base + p.len());
                lemma_appended_trans(
                    g0,
                    g1,
                    g@,
                    layer_ops::<T>(pre, x@.len()),
                    p,
                    ns[j as int].forward_ops::<T>(x@.len()),
                    ns[j as int].forward_prev(x@, g1.len() as int),
                );
                lemma_evaluated_kept(g1, g@, base, *eval);
                lemma_all_in_kept(g1, g@, out@);
            }
            out.push(o);
            j = j + 1;
        }
        assert(ns.take(ns.len() as int) =~= ns);
        out
    }
}

impl Module for Layer {
    open spec fn params(&self) -> Seq<Value> {
        layer_params(self@)
    }

    fn parameters(&self) -> (r: Vec<Value>) {
        let ghost ns = self@;
        let mut r: Vec<Value> = Vec::new();
        let mut j: usize = 0;
        assert(ns.take(0) =~= Seq::<NeuronView>::empty());
        while j < self.neurons.len()
            invariant
                ns == self@,
                ns.len() == self.neurons@.len(),
                j <= ns.len(),
                r@ == layer_params(ns.take(j as int)),
            decreases ns.len() - j,
        {
            let mut p = self.neurons[j].parameters();
            assert(self.neurons@[j as int]@ == ns[j as int]);
            r.append(&mut p);
            assert(ns.take(j + 1).drop_last() =~= ns.take(j as int));
            j = j + 1;
        }
        assert(ns.take(ns.len() as int) =~= ns);
        r
    }
}

/// Every neuron of `ns` has `nin` weights and the given nonlinearity.
pub open spec fn layer_shaped(ns: Seq<NeuronView>, nin: nat, nonlin: bool) -> bool {
    forall|j: int| 0 <= j < ns.len() ==> (#[trigger] ns[j]).w.len() == nin && ns[j].nonlin == nonlin
}

/// Every neuron of `ns` is initialized as by [`Neuron::new`] with `init`.
pub open spec fn layer_initialized<T, F: Fn() -> T>(g: GraphView<T>, ns: Seq<NeuronView>, init: F) -> bool {
    forall|j: int| 0 <= j < ns.len() ==> initialized(g, #[trigger] ns[j], init)
}

proof fn lemma_layer_params_in<T>(g: GraphView<T>, ns: Seq<NeuronView>)
    requires
        all_in(g, layer_params(ns)),
    ensures
        neurons_in(g, ns),
    decreases ns.len(),
{
    if ns.len() > 0 {
        let pre = ns.drop_last();
        let lp = layer_params(pre);
        let q = ns.last().params();
        assert forall|k: int| 0 <= k < lp.len() implies g.has(#[trigger] lp[k]) by {
            assert(layer_params(ns)[k] == lp[k]);
        }
        lemma_layer_params_in(g, pre);
        assert forall|k: int| 0 <= k < q.len() implies g.has(#[trigger] q[k]) by {
            assert(layer_params(ns)[lp.len() + k] == q[k]);
        }
        assert forall|j: int| 0 <= j < ns.len() implies all_in(g, #[trigger] ns[j].params()) by {
            if j < pre.len() {
                assert(ns[j] == pre[j]);
            }
        }
    }
}

proof fn lemma_layer_params_of_neurons_in<T>(g: GraphView<T>, ns: Seq<NeuronView>)
    requires
        neurons_in(g, ns),
    ensures
        all_in(g, layer_params(ns)),
    decreases ns.len(),
{
    if ns.len() > 0 {
        let pre = ns.drop_last();
        assert(neurons_in(g, pre)) by {
            assert forall|j: int| 0 <= j < pre.len() implies all_in(g, #[trigger] pre[j].params()) by {
                assert(pre[j] == ns[j]);
            }
        }
        lemma_layer_params_of_neurons_in(g, pre);
        let lp = layer_params(pre);
        let q = ns.last().params();
        assert(all_in(g, q)) by {
            assert(ns.last() == ns[ns.len() - 1]);
        }
        assert forall|k: int| 0 <= k < layer_params(ns).len() implies g.has(#[trigger] layer_params(ns)[k]) by {
            if k < lp.len() {
                assert(layer_params(ns)[k] == lp[k]);
            } else {
                assert(layer_params(ns)[k] == q[k - lp.len()]);
            }
        }
    }
}

/// The parameters of the layers `ls`, layer after layer.
pub open spec fn mlp_params(ls: Seq<Seq<NeuronView>>) -> Seq<Value>
    decreases ls.len(),
{
    if ls.len() == 0 {
        Seq::empty()
    } else {
        mlp_params(ls.drop_last()) + layer_params(ls.last())
    }
}

/// A forward pass of the layers `ls` on `x` from position `base` on: the
/// operations and inputs of the nodes it creates, and its outputs. Each layer
/// reads the outputs of the one before it; the first reads `x`.
pub open spec fn mlp_forward<T>(ls: Seq<Seq<NeuronView>>, x: Seq<Value>, base: int) -> (
    Seq<Op<T>>,
    Seq<Seq<usize>>,
    Seq<Value>,
)
    decreases ls.len(),
{
    if ls.len() == 0 {
        (Seq::empty(), Seq::empty(), x)
    } else {
        let r = mlp_forward::<T>(ls.drop_last(), x, base);
        let l = ls.last();
        (
            r.0 + layer_ops::<T>(l, r.2.len()),
            r.1 + layer_prev(l, r.2, base + r.1.len()),
            layer_out(l, r.2, base + r.1.len()),
        )
    }
}

/// The views of the layers `ls`.
pub open spec fn layer_views(ls: Seq<Layer>) -> Seq<Seq<NeuronView>> {
    ls.map_values(|l: Layer| l@)
}

/// A multi-layer perceptron: layers applied one after the other.
pub struct MLP {
    layers: Vec<Layer>,
}

impl View for MLP {
    type V = Seq<Seq<NeuronView>>;

    closed spec fn view(&self) -> Seq<Seq<NeuronView>> {
        layer_views(self.layers@)
    }
}

/// Number of inputs of layer `i` of a perceptron with `nin` inputs and layer
/// sizes `nouts`.
pub open spec fn layer_inputs(nin: nat, nouts: Seq<usize>, i: int) -> nat {
    if i == 0 {
        nin
    } else {
        nouts[i - 1] as nat
    }
}

impl MLP {
    /// A perceptron with `nin` inputs and one layer per entry of `nouts`, of
    /// that many neurons; layer `i` reads `nin` inputs if it is the first, the
    /// outputs of layer `i - 1` otherwise. Every layer but the last is
    /// nonlinear. Layers are created one after the other as by [`Layer::new`].
    pub fn new<T: Copy, F: Fn() -> T>(g: &mut Graph<T>, nin: usize, nouts: &[usize], init: &F) -> (m: MLP)
        requires
            old(g)@.wf(),
            call_requires(*init, ()),
        ensures
            final(g)@.wf(),
            final(g)@.extends(old(g)@),
            final(g)@.len() == old(g)@.len() + mlp_params(m@).len(),
            forall|i: int| old(g)@.len() <= i < final(g)@.len() ==> #[trigger] final(g)@.ops[i] is Leaf,
            m@.len() == nouts@.len(),
            forall|i: int|
                0 <= i < nouts@.len() ==> (#[trigger] m@[i]).len() == nouts@[i] && layer_shaped(
                    m@[i],
                    layer_inputs(nin as nat, nouts@, i),
                    i + 1 < nouts@.len(),
                ),
            forall|k: int|
                0 <= k < mlp_params(m@).len() ==> #[trigger] mlp_params(m@)[k].id == old(g)@.len() + k,
            forall|i: int| 0 <= i < nouts@.len() ==> layer_initialized(final(g)@, #[trigger] m@[i], *init),
            mlp_params(m@).no_duplicates(),
    {
        let ghost g0 = g@;
        let n = nouts.len();
        let mut layers: Vec<Layer> = Vec::new();
        let mut i: usize = 0;
        while i < n
            invariant
                g0.wf(),
                g@.wf(),
                call_requires(*init, ()),
                n == nouts@.len(),
                i <= n,
                layers@.len() == i,
                g@.extends(g0),
                g@.len() == g0.len() + mlp_params(layer_views(layers@)).len(),
                forall|q: int| g0.len() <= q < g@.len() ==> #[trigger] g@.ops[q] is Leaf,
                forall|m: int|
                    0 <= m < i ==> (#[trigger] layers@[m]@).len() == nouts@[m] && layer_shaped(
                        layers@[m]@,
                        layer_inputs(nin as nat, nouts@, m),
                        m + 1 < nouts@.len(),
                    ),
                forall|k: int|
                    0 <= k < mlp_params(layer_views(layers@)).len() ==> #[trigger] mlp_params(
                        layer_views(layers@),
                    )[k].id == g0.len() + k,
                forall|m: int| 0 <= m < i ==> layer_initialized(g@, #[trigger] layers@[m]@, *init),
            decreases n - i,
        {
            let ghost g1 = g@;
            let ghost ls = layer_views(layers@);
            let lin = if i == 0 {
                nin
            } else {
                nouts[i - 1]
            };
            let nonlin = i + 1 < n;
            let l = Layer::new(g, lin, nouts[i], nonlin, init);
            let ghost lv = l@;
            layers.push(l);
            proof {
                let ls2 = layer_views(layers@);
                assert(ls2 =~= ls.push(lv));
                assert(ls2.drop_last() =~= ls);
                assert(mlp_params(ls2) == mlp_params(ls) + layer_params(lv));
                lemma_extends_trans(g0, g1, g@);
                assert forall|q: int| g0.len() <= q < g@.len() implies #[trigger] g@.ops[q] is Leaf by {
                    if q < g1.len() {
                        assert(g@.ops[q] == g1.ops[q]);
                    }
                }
                assert forall|k: int| 0 <= k < mlp_params(ls2).len() implies #[trigger] mlp_params(
                    ls2,
                )[k].id == g0.len() + k by {
                    if k < mlp_params(ls).len() {
                        assert(mlp_params(ls2)[k] == mlp_params(ls)[k]);
                    } else {
                        assert(mlp_params(ls2)[k] == layer_params(lv)[k - mlp_params(ls).len()]);
                    }
                }
                assert forall|m: int| 0 <= m < i + 1 implies (#[trigger] layers@[m]@).len() == nouts@[m]
                    && layer_shaped(layers@[m]@, layer_inputs(nin as nat, nouts@, m), m + 1 < nouts@.len()) by {
                    if m < i {
                        assert(layers@[m]@ == ls[m]);
                    }
                }
                assert forall|m: int| 0 <= m < i + 1 implies layer_initialized(
                    g@,
                    #[trigger] layers@[m]@,
                    *init,
                ) by {
                    if m < i {
                        let lm = layers@[m]@;
                        assert(lm == ls[m]);
                        lemma_mlp_layer_params_in(g1, ls, m);
                        assert forall|j: int| 0 <= j < lm.len() implies initialized(
                            g@,
                            #[trigger] lm[j],
                            *init,
                        ) by {
                            assert(initialized(g1, lm[j], *init));
                            lemma_initialized_kept(g1, g@, lm[j], *init);
                        }
                    }
                }
            }
            i = i + 1;
        }
        let m = MLP { layers };
        assert(m@ =~= layer_views(layers@));
        assert forall|q: int| 0 <= q < nouts@.len() implies layer_initialized(g@, #[trigger] m@[q], *init) by {
            assert(m@[q] == layers@[q]@);
        }
        assert forall|a: int, b: int|
            0 <= a < mlp_params(m@).len() && 0 <= b < mlp_params(m@).len() && a != b implies mlp_params(
            m@,
        )[a] != mlp_params(m@)[b] by {
            assert(mlp_params(m@)[a].id == g0.len() + a);
            assert(mlp_params(m@)[b].id == g0.len() + b);
        }
        m
    }

    /// Forward pass on the inputs `x`: each layer in turn, the first on `x`,
    /// each other on the outputs of the one before; returns the outputs of the
    /// last layer, or `x` itself if there is no layer.
    pub fn forward<T: Copy, E: Fn(Op<T>, T, Option<T>) -> T>(
        &self,
        g: &mut Graph<T>,
        x: &[Value],
        eval: &E,
    ) -> (out: Vec<Value>)
        requires
            old(g)@.wf(),
            all_in(old(g)@, mlp_params(self@)),
            all_in(old(g)@, x@),
            accepts_all(*eval),
        ensures
            final(g)@.wf(),
            appended(
                old(g)@,
                final(g)@,
                mlp_forward::<T>(self@, x@, old(g)@.len() as int).0,
                mlp_forward::<T>(self@, x@, old(g)@.len() as int).1,
            ),
            evaluated_from(final(g)@, old(g)@.len() as int, *eval),
            out@ == mlp_forward::<T>(self@, x@, old(g)@.len() as int).2,
            all_in(final(g)@, out@),
    {
        let ghost g0 = g@;
        let ghost base = g0.len() as int;
        let ghost ls = self@;
        proof {
            lemma_mlp_params_in(g0, ls);
        }
        let mut out: Vec<Value> = Vec::new();
        let mut k: usize = 0;
        while k < x.len()
            invariant
                k <= x@.len(),
                out@ == x@.take(k as int),
            decreases x@.len() - k,
        {
            out.push(x[k]);
            k = k + 1;
            assert(out@ =~= x@.take(k as int));
        }
        assert(out@ =~= x@);
        let mut i: usize = 0;
        assert(ls.take(0) =~= Seq::<Seq<NeuronView>>::empty());
        assert(g@.extends(g0));
        assert(g@.ops =~= g0.ops + mlp_forward::<T>(ls.take(0), x@, base).0);
        assert(g@.prev =~= g0.prev + mlp_forward::<T>(ls.take(0), x@, base).1);
        while i < self.layers.len()
            invariant
                g0.wf(),
                g@.wf(),
                base == g0.len(),
                ls == self@,
                ls.len() == self.layers@.len(),
                forall|m: int| 0 <= m < ls.len() ==> neurons_in(g0, #[trigger] ls[m]),
                accepts_all(*eval),
                i <= ls.len(),
                appended(
                    g0,
                    g@,
                    mlp_forward::<T>(ls.take(i as int), x@, base).0,
                    mlp_forward::<T>(ls.take(i as int), x@, base).1,
                ),
                evaluated_from(g@, base, *eval),
                out@ == mlp_forward::<T>(ls.take(i as int), x@, base).2,
                all_in(g@, out@),
            decreases ls.len() - i,
        {
            let ghost g1 = g@;
            let ghost pre = ls.take(i as int);
            let ghost post = ls.take(i + 1);
            let ghost r = mlp_forward::<T>(pre, x@, base);
            proof {
                assert(post.drop_last() =~= pre);
                assert(post.last() == ls[i as int]);
                assert(self.layers@[i as int]@ == ls[i as int]);
                lemma_neurons_in_kept(g0, g@, ls[i as int]);
                lemma_layer_params_of_neurons_in(g@, ls[i as int]);
                assert(g1.prev.len() == base + r.1.len());
            }
            let o = self.layers[i].forward(g, out.as_slice(), eval);
            proof {
                lemma_appended_trans(
                    g0,
                    g1,
                    g@,
                    r.0,
                    r.1,
                    layer_ops::<T>(ls[i as int], r.2.len()),
                    layer_prev(ls[i as int], r.2, g1.len() as int),
                );
                lemma_evaluated_kept(g1, g@, base, *eval);
            }
            out = o;
            i = i + 1;
        }
        assert(ls.take(ls.len() as int) =~= ls);
        out
    }
}

proof fn lemma_mlp_params_in<T>(g: GraphView<T>, ls: Seq<Seq<NeuronView>>)
    requires
        all_in(g, mlp_params(ls)),
    ensures
        forall|m: int| 0 <= m < ls.len() ==> neurons_in(g, #[trigger] ls[m]),
    decreases ls.len(),
{
    if ls.len() > 0 {
        let pre = ls.drop_last();
        let mp = mlp_params(pre);
        let q = layer_params(ls.last());
        assert forall|k: int| 0 <= k < mp.len() implies g.has(#[trigger] mp[k]) by {
            assert(mlp_params(ls)[k] == mp[k]);
        }
        lemma_mlp_params_in(g, pre);
        assert forall|k: int| 0 <= k < q.len() implies g.has(#[trigger] q[k]) by {
            assert(mlp_params(ls)[mp.len() + k] == q[k]);
        }
        lemma_layer_params_in(g, ls.last());
        assert forall|m: int| 0 <= m < ls.len() implies neurons_in(g, #[trigger] ls[m]) by {
            if m < pre.len() {
                assert(ls[m] == pre[m]);
            }
        }
    }
}

proof fn lemma_mlp_layer_params_in<T>(g: GraphView<T>, ls: Seq<Seq<NeuronView>>, m: int)
    requires
        forall|k: int| 0 <= k < mlp_params(ls).len() ==> (#[trigger] mlp_params(ls)[k]).id < g.len(),
        0 <= m < ls.len(),
    ensures
        neurons_in(g, ls[m]),
{
    assert(all_in(g, mlp_params(ls))) by {
        assert forall|k: int| 0 <= k < mlp_params(ls).len() implies g.has(#[trigger] mlp_params(ls)[k]) by {}
    }
    lemma_mlp_params_in(g, ls);
}

impl Module for MLP {
    open spec fn params(&self) -> Seq<Value> {
        mlp_params(self@)
    }

    fn parameters(&self) -> (r: Vec<Value>) {
        let ghost ls = self@;
        let mut r: Vec<Value> = Vec::new();
        let mut i: usize = 0;
        assert(ls.take(0) =~= Seq::<Seq<NeuronView>>::empty());
        while i < self.layers.len()
            invariant
                ls == self@,
                ls.len() == self.layers@.len(),
                i <= ls.len(),
                r@ == mlp_params(ls.take(i as int)),
            decreases ls.len() - i,
        {
            let mut p = self.layers[i].parameters();
            assert(self.layers@[i as int]@ == ls[i as int]);
            r.append(&mut p);
            assert(ls.take(i + 1).drop_last() =~= ls.take(i as int));
            i = i + 1;
        }
        assert(ls.take(ls.len() as int) =~= ls);
        r
    }
}

/// The description of a neuron: its kind and its number of weights, as in
/// `ReLUNeuron(3)` or `LinearNeuron(4)`.
pub open spec fn neuron_text(n: NeuronView) -> Seq<char> {
    (if n.nonlin {
        "ReLU"@
    } else {
        "Linear"@
    }) + "Neuron("@ + decimal(n.w.len()) + ")"@
}

/// The description of a layer: `Layer of [` and its neurons' descriptions,
/// separated by `, `, then `]`.
pub open spec fn layer_text(ns: Seq<NeuronView>) -> Seq<char> {
    "Layer of ["@ + joined(ns.map_values(|n: NeuronView| neuron_text(n)), ", "@) + "]"@
}

/// The description of a perceptron: `MLP of [` and its layers' descriptions,
/// separated by `, `, then `]`.
pub open spec fn mlp_text(ls: Seq<Seq<NeuronView>>) -> Seq<char> {
    "MLP of ["@ + joined(ls.map_values(|l: Seq<NeuronView>| layer_text(l)), ", "@) + "]"@
}

proof fn lemma_joined_step(items: Seq<Seq<char>>, sep: Seq<char>, j: int)
    requires
        0 <= j < items.len(),
    ensures
        j == 0 ==> joined(items.take(j + 1), sep) == items[j],
        j > 0 ==> joined(items.take(j + 1), sep) == joined(items.take(j), sep) + sep + items[j],
{
    assert(items.take(j + 1).drop_last() =~= items.take(j));
    assert(items.take(j + 1).last() == items[j]);
    if j == 0 {
        assert(items.take(j + 1)[0] == items[0]);
    }
}

impl Neuron {
    /// Describes the neuron, as in `ReLUNeuron(3)`.
    pub fn to_string(&self) -> (s: String)
        ensures
            s@ == neuron_text(self@),
    {
        let mut s = String::new();
        if self.nonlin {
            s.append("ReLU");
        } else {
            s.append("Linear");
        }
        s.append("Neuron(");
        push_decimal(&mut s, self.w.len());
        s.append(")");
        assert(s@ =~= neuron_text(self@));
        s
    }
}

impl Layer {
    /// Describes the layer, as in `Layer of [ReLUNeuron(3), ReLUNeuron(3)]`.
    pub fn to_string(&self) -> (s: String)
        ensures
            s@ == layer_text(self@),
    {
        let ghost items = self@.map_values(|n: NeuronView| neuron_text(n));
        let mut s = String::new();
        s.append("Layer of [");
        let ghost head = s@;
        let mut j: usize = 0;
        while j < self.neurons.len()
            invariant
                items == self@.map_values(|n: NeuronView| neuron_text(n)),
                items.len() == self.neurons@.len(),
                self@ == neuron_views(self.neurons@),
                j <= items.len(),
                s@ == head + joined(items.take(j as int), ", "@),
            decreases items.len() - j,
        {
            proof {
                lemma_joined_step(items, ", "@, j as int);
            }
            if j > 0 {
                s.append(", ");
            }
            let t = self.neurons[j].to_string();
            assert(t@ == items[j as int]);
            s.append(t.as_str());
            j = j + 1;
        }
        assert(items.take(items.len() as int) =~= items);
        s.append("]");
        assert(s@ =~= layer_text(self@));
        s
    }
}

impl MLP {
    /// Describes the perceptron, as in `MLP of [Layer of [LinearNeuron(2)]]`.
    pub fn to_string(&self) -> (s: String)
        ensures
            s@ == mlp_text(self@),
    {
        let ghost items = self@.map_values(|l: Seq<NeuronView>| layer_text(l));
        let mut s = String::new();
        s.append("MLP of [");
        let ghost head = s@;
        let mut i: usize = 0;
        while i < self.layers.len()
            invariant
                items == self@.map_values(|l: Seq<NeuronView>| layer_text(l)),
                items.len() == self.layers@.len(),
                self@ == layer_views(self.layers@),
                i <= items.len(),
                s@ == head + joined(items.take(i as int), ", "@),
            decreases items.len() - i,
        {
            proof {
                lemma_joined_step(items, ", "@, i as int);
            }
            if i > 0 {
                s.append(", ");
            }
            let t = self.layers[i].to_string();
            assert(t@ == items[i as int]);
            s.append(t.as_str());
            i = i + 1;
        }
        assert(items.take(items.len() as int) =~= items);
        s.append("]");
        assert(s@ =~= mlp_text(self@));
        s
    }
}

/// Number of parameters of a perceptron with `nin` inputs and layer sizes
/// `nouts`: each neuron of layer `i` has one weight per input of the layer
/// and a bias.
pub open spec fn param_count(nin: nat, nouts: Seq<usize>) -> nat
    decreases nouts.len(),
{
    if nouts.len() == 0 {
        0
    } else {
        param_count(nin, nouts.drop_last()) + (nouts.last() as nat) * (layer_inputs(
            nin,
            nouts,
            nouts.len() - 1,
        ) + 1)
    }
}

/// Every neuron of `ns` has `nin` weights.
pub open spec fn layer_width(ns: Seq<NeuronView>, nin: nat) -> bool {
    forall|j: int| 0 <= j < ns.len() ==> (#[trigger] ns[j]).w.len() == nin
}

/// A layer of neurons with `nin` weights each has `nin + 1` parameters per
/// neuron.
pub proof fn lemma_layer_param_count(ns: Seq<NeuronView>, nin: nat)
    requires
        layer_width(ns, nin),
    ensures
        layer_params(ns).len() == ns.len() * (nin + 1),
    decreases ns.len(),
{
    if ns.len() > 0 {
        let pre = ns.drop_last();
        assert(layer_width(pre, nin)) by {
            assert forall|j: int| 0 <= j < pre.len() implies (#[trigger] pre[j]).w.len() == nin by {
                assert(pre[j] == ns[j]);
            }
        }
        lemma_layer_param_count(pre, nin);
        assert(ns.last() == ns[ns.len() - 1]);
        let a = pre.len();
        assert(a * (nin + 1) + (nin + 1) == (a + 1) * (nin + 1)) by (nonlinear_arith);
    }
}

/// A perceptron whose layer `i` has `nouts[i]` neurons with
/// `layer_inputs(nin, nouts, i)` weights each, as [`MLP::new`] builds it, has
/// `param_count(nin, nouts)` parameters.
pub proof fn lemma_mlp_param_count(ls: Seq<Seq<NeuronView>>, nin: nat, nouts: Seq<usize>)
    requires
        ls.len() == nouts.len(),
        forall|i: int|
            0 <= i < nouts.len() ==> (#[trigger] ls[i]).len() == nouts[i] && layer_width(
                ls[i],
                layer_inputs(nin, nouts, i),
            ),
    ensures
        mlp_params(ls).len() == param_count(nin, nouts),
    decreases ls.len(),
{
    if ls.len() > 0 {
        let n = ls.len() - 1;
        let pre = ls.drop_last();
        let npre = nouts.drop_last();
        assert forall|i: int| 0 <= i < npre.len() implies (#[trigger] pre[i]).len() == npre[i]
            && layer_width(pre[i], layer_inputs(nin, npre, i)) by {
            assert(pre[i] == ls[i]);
            assert(layer_inputs(nin, npre, i) == layer_inputs(nin, nouts, i));
        }
        lemma_mlp_param_count(pre, nin, npre);
        assert(ls.last() == ls[n]);
        lemma_layer_param_count(ls[n], layer_inputs(nin, nouts, n));
        assert(nouts.last() == nouts[n]);
    }
}

/// A layer's forward pass has one output per neuron.
pub proof fn lemma_layer_out_len(ns: Seq<NeuronView>, x: Seq<Value>, base: int)
    ensures
        layer_out(ns, x, base).len() == ns.len(),
    decreases ns.len(),
{
    if ns.len() > 0 {
        lemma_layer_out_len(ns.drop_last(), x, base);
    }
}

/// A perceptron's forward pass has one output per neuron of its last layer,
/// and gives back its inputs when it has no layer.
pub proof fn lemma_mlp_out_len<T>(ls: Seq<Seq<NeuronView>>, x: Seq<Value>, base: int)
    ensures
        ls.len() == 0 ==> mlp_forward::<T>(ls, x, base).2 == x,
        ls.len() > 0 ==> mlp_forward::<T>(ls, x, base).2.len() == ls.last().len(),
{
    if ls.len() > 0 {
        let r = mlp_forward::<T>(ls.drop_last(), x, base);
        lemma_layer_out_len(ls.last(), r.2, base + r.1.len());
    }
}

/// `update` accepts every data and gradient.
pub open spec fn accepts_all_update<T, U: Fn(T, T) -> T>(update: U) -> bool {
    forall|d: T, r: T| call_requires(update, (d, r))
}

/// `end` is `mid` after every parameter in `ps` got as data what `update`
/// gives for its data and gradient in `mid`; gradients, operations and
/// inputs stay those of `mid`, and so does the data of every other node.
pub open spec fn updated<T, U: Fn(T, T) -> T>(
    mid: GraphView<T>,
    ps: Seq<Value>,
    end: GraphView<T>,
    update: U,
) -> bool {
    &&& end.ops == mid.ops
    &&& end.prev == mid.prev
    &&& end.grad == mid.grad
    &&& end.zero == mid.zero
    &&& end.data.len() == mid.data.len()
    &&& forall|k: int|
        0 <= k < ps.len() ==> call_ensures(
            update,
            (mid.data[ps[k].id as int], mid.grad[ps[k].id as int]),
            #[trigger] end.data[ps[k].id as int],
        )
    &&& forall|i: int| 0 <= i < mid.len() && !names(ps, i) ==> #[trigger] end.data[i] == mid.data[i]
}

impl MLP {
    /// One step of gradient descent on `loss`: sets every parameter's
    /// gradient to the graph's zero, runs the backward pass from `loss` with
    /// `seed`, `local` and `acc`, then replaces each parameter's data with what
    /// `update` gives for its data and its new gradient.
    pub fn sgd_step<
        T: Copy,
        L: Fn(Op<T>, T, T, T, Option<T>) -> (T, T),
        A: Fn(T, T) -> T,
        U: Fn(T, T) -> T,
    >(&self, g: &mut Graph<T>, loss: Value, seed: T, local: &L, acc: &A, update: &U)
        requires
            old(g)@.wf(),
            old(g)@.has(loss),
            all_in(old(g)@, self.params()),
            self.params().no_duplicates(),
            accepts_all_local(*local),
            accepts_all_acc(*acc),
            accepts_all_update(*update),
        ensures
            final(g)@.wf(),
            exists|mid: GraphView<T>|
                propagated(
                    with_zero_grads(old(g)@, self.params()).with_grad(loss.id as int, seed),
                    backward_schedule(old(g)@.prev, loss.id),
                    mid,
                    *local,
                    *acc,
                ) && #[trigger] updated(mid, self.params(), final(g)@, *update),
    {
        let ghost g0 = g@;
        let ghost ps = self.params();
        self.zero_grad(g);
        let ghost g1 = g@;
        assert(g1.prev == g0.prev);
        loss.backward(g, seed, local, acc);
        let ghost mid = g@;
        let params = self.parameters();
        let mut k: usize = 0;
        while k < params.len()
            invariant
                params@ == ps,
                ps.no_duplicates(),
                all_in(g0, ps),
                mid.len() == g0.len(),
                mid.wf(),
                g@.wf(),
                accepts_all_update(*update),
                k <= ps.len(),
                g@.ops == mid.ops,
                g@.prev == mid.prev,
                g@.grad == mid.grad,
                g@.zero == mid.zero,
                g@.data.len() == mid.data.len(),
                forall|m: int|
                    0 <= m < k ==> call_ensures(
                        *update,
                        (mid.data[ps[m].id as int], mid.grad[ps[m].id as int]),
                        #[trigger] g@.data[ps[m].id as int],
                    ),
                forall|i: int|
                    0 <= i < mid.len() && !names(ps.take(k as int), i) ==> #[trigger] g@.data[i]
                        == mid.data[i],
            decreases ps.len() - k,
        {
            let p = params[k];
            assert(g0.has(ps[k as int]));
            assert(!names(ps.take(k as int), p.id as int)) by {
                if names(ps.take(k as int), p.id as int) {
                    let m = choose|m: int| 0 <= m < k && #[trigger] ps.take(k as int)[m].id == p.id;
                    assert(ps[m] == ps.take(k as int)[m]);
                    assert(ps[m] == ps[k as int]);
                }
            }
            let d = p.data(g);
            let r = p.grad(g);
            let nd = update(d, r);
            let ghost before = g@;
            p.set_data(g, nd);
            proof {
                assert forall|m: int| 0 <= m < k + 1 implies call_ensures(
                    *update,
                    (mid.data[ps[m].id as int], mid.grad[ps[m].id as int]),
                    #[trigger] g@.data[ps[m].id as int],
                ) by {
                    if m < k {
                        assert(ps[m] != ps[k as int]);
                        assert(g@.data[ps[m].id as int] == before.data[ps[m].id as int]);
                    }
                }
                assert forall|i: int|
                    0 <= i < mid.len() && !names(ps.take(k + 1), i) implies #[trigger] g@.data[i]
                    == mid.data[i] by {
                    assert(ps.take(k + 1)[k as int] == p);
                    if i == p.id {
                        assert(names(ps.take(k + 1), i));
                    }
                    if names(ps.take(k as int), i) {
                        let m = choose|m: int| 0 <= m < k && #[trigger] ps.take(k as int)[m].id == i;
                        assert(ps.take(k + 1)[m].id == i);
                    }
                    assert(g@.data[i] == before.data[i]);
                }
                assert(g@.grad =~= mid.grad);
            }
            k = k + 1;
        }
        assert(ps.take(ps.len() as int) =~= ps);
        assert(updated(mid, ps, g@, *update));
    }
}

/// What node `i` of `g` holds: `Some(d)` for data `d` given at creation,
/// `None` for data that `eval` computed from the node's inputs.
pub open spec fn node_filled<T, E: Fn(Op<T>, T, Option<T>) -> T>(
    g: GraphView<T>,
    i: int,
    o: Option<T>,
    eval: E,
) -> bool {
    match o {
        Some(d) => g.data[i] == d,
        None => g.evaluated_by(i, eval),
    }
}

/// The nodes of `g` from position `start` on hold what `fill` says, one entry
/// per node.
pub open spec fn filled<T, E: Fn(Op<T>, T, Option<T>) -> T>(
    g: GraphView<T>,
    start: int,
    fill: Seq<Option<T>>,
    eval: E,
) -> bool {
    forall|k: int| 0 <= k < fill.len() ==> node_filled(g, start + k, #[trigger] fill[k], eval)
}

/// The inputs of one sample: leaves at positions `b` to `b + n - 1`.
pub open spec fn sample_inputs(b: int, n: nat) -> Seq<Value> {
    Seq::new(n, |j: int| Value { id: (b + j) as usize })
}

/// How many samples pairing rows with targets gives: as many as the shorter
/// of the two lists holds.
pub open spec fn paired_len(row_count: nat, target_count: nat) -> nat {
    if row_count <= target_count {
        row_count
    } else {
        target_count
    }
}

/// The rows of `xs` that are paired with a target of `ys`, as sequences.
pub open spec fn paired_rows<T>(xs: Seq<Vec<T>>, ys: Seq<T>) -> Seq<Seq<T>> {
    rows(xs).take(paired_len(xs.len(), ys.len()) as int)
}

/// The targets of `ys` that are paired with a row of `xs`.
pub open spec fn paired_targets<T>(xs: Seq<Vec<T>>, ys: Seq<T>) -> Seq<T> {
    ys.take(paired_len(xs.len(), ys.len()) as int)
}

/// The rows of `xs` as sequences.
pub open spec fn rows<T>(xs: Seq<Vec<T>>) -> Seq<Seq<T>> {
    xs.map_values(|v: Vec<T>| v@)
}

/// The nodes that one sample adds to the running sum of squared errors of
/// the perceptron `ls`, from position `b` on, when the running sum is node
/// `total`: a leaf per input holding `x`, the nodes of a forward pass on them,
/// a leaf holding the target `y`, the difference of the first output and the
/// target, its square as a product, and the new running sum. Gives their
/// operations, their inputs, what each holds, and the new running sum.
pub open spec fn sample_terms<T>(ls: Seq<Seq<NeuronView>>, x: Seq<T>, y: T, total: usize, b: int) -> (
    Seq<Op<T>>,
    Seq<Seq<usize>>,
    Seq<Option<T>>,
    usize,
) {
    let n = x.len();
    let f = mlp_forward::<T>(ls, sample_inputs(b, n), b + n);
    let t = b + n + f.0.len();
    (
        Seq::new(n, |j: int| Op::<T>::Leaf) + f.0 + seq![
            Op::<T>::Leaf,
            Op::<T>::Sub,
            Op::<T>::Mul,
            Op::<T>::Add,
        ],
        Seq::new(n, |j: int| Seq::<usize>::empty()) + f.1 + seq![
            Seq::<usize>::empty(),
            seq![f.2[0].id, t as usize],
            seq![(t + 1) as usize, (t + 1) as usize],
            seq![total, (t + 2) as usize],
        ],
        Seq::new(n, |j: int| Some(x[j])) + Seq::new(f.0.len(), |k: int| None::<T>) + seq![
            Some(y),
            None,
            None,
            None,
        ],
        (t + 3) as usize,
    )
}

/// The nodes that the running sum of squared errors of the perceptron `ls`
/// over the samples `xs` with targets `ys` creates from position `base` on:
/// a leaf holding `zero` to start the sum, then the nodes of each sample in
/// turn. Gives their operations, their inputs, what each holds, and the
/// position of the running sum.
pub open spec fn loss_terms<T>(
    ls: Seq<Seq<NeuronView>>,
    xs: Seq<Seq<T>>,
    ys: Seq<T>,
    zero: T,
    base: int,
) -> (Seq<Op<T>>, Seq<Seq<usize>>, Seq<Option<T>>, usize)
    decreases xs.len(),
{
    if xs.len() == 0 {
        (seq![Op::<T>::Leaf], seq![Seq::<usize>::empty()], seq![Some(zero)], base as usize)
    } else {
        let r = loss_terms(ls, xs.drop_last(), ys.drop_last(), zero, base);
        let q = sample_terms(ls, xs.last(), ys.last(), r.3, base + r.0.len());
        (r.0 + q.0, r.1 + q.1, r.2 + q.2, q.3)
    }
}

proof fn lemma_evaluated_kept_at<T, E: Fn(Op<T>, T, Option<T>) -> T>(
    a: GraphView<T>,
    b: GraphView<T>,
    i: int,
    eval: E,
)
    requires
        a.wf(),
        b.extends(a),
        0 <= i < a.len(),
        a.evaluated_by(i, eval),
    ensures
        b.evaluated_by(i, eval),
{
    assert(b.ops[i] == a.ops[i]);
    assert(b.prev[i] == a.prev[i]);
    assert(b.data[i] == a.data[i]);
    let p = a.prev[i];
    assert(a.prev[i][0] < i);
    assert(b.data[p[0] as int] == a.data[p[0] as int]);
    if p.len() == 2 {
        assert(a.prev[i][1] < i);
        assert(b.data[p[1] as int] == a.data[p[1] as int]);
    }
}

/// Appending nodes keeps what the earlier nodes hold, and the new nodes hold
/// what `f2` says.
proof fn lemma_filled_extend<T, E: Fn(Op<T>, T, Option<T>) -> T>(
    g0: GraphView<T>,
    a: GraphView<T>,
    b: GraphView<T>,
    o1: Seq<Op<T>>,
    p1: Seq<Seq<usize>>,
    f1: Seq<Option<T>>,
    o2: Seq<Op<T>>,
    p2: Seq<Seq<usize>>,
    f2: Seq<Option<T>>,
    eval: E,
)
    requires
        a.wf(),
        appended(g0, a, o1, p1),
        filled(a, g0.len() as int, f1, eval),
        a.len() == g0.len() + f1.len(),
        appended(a, b, o2, p2),
        o2.len() == f2.len(),
        forall|k: int| 0 <= k < f2.len() ==> node_filled(b, a.len() + k, #[trigger] f2[k], eval),
    ensures
        appended(g0, b, o1 + o2, p1 + p2),
        filled(b, g0.len() as int, f1 + f2, eval),
        b.len() == g0.len() + (f1 + f2).len(),
{
    lemma_appended_trans(g0, a, b, o1, p1, o2, p2);
    let st = g0.len() as int;
    assert forall|k: int| 0 <= k < (f1 + f2).len() implies node_filled(
        b,
        st + k,
        #[trigger] (f1 + f2)[k],
        eval,
    ) by {
        if k < f1.len() {
            assert((f1 + f2)[k] == f1[k]);
            assert(node_filled(a, st + k, f1[k], eval));
            match f1[k] {
                Some(d) => {
                    assert(b.data[st + k] == a.data[st + k]);
                },
                None => {
                    lemma_evaluated_kept_at(a, b, st + k, eval);
                },
            }
        } else {
            assert((f1 + f2)[k] == f2[k - f1.len()]);
        }
    }
}

impl MLP {
    /// Creates one leaf per entry of `x`, in order.
    fn push_leaves<T: Copy>(g: &mut Graph<T>, x: &Vec<T>) -> (xv: Vec<Value>)
        requires
            old(g)@.wf(),
        ensures
            final(g)@.wf(),
            appended(
                old(g)@,
                final(g)@,
                Seq::new(x@.len(), |q: int| Op::<T>::Leaf),
                Seq::new(x@.len(), |q: int| Seq::<usize>::empty()),
            ),
            forall|q: int| 0 <= q < x@.len() ==> #[trigger] final(g)@.data[old(g)@.len() + q] == x@[q],
            xv@ == sample_inputs(old(g)@.len() as int, x@.len()),
    {
        let ghost g1 = g@;
        let ghost b = g1.len() as int;
        let mut xv: Vec<Value> = Vec::new();
        let mut j: usize = 0;
        proof {
            assert(g@.ops =~= g1.ops + Seq::new(0, |q: int| Op::<T>::Leaf));
            assert(g@.prev =~= g1.prev + Seq::new(0, |q: int| Seq::<usize>::empty()));
            assert(g@.extends(g1));
            assert(xv@ =~= sample_inputs(b, 0));
        }
        while j < x.len()
            invariant
                g1.wf(),
                g@.wf(),
                b == g1.len(),
                j <= x@.len(),
                appended(
                    g1,
                    g@,
                    Seq::new(j as nat, |q: int| Op::<T>::Leaf),
                    Seq::new(j as nat, |q: int| Seq::<usize>::empty()),
                ),
                forall|q: int| 0 <= q < j ==> #[trigger] g@.data[b + q] == x@[q],
                xv@ == sample_inputs(b, j as nat),
            decreases x@.len() - j,
        {
            let ghost g2 = g@;
            let v = Value::new(g, x[j]);
            proof {
                assert(g@.extends(g2));
                lemma_extends_trans(g1, g2, g@);
                assert(g@.ops =~= g1.ops + Seq::new((j + 1) as nat, |q: int| Op::<T>::Leaf));
                assert(g@.prev =~= g1.prev + Seq::new((j + 1) as nat, |q: int| Seq::<usize>::empty()));
                assert forall|q: int| 0 <= q < j + 1 implies #[trigger] g@.data[b + q] == x@[q] by {
                    if q < j {
                        assert(g@.data[b + q] == g2.data[b + q]);
                    }
                }
            }
            xv.push(v);
            j = j + 1;
            assert(xv@ =~= sample_inputs(b, j as nat));
        }
        xv
    }

    /// Adds the nodes of one sample to the running sum `total`, as
    /// [`sample_terms`] describes them, and returns the new running sum.
    #[verifier::rlimit(60)]
    fn add_sample<T: Copy, E: Fn(Op<T>, T, Option<T>) -> T>(
        &self,
        g: &mut Graph<T>,
        x: &Vec<T>,
        y: T,
        total: Value,
        eval: &E,
    ) -> (nt: Value)
        requires
            old(g)@.wf(),
            old(g)@.has(total),
            all_in(old(g)@, mlp_params(self@)),
            accepts_all(*eval),
            self@.len() == 0 ==> x@.len() > 0,
            self@.len() > 0 ==> self@.last().len() > 0,
        ensures
            final(g)@.wf(),
            appended(
                old(g)@,
                final(g)@,
                sample_terms(self@, x@, y, total.id, old(g)@.len() as int).0,
                sample_terms(self@, x@, y, total.id, old(g)@.len() as int).1,
            ),
            filled(final(g)@, old(g)@.len() as int, sample_terms(self@, x@, y, total.id, old(g)@.len() as int).2, *eval),
            final(g)@.len() == old(g)@.len() + sample_terms(self@, x@, y, total.id, old(g)@.len() as int).2.len(),
            nt.id == sample_terms(self@, x@, y, total.id, old(g)@.len() as int).3,
            final(g)@.has(nt),
    {
        let ghost g1 = g@;
        let ghost b = g1.len() as int;
        let ghost ls = self@;
        let ghost n = x@.len();
        let ghost q = sample_terms(ls, x@, y, total.id, b);
        let ghost e0 = Seq::<Op<T>>::empty();
        let ghost e1 = Seq::<Seq<usize>>::empty();
        let ghost e2 = Seq::<Option<T>>::empty();
        proof {
            assert(g1.ops =~= g1.ops + e0);
            assert(g1.prev =~= g1.prev + e1);
            assert(g1.extends(g1));
        }
        let xv = MLP::push_leaves(g, x);
        let ghost g2 = g@;
        let ghost lo = Seq::new(n, |j: int| Op::<T>::Leaf);
        let ghost lp = Seq::new(n, |j: int| Seq::<usize>::empty());
        let ghost lf = Seq::new(n, |j: int| Some(x@[j]));
        proof {
            assert forall|k: int| 0 <= k < lf.len() implies node_filled(
                g2,
                g1.len() + k,
                #[trigger] lf[k],
                *eval,
            ) by {}
            lemma_filled_extend(g1, g1, g2, e0, e1, e2, lo, lp, lf, *eval);
            assert(e0 + lo =~= lo);
            assert(e1 + lp =~= lp);
            assert(e2 + lf =~= lf);
            lemma_all_in_kept(g1, g2, mlp_params(ls));
            assert forall|k: int| 0 <= k < xv@.len() implies g2.has(#[trigger] xv@[k]) by {}
        }
        let out = self.forward(g, xv.as_slice(), eval);
        let ghost g3 = g@;
        let ghost f = mlp_forward::<T>(ls, sample_inputs(b, n), b + n);
        let ghost nf = Seq::new(f.0.len(), |k: int| None::<T>);
        proof {
            lemma_mlp_out_len::<T>(ls, sample_inputs(b, n), b + n);
            assert forall|k: int| 0 <= k < nf.len() implies node_filled(
                g3,
                g2.len() + k,
                #[trigger] nf[k],
                *eval,
            ) by {
                assert(g3.evaluated_by(g2.len() + k, *eval));
            }
            lemma_filled_extend(g1, g2, g3, lo, lp, lf, f.0, f.1, nf, *eval);
        }
        let pred = out[0];
        let ghost t = b + n + f.0.len();
        let tv = Value::new(g, y);
        let ghost g4 = g@;
        proof {
            assert(g4.extends(g3));
            assert(g4.ops =~= g3.ops + seq![Op::<T>::Leaf]);
            assert(g4.prev =~= g3.prev + seq![Seq::<usize>::empty()]);
            assert(node_filled(g4, g3.len() as int, seq![Some(y)][0], *eval));
            lemma_filled_extend(
                g1,
                g3,
                g4,
                lo + f.0,
                lp + f.1,
                lf + nf,
                seq![Op::<T>::Leaf],
                seq![Seq::<usize>::empty()],
                seq![Some(y)],
                *eval,
            );
            assert(g3.has(pred));
        }
        let d = pred.sub(tv, g, eval);
        let ghost g5 = g@;
        proof {
            assert(g5.extends(g4));
            assert(g5.ops =~= g4.ops + seq![Op::<T>::Sub]);
            assert(g5.prev =~= g4.prev + seq![seq![pred.id, tv.id]]);
            assert(node_filled(g5, g4.len() as int, seq![None::<T>][0], *eval));
            lemma_filled_extend(
                g1,
                g4,
                g5,
                lo + f.0 + seq![Op::<T>::Leaf],
                lp + f.1 + seq![Seq::<usize>::empty()],
                lf + nf + seq![Some(y)],
                seq![Op::<T>::Sub],
                seq![seq![pred.id, tv.id]],
                seq![None::<T>],
                *eval,
            );
        }
        let sq = d.mul(d, g, eval);
        let ghost g6 = g@;
        proof {
            assert(g6.extends(g5));
            assert(g6.ops =~= g5.ops + seq![Op::<T>::Mul]);
            assert(g6.prev =~= g5.prev + seq![seq![d.id, d.id]]);
            assert(node_filled(g6, g5.len() as int, seq![None::<T>][0], *eval));
            lemma_filled_extend(
                g1,
                g5,
                g6,
                lo + f.0 + seq![Op::<T>::Leaf] + seq![Op::<T>::Sub],
                lp + f.1 + seq![Seq::<usize>::empty()] + seq![seq![pred.id, tv.id]],
                lf + nf + seq![Some(y)] + seq![None::<T>],
                seq![Op::<T>::Mul],
                seq![seq![d.id, d.id]],
                seq![None::<T>],
                *eval,
            );
        }
        let nt = total.add(sq, g, eval);
        proof {
            let g7 = g@;
            assert(g7.extends(g6));
            assert(g7.ops =~= g6.ops + seq![Op::<T>::Add]);
            assert(g7.prev =~= g6.prev + seq![seq![total.id, sq.id]]);
            assert(node_filled(g7, g6.len() as int, seq![None::<T>][0], *eval));
            lemma_filled_extend(
                g1,
                g6,
                g7,
                lo + f.0 + seq![Op::<T>::Leaf] + seq![Op::<T>::Sub] + seq![Op::<T>::Mul],
                lp + f.1 + seq![Seq::<usize>::empty()] + seq![seq![pred.id, tv.id]] + seq![
                    seq![d.id, d.id],
                ],
                lf + nf + seq![Some(y)] + seq![None::<T>] + seq![None::<T>],
                seq![Op::<T>::Add],
                seq![seq![total.id, sq.id]],
                seq![None::<T>],
                *eval,
            );
            assert(tv.id == t);
            assert(d.id == t + 1);
            assert(sq.id == t + 2);
            assert(q.0 =~= lo + f.0 + seq![Op::<T>::Leaf] + seq![Op::<T>::Sub] + seq![Op::<T>::Mul]
                + seq![Op::<T>::Add]);
            assert(q.1 =~= lp + f.1 + seq![Seq::<usize>::empty()] + seq![seq![pred.id, tv.id]]
                + seq![seq![d.id, d.id]] + seq![seq![total.id, sq.id]]);
            assert(q.2 =~= lf + nf + seq![Some(y)] + seq![None::<T>] + seq![None::<T>] + seq![
                None::<T>,
            ]);
        }
        nt
    }

    /// Mean-squared-error style loss over the samples `xs` with targets `ys`:
    /// a running sum that starts as a leaf holding `zero` and adds, per
    /// sample, `(p - y) * (p - y)` where `p` is the first output of a forward
    /// pass on new leaves holding the sample and `y` a new leaf holding the
    /// target; the result is the sum times a new leaf holding `scale`.
    pub fn mse_loss<T: Copy, E: Fn(Op<T>, T, Option<T>) -> T>(
        &self,
        g: &mut Graph<T>,
        xs: &[Vec<T>],
        ys: &[T],
        zero: T,
        scale: T,
        eval: &E,
    ) -> (loss: Value)
        requires
            old(g)@.wf(),
            all_in(old(g)@, mlp_params(self@)),
            accepts_all(*eval),
            self@.len() == 0 ==> forall|i: int|
                0 <= i < paired_len(xs@.len(), ys@.len()) ==> (#[trigger] xs@[i])@.len() > 0,
            self@.len() > 0 ==> self@.last().len() > 0,
        ensures
            final(g)@.wf(),
            appended(
                old(g)@,
                final(g)@,
                loss_terms(self@, paired_rows(xs@, ys@), paired_targets(xs@, ys@), zero, old(g)@.len() as int).0 + seq![
                    Op::Leaf,
                    Op::Mul,
                ],
                loss_terms(self@, paired_rows(xs@, ys@), paired_targets(xs@, ys@), zero, old(g)@.len() as int).1 + seq![
                    Seq::empty(),
                    seq![
                        loss_terms(self@, paired_rows(xs@, ys@), paired_targets(xs@, ys@), zero, old(g)@.len() as int).3,
                        (old(g)@.len() + loss_terms(
                            self@,
                            paired_rows(xs@, ys@),
                            paired_targets(xs@, ys@),
                            zero,
                            old(g)@.len() as int,
                        ).0.len()) as usize,
                    ],
                ],
            ),
            filled(
                final(g)@,
                old(g)@.len() as int,
                loss_terms(self@, paired_rows(xs@, ys@), paired_targets(xs@, ys@), zero, old(g)@.len() as int).2 + seq![
                    Some(scale),
                    None,
                ],
                *eval,
            ),
            loss.id == final(g)@.len() - 1,
    {
        let ghost g0 = g@;
        let ghost base = g0.len() as int;
        let ghost ls = self@;
        let ghost xr = paired_rows(xs@, ys@);
        let ghost yr = paired_targets(xs@, ys@);
        let n: usize = if xs.len() <= ys.len() {
            xs.len()
        } else {
            ys.len()
        };
        let mut total = Value::new(g, zero);
        proof {
            let r = loss_terms(ls, xr.take(0), yr.take(0), zero, base);
            assert(g@.ops =~= g0.ops + r.0);
            assert(g@.prev =~= g0.prev + r.1);
            assert(g@.extends(g0));
            assert(node_filled(g@, base + 0, r.2[0], *eval));
        }
        let mut s: usize = 0;
        while s < n
            invariant
                g0.wf(),
                g@.wf(),
                base == g0.len(),
                ls == self@,
                xr == paired_rows(xs@, ys@),
                yr == paired_targets(xs@, ys@),
                n == paired_len(xs@.len(), ys@.len()),
                n <= xs@.len(),
                n <= ys@.len(),
                all_in(g0, mlp_params(ls)),
                accepts_all(*eval),
                ls.len() == 0 ==> forall|i: int| 0 <= i < n ==> (#[trigger] xs@[i])@.len() > 0,
                ls.len() > 0 ==> ls.last().len() > 0,
                s <= n,
                appended(
                    g0,
                    g@,
                    loss_terms(ls, xr.take(s as int), yr.take(s as int), zero, base).0,
                    loss_terms(ls, xr.take(s as int), yr.take(s as int), zero, base).1,
                ),
                filled(g@, base, loss_terms(ls, xr.take(s as int), yr.take(s as int), zero, base).2, *eval),
                g@.len() == base + loss_terms(ls, xr.take(s as int), yr.take(s as int), zero, base).2.len(),
                total.id == loss_terms(ls, xr.take(s as int), yr.take(s as int), zero, base).3,
                g@.has(total),
            decreases n - s,
        {
            let ghost r = loss_terms(ls, xr.take(s as int), yr.take(s as int), zero, base);
            let ghost g1 = g@;
            proof {
                lemma_all_in_kept(g0, g1, mlp_params(ls));
                if ls.len() == 0 {
                    assert(xs@[s as int]@.len() > 0);
                }
            }
            let nt = self.add_sample(g, &xs[s], ys[s], total, eval);
            proof {
                let xs2 = xr.take(s + 1);
                let ys2 = yr.take(s + 1);
                assert(xs2.drop_last() =~= xr.take(s as int));
                assert(ys2.drop_last() =~= yr.take(s as int));
                assert(xs2.last() == xs@[s as int]@);
                assert(ys2.last() == ys@[s as int]);
                let q = sample_terms(ls, xs@[s as int]@, ys@[s as int], total.id, g1.len() as int);
                assert(g1.len() == base + r.0.len());
                assert forall|k: int| 0 <= k < q.2.len() implies node_filled(
                    g@,
                    g1.len() + k,
                    #[trigger] q.2[k],
                    *eval,
                ) by {
                    assert(node_filled(g@, g1.len() + k, q.2[k], *eval));
                }
                lemma_filled_extend(g0, g1, g@, r.0, r.1, r.2, q.0, q.1, q.2, *eval);
            }
            total = nt;
            s = s + 1;
        }
        let ghost g8 = g@;
        let ghost r = loss_terms(ls, xr, yr, zero, base);
        proof {
            assert(xr.take(n as int) =~= xr);
            assert(yr.take(n as int) =~= yr);
        }
        let sc = Value::new(g, scale);
        let ghost g9 = g@;
        proof {
            assert(g9.extends(g8));
            assert(g9.ops =~= g8.ops + seq![Op::<T>::Leaf]);
            assert(g9.prev =~= g8.prev + seq![Seq::<usize>::empty()]);
            assert(node_filled(g9, g8.len() as int, seq![Some(scale)][0], *eval));
            lemma_filled_extend(
                g0,
                g8,
                g9,
                r.0,
                r.1,
                r.2,
                seq![Op::<T>::Leaf],
                seq![Seq::<usize>::empty()],
                seq![Some(scale)],
                *eval,
            );
        }
        let loss = total.mul(sc, g, eval);
        proof {
            let g10 = g@;
            assert(g10.extends(g9));
            assert(g10.ops =~= g9.ops + seq![Op::<T>::Mul]);
            assert(g10.prev =~= g9.prev + seq![seq![total.id, sc.id]]);
            assert(node_filled(g10, g9.len() as int, seq![None::<T>][0], *eval));
            lemma_filled_extend(
                g0,
                g9,
                g10,
                r.0 + seq![Op::<T>::Leaf],
                r.1 + seq![Seq::<usize>::empty()],
                r.2 + seq![Some(scale)],
                seq![Op::<T>::Mul],
                seq![seq![total.id, sc.id]],
                seq![None::<T>],
                *eval,
            );
            assert(r.0 + seq![Op::<T>::Leaf] + seq![Op::<T>::Mul] =~= r.0 + seq![Op::<T>::Leaf, Op::<T>::Mul]);
            assert(r.1 + seq![Seq::<usize>::empty()] + seq![seq![total.id, sc.id]] =~= r.1 + seq![
                Seq::<usize>::empty(),
                seq![r.3, (base + r.0.len()) as usize],
            ]);
            assert(r.2 + seq![Some(scale)] + seq![None::<T>] =~= r.2 + seq![Some(scale), None]);
        }
        loss
    }
}

/// `eval` gives at most one result for each operation and operands.
pub open spec fn deterministic<T, E: Fn(Op<T>, T, Option<T>) -> T>(eval: E) -> bool {
    forall|op: Op<T>, a: T, b: Option<T>, r1: T, r2: T|
        call_ensures(eval, (op, a, b), r1) && call_ensures(eval, (op, a, b), r2) ==> r1 == r2
}

/// Position `u` moved by `d` if it is `from` or later.
pub open spec fn shift_id(u: usize, from: int, d: int) -> usize {
    if u < from {
        u
    } else {
        (u + d) as usize
    }
}

/// The values `vs` with their positions moved as by [`shift_id`].
pub open spec fn shift_values(vs: Seq<Value>, from: int, d: int) -> Seq<Value> {
    Seq::new(vs.len(), |k: int| Value { id: shift_id(vs[k].id, from, d) })
}

/// The input lists `ps` with their positions moved as by [`shift_id`].
pub open spec fn shift_prev(ps: Seq<Seq<usize>>, from: int, d: int) -> Seq<Seq<usize>> {
    Seq::new(ps.len(), |k: int| Seq::new(ps[k].len(), |j: int| shift_id(ps[k][j], from, d)))
}

proof fn lemma_neuron_shift(n: NeuronView, x: Seq<Value>, from: int, base: int, d: int)
    requires
        0 <= from <= base,
        0 <= d,
        base + d + n.forward_len(x.len()) <= usize::MAX,
        forall|k: int| 0 <= k < n.params().len() ==> (#[trigger] n.params()[k]).id < from,
    ensures
        n.forward_prev(shift_values(x, from, d), base + d) == shift_prev(n.forward_prev(x, base), from, d),
        n.forward_out(x.len(), base + d) == (Value { id: shift_id(n.forward_out(x.len(), base).id, from, d) }),
{
    let xs = shift_values(x, from, d);
    let p1 = n.forward_prev(x, base);
    let p2 = n.forward_prev(xs, base + d);
    let sp = shift_prev(p1, from, d);
    assert(n.params()[n.w.len() as int] == n.b);
    assert forall|k: int| 0 <= k < n.w.len() implies (#[trigger] n.w[k]).id < from by {
        assert(n.params()[k] == n.w[k]);
    }
    let m = n.terms(x.len());
    assert(n.terms(xs.len()) == m);
    assert forall|k: int| 0 <= k <= m implies shift_id(n.running_sum(base, k), from, d) == n.running_sum(
        base + d,
        k,
    ) by {
        if k == 0 {
            assert(n.params()[n.w.len() as int] == n.b);
        }
    }
    assert forall|i: int| 0 <= i < p2.len() implies #[trigger] p2[i] =~= sp[i] by {
        assert(sp[i].len() == p1[i].len());
        if i == 2 * m {
            assert(sp[i][0] == shift_id(n.running_sum(base, i / 2), from, d));
        } else if i % 2 == 0 {
            assert(n.w[i / 2].id < from);
            assert(xs[i / 2].id == shift_id(x[i / 2].id, from, d));
            assert(sp[i][0] == shift_id(n.w[i / 2].id, from, d));
            assert(sp[i][1] == shift_id(x[i / 2].id, from, d));
        } else {
            assert(sp[i][0] == shift_id(n.running_sum(base, i / 2), from, d));
            assert(sp[i][1] == shift_id((base + i - 1) as usize, from, d));
        }
    }
    assert(p2 =~= sp);
}

proof fn lemma_layer_shift(ns: Seq<NeuronView>, x: Seq<Value>, from: int, base: int, d: int)
    requires
        0 <= from <= base,
        0 <= d,
        base + d + layer_prev(ns, shift_values(x, from, d), base + d).len() <= usize::MAX,
        forall|j: int, k: int|
            0 <= j < ns.len() && 0 <= k < ns[j].params().len() ==> (#[trigger] ns[j].params()[k]).id
                < from,
    ensures
        layer_prev(ns, shift_values(x, from, d), base + d) == shift_prev(layer_prev(ns, x, base), from, d),
        layer_out(ns, shift_values(x, from, d), base + d) == shift_values(layer_out(ns, x, base), from, d),
    decreases ns.len(),
{
    if ns.len() > 0 {
        let pre = ns.drop_last();
        assert forall|j: int, k: int|
            0 <= j < pre.len() && 0 <= k < pre[j].params().len() implies (#[trigger] pre[j].params()[k]).id
            < from by {
            assert(pre[j] == ns[j]);
        }
        lemma_layer_shift(pre, x, from, base, d);
        let p = layer_prev(pre, x, base);
        let n = ns.last();
        assert forall|k: int| 0 <= k < n.params().len() implies (#[trigger] n.params()[k]).id < from by {
            assert(n == ns[ns.len() - 1]);
        }
        lemma_neuron_shift(n, x, from, base + p.len(), d);
        assert(shift_prev(p, from, d).len() == p.len());
        assert(shift_values(x, from, d).len() == x.len());
        assert(layer_prev(ns, shift_values(x, from, d), base + d) =~= shift_prev(
            layer_prev(ns, x, base),
            from,
            d,
        ));
        assert(layer_out(ns, shift_values(x, from, d), base + d) =~= shift_values(
            layer_out(ns, x, base),
            from,
            d,
        ));
    }
}

proof fn lemma_mlp_shift<T>(ls: Seq<Seq<NeuronView>>, x: Seq<Value>, from: int, base: int, d: int)
    requires
        0 <= from <= base,
        0 <= d,
        base + d + mlp_forward::<T>(ls, shift_values(x, from, d), base + d).1.len() <= usize::MAX,
        forall|k: int| 0 <= k < mlp_params(ls).len() ==> (#[trigger] mlp_params(ls)[k]).id < from,
    ensures
        mlp_forward::<T>(ls, shift_values(x, from, d), base + d).0 == mlp_forward::<T>(ls, x, base).0,
        mlp_forward::<T>(ls, shift_values(x, from, d), base + d).1 == shift_prev(
            mlp_forward::<T>(ls, x, base).1,
            from,
            d,
        ),
        mlp_forward::<T>(ls, shift_values(x, from, d), base + d).2 == shift_values(
            mlp_forward::<T>(ls, x, base).2,
            from,
            d,
        ),
    decreases ls.len(),
{
    let xs = shift_values(x, from, d);
    if ls.len() == 0 {
    } else {
        let pre = ls.drop_last();
        let mp = mlp_params(pre);
        let lp = layer_params(ls.last());
        assert forall|k: int| 0 <= k < mp.len() implies (#[trigger] mp[k]).id < from by {
            assert(mlp_params(ls)[k] == mp[k]);
        }
        lemma_mlp_shift::<T>(pre, x, from, base, d);
        let r = mlp_forward::<T>(pre, x, base);
        let l = ls.last();
        assert forall|j: int, k: int|
            0 <= j < l.len() && 0 <= k < l[j].params().len() implies (#[trigger] l[j].params()[k]).id
            < from by {
            lemma_layer_param_in_params(l, j, k);
            let q = choose|q: int| 0 <= q < lp.len() && lp[q] == l[j].params()[k];
            assert(mlp_params(ls)[mp.len() + q] == lp[q]);
        }
        lemma_layer_shift(l, r.2, from, base + r.1.len(), d);
        assert(shift_prev(r.1, from, d).len() == r.1.len());
        assert(shift_values(r.2, from, d).len() == r.2.len());
        assert(mlp_forward::<T>(ls, xs, base + d).1 =~= shift_prev(
            mlp_forward::<T>(ls, x, base).1,
            from,
            d,
        ));
    }
}

proof fn lemma_layer_param_in_params(ns: Seq<NeuronView>, j: int, k: int)
    requires
        0 <= j < ns.len(),
        0 <= k < ns[j].params().len(),
    ensures
        layer_params(ns).contains(ns[j].params()[k]),
    decreases ns.len(),
{
    let pre = ns.drop_last();
    let lp = layer_params(pre);
    if j < pre.len() {
        assert(pre[j] == ns[j]);
        lemma_layer_param_in_params(pre, j, k);
        let q = choose|q: int| 0 <= q < lp.len() && lp[q] == pre[j].params()[k];
        assert(layer_params(ns)[q] == lp[q]);
    } else {
        assert(ns.last() == ns[j]);
        assert(layer_params(ns)[lp.len() + k] == ns[j].params()[k]);
    }
}

/// Two stretches of `g` of `n` nodes each, the second a copy of the first with
/// inputs inside the first stretch moved to the second, hold equal data when
/// a deterministic `eval` computed every one of them.
proof fn lemma_replay<T, E: Fn(Op<T>, T, Option<T>) -> T>(
    g: GraphView<T>,
    b1: int,
    b2: int,
    n: int,
    eval: E,
    k: int,
)
    requires
        g.wf(),
        deterministic(eval),
        0 <= b1,
        b1 + n <= b2,
        b2 + n <= g.len(),
        g.len() <= usize::MAX,
        forall|q: int| 0 <= q < n ==> #[trigger] g.ops[b2 + q] == g.ops[b1 + q],
        forall|q: int|
            0 <= q < n ==> #[trigger] g.prev[b2 + q] == shift_prev(g.prev, b1, b2 - b1)[b1 + q],
        forall|q: int| 0 <= q < n ==> #[trigger] g.evaluated_by(b1 + q, eval),
        forall|q: int| 0 <= q < n ==> #[trigger] g.evaluated_by(b2 + q, eval),
        0 <= k < n,
    ensures
        g.data[b2 + k] == g.data[b1 + k],
    decreases k,
{
    let p1 = g.prev[b1 + k];
    let p2 = g.prev[b2 + k];
    assert(g.evaluated_by(b1 + k, eval));
    assert(g.evaluated_by(b2 + k, eval));
    assert(g.ops[b2 + k] == g.ops[b1 + k]);
    assert(p2 == shift_prev(g.prev, b1, b2 - b1)[b1 + k]);
    assert forall|j: int| 0 <= j < p1.len() implies g.data[p2[j] as int] == g.data[p1[j] as int] by {
        assert(g.prev[b1 + k][j] < b1 + k);
        assert(p2[j] == shift_id(p1[j], b1, b2 - b1));
        if p1[j] >= b1 {
            let k2 = p1[j] - b1;
            lemma_replay(g, b1, b2, n, eval, k2);
        }
    }
    assert(p1.len() >= 1);
    assert(g.data[p2[0] as int] == g.data[p1[0] as int]);
    if p1.len() == 2 {
        assert(g.data[p2[1] as int] == g.data[p1[1] as int]);
    }
}

/// Running the forward pass of a perceptron twice on the same inputs, with a
/// deterministic evaluator and nothing changed in between, gives outputs that
/// hold equal data.
pub proof fn lemma_forward_deterministic<T, E: Fn(Op<T>, T, Option<T>) -> T>(
    ls: Seq<Seq<NeuronView>>,
    x: Seq<Value>,
    g0: GraphView<T>,
    g1: GraphView<T>,
    g2: GraphView<T>,
    eval: E,
)
    requires
        g0.wf(),
        g1.wf(),
        g2.wf(),
        g2.len() <= usize::MAX,
        deterministic(eval),
        all_in(g0, mlp_params(ls)),
        all_in(g0, x),
        appended(
            g0,
            g1,
            mlp_forward::<T>(ls, x, g0.len() as int).0,
            mlp_forward::<T>(ls, x, g0.len() as int).1,
        ),
        evaluated_from(g1, g0.len() as int, eval),
        all_in(g1, mlp_forward::<T>(ls, x, g0.len() as int).2),
        appended(
            g1,
            g2,
            mlp_forward::<T>(ls, x, g1.len() as int).0,
            mlp_forward::<T>(ls, x, g1.len() as int).1,
        ),
        evaluated_from(g2, g1.len() as int, eval),
    ensures
        mlp_forward::<T>(ls, x, g1.len() as int).2.len() == mlp_forward::<T>(ls, x, g0.len() as int).2.len(),
        forall|j: int|
            #![trigger mlp_forward::<T>(ls, x, g0.len() as int).2[j]]
            0 <= j < mlp_forward::<T>(ls, x, g0.len() as int).2.len() ==> g2.data[mlp_forward::<T>(
                ls,
                x,
                g1.len() as int,
            ).2[j].id as int] == g2.data[mlp_forward::<T>(ls, x, g0.len() as int).2[j].id as int],
{
    let b1 = g0.len() as int;
    let b2 = g1.len() as int;
    let d = b2 - b1;
    let f1 = mlp_forward::<T>(ls, x, b1);
    let f2 = mlp_forward::<T>(ls, x, b2);
    let n = f1.0.len() as int;
    assert(shift_values(x, b1, d) =~= x) by {
        assert forall|k: int| 0 <= k < x.len() implies #[trigger] shift_values(x, b1, d)[k] == x[k] by {
            assert(g0.has(x[k]));
        }
    }
    assert forall|k: int| 0 <= k < mlp_params(ls).len() implies (#[trigger] mlp_params(ls)[k]).id < b1 by {
        assert(g0.has(mlp_params(ls)[k]));
    }
    assert(g1.len() == b1 + n);
    assert(g1.prev.len() == b1 + f1.1.len());
    assert(f1.1.len() == n);
    lemma_mlp_shift::<T>(ls, x, b1, b1, d);
    assert(f2.0 == f1.0);
    assert(f2.1 == shift_prev(f1.1, b1, d));
    assert(f2.2 == shift_values(f1.2, b1, d));
    assert(g2.len() == b2 + n);
    assert forall|q: int| 0 <= q < n implies #[trigger] g2.ops[b2 + q] == g2.ops[b1 + q] by {
        assert(g2.ops[b1 + q] == g1.ops[b1 + q]);
        assert(g1.ops[b1 + q] == f1.0[q]);
        assert(g2.ops[b2 + q] == f2.0[q]);
    }
    assert forall|q: int| 0 <= q < n implies #[trigger] g2.prev[b2 + q] == shift_prev(g2.prev, b1, d)[b1
        + q] by {
        assert(g2.prev[b1 + q] == g1.prev[b1 + q]);
        assert(g1.prev[b1 + q] == f1.1[q]);
        assert(g2.prev[b2 + q] == f2.1[q]);
        assert(shift_prev(g2.prev, b1, d)[b1 + q] =~= shift_prev(f1.1, b1, d)[q]);
    }
    lemma_evaluated_kept(g1, g2, b1, eval);
    assert forall|q: int| 0 <= q < n implies #[trigger] g2.evaluated_by(b1 + q, eval) by {}
    assert forall|q: int| 0 <= q < n implies #[trigger] g2.evaluated_by(b2 + q, eval) by {}
    assert forall|j: int| #![trigger f1.2[j]] 0 <= j < f1.2.len() implies g2.data[f2.2[j].id as int]
        == g2.data[f1.2[j].id as int] by {
        let u = f1.2[j].id;
        assert(g1.has(f1.2[j]));
        assert(f2.2[j].id == shift_id(u, b1, d));
        if u >= b1 {
            lemma_replay(g2, b1, b2, n, eval, u - b1);
        }
    }
}

proof fn lemma_layer_lens<T>(ns: Seq<NeuronView>, x: Seq<Value>, base: int)
    ensures
        layer_ops::<T>(ns, x.len()).len() == layer_prev(ns, x, base).len(),
    decreases ns.len(),
{
    if ns.len() > 0 {
        let pre = ns.drop_last();
        lemma_layer_lens::<T>(pre, x, base);
        lemma_neuron_lens::<T>(ns.last(), x, base + layer_prev(pre, x, base).len());
    }
}

proof fn lemma_neuron_lens<T>(n: NeuronView, x: Seq<Value>, base: int)
    ensures
        n.forward_ops::<T>(x.len()).len() == n.forward_len(x.len()),
        n.forward_prev(x, base).len() == n.forward_len(x.len()),
{
}

/// Where the nodes of neuron `j` stand among the nodes of a layer's forward
/// pass: at offset `layer_prev(ns.take(j), x, base).len()`, with the
/// operations, inputs and output of that neuron's own forward pass from there.
proof fn lemma_layer_slice<T>(ns: Seq<NeuronView>, x: Seq<Value>, base: int, j: int)
    requires
        0 <= j < ns.len(),
    ensures
        layer_ops::<T>(ns, x.len()).len() == layer_prev(ns, x, base).len(),
        layer_prev(ns.take(j), x, base).len() + ns[j].forward_len(x.len()) <= layer_prev(ns, x, base).len(),
        forall|q: int|
            0 <= q < ns[j].forward_len(x.len()) ==> #[trigger] layer_ops::<T>(ns, x.len())[layer_prev(
                ns.take(j),
                x,
                base,
            ).len() + q] == ns[j].forward_ops::<T>(x.len())[q],
        forall|q: int|
            0 <= q < ns[j].forward_len(x.len()) ==> #[trigger] layer_prev(ns, x, base)[layer_prev(
                ns.take(j),
                x,
                base,
            ).len() + q] == ns[j].forward_prev(x, base + layer_prev(ns.take(j), x, base).len())[q],
        layer_out(ns, x, base)[j] == ns[j].forward_out(
            x.len(),
            base + layer_prev(ns.take(j), x, base).len(),
        ),
    decreases ns.len(),
{
    let pre = ns.drop_last();
    let last = ns.last();
    lemma_neuron_lens::<T>(last, x, base + layer_prev(pre, x, base).len());
    lemma_layer_out_len(pre, x, base);
    lemma_layer_lens::<T>(pre, x, base);
    lemma_layer_lens::<T>(ns, x, base);
    if j == ns.len() - 1 {
        assert(ns.take(j) =~= pre);
        assert(last == ns[j]);
        let o = layer_prev(pre, x, base).len();
        assert(layer_ops::<T>(ns, x.len()) == layer_ops::<T>(pre, x.len()) + last.forward_ops::<T>(x.len()));
        assert(layer_prev(ns, x, base) == layer_prev(pre, x, base) + last.forward_prev(x, base + o));
        assert forall|q: int| 0 <= q < last.forward_len(x.len()) implies #[trigger] layer_ops::<T>(
            ns,
            x.len(),
        )[o + q] == last.forward_ops::<T>(x.len())[q] by {}
        assert forall|q: int| 0 <= q < last.forward_len(x.len()) implies #[trigger] layer_prev(ns, x, base)[o
            + q] == last.forward_prev(x, base + o)[q] by {}
    } else {
        lemma_layer_slice::<T>(pre, x, base, j);
        assert(pre.take(j) =~= ns.take(j));
        assert(pre[j] == ns[j]);
        let o = layer_prev(ns.take(j), x, base).len();
        let fl = ns[j].forward_len(x.len());
        assert forall|q: int| 0 <= q < fl implies #[trigger] layer_ops::<T>(ns, x.len())[o + q]
            == ns[j].forward_ops::<T>(x.len())[q] by {
            assert(layer_ops::<T>(ns, x.len())[o + q] == layer_ops::<T>(pre, x.len())[o + q]);
        }
        assert forall|q: int| 0 <= q < fl implies #[trigger] layer_prev(ns, x, base)[o + q]
            == ns[j].forward_prev(x, base + o)[q] by {
            assert(layer_prev(ns, x, base)[o + q] == layer_prev(pre, x, base)[o + q]);
        }
        assert(layer_out(ns, x, base)[j] == layer_out(pre, x, base)[j]);
    }
}

/// Each output of a layer's forward pass holds, with a deterministic
/// evaluator, the data of a separate forward pass of its neuron on the same
/// inputs run after it.
pub proof fn lemma_layer_output_matches_neuron<T, E: Fn(Op<T>, T, Option<T>) -> T>(
    ns: Seq<NeuronView>,
    x: Seq<Value>,
    j: int,
    g0: GraphView<T>,
    g1: GraphView<T>,
    g2: GraphView<T>,
    eval: E,
)
    requires
        g0.wf(),
        g1.wf(),
        g2.wf(),
        g2.len() <= usize::MAX,
        deterministic(eval),
        neurons_in(g0, ns),
        all_in(g0, x),
        appended(g0, g1, layer_ops::<T>(ns, x.len()), layer_prev(ns, x, g0.len() as int)),
        evaluated_from(g1, g0.len() as int, eval),
        0 <= j < ns.len(),
        appended(g1, g2, ns[j].forward_ops::<T>(x.len()), ns[j].forward_prev(x, g1.len() as int)),
        evaluated_from(g2, g1.len() as int, eval),
    ensures
        g2.data[ns[j].forward_out(x.len(), g1.len() as int).id as int] == g2.data[layer_out(
            ns,
            x,
            g0.len() as int,
        )[j].id as int],
{
    let b = g0.len() as int;
    let n = ns[j];
    lemma_layer_slice::<T>(ns, x, b, j);
    let o = layer_prev(ns.take(j), x, b).len() as int;
    let b1 = b + o;
    let b2 = g1.len() as int;
    let d = b2 - b1;
    let len = n.forward_len(x.len()) as int;
    lemma_neuron_lens::<T>(n, x, b2);
    lemma_neuron_lens::<T>(n, x, b1);
    assert(g1.len() == b + layer_prev(ns, x, b).len());
    assert(g2.len() == b2 + len);
    assert(all_in(g0, n.params()));
    assert forall|k: int| 0 <= k < n.params().len() implies (#[trigger] n.params()[k]).id < b1 by {
        assert(g0.has(n.params()[k]));
    }
    assert(shift_values(x, b1, d) =~= x) by {
        assert forall|k: int| 0 <= k < x.len() implies #[trigger] shift_values(x, b1, d)[k] == x[k] by {
            assert(g0.has(x[k]));
        }
    }
    lemma_neuron_shift(n, x, b1, b1, d);
    assert forall|q: int| 0 <= q < len implies #[trigger] g2.ops[b2 + q] == g2.ops[b1 + q] by {
        assert(g2.ops[b1 + q] == g1.ops[b1 + q]);
        assert(g1.ops[b1 + q] == layer_ops::<T>(ns, x.len())[o + q]);
    }
    assert forall|q: int| 0 <= q < len implies #[trigger] g2.prev[b2 + q] == shift_prev(g2.prev, b1, d)[b1
        + q] by {
        assert(g2.prev[b1 + q] == g1.prev[b1 + q]);
        assert(g1.prev[b1 + q] == layer_prev(ns, x, b)[o + q]);
        assert(g2.prev[b2 + q] == n.forward_prev(x, b2)[q]);
        assert(shift_prev(g2.prev, b1, d)[b1 + q] =~= shift_prev(n.forward_prev(x, b1), b1, d)[q]);
    }
    lemma_evaluated_kept(g1, g2, b, eval);
    assert forall|q: int| 0 <= q < len implies #[trigger] g2.evaluated_by(b1 + q, eval) by {}
    assert forall|q: int| 0 <= q < len implies #[trigger] g2.evaluated_by(b2 + q, eval) by {}
    let u = n.forward_out(x.len(), b1).id;
    assert(n.params()[n.w.len() as int] == n.b);
    if u >= b1 {
        assert(u < b1 + len);
        lemma_replay(g2, b1, b2, len, eval, u - b1);
    }
}


/// One step of running layers one after another: from `gs[i]`, layer `ls[i]`
/// read `os[i]`, appended its nodes, evaluated them with `eval` and gave
/// `os[i + 1]`, leaving `gs[i + 1]`.
pub open spec fn layer_step<T, E: Fn(Op<T>, T, Option<T>) -> T>(
    ls: Seq<Seq<NeuronView>>,
    gs: Seq<GraphView<T>>,
    os: Seq<Seq<Value>>,
    i: int,
    eval: E,
) -> bool {
    &&& gs[i + 1].wf()
    &&& appended(
        gs[i],
        gs[i + 1],
        layer_ops::<T>(ls[i], os[i].len()),
        layer_prev(ls[i], os[i], gs[i].len() as int),
    )
    &&& evaluated_from(gs[i + 1], gs[i].len() as int, eval)
    &&& os[i + 1] == layer_out(ls[i], os[i], gs[i].len() as int)
}

/// After the first `m` layer steps from `gs[0]`, the nodes appended and the
/// outputs are those of a forward pass of the first `m` layers.
proof fn lemma_layer_steps<T, E: Fn(Op<T>, T, Option<T>) -> T>(
    ls: Seq<Seq<NeuronView>>,
    x: Seq<Value>,
    gs: Seq<GraphView<T>>,
    os: Seq<Seq<Value>>,
    eval: E,
    m: int,
)
    requires
        gs.len() == ls.len() + 1,
        os.len() == ls.len() + 1,
        gs[0].wf(),
        os[0] == x,
        forall|i: int| 0 <= i < ls.len() ==> #[trigger] layer_step(ls, gs, os, i, eval),
        0 <= m <= ls.len(),
    ensures
        gs[m].wf(),
        appended(
            gs[0],
            gs[m],
            mlp_forward::<T>(ls.take(m), x, gs[0].len() as int).0,
            mlp_forward::<T>(ls.take(m), x, gs[0].len() as int).1,
        ),
        evaluated_from(gs[m], gs[0].len() as int, eval),
        os[m] == mlp_forward::<T>(ls.take(m), x, gs[0].len() as int).2,
    decreases m,
{
    let b = gs[0].len() as int;
    if m == 0 {
        assert(ls.take(0) =~= Seq::<Seq<NeuronView>>::empty());
        assert(gs[0].ops =~= gs[0].ops + Seq::<Op<T>>::empty());
        assert(gs[0].prev =~= gs[0].prev + Seq::<Seq<usize>>::empty());
    } else {
        let i = m - 1;
        lemma_layer_steps(ls, x, gs, os, eval, i);
        let t = ls.take(m);
        assert(t.drop_last() =~= ls.take(i));
        assert(t.last() == ls[i]);
        let r = mlp_forward::<T>(ls.take(i), x, b);
        assert(layer_step(ls, gs, os, i, eval));
        assert(gs[i].len() == b + r.1.len());
        lemma_appended_trans(
            gs[0],
            gs[i],
            gs[m],
            r.0,
            r.1,
            layer_ops::<T>(ls[i], os[i].len()),
            layer_prev(ls[i], os[i], gs[i].len() as int),
        );
        lemma_evaluated_kept(gs[i], gs[m], b, eval);
        assert forall|q: int| b <= q < gs[m].len() implies #[trigger] gs[m].evaluated_by(q, eval) by {
            if q >= gs[i].len() {
                assert(evaluated_from(gs[m], gs[i].len() as int, eval));
            }
        }
    }
}

/// Running the layers of a perceptron one after another, the first on `x` and
/// each other on the outputs of the one before, after a forward pass of the
/// perceptron on `x` and with a deterministic evaluator, gives outputs that
/// hold, one for one, the data of the perceptron's outputs.
pub proof fn lemma_forward_matches_layers<T, E: Fn(Op<T>, T, Option<T>) -> T>(
    ls: Seq<Seq<NeuronView>>,
    x: Seq<Value>,
    g0: GraphView<T>,
    gs: Seq<GraphView<T>>,
    os: Seq<Seq<Value>>,
    eval: E,
)
    requires
        g0.wf(),
        gs.len() == ls.len() + 1,
        os.len() == ls.len() + 1,
        gs[0].wf(),
        deterministic(eval),
        all_in(g0, mlp_params(ls)),
        all_in(g0, x),
        appended(
            g0,
            gs[0],
            mlp_forward::<T>(ls, x, g0.len() as int).0,
            mlp_forward::<T>(ls, x, g0.len() as int).1,
        ),
        evaluated_from(gs[0], g0.len() as int, eval),
        all_in(gs[0], mlp_forward::<T>(ls, x, g0.len() as int).2),
        os[0] == x,
        forall|i: int| 0 <= i < ls.len() ==> #[trigger] layer_step(ls, gs, os, i, eval),
        gs.last().len() <= usize::MAX,
    ensures
        os.last().len() == mlp_forward::<T>(ls, x, g0.len() as int).2.len(),
        forall|j: int|
            #![trigger os.last()[j]]
            0 <= j < os.last().len() ==> gs.last().data[os.last()[j].id as int] == gs.last().data[mlp_forward::<
                T,
            >(ls, x, g0.len() as int).2[j].id as int],
{
    let k = ls.len() as int;
    lemma_layer_steps(ls, x, gs, os, eval, k);
    assert(ls.take(k) =~= ls);
    assert(gs.last() == gs[k]);
    assert(os.last() == os[k]);
    lemma_forward_deterministic(ls, x, g0, gs[0], gs[k], eval);
}

} // verus!
