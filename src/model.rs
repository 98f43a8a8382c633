use vstd::prelude::*;

use crate::operations::Operation;

verus! {

/// What reading or writing a graph can fail with.
#[derive(Clone, Copy, Debug, PartialEq, Eq, Structural)]
pub enum GraphError {
    /// A computation reached an input node whose value was never set.
    UninitializedInput,
    /// An operation was given fewer arguments than it needs.
    ArityError,
    /// A value was written to a computed node.
    InvalidMutationTarget,
    /// The exact result of an operation is not a value of the scalar type: it overflows, or
    /// it is not an integer (a negative power).
    Unrepresentable,
}

/// The mathematical view of one node of a graph.
pub struct NodeView<V, O> {
    /// The cached value of a computed node, or the current value of an input node.
    pub data: Option<V>,
    /// The positions of the nodes whose values are the operation's arguments, in order.
    pub deps: Seq<usize>,
    /// The operation; `None` marks an input node.
    pub op: Option<O>,
    /// The positions of the nodes that list this node among their `deps`.
    pub dependents: Seq<usize>,
}

/// The result of running `op` on `args`: an arity error below the operation's arity,
/// otherwise what the operation gives.
pub open spec fn apply_op<V, O: Operation<V>>(op: O, args: Seq<V>) -> Result<V, GraphError> {
    if args.len() < op.min_arity() {
        Err(GraphError::ArityError)
    } else {
        op.apply(args)
    }
}

/// The value of node `n`, from the values of the inputs alone: caches play no part.
/// An input gives its value, or an error if it has none; a computed node applies its
/// operation to the values of its dependencies, and fails with the first error among them.
pub open spec fn value_of<V, O: Operation<V>>(g: Seq<NodeView<V, O>>, n: int) -> Result<V, GraphError>
    decreases n, g[n].deps.len() + 1,
{
    if 0 <= n < g.len() {
        match g[n].op {
            None => match g[n].data {
                Some(v) => Ok(v),
                None => Err(GraphError::UninitializedInput),
            },
            Some(op) => match args_of(g, n, g[n].deps.len() as int) {
                Ok(args) => apply_op(op, args),
                Err(e) => Err(e),
            },
        }
    } else {
        Err(GraphError::UninitializedInput)
    }
}

/// The values of the first `k` dependencies of node `n`, in order, or the first error
/// among them.
pub open spec fn args_of<V, O: Operation<V>>(g: Seq<NodeView<V, O>>, n: int, k: int) -> Result<Seq<V>, GraphError>
    decreases n, k,
{
    if 0 <= n && 0 < k <= g[n].deps.len() {
        match args_of(g, n, k - 1) {
            Err(e) => Err(e),
            Ok(s) => {
                let d = g[n].deps[k - 1] as int;
                if d < n {
                    match value_of(g, d) {
                        Ok(v) => Ok(s.push(v)),
                        Err(e) => Err(e),
                    }
                } else {
                    Err(GraphError::ArityError)
                }
            },
        }
    } else {
        Ok(Seq::empty())
    }
}

/// Node `n` depends on node `x`: it is `x`, or one of its dependencies depends on `x`.
pub open spec fn depends_on<V, O>(g: Seq<NodeView<V, O>>, n: int, x: int) -> bool
    decreases n, g[n].deps.len() + 1,
{
    n == x || (0 <= n && depends_via(g, n, x, g[n].deps.len() as int))
}

/// One of the first `k` dependencies of node `n` depends on node `x`.
pub open spec fn depends_via<V, O>(g: Seq<NodeView<V, O>>, n: int, x: int, k: int) -> bool
    decreases n, k,
{
    if 0 <= n && 0 < k <= g[n].deps.len() {
        depends_via(g, n, x, k - 1) || {
            let d = g[n].deps[k - 1] as int;
            d < n && depends_on(g, d, x)
        }
    } else {
        false
    }
}

/// The links between nodes are consistent: every dependency comes before the node that
/// reads it and lists that node among its dependents; every dependent comes after the node
/// and reads it; input nodes read nothing.
pub open spec fn links_wf<V, O>(g: Seq<NodeView<V, O>>) -> bool {
    &&& forall|n: int, k: int|
        0 <= n < g.len() && 0 <= k < g[n].deps.len() ==> {
            let d = #[trigger] g[n].deps[k] as int;
            d < n && g[d].dependents.contains(n as usize)
        }
    &&& forall|n: int, k: int|
        0 <= n < g.len() && 0 <= k < g[n].dependents.len() ==> {
            let e = #[trigger] g[n].dependents[k] as int;
            n < e < g.len() && g[e].deps.contains(n as usize)
        }
    &&& forall|n: int| 0 <= n < g.len() && (#[trigger] g[n].op).is_none() ==> g[n].deps.len() == 0
}

/// Every cache of a computed node holds the node's value.
pub open spec fn caches_wf<V, O: Operation<V>>(g: Seq<NodeView<V, O>>) -> bool {
    forall|n: int|
        0 <= n < g.len() && g[n].op.is_some() && (#[trigger] g[n].data).is_some()
            ==> value_of(g, n) == Ok::<V, GraphError>(g[n].data.unwrap())
}

/// Every dependency of a cached computed node holds a value: a cache is filled only after
/// those it was computed from.
pub open spec fn fills_wf<V, O>(g: Seq<NodeView<V, O>>) -> bool {
    forall|n: int, k: int|
        0 <= n < g.len() && g[n].op.is_some() && g[n].data.is_some() && 0 <= k < g[n].deps.len()
            ==> g[#[trigger] g[n].deps[k] as int].data.is_some()
}

/// A graph is well formed: its links are consistent, its caches hold their nodes' values,
/// and a cached node's dependencies hold values.
pub open spec fn graph_wf<V, O: Operation<V>>(g: Seq<NodeView<V, O>>) -> bool {
    links_wf(g) && caches_wf(g) && fills_wf(g)
}

/// Writing input `x` and clearing the caches of exactly the nodes that depend on it keeps a
/// graph well formed.
pub proof fn lemma_write_wf<V, O: Operation<V>>(g0: Seq<NodeView<V, O>>, g2: Seq<NodeView<V, O>>, x: int, v: V)
    requires
        graph_wf(g0),
        0 <= x < g0.len(),
        g0[x].op.is_none(),
        same_shape(g0, g2),
        forall|m: int| 0 <= m < g0.len() ==> #[trigger] g2[m].data == (if m == x {
            Some(v)
        } else if depends_on(g0, m, x) {
            None
        } else {
            g0[m].data
        }),
    ensures
        graph_wf(g2),
{
    lemma_same_shape_links(g0, g2);
    assert forall|m: int| 0 <= m < g2.len() && g2[m].op.is_some() && (#[trigger] g2[m].data).is_some()
        implies value_of(g2, m) == Ok::<V, GraphError>(g2[m].data.unwrap()) by {
        assert(g0[m].op == g2[m].op);
        assert(!depends_on(g0, m, x));
        assert forall|p: int| 0 <= p < g0.len() && #[trigger] depends_on(g0, m, p) implies p < g2.len()
            && g0[p].deps == g2[p].deps && g0[p].op == g2[p].op && (g0[p].op.is_none() ==> g0[p].data
            == g2[p].data) by {
            assert(g0[p].deps == g2[p].deps);
            if p != x && g0[p].op.is_none() && depends_on(g0, p, x) {
                assert(!depends_via(g0, p, x, 0));
            }
            if p == x {
                assert(depends_on(g0, m, x));
            }
        }
        lemma_value_frame(g0, g2, m);
    }
    assert forall|n: int, k: int|
        0 <= n < g2.len() && g2[n].op.is_some() && g2[n].data.is_some() && 0 <= k < g2[n].deps.len()
        implies g2[#[trigger] g2[n].deps[k] as int].data.is_some() by {
        assert(g0[n].deps == g2[n].deps && g0[n].op == g2[n].op);
        let d = g0[n].deps[k] as int;
        assert(d < n);
        assert(!depends_on(g0, n, x));
        if depends_on(g0, d, x) {
            lemma_depends_step(g0, n, k, x);
        }
        assert(depends_on(g0, d, d));
    }
}

/// A node that reads one input twice applies its operation to that input's value twice.
pub proof fn lemma_value_of_shared_pair<V, O: Operation<V>>(g: Seq<NodeView<V, O>>, n: int, x: usize, w: V)
    requires
        links_wf(g),
        0 <= n < g.len(),
        g[n].deps == seq![x, x],
        g[n].op.is_some(),
        g[x as int].op.is_none(),
        g[x as int].data == Some(w),
    ensures
        value_of(g, n) == apply_op(g[n].op.unwrap(), seq![w, w]),
{
    assert(g[n].deps[0] == x && g[n].deps[1] == x);
    assert(x < n);
    assert(value_of(g, x as int) == Ok::<V, GraphError>(w));
    assert(args_of(g, n, 0) == Ok::<Seq<V>, GraphError>(Seq::empty()));
    assert(args_of(g, n, 1) == Ok::<Seq<V>, GraphError>(seq![w]));
    assert(seq![w].push(w) =~= seq![w, w]);
    assert(args_of(g, n, 2) == Ok::<Seq<V>, GraphError>(seq![w, w]));
}

/// Every node that a cached node depends on holds a value.
pub proof fn lemma_cached_reach<V, O>(g: Seq<NodeView<V, O>>, n: int, m: int)
    requires
        links_wf(g),
        fills_wf(g),
        0 <= n < g.len(),
        g[n].data.is_some(),
        depends_on(g, n, m),
    ensures
        g[m].data.is_some(),
    decreases n,
{
    if m != n {
        let i = lemma_depends_via_witness(g, n, m, g[n].deps.len() as int);
        let d = g[n].deps[i] as int;
        assert(g[n].op.is_some());
        assert(g[d].data.is_some());
        lemma_cached_reach(g, d, m);
    }
}

/// The two graphs have the same nodes, links and operations; only values may differ.
pub open spec fn same_shape<V, O>(a: Seq<NodeView<V, O>>, b: Seq<NodeView<V, O>>) -> bool {
    &&& a.len() == b.len()
    &&& forall|n: int|
        0 <= n < a.len() ==> (#[trigger] a[n]).deps == b[n].deps && a[n].op == b[n].op
            && a[n].dependents == b[n].dependents
}

/// The two graphs have the same shape and the same input values; only caches may differ.
pub open spec fn same_inputs<V, O>(a: Seq<NodeView<V, O>>, b: Seq<NodeView<V, O>>) -> bool {
    &&& same_shape(a, b)
    &&& forall|n: int| 0 <= n < a.len() && (#[trigger] a[n]).op.is_none() ==> a[n].data == b[n].data
}

/// The back links that node `m` gains when a node `r` reading `ids` is added: `r` once for
/// each time `m` occurs in `ids`.
pub open spec fn back_links(ids: Seq<usize>, m: int, r: usize) -> Seq<usize>
    decreases ids.len(),
{
    if ids.len() == 0 {
        Seq::empty()
    } else {
        back_links(ids.drop_last(), m, r) + (if ids.last() == m {
            seq![r]
        } else {
            Seq::empty()
        })
    }
}

/// Graph `g` with input `x` set to `v`.
pub open spec fn with_input<V, O>(g: Seq<NodeView<V, O>>, x: int, v: V) -> Seq<NodeView<V, O>> {
    g.update(x, NodeView { data: Some(v), deps: g[x].deps, op: g[x].op, dependents: g[x].dependents })
}

/// Nodes `n` of `a` and of `b` agree on everything that the value of `n` reads: the links
/// and operations of the nodes that it depends on, and the values of those that are inputs.
pub open spec fn agree_below<V, O>(a: Seq<NodeView<V, O>>, b: Seq<NodeView<V, O>>, n: int) -> bool {
    forall|m: int|
        0 <= m < a.len() && #[trigger] depends_on(a, n, m) ==> m < b.len() && a[m].deps == b[m].deps
            && a[m].op == b[m].op && (a[m].op.is_none() ==> a[m].data == b[m].data)
}

pub proof fn lemma_depends_via_mono<V, O>(g: Seq<NodeView<V, O>>, n: int, x: int, k: int, j: int)
    requires
        0 <= n,
        0 <= k <= j <= g[n].deps.len(),
        depends_via(g, n, x, k),
    ensures
        depends_via(g, n, x, j),
    decreases j - k,
{
    if k < j {
        lemma_depends_via_mono(g, n, x, k, j - 1);
    }
}

/// A dependency of `n` that depends on `x` makes `n` depend on `x`.
pub proof fn lemma_depends_step<V, O>(g: Seq<NodeView<V, O>>, n: int, i: int, x: int)
    requires
        0 <= n,
        0 <= i < g[n].deps.len(),
        g[n].deps[i] < n,
        depends_on(g, g[n].deps[i] as int, x),
    ensures
        depends_on(g, n, x),
{
    assert(depends_via(g, n, x, i + 1));
    lemma_depends_via_mono(g, n, x, i + 1, g[n].deps.len() as int);
}

/// Where `n` depends on `x` through its first `k` dependencies, one of them depends on `x`.
pub proof fn lemma_depends_via_witness<V, O>(g: Seq<NodeView<V, O>>, n: int, x: int, k: int) -> (i: int)
    requires
        0 <= n,
        0 <= k <= g[n].deps.len(),
        depends_via(g, n, x, k),
    ensures
        0 <= i < k,
        g[n].deps[i] < n,
        depends_on(g, g[n].deps[i] as int, x),
    decreases k,
{
    if depends_via(g, n, x, k - 1) {
        lemma_depends_via_witness(g, n, x, k - 1)
    } else {
        k - 1
    }
}

/// A node depends only on nodes at or before it.
pub proof fn lemma_depends_before<V, O>(g: Seq<NodeView<V, O>>, n: int, x: int)
    requires
        0 <= n,
        depends_on(g, n, x),
    ensures
        x <= n,
    decreases n,
{
    if n != x {
        let i = lemma_depends_via_witness(g, n, x, g[n].deps.len() as int);
        lemma_depends_before(g, g[n].deps[i] as int, x);
    }
}

/// The value of a node reads only what `agree_below` compares.
pub proof fn lemma_value_frame<V, O: Operation<V>>(a: Seq<NodeView<V, O>>, b: Seq<NodeView<V, O>>, n: int)
    requires
        links_wf(a),
        0 <= n < a.len(),
        agree_below(a, b, n),
    ensures
        value_of(a, n) == value_of(b, n),
    decreases n, a[n].deps.len() + 1,
{
    assert(depends_on(a, n, n));
    if a[n].op.is_some() {
        lemma_args_frame(a, b, n, a[n].deps.len() as int);
    }
}

pub proof fn lemma_args_frame<V, O: Operation<V>>(a: Seq<NodeView<V, O>>, b: Seq<NodeView<V, O>>, n: int, k: int)
    requires
        links_wf(a),
        0 <= n < a.len(),
        0 <= k <= a[n].deps.len(),
        agree_below(a, b, n),
    ensures
        args_of(a, n, k) == args_of(b, n, k),
    decreases n, k,
{
    assert(depends_on(a, n, n));
    if k > 0 {
        lemma_args_frame(a, b, n, k - 1);
        let d = a[n].deps[k - 1] as int;
        assert forall|m: int| 0 <= m < a.len() && #[trigger] depends_on(a, d, m) implies depends_on(a, n, m) by {
            lemma_depends_step(a, n, k - 1, m);
        }
        lemma_value_frame(a, b, d);
    }
}

/// Once the arguments of a node fail, more of them fail in the same way.
pub proof fn lemma_args_err<V, O: Operation<V>>(g: Seq<NodeView<V, O>>, n: int, k: int, j: int)
    requires
        0 <= n,
        0 <= k <= j <= g[n].deps.len(),
        args_of(g, n, k).is_err(),
    ensures
        args_of(g, n, j) == args_of(g, n, k),
    decreases j - k,
{
    if k < j {
        lemma_args_err(g, n, k, j - 1);
    }
}

/// The arguments of a node, where none fails, are the values of its dependencies.
pub proof fn lemma_args_ok<V, O: Operation<V>>(g: Seq<NodeView<V, O>>, n: int, k: int)
    requires
        links_wf(g),
        0 <= n < g.len(),
        0 <= k <= g[n].deps.len(),
        args_of(g, n, k).is_ok(),
    ensures
        args_of(g, n, k).unwrap().len() == k,
        forall|i: int|
            0 <= i < k ==> value_of(g, #[trigger] g[n].deps[i] as int) == Ok::<V, GraphError>(
                args_of(g, n, k).unwrap()[i],
            ),
    decreases k,
{
    if k > 0 {
        assert(g[n].deps[k - 1] < n);
        lemma_args_ok(g, n, k - 1);
    }
}

/// Whether the links are consistent depends on the links alone.
pub proof fn lemma_same_shape_links<V, O>(a: Seq<NodeView<V, O>>, b: Seq<NodeView<V, O>>)
    requires
        same_shape(a, b),
        links_wf(a),
    ensures
        links_wf(b),
{
    assert forall|n: int, k: int| 0 <= n < b.len() && 0 <= k < b[n].deps.len() implies {
        let d = #[trigger] b[n].deps[k] as int;
        d < n && b[d].dependents.contains(n as usize)
    } by {
        assert(a[n].deps == b[n].deps);
        let d = a[n].deps[k] as int;
        assert(a[d].dependents == b[d].dependents);
    }
    assert forall|n: int, k: int| 0 <= n < b.len() && 0 <= k < b[n].dependents.len() implies {
        let e = #[trigger] b[n].dependents[k] as int;
        n < e < b.len() && b[e].deps.contains(n as usize)
    } by {
        assert(a[n].dependents == b[n].dependents);
        let e = a[n].dependents[k] as int;
        assert(a[e].deps == b[e].deps);
    }
    assert forall|n: int| 0 <= n < b.len() && (#[trigger] b[n].op).is_none() implies b[n].deps.len() == 0 by {
        assert(a[n].deps == b[n].deps);
    }
}

/// Which nodes depend on which is fixed by the links alone.
pub proof fn lemma_same_deps_depends<V, O>(a: Seq<NodeView<V, O>>, b: Seq<NodeView<V, O>>)
    requires
        same_shape(a, b),
    ensures
        forall|n: int, x: int| 0 <= n < a.len() ==> #[trigger] depends_on(a, n, x) == depends_on(b, n, x),
{
    assert forall|n: int, x: int| 0 <= n < a.len() implies #[trigger] depends_on(a, n, x) == depends_on(b, n, x) by {
        lemma_same_deps_depends_at(a, b, n, x);
    }
}

proof fn lemma_same_deps_depends_at<V, O>(a: Seq<NodeView<V, O>>, b: Seq<NodeView<V, O>>, n: int, x: int)
    requires
        same_shape(a, b),
        0 <= n < a.len(),
    ensures
        depends_on(a, n, x) == depends_on(b, n, x),
    decreases n, a[n].deps.len() + 1,
{
    assert(a[n].deps == b[n].deps);
    lemma_same_deps_via_at(a, b, n, x, a[n].deps.len() as int);
}

proof fn lemma_same_deps_via_at<V, O>(a: Seq<NodeView<V, O>>, b: Seq<NodeView<V, O>>, n: int, x: int, k: int)
    requires
        same_shape(a, b),
        0 <= n < a.len(),
        0 <= k <= a[n].deps.len(),
    ensures
        depends_via(a, n, x, k) == depends_via(b, n, x, k),
    decreases n, k,
{
    assert(a[n].deps == b[n].deps);
    if k > 0 {
        lemma_same_deps_via_at(a, b, n, x, k - 1);
        let d = a[n].deps[k - 1] as int;
        if d < n {
            lemma_same_deps_depends_at(a, b, d, x);
        }
    }
}

/// Graphs with the same shape and inputs give every node the same value.
pub proof fn lemma_same_inputs_value<V, O: Operation<V>>(a: Seq<NodeView<V, O>>, b: Seq<NodeView<V, O>>)
    requires
        links_wf(a),
        same_inputs(a, b),
    ensures
        forall|n: int| 0 <= n < a.len() ==> #[trigger] value_of(a, n) == value_of(b, n),
{
    assert forall|n: int| 0 <= n < a.len() implies #[trigger] value_of(a, n) == value_of(b, n) by {
        assert forall|m: int| 0 <= m < a.len() && #[trigger] depends_on(a, n, m) implies m < b.len()
            && a[m].deps == b[m].deps && a[m].op == b[m].op && (a[m].op.is_none() ==> a[m].data
            == b[m].data) by {
            assert(a[m] == a[m]);
        }
        lemma_value_frame(a, b, n);
    }
}

} // verus!
