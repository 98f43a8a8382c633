use vstd::prelude::*;

use crate::graph::{Graph, NodeRef};
use crate::model::{
    apply_op, args_of, depends_on, depends_via, lemma_args_ok, lemma_same_inputs_value, lemma_value_of_shared_pair, lemma_value_frame,
    same_inputs, value_of, with_input, GraphError,
};
use crate::operations::Operation;

verus! {

/// A second read of a node, with no write in between, gives what the first gave and
/// changes nothing: no operation runs again and no cache changes.
pub proof fn lemma_memoization<V: Copy, O: Operation<V>>(
    g0: Graph<V, O>,
    node: NodeRef,
    r1: Result<V, GraphError>,
    g1: Graph<V, O>,
    r2: Result<V, GraphError>,
    g2: Graph<V, O>,
)
    requires
        g0.wf(),
        g0.contains(node),
        g0.computes(node, r1, g1),
        g1.computes(node, r2, g2),
        r1.is_ok(),
    ensures
        r2 == r1,
        g2 == g1,
{
    lemma_same_inputs_value(g0@, g1@);
}

/// After an input is written, a read of any node gives its value over the new inputs:
/// no stale cache is returned.
pub proof fn lemma_invalidation_complete<V: Copy, O: Operation<V>>(
    g0: Graph<V, O>,
    x: NodeRef,
    v: V,
    g1: Graph<V, O>,
    node: NodeRef,
    r: Result<V, GraphError>,
    g2: Graph<V, O>,
)
    requires
        g0.wf(),
        g0.contains(x),
        g0.contains(node),
        g0.sets(x, v, Ok(()), g1),
        g1.computes(node, r, g2),
    ensures
        r == value_of(with_input(g0@, x.id as int, v), node.id as int),
{
    let w = with_input(g0@, x.id as int, v);
    assert forall|m: int| 0 <= m < g1@.len() && (#[trigger] g1@[m]).op.is_none() implies g1@[m].data == w[m].data by {
        if m != x.id && depends_on(g0@, m, x.id as int) {
            assert(!depends_via(g0@, m, x.id as int, 0));
        }
    }
    assert(same_inputs(g1@, w));
    lemma_same_inputs_value(g1@, w);
}

/// Writing an input that a node does not depend on leaves the node's cache and its value
/// as they were.
pub proof fn lemma_invalidation_minimal<V: Copy, O: Operation<V>>(
    g0: Graph<V, O>,
    x: NodeRef,
    v: V,
    g1: Graph<V, O>,
    node: NodeRef,
)
    requires
        g0.wf(),
        g0.contains(x),
        g0.contains(node),
        g0.sets(x, v, Ok(()), g1),
        !depends_on(g0@, node.id as int, x.id as int),
    ensures
        g1@[node.id as int].data == g0@[node.id as int].data,
        value_of(g1@, node.id as int) == value_of(g0@, node.id as int),
{
    let n = node.id as int;
    assert(g1@[n].data == g0@[n].data);
    assert forall|p: int| 0 <= p < g0@.len() && #[trigger] depends_on(g0@, n, p) implies p < g1@.len()
        && g0@[p].deps == g1@[p].deps && g0@[p].op == g1@[p].op && (g0@[p].op.is_none() ==> g0@[p].data
        == g1@[p].data) by {
        if p != x.id && g0@[p].op.is_none() && depends_on(g0@, p, x.id as int) {
            assert(!depends_via(g0@, p, x.id as int, 0));
        }
    }
    lemma_value_frame(g0@, g1@, n);
}

/// One input used as two arguments of a node is one value: after a write, both arguments
/// see the written value.
pub proof fn lemma_shared_input<V: Copy, O: Operation<V>>(
    g0: Graph<V, O>,
    x: NodeRef,
    v: V,
    g1: Graph<V, O>,
    node: NodeRef,
    i: int,
    j: int,
)
    requires
        g0.wf(),
        g0.contains(x),
        g0.contains(node),
        g0.sets(x, v, Ok(()), g1),
        0 <= i < g0@[node.id as int].deps.len(),
        0 <= j < g0@[node.id as int].deps.len(),
        g0@[node.id as int].deps[i] == x.id,
        g0@[node.id as int].deps[j] == x.id,
        args_of(g1@, node.id as int, g1@[node.id as int].deps.len() as int).is_ok(),
    ensures
        ({
            let args = args_of(g1@, node.id as int, g1@[node.id as int].deps.len() as int).unwrap();
            args[i] == v && args[j] == v
        }),
{
    let n = node.id as int;
    assert(g1@[n].deps == g0@[n].deps);
    lemma_args_ok(g1@, n, g1@[n].deps.len() as int);
    assert(g1@[n].deps[i] == x.id);
    assert(g1@[n].deps[j] == x.id);
    assert(g1@[x.id as int].data == Some(v));
}

/// A node whose two arguments are one input reads, after one write of `w` to that input,
/// its operation applied to `w` twice.
pub proof fn lemma_shared_input_read<V: Copy, O: Operation<V>>(
    g0: Graph<V, O>,
    x: NodeRef,
    w: V,
    g1: Graph<V, O>,
    node: NodeRef,
    r: Result<V, GraphError>,
    g2: Graph<V, O>,
)
    requires
        g0.wf(),
        g0.contains(x),
        g0.contains(node),
        g0@[node.id as int].deps == seq![x.id, x.id],
        g0@[node.id as int].op.is_some(),
        g0.sets(x, w, Ok(()), g1),
        g1.computes(node, r, g2),
    ensures
        r == apply_op(g0@[node.id as int].op.unwrap(), seq![w, w]),
{
    let n = node.id as int;
    let xi = x.id as int;
    assert(g1@[n].deps == g0@[n].deps && g1@[n].op == g0@[n].op);
    assert(g1@[n].deps[0] == x.id);
    assert(g1@[xi].data == Some(w));
    lemma_value_of_shared_pair(g1@, n, x.id, w);
}

} // verus!
