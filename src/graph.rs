use vstd::prelude::*;

use crate::model::{
    args_of, depends_on, depends_via, graph_wf, lemma_args_err, lemma_depends_before,
    lemma_depends_step, lemma_depends_via_witness, lemma_same_deps_depends, lemma_same_inputs_value,
    lemma_same_shape_links, lemma_value_frame, links_wf, same_inputs, same_shape, value_of, back_links, fills_wf, lemma_cached_reach, lemma_write_wf, GraphError,
    NodeView,
};
use crate::operations::Operation;

verus! {

/// A handle on a node: its position in the graph that made it.
#[derive(Clone, Copy, Debug, PartialEq, Eq, Structural)]
pub struct NodeRef {
    pub id: usize,
}

struct Node<V, O> {
    data: Option<V>,
    nodes_to_compute: Vec<usize>,
    operation: Option<O>,
    nodes_depend_on_us: Vec<usize>,
}

impl<V, O> Node<V, O> {
    closed spec fn view(&self) -> NodeView<V, O> {
        NodeView {
            data: self.data,
            deps: self.nodes_to_compute@,
            op: self.operation,
            dependents: self.nodes_depend_on_us@,
        }
    }
}

/// An arena of nodes; a node's position is its identity, and links between nodes are
/// positions, so that the backward links own nothing.
pub struct Graph<V, O> {
    nodes: Vec<Node<V, O>>,
}

impl<V, O> View for Graph<V, O> {
    type V = Seq<NodeView<V, O>>;

    closed spec fn view(&self) -> Seq<NodeView<V, O>> {
        self.nodes@.map_values(|n: Node<V, O>| n.view())
    }
}

impl<V: Copy, O: Operation<V>> Graph<V, O> {
    /// The graph's links are consistent and every cache holds its node's value.
    pub open spec fn wf(&self) -> bool {
        graph_wf(self@)
    }

    /// `node` is a node of this graph.
    pub open spec fn contains(&self, node: NodeRef) -> bool {
        node.id < self@.len()
    }

    /// What a read of `node` does, from `self` to `next`, giving `r`: it gives the node's
    /// value; it changes no input, link or operation and empties no cache; after a read that
    /// succeeded the node's cache holds the value and every node that it depends on holds a
    /// value; nodes that it does not depend on are left as they were; and a read of a cached
    /// node changes nothing at all.
    pub open spec fn computes(&self, node: NodeRef, r: Result<V, GraphError>, next: Self) -> bool {
        &&& next.wf()
        &&& r == value_of(self@, node.id as int)
        &&& same_inputs(self@, next@)
        &&& forall|m: int|
            0 <= m < self@.len() && (#[trigger] self@[m].data).is_some() ==> next@[m].data
                == self@[m].data
        &&& r.is_ok() ==> next@[node.id as int].data == Some(r.unwrap())
        &&& r.is_ok() ==> forall|m: int|
            0 <= m < self@.len() && #[trigger] depends_on(self@, node.id as int, m) ==> next@[m].data.is_some()
        &&& forall|m: int|
            0 <= m < self@.len() && !depends_on(self@, node.id as int, m) ==> #[trigger] next@[m] == self@[m]
        &&& self@[node.id as int].data.is_some() ==> next == *self
    }

    /// What a write of `value` to `node` does, from `self` to `next`, giving `r`. A computed
    /// node is refused and nothing changes. An input takes the value; every node that depends
    /// on it loses its cache; every other node keeps what it held.
    pub open spec fn sets(&self, node: NodeRef, value: V, r: Result<(), GraphError>, next: Self) -> bool {
        let x = node.id as int;
        if self@[x].op.is_some() {
            r == Err::<(), GraphError>(GraphError::InvalidMutationTarget) && next == *self
        } else {
            &&& r == Ok::<(), GraphError>(())
            &&& next.wf()
            &&& same_shape(self@, next@)
            &&& forall|m: int|
                0 <= m < self@.len() ==> #[trigger] next@[m].data == (if m == x {
                    Some(value)
                } else if depends_on(self@, m, x) {
                    None
                } else {
                    self@[m].data
                })
        }
    }

    /// `next` is `self` with `node` appended as `r`, and a back link to it in each of its
    /// dependencies; nothing else changes.
    pub open spec fn extends(&self, node: NodeView<V, O>, r: NodeRef, next: Self) -> bool {
        &&& next.wf()
        &&& r.id == self@.len()
        &&& next@.len() == self@.len() + 1
        &&& next@[r.id as int] == node
        &&& forall|m: int|
            0 <= m < self@.len() ==> (#[trigger] next@[m]).data == self@[m].data && next@[m].deps == self@[m].deps
                && next@[m].op == self@[m].op
        &&& forall|m: int|
            0 <= m < self@.len() ==> (#[trigger] next@[m]).dependents == self@[m].dependents + back_links(
                node.deps,
                m,
                r.id,
            )
    }

    /// The number of nodes; a handle is valid when its position is below it.
    pub fn len(&self) -> (r: usize)
        ensures
            r == self@.len(),
    {
        self.nodes.len()
    }

    /// The cache of a computed node, or the value of an input node.
    pub fn cached(&self, node: NodeRef) -> (r: Option<V>)
        requires
            self.contains(node),
        ensures
            r == self@[node.id as int].data,
    {
        self.nodes[node.id].data
    }

    /// An empty graph.
    pub fn new() -> (g: Self)
        ensures
            g.wf(),
            g@.len() == 0,
    {
        let g = Graph { nodes: Vec::new() };
        assert(g@ =~= Seq::<NodeView<V, O>>::empty());
        g
    }

    /// A new input node, with no value yet.
    pub fn create_input(&mut self) -> (r: NodeRef)
        requires
            old(self).wf(),
            old(self)@.len() < usize::MAX,
        ensures
            final(self).wf(),
            r.id == old(self)@.len(),
            final(self)@ == old(self)@.push(
                NodeView { data: None, deps: Seq::empty(), op: None, dependents: Seq::empty() },
            ),
    {
        let r = NodeRef { id: self.nodes.len() };
        self.nodes.push(
            Node { data: None, nodes_to_compute: Vec::new(), operation: None, nodes_depend_on_us: Vec::new() },
        );
        proof {
            let nv = NodeView::<V, O> { data: None, deps: Seq::empty(), op: None, dependents: Seq::empty() };
            let a = old(self)@;
            assert(self@ =~= a.push(nv));
            assert(links_wf(self@));
            assert forall|n: int| 0 <= n < a.len() implies #[trigger] value_of(a, n) == value_of(self@, n) by {
                lemma_value_frame(a, self@, n);
            }
        }
        r
    }

    /// A new computed node that applies `op` to the values of `deps`, in order. Each
    /// dependency gets a back link to it, so that a later write upstream reaches it.
    pub fn make_computed(&mut self, op: O, deps: Vec<NodeRef>) -> (r: NodeRef)
        requires
            old(self).wf(),
            old(self)@.len() < usize::MAX,
            forall|i: int| 0 <= i < deps@.len() ==> old(self).contains(#[trigger] deps@[i]),
        ensures
            old(self).extends(
                NodeView {
                    data: None,
                    deps: deps@.map_values(|d: NodeRef| d.id),
                    op: Some(op),
                    dependents: Seq::empty(),
                },
                r,
                *final(self),
            ),
    {
        let mut ids: Vec<usize> = Vec::new();
        let mut i: usize = 0;
        while i < deps.len()
            invariant
                0 <= i <= deps@.len(),
                ids@ == deps@.subrange(0, i as int).map_values(|d: NodeRef| d.id),
            decreases deps@.len() - i,
        {
            ids.push(deps[i].id);
            i += 1;
            proof {
                assert(ids@ =~= deps@.subrange(0, i as int).map_values(|d: NodeRef| d.id));
            }
        }
        proof {
            assert(deps@.subrange(0, deps@.len() as int) =~= deps@);
        }
        let id = self.new_node(None, ids, Some(op));
        NodeRef { id }
    }

    /// Appends a node and gives each of its dependencies a back link to it.
    pub(crate) fn new_node(&mut self, data: Option<V>, ids: Vec<usize>, op: Option<O>) -> (r: usize)
        requires
            old(self).wf(),
            old(self)@.len() < usize::MAX,
            forall|i: int| 0 <= i < ids@.len() ==> #[trigger] ids@[i] < old(self)@.len(),
            op.is_some() ==> data.is_none(),
            op.is_none() ==> ids@.len() == 0,
        ensures
            final(self).wf(),
            r == old(self)@.len(),
            final(self)@.len() == old(self)@.len() + 1,
            final(self)@[r as int] == (NodeView::<V, O> { data, deps: ids@, op, dependents: Seq::empty() }),
            forall|m: int|
                0 <= m < old(self)@.len() ==> (#[trigger] final(self)@[m]).data == old(self)@[m].data
                    && final(self)@[m].deps == old(self)@[m].deps && final(self)@[m].op == old(self)@[m].op,
            forall|m: int|
                0 <= m < old(self)@.len() ==> (#[trigger] final(self)@[m]).dependents == old(self)@[m].dependents
                    + back_links(ids@, m, r),
    {
        let r = self.nodes.len();
        let len = ids.len();
        let ghost ids_s = ids@;
        self.nodes.push(Node { data, nodes_to_compute: ids, operation: op, nodes_depend_on_us: Vec::new() });
        let mut k: usize = 0;
        while k < len
            invariant
                r == old(self)@.len(),
                len == ids_s.len(),
                0 <= k <= len,
                forall|i: int| 0 <= i < ids_s.len() ==> #[trigger] ids_s[i] < r,
                self@.len() == r + 1,
                self@[r as int] == (NodeView::<V, O> { data, deps: ids_s, op, dependents: Seq::empty() }),
                forall|m: int|
                    0 <= m < r ==> (#[trigger] self@[m]).data == old(self)@[m].data && self@[m].deps
                        == old(self)@[m].deps && self@[m].op == old(self)@[m].op,
                forall|m: int, e: usize|
                    0 <= m < r ==> ((#[trigger] self@[m].dependents.contains(e)) <==> (
                    old(self)@[m].dependents.contains(e) || (e == r && ids_s.subrange(0, k as int).contains(m as usize)))),
                forall|m: int|
                    0 <= m < r ==> (#[trigger] self@[m]).dependents == old(self)@[m].dependents + back_links(
                        ids_s.subrange(0, k as int),
                        m,
                        r,
                    ),
            decreases len - k,
        {
            let d = self.nodes[r].nodes_to_compute[k];
            proof {
                assert(self@[r as int].deps[k as int] == d);
            }
            let ghost before = self@;
            self.push_depended_node(d, r);
            k += 1;
            proof {
                assert forall|m: int, e: usize| 0 <= m < r implies ((#[trigger] self@[m].dependents.contains(e)) <==> (
                    old(self)@[m].dependents.contains(e) || (e == r && ids_s.subrange(0, k as int).contains(m as usize)))) by {
                    assert(ids_s.subrange(0, k as int) =~= ids_s.subrange(0, k - 1).push(d));
                    lemma_push_contains(ids_s.subrange(0, k - 1), d, m as usize);
                    if m != d {
                        assert(self@[m] == before[m]);
                    } else {
                        lemma_push_contains(before[m].dependents, r, e);
                    }
                }
                assert forall|m: int| 0 <= m < r implies (#[trigger] self@[m]).dependents == old(self)@[m].dependents
                    + back_links(ids_s.subrange(0, k as int), m, r) by {
                    let s = ids_s.subrange(0, k as int);
                    assert(s.drop_last() =~= ids_s.subrange(0, k - 1));
                    assert(s.last() == d);
                    if m != d {
                        assert(self@[m] == before[m]);
                        assert(back_links(s, m, r) =~= back_links(ids_s.subrange(0, k - 1), m, r));
                    } else {
                        assert(self@[m].dependents =~= old(self)@[m].dependents + back_links(s, m, r));
                    }
                }
            }
        }
        proof {
            let a = old(self)@;
            let b = self@;
            assert(ids_s.subrange(0, len as int) =~= ids_s);
            assert forall|n: int, j: int| 0 <= n < b.len() && 0 <= j < b[n].deps.len() implies {
                let d = #[trigger] b[n].deps[j] as int;
                d < n && b[d].dependents.contains(n as usize)
            } by {
                if n < r {
                    assert(a[n].deps[j] == b[n].deps[j]);
                    assert(a[a[n].deps[j] as int].dependents.contains(n as usize));
                } else {
                    assert(ids_s.contains(ids_s[j]));
                }
            }
            assert forall|n: int, j: int| 0 <= n < b.len() && 0 <= j < b[n].dependents.len() implies {
                let e = #[trigger] b[n].dependents[j] as int;
                n < e < b.len() && b[e].deps.contains(n as usize)
            } by {
                let e = b[n].dependents[j];
                assert(b[n].dependents.contains(e));
                if a[n].dependents.contains(e) {
                    let jj = choose|jj: int| 0 <= jj < a[n].dependents.len() && a[n].dependents[jj] == e;
                    assert(a[n].dependents[jj] == e);
                }
            }
            assert(links_wf(b));
            assert forall|n: int| 0 <= n < a.len() implies #[trigger] value_of(a, n) == value_of(b, n) by {
                assert forall|m: int| 0 <= m < a.len() && #[trigger] depends_on(a, n, m) implies m < b.len()
                    && a[m].deps == b[m].deps && a[m].op == b[m].op && (a[m].op.is_none() ==> a[m].data
                    == b[m].data) by {
                    assert(b[m].data == a[m].data);
                }
                lemma_value_frame(a, b, n);
            }
            assert forall|n: int| 0 <= n < b.len() && b[n].op.is_some() && (#[trigger] b[n].data).is_some()
                implies value_of(b, n) == Ok::<V, GraphError>(b[n].data.unwrap()) by {
                assert(b[n].data == a[n].data);
            }
        }
        r
    }

    /// Records that node `e` reads node `d`.
    fn push_depended_node(&mut self, d: usize, e: usize)
        requires
            d < old(self)@.len(),
        ensures
            final(self)@ == old(self)@.update(
                d as int,
                NodeView { dependents: old(self)@[d as int].dependents.push(e), ..old(self)@[d as int] },
            ),
    {
        self.nodes[d].nodes_depend_on_us.push(e);
        proof {
            assert(final(self)@ =~= old(self)@.update(
                d as int,
                NodeView { dependents: old(self)@[d as int].dependents.push(e), ..old(self)@[d as int] },
            ));
        }
    }

    /// Writes `value` to the input `node` and clears the cache of every node that depends on
    /// it. A computed node cannot be written.
    pub fn set(&mut self, node: NodeRef, value: V) -> (r: Result<(), GraphError>)
        requires
            old(self).wf(),
            old(self).contains(node),
        ensures
            old(self).sets(node, value, r, *final(self)),
    {
        let x = node.id;
        if self.nodes[x].operation.is_some() {
            return Err(GraphError::InvalidMutationTarget);
        }
        let ghost g0 = self@;
        self.nodes[x].data = Some(value);
        let ghost g1 = self@;
        proof {
            assert(same_shape(g0, g1));
            lemma_same_shape_links(g0, g1);
            lemma_same_deps_depends(g1, g0);
        }
        self.propagate_invalidation(x);
        proof {
            let g2 = self@;
            assert(same_shape(g0, g2));
            lemma_same_shape_links(g0, g2);
            assert forall|m: int| 0 <= m < g0.len() implies #[trigger] g2[m].data == (if m == x {
                Some(value)
            } else if depends_on(g0, m, x as int) {
                None
            } else {
                g0[m].data
            }) by {
                if m != x && g0[m].op.is_none() && depends_on(g0, m, x as int) {
                    assert(!depends_via(g0, m, x as int, 0));
                }
            }
            lemma_write_wf(g0, g2, x as int, value);
        }
        Ok(())
    }

    /// Clears the cache of node `n` if it is a computed node.
    fn invalidate(&mut self, n: usize)
        requires
            n < old(self)@.len(),
        ensures
            final(self)@ == old(self)@.update(
                n as int,
                NodeView {
                    data: if old(self)@[n as int].op.is_some() { None } else { old(self)@[n as int].data },
                    ..old(self)@[n as int]
                },
            ),
    {
        if self.nodes[n].operation.is_some() {
            self.nodes[n].data = None;
        }
        proof {
            assert(final(self)@ =~= old(self)@.update(
                n as int,
                NodeView {
                    data: if old(self)@[n as int].op.is_some() { None } else { old(self)@[n as int].data },
                    ..old(self)@[n as int]
                },
            ));
        }
    }

    /// Clears the cache of every computed node that depends on `start`, and of no other.
    /// The back links go from a node to later ones, so one pass in the order of the arena
    /// meets each such node after all that it reads, and visits each node at most once.
    fn propagate_invalidation(&mut self, start: usize)
        requires
            links_wf(old(self)@),
            start < old(self)@.len(),
        ensures
            same_shape(old(self)@, final(self)@),
            forall|m: int|
                0 <= m < old(self)@.len() ==> #[trigger] final(self)@[m].data == (if m != start && depends_on(
                    old(self)@,
                    m,
                    start as int,
                ) && old(self)@[m].op.is_some() {
                    None
                } else {
                    old(self)@[m].data
                }),
    {
        let ghost g0 = self@;
        let len = self.nodes.len();
        let mut marked: Vec<bool> = vec![false; len];
        marked[start] = true;
        let mut j = start;
        proof {
            assert forall|m: int| 0 <= m < j && #[trigger] depends_on(g0, m, start as int) implies marked@[m] by {
                lemma_depends_before(g0, m, start as int);
            }
        }
        while j < len
            invariant
                len == self@.len(),
                len == g0.len(),
                g0 == old(self)@,
                links_wf(g0),
                start < len,
                start <= j <= len,
                same_shape(g0, self@),
                marked@.len() == len,
                marked@[start as int],
                forall|m: int| 0 <= m < len && #[trigger] marked@[m] ==> depends_on(g0, m, start as int),
                forall|m: int| 0 <= m < j && #[trigger] depends_on(g0, m, start as int) ==> marked@[m],
                forall|d: int, i: int|
                    0 <= d < j && marked@[d] && 0 <= i < g0[d].dependents.len() ==> marked@[#[trigger] g0[d].dependents[i] as int],
                forall|m: int|
                    0 <= m < len ==> #[trigger] self@[m].data == (if marked@[m] && m != start && g0[m].op.is_some() {
                        None
                    } else {
                        g0[m].data
                    }),
            decreases len - j,
        {
            if marked[j] {
                let cnt = self.nodes[j].nodes_depend_on_us.len();
                let mut i: usize = 0;
                while i < cnt
                    invariant
                        len == self@.len(),
                        len == g0.len(),
                        links_wf(g0),
                        start < len,
                        start <= j < len,
                        marked@[j as int],
                        cnt == g0[j as int].dependents.len(),
                        0 <= i <= cnt,
                        same_shape(g0, self@),
                        marked@.len() == len,
                        marked@[start as int],
                        forall|m: int| 0 <= m < len && #[trigger] marked@[m] ==> depends_on(g0, m, start as int),
                        forall|m: int| 0 <= m < j && #[trigger] depends_on(g0, m, start as int) ==> marked@[m],
                        forall|d: int, i: int|
                            0 <= d < j && marked@[d] && 0 <= i < g0[d].dependents.len() ==> marked@[#[trigger] g0[d].dependents[i] as int],
                        forall|ii: int| 0 <= ii < i ==> marked@[#[trigger] g0[j as int].dependents[ii] as int],
                        forall|m: int|
                            0 <= m < len ==> #[trigger] self@[m].data == (if marked@[m] && m != start && g0[m].op.is_some() {
                                None
                            } else {
                                g0[m].data
                            }),
                    decreases cnt - i,
                {
                    let e = self.nodes[j].nodes_depend_on_us[i];
                    proof {
                        assert(g0[j as int].dependents[i as int] == e);
                        assert(j < e && g0[e as int].deps.contains(j as usize));
                        let p = choose|p: int| 0 <= p < g0[e as int].deps.len() && g0[e as int].deps[p] == j;
                        assert(g0[e as int].deps[p] < e);
                        lemma_depends_step(g0, e as int, p, start as int);
                    }
                    marked[e] = true;
                    self.invalidate(e);
                    i += 1;
                }
            }
            proof {
                if depends_on(g0, j as int, start as int) && j != start {
                    let w = lemma_depends_via_witness(g0, j as int, start as int, g0[j as int].deps.len() as int);
                    let d = g0[j as int].deps[w] as int;
                    assert(marked@[d]);
                    assert(g0[d].dependents.contains(j as usize));
                    let q = choose|q: int| 0 <= q < g0[d].dependents.len() && g0[d].dependents[q] == j;
                    assert(marked@[g0[d].dependents[q] as int]);
                }
            }
            j += 1;
        }
        proof {
            assert forall|m: int| 0 <= m < len implies #[trigger] self@[m].data == (if m != start && depends_on(
                g0,
                m,
                start as int,
            ) && g0[m].op.is_some() {
                None
            } else {
                g0[m].data
            }) by {
                if depends_on(g0, m, start as int) {
                    assert(marked@[m]);
                }
            }
        }
    }

    /// The value of `node`: its cache where there is one, else its operation applied to the
    /// values of its dependencies, read in order, which fills their caches and its own.
    pub fn compute(&mut self, node: NodeRef) -> (r: Result<V, GraphError>)
        requires
            old(self).wf(),
            old(self).contains(node),
        ensures
            old(self).computes(node, r, *final(self)),
        decreases node.id, 1nat,
    {
        let n = node.id;
        if let Some(v) = self.nodes[n].data {
            proof {
                assert forall|m: int| 0 <= m < self@.len() && #[trigger] depends_on(self@, n as int, m) implies self@[m].data.is_some() by {
                    lemma_cached_reach(self@, n as int, m);
                }
            }
            return Ok(v);
        }
        if self.nodes[n].operation.is_none() {
            return Err(GraphError::UninitializedInput);
        }
        let args = match self.collect_values(n) {
            Ok(a) => a,
            Err(e) => return Err(e),
        };
        let res = match &self.nodes[n].operation {
            Some(op) => op.compute(&args),
            None => Err(GraphError::UninitializedInput),
        };
        match res {
            Ok(v) => {
                let ghost before = self@;
                self.nodes[n].data = Some(v);
                proof {
                    assert(self@ =~= before.update(n as int, NodeView { data: Some(v), ..before[n as int] }));
                    assert(same_inputs(before, self@));
                    lemma_same_inputs_value(before, self@);
                    lemma_same_inputs_value(old(self)@, before);
                    assert(links_wf(self@));
                    assert forall|p: int, k: int|
                        0 <= p < self@.len() && self@[p].op.is_some() && self@[p].data.is_some() && 0 <= k < self@[p].deps.len()
                        implies self@[#[trigger] self@[p].deps[k] as int].data.is_some() by {
                        if p == n {
                            assert(old(self)@[n as int].deps[k] == self@[p].deps[k]);
                        } else {
                            assert(before[p].deps[k] == self@[p].deps[k]);
                        }
                    }
                    assert(fills_wf(self@));
                    lemma_same_deps_depends(old(self)@, self@);
                    assert forall|m: int| 0 <= m < old(self)@.len() && #[trigger] depends_on(old(self)@, n as int, m)
                        implies self@[m].data.is_some() by {
                        lemma_cached_reach(self@, n as int, m);
                    }
                }
                Ok(v)
            },
            Err(e) => Err(e),
        }
    }

    /// The values of the dependencies of node `n`, in order, or the first error among them.
    fn collect_values(&mut self, n: usize) -> (r: Result<Vec<V>, GraphError>)
        requires
            old(self).wf(),
            n < old(self)@.len(),
        ensures
            final(self).wf(),
            same_inputs(old(self)@, final(self)@),
            forall|m: int|
                0 <= m < old(self)@.len() && (#[trigger] old(self)@[m].data).is_some() ==> final(self)@[m].data
                    == old(self)@[m].data,
            r.is_ok() ==> forall|i: int|
                0 <= i < old(self)@[n as int].deps.len() ==> final(self)@[#[trigger] old(self)@[n as int].deps[i] as int].data
                    == Some(r.unwrap()@[i]),
            forall|m: int|
                0 <= m < old(self)@.len() && !depends_on(old(self)@, n as int, m) ==> #[trigger] final(self)@[m]
                    == old(self)@[m],
            match r {
                Ok(a) => args_of(old(self)@, n as int, old(self)@[n as int].deps.len() as int) == Ok::<Seq<V>, GraphError>(a@),
                Err(e) => args_of(old(self)@, n as int, old(self)@[n as int].deps.len() as int) == Err::<Seq<V>, GraphError>(e),
            },
        decreases n, 0nat,
    {
        let mut answer: Vec<V> = Vec::new();
        let len = self.nodes[n].nodes_to_compute.len();
        let mut k: usize = 0;
        while k < len
            invariant
                self.wf(),
                n < self@.len(),
                same_inputs(old(self)@, self@),
                forall|m: int|
                    0 <= m < old(self)@.len() && (#[trigger] old(self)@[m].data).is_some() ==> self@[m].data
                        == old(self)@[m].data,
                len == old(self)@[n as int].deps.len(),
                0 <= k <= len,
                args_of(old(self)@, n as int, k as int) == Ok::<Seq<V>, GraphError>(answer@),
                answer@.len() == k,
                forall|i: int|
                    0 <= i < k ==> self@[#[trigger] old(self)@[n as int].deps[i] as int].data == Some(answer@[i]),
                forall|m: int|
                    0 <= m < old(self)@.len() && !depends_on(old(self)@, n as int, m) ==> #[trigger] self@[m]
                        == old(self)@[m],
            decreases len - k,
        {
            let d = self.nodes[n].nodes_to_compute[k];
            proof {
                assert(self@[n as int].deps[k as int] == d);
            }
            let ghost before = self@;
            let res = self.compute(NodeRef { id: d });
            proof {
                lemma_same_inputs_value(old(self)@, before);
                lemma_same_deps_depends(old(self)@, before);
                assert forall|m: int| 0 <= m < old(self)@.len() && !depends_on(old(self)@, n as int, m)
                    implies #[trigger] self@[m] == old(self)@[m] by {
                    if depends_on(old(self)@, d as int, m) {
                        lemma_depends_step(old(self)@, n as int, k as int, m);
                    }
                }
                assert forall|i: int| 0 <= i < k implies self@[#[trigger] old(self)@[n as int].deps[i] as int].data
                    == Some(answer@[i]) by {
                    let p = old(self)@[n as int].deps[i] as int;
                    assert(before[p].data == Some(answer@[i]));
                }
                assert(old(self)@[n as int].deps[k as int] == d);
                assert(d < n);
                assert(res == value_of(old(self)@, d as int));
            }
            match res {
                Ok(v) => {
                    answer.push(v);
                    proof {
                        assert(args_of(old(self)@, n as int, k + 1) == Ok::<Seq<V>, GraphError>(answer@));
                    }
                },
                Err(e) => {
                    proof {
                        lemma_args_err(old(self)@, n as int, k + 1, len as int);
                    }
                    return Err(e);
                },
            }
            k += 1;
        }
        Ok(answer)
    }
}

impl NodeRef {
    /// The value of this node in `graph`; see `Graph::compute`.
    pub fn compute<V: Copy, O: Operation<V>>(&self, graph: &mut Graph<V, O>) -> (r: Result<V, GraphError>)
        requires
            old(graph).wf(),
            old(graph).contains(*self),
        ensures
            old(graph).computes(*self, r, *final(graph)),
    {
        graph.compute(*self)
    }

    /// Writes `value` to this input node of `graph`; see `Graph::set`.
    pub fn set<V: Copy, O: Operation<V>>(&self, graph: &mut Graph<V, O>, value: V) -> (r: Result<(), GraphError>)
        requires
            old(graph).wf(),
            old(graph).contains(*self),
        ensures
            old(graph).sets(*self, value, r, *final(graph)),
    {
        graph.set(*self, value)
    }
}

/// After a push, a sequence holds what it held and the pushed value.
proof fn lemma_push_contains<T>(s: Seq<T>, x: T, y: T)
    ensures
        s.push(x).contains(y) <==> (s.contains(y) || y == x),
{
    if s.contains(y) {
        let i = choose|i: int| 0 <= i < s.len() && s[i] == y;
        assert(s.push(x)[i] == y);
    }
    if y == x {
        assert(s.push(x)[s.len() as int] == y);
    }
    if s.push(x).contains(y) && y != x {
        let i = choose|i: int| 0 <= i < s.len() + 1 && s.push(x)[i] == y;
        assert(s[i] == y);
    }
}

} // verus!
