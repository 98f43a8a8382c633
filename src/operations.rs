use vstd::prelude::*;

use crate::graph::{Graph, NodeRef};
use crate::model::{back_links, GraphError, NodeView};

verus! {

/// The capability of a computed node: from the ordered values of its arguments, a value.
pub trait Operation<V>: Sized {
    /// The fewest arguments that the operation accepts.
    spec fn min_arity(&self) -> nat;

    /// What the operation gives on at least `min_arity` arguments.
    spec fn apply(&self, args: Seq<V>) -> Result<V, GraphError>;

    fn compute(&self, arguments: &Vec<V>) -> (r: Result<V, GraphError>)
        ensures
            r == (if arguments@.len() < self.min_arity() {
                Err(GraphError::ArityError)
            } else {
                self.apply(arguments@)
            }),
    ;
}

/// `x` as an `i64`, where it is one.
pub open spec fn fit(x: int) -> Result<i64, GraphError> {
    if i64::MIN <= x <= i64::MAX {
        Ok(x as i64)
    } else {
        Err(GraphError::Unrepresentable)
    }
}

/// `b` to the power `e`.
pub open spec fn power(b: int, e: nat) -> int
    decreases e,
{
    if e == 0 {
        1
    } else {
        b * power(b, (e - 1) as nat)
    }
}

/// Binary addition of integers.
pub struct Add {}

/// Binary multiplication of integers.
pub struct Mul {}

/// Binary power of integers: the first argument raised to the second, which may not be negative.
pub struct Pow {}

impl Operation<i64> for Add {
    open spec fn min_arity(&self) -> nat {
        2
    }

    open spec fn apply(&self, args: Seq<i64>) -> Result<i64, GraphError> {
        fit(args[0] + args[1])
    }

    fn compute(&self, arguments: &Vec<i64>) -> (r: Result<i64, GraphError>) {
        if arguments.len() < 2 {
            return Err(GraphError::ArityError);
        }
        match arguments[0].checked_add(arguments[1]) {
            Some(v) => Ok(v),
            None => Err(GraphError::Unrepresentable),
        }
    }
}

impl Operation<i64> for Mul {
    open spec fn min_arity(&self) -> nat {
        2
    }

    open spec fn apply(&self, args: Seq<i64>) -> Result<i64, GraphError> {
        fit(args[0] * args[1])
    }

    fn compute(&self, arguments: &Vec<i64>) -> (r: Result<i64, GraphError>) {
        if arguments.len() < 2 {
            return Err(GraphError::ArityError);
        }
        match arguments[0].checked_mul(arguments[1]) {
            Some(v) => Ok(v),
            None => Err(GraphError::Unrepresentable),
        }
    }
}

impl Operation<i64> for Pow {
    open spec fn min_arity(&self) -> nat {
        2
    }

    open spec fn apply(&self, args: Seq<i64>) -> Result<i64, GraphError> {
        if args[1] < 0 {
            Err(GraphError::Unrepresentable)
        } else {
            fit(power(args[0] as int, args[1] as nat))
        }
    }

    fn compute(&self, arguments: &Vec<i64>) -> (r: Result<i64, GraphError>) {
        if arguments.len() < 2 {
            return Err(GraphError::ArityError);
        }
        let b = arguments[0];
        let e = arguments[1];
        if e < 0 {
            return Err(GraphError::Unrepresentable);
        }
        if -1 <= b && b <= 1 {
            proof {
                lemma_power_small(b as int, e as nat);
            }
            if b == 1 || e == 0 {
                return Ok(1);
            } else if b == 0 {
                return Ok(0);
            } else if e % 2 == 0 {
                return Ok(1);
            } else {
                return Ok(-1);
            }
        }
        let mut acc: i64 = 1;
        let mut i: i64 = 0;
        while i < e
            invariant
                0 <= i <= e,
                b < -1 || b > 1,
                arguments@.len() >= 2,
                arguments@[0] == b,
                arguments@[1] == e,
                acc as int == power(b as int, i as nat),
            decreases e - i,
        {
            match acc.checked_mul(b) {
                Some(v) => {
                    acc = v;
                },
                None => {
                    proof {
                        assert(power(b as int, (i + 1) as nat) == b * power(b as int, i as nat));
                        lemma_power_grows(b as int, (i + 1) as nat, e as nat);
                        assert(arguments@[0] == b && arguments@[1] == e);
                        assert(fit(power(b as int, e as nat)) == Err::<i64, GraphError>(GraphError::Unrepresentable));
                    }
                    return Err(GraphError::Unrepresentable);
                },
            }
            i += 1;
        }
        Ok(acc)
    }
}

/// The powers of -1, 0 and 1.
proof fn lemma_power_small(b: int, e: nat)
    requires
        -1 <= b <= 1,
    ensures
        power(b, e) == (if b == 1 || e == 0 {
            1
        } else if b == 0 {
            0
        } else if e % 2 == 0 {
            1
        } else {
            -1
        }),
    decreases e,
{
    if e > 0 {
        lemma_power_small(b, (e - 1) as nat);
        assert(power(b, e) == b * power(b, (e - 1) as nat));
        assert((e - 1) as nat % 2 == 0 <==> e % 2 != 0);
        if b == -1 {
            assert(power(b, e) == -power(b, (e - 1) as nat));
        } else if b == 0 {
            assert(power(b, e) == 0);
        } else {
            assert(power(b, e) == power(b, (e - 1) as nat));
        }
    }
}

/// Powers of a base outside -1..=1 grow: beyond one outside the range of `i64`, all are.
proof fn lemma_power_grows(b: int, i: nat, e: nat)
    requires
        b < -1 || b > 1,
        1 <= i <= e,
        power(b, i) > i64::MAX || power(b, i) < i64::MIN,
    ensures
        power(b, e) > i64::MAX || power(b, e) < i64::MIN,
    decreases e - i,
{
    if i < e {
        let p = power(b, i);
        assert(power(b, (i + 1) as nat) == b * p);
        assert(b * p > i64::MAX || b * p < i64::MIN) by (nonlinear_arith)
            requires
                b < -1 || b > 1,
                p > i64::MAX || p < i64::MIN,
        ;
        lemma_power_grows(b, (i + 1) as nat, e);
    }
}

/// The integer operations that the graph builders use.
pub enum Arith {
    Add(Add),
    Mul(Mul),
    Pow(Pow),
}

impl Operation<i64> for Arith {
    open spec fn min_arity(&self) -> nat {
        match self {
            Arith::Add(o) => o.min_arity(),
            Arith::Mul(o) => o.min_arity(),
            Arith::Pow(o) => o.min_arity(),
        }
    }

    open spec fn apply(&self, args: Seq<i64>) -> Result<i64, GraphError> {
        match self {
            Arith::Add(o) => o.apply(args),
            Arith::Mul(o) => o.apply(args),
            Arith::Pow(o) => o.apply(args),
        }
    }

    fn compute(&self, arguments: &Vec<i64>) -> (r: Result<i64, GraphError>) {
        match self {
            Arith::Add(o) => o.compute(arguments),
            Arith::Mul(o) => o.compute(arguments),
            Arith::Pow(o) => o.compute(arguments),
        }
    }
}

/// A node of `graph` that adds the values of `lhs` and `rhs`.
pub fn add(graph: &mut Graph<i64, Arith>, lhs: NodeRef, rhs: NodeRef) -> (r: NodeRef)
    requires
        old(graph).wf(),
        old(graph)@.len() < usize::MAX,
        old(graph).contains(lhs),
        old(graph).contains(rhs),
    ensures
        old(graph).extends(
            NodeView { data: None, deps: seq![lhs.id, rhs.id], op: Some(Arith::Add(Add {})), dependents: Seq::empty() },
            r,
            *final(graph),
        ),
{
    let deps = vec![lhs, rhs];
    proof {
        assert(deps@.map_values(|d: NodeRef| d.id) =~= seq![lhs.id, rhs.id]);
    }
    graph.make_computed(Arith::Add(Add {}), deps)
}

/// A node of `graph` that multiplies the values of `lhs` and `rhs`.
pub fn mul(graph: &mut Graph<i64, Arith>, lhs: NodeRef, rhs: NodeRef) -> (r: NodeRef)
    requires
        old(graph).wf(),
        old(graph)@.len() < usize::MAX,
        old(graph).contains(lhs),
        old(graph).contains(rhs),
    ensures
        old(graph).extends(
            NodeView { data: None, deps: seq![lhs.id, rhs.id], op: Some(Arith::Mul(Mul {})), dependents: Seq::empty() },
            r,
            *final(graph),
        ),
{
    let deps = vec![lhs, rhs];
    proof {
        assert(deps@.map_values(|d: NodeRef| d.id) =~= seq![lhs.id, rhs.id]);
    }
    graph.make_computed(Arith::Mul(Mul {}), deps)
}

/// A node of `graph` that raises the value of `base` to `exponent`. The exponent is held by
/// a new input node, created just before the result and set to `exponent`; the function
/// returns no handle on it.
pub fn pow_const(graph: &mut Graph<i64, Arith>, base: NodeRef, exponent: i64) -> (r: NodeRef)
    requires
        old(graph).wf(),
        old(graph)@.len() + 1 < usize::MAX,
        old(graph).contains(base),
    ensures
        final(graph).wf(),
        r.id == old(graph)@.len() + 1,
        final(graph)@.len() == old(graph)@.len() + 2,
        final(graph)@[r.id - 1].data == Some(exponent),
        final(graph)@[r.id - 1].op.is_none(),
        final(graph)@[r.id as int] == (NodeView::<i64, Arith> {
            data: None,
            deps: seq![base.id, (r.id - 1) as usize],
            op: Some(Arith::Pow(Pow {})),
            dependents: Seq::empty(),
        }),
        final(graph)@[r.id - 1].deps == Seq::<usize>::empty(),
        final(graph)@[r.id - 1].dependents == seq![r.id],
        final(graph)@[base.id as int].dependents == old(graph)@[base.id as int].dependents.push(r.id),
        forall|m: int|
            0 <= m < old(graph)@.len() ==> (#[trigger] final(graph)@[m]).data == old(graph)@[m].data
                && final(graph)@[m].deps == old(graph)@[m].deps && final(graph)@[m].op == old(graph)@[m].op,
        forall|m: int|
            0 <= m < old(graph)@.len() && m != base.id ==> (#[trigger] final(graph)@[m]).dependents
                == old(graph)@[m].dependents,
{
    let c = graph.new_node(Some(exponent), Vec::new(), None);
    let ghost g1 = graph@;
    let deps = vec![base, NodeRef { id: c }];
    proof {
        assert(deps@.map_values(|d: NodeRef| d.id) =~= seq![base.id, c]);
        assert(g1[base.id as int].dependents =~= old(graph)@[base.id as int].dependents
            + back_links(Seq::<usize>::empty(), base.id as int, c));
    }
    let r = graph.make_computed(Arith::Pow(Pow {}), deps);
    proof {
        let ids = seq![base.id, c];
        reveal_with_fuel(back_links, 3);
        assert(ids.drop_last().drop_last() =~= Seq::<usize>::empty());
        assert(back_links(ids, c as int, r.id) =~= seq![r.id]);
        assert(back_links(ids, base.id as int, r.id) =~= seq![r.id]);
        assert(graph@[c as int].dependents =~= seq![r.id]);
        assert(graph@[base.id as int].dependents =~= old(graph)@[base.id as int].dependents.push(r.id));
        assert forall|m: int| 0 <= m < old(graph)@.len() && m != base.id implies (#[trigger] graph@[m]).dependents
            == old(graph)@[m].dependents by {
            assert(back_links(ids, m, r.id) =~= Seq::<usize>::empty());
            assert(back_links(Seq::<usize>::empty(), m, c) =~= Seq::<usize>::empty());
            assert(graph@[m].dependents =~= old(graph)@[m].dependents);
        }
    }
    r
}

} // verus!
