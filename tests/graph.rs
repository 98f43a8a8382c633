use comp_graph::Add;
use comp_graph::Arith;
use comp_graph::Graph;
use comp_graph::GraphError;
use comp_graph::Mul;
use comp_graph::NodeRef;
use comp_graph::Operation;
use comp_graph::Pow;

fn input(g: &mut Graph<i64, Arith>, value: i64) -> NodeRef {
    let x = g.create_input();
    x.set(g, value).unwrap();
    x
}

#[test]
fn simple_add() {
    let mut g: Graph<i64, Arith> = Graph::new();
    let x1 = g.create_input();
    let x2 = g.create_input();

    x1.set(&mut g, 1).unwrap();
    x2.set(&mut g, 2).unwrap();

    let graph = comp_graph::add(&mut g, x1, x2);
    assert_eq!(graph.compute(&mut g), Ok(3));
}

#[test]
fn complex_add_and_recalculate() {
    let mut g: Graph<i64, Arith> = Graph::new();
    let x1 = g.create_input();
    let x2 = g.create_input();
    let x3 = g.create_input();

    x1.set(&mut g, 1).unwrap();
    x2.set(&mut g, 2).unwrap();
    x3.set(&mut g, 3).unwrap();

    let inner = comp_graph::add(&mut g, x1, x2);
    let graph = comp_graph::add(&mut g, inner, x3);
    assert_eq!(graph.compute(&mut g), Ok(1 + 2 + 3));

    x1.set(&mut g, 2).unwrap();
    x2.set(&mut g, 3).unwrap();
    x3.set(&mut g, 4).unwrap();

    assert_eq!(graph.compute(&mut g), Ok(2 + 3 + 4));
}

#[test]
fn add_same() {
    let mut g: Graph<i64, Arith> = Graph::new();
    let x1 = g.create_input();

    x1.set(&mut g, 1).unwrap();

    let a = comp_graph::add(&mut g, x1, x1);
    let b = comp_graph::add(&mut g, x1, a);
    let graph = comp_graph::add(&mut g, x1, b);

    assert_eq!(graph.compute(&mut g), Ok(1 + 1 + 1 + 1));
}

#[test]
fn second_read_is_served_from_the_cache() {
    let mut g: Graph<i64, Arith> = Graph::new();
    let x1 = input(&mut g, 1);
    let x2 = input(&mut g, 2);
    let s = comp_graph::add(&mut g, x1, x2);
    assert_eq!(g.cached(s), None);
    assert_eq!(s.compute(&mut g), Ok(3));
    assert_eq!(g.cached(s), Some(3));
    assert_eq!(s.compute(&mut g), Ok(3));
    assert_eq!(g.cached(s), Some(3));
}

#[test]
fn a_read_fills_the_caches_of_the_subtree() {
    let mut g: Graph<i64, Arith> = Graph::new();
    let x1 = input(&mut g, 2);
    let x2 = input(&mut g, 5);
    let inner = comp_graph::mul(&mut g, x1, x2);
    let outer = comp_graph::add(&mut g, inner, x1);
    assert_eq!(outer.compute(&mut g), Ok(12));
    assert_eq!(g.cached(inner), Some(10));
    assert_eq!(g.cached(outer), Some(12));
}

#[test]
fn a_write_clears_every_downstream_cache() {
    let mut g: Graph<i64, Arith> = Graph::new();
    let x = input(&mut g, 3);
    let y = input(&mut g, 4);
    let a = comp_graph::add(&mut g, x, y);
    let b = comp_graph::mul(&mut g, a, y);
    let c = comp_graph::add(&mut g, b, a);
    assert_eq!(c.compute(&mut g), Ok(35));
    x.set(&mut g, 6).unwrap();
    assert_eq!(g.cached(a), None);
    assert_eq!(g.cached(b), None);
    assert_eq!(g.cached(c), None);
    assert_eq!(g.cached(x), Some(6));
    assert_eq!(c.compute(&mut g), Ok(50));
}

#[test]
fn a_write_leaves_unrelated_caches_alone() {
    let mut g: Graph<i64, Arith> = Graph::new();
    let x1 = input(&mut g, 1);
    let x2 = input(&mut g, 2);
    let x3 = input(&mut g, 3);
    let left = comp_graph::add(&mut g, x1, x2);
    let right = comp_graph::mul(&mut g, x2, x3);
    assert_eq!(left.compute(&mut g), Ok(3));
    assert_eq!(right.compute(&mut g), Ok(6));
    x3.set(&mut g, 10).unwrap();
    assert_eq!(g.cached(left), Some(3));
    assert_eq!(g.cached(right), None);
    assert_eq!(left.compute(&mut g), Ok(3));
    assert_eq!(right.compute(&mut g), Ok(20));
}

#[test]
fn a_shared_input_updates_both_arguments() {
    let mut g: Graph<i64, Arith> = Graph::new();
    let x = input(&mut g, 3);
    let sq = comp_graph::mul(&mut g, x, x);
    assert_eq!(sq.compute(&mut g), Ok(9));
    x.set(&mut g, 7).unwrap();
    assert_eq!(sq.compute(&mut g), Ok(49));
}

#[test]
fn diamond_is_recomputed_after_a_write() {
    let mut g: Graph<i64, Arith> = Graph::new();
    let x = input(&mut g, 2);
    let a = comp_graph::add(&mut g, x, x);
    let b = comp_graph::mul(&mut g, x, x);
    let c = comp_graph::add(&mut g, a, b);
    assert_eq!(c.compute(&mut g), Ok(8));
    x.set(&mut g, 5).unwrap();
    assert_eq!(c.compute(&mut g), Ok(35));
}

#[test]
fn unset_input_is_an_error_not_zero() {
    let mut g: Graph<i64, Arith> = Graph::new();
    let x1 = g.create_input();
    assert_eq!(x1.compute(&mut g), Err(GraphError::UninitializedInput));
    let x2 = input(&mut g, 0);
    let s = comp_graph::add(&mut g, x1, x2);
    assert_eq!(s.compute(&mut g), Err(GraphError::UninitializedInput));
    assert_eq!(g.cached(s), None);
    x1.set(&mut g, 0).unwrap();
    assert_eq!(s.compute(&mut g), Ok(0));
}

#[test]
fn too_few_arguments_is_an_arity_error() {
    let mut g: Graph<i64, Arith> = Graph::new();
    let x1 = input(&mut g, 1);
    let n = g.make_computed(Arith::Add(Add {}), vec![x1]);
    assert_eq!(n.compute(&mut g), Err(GraphError::ArityError));
    let m = g.make_computed(Arith::Pow(Pow {}), vec![x1]);
    assert_eq!(m.compute(&mut g), Err(GraphError::ArityError));
}

#[test]
fn writing_a_computed_node_is_refused() {
    let mut g: Graph<i64, Arith> = Graph::new();
    let x1 = input(&mut g, 1);
    let x2 = input(&mut g, 2);
    let s = comp_graph::add(&mut g, x1, x2);
    assert_eq!(s.set(&mut g, 10), Err(GraphError::InvalidMutationTarget));
    assert_eq!(s.compute(&mut g), Ok(3));
}

#[test]
fn first_error_in_argument_order_wins() {
    let mut g: Graph<i64, Arith> = Graph::new();
    let unset = g.create_input();
    let big = input(&mut g, i64::MAX);
    let over = comp_graph::add(&mut g, big, big);
    let n = comp_graph::add(&mut g, unset, over);
    assert_eq!(n.compute(&mut g), Err(GraphError::UninitializedInput));
    let m = comp_graph::add(&mut g, over, unset);
    assert_eq!(m.compute(&mut g), Err(GraphError::Unrepresentable));
}

#[test]
fn overflow_is_reported() {
    let mut g: Graph<i64, Arith> = Graph::new();
    let big = input(&mut g, i64::MAX);
    let one = input(&mut g, 1);
    let s = comp_graph::add(&mut g, big, one);
    assert_eq!(s.compute(&mut g), Err(GraphError::Unrepresentable));
    let p = comp_graph::mul(&mut g, big, big);
    assert_eq!(p.compute(&mut g), Err(GraphError::Unrepresentable));
    let m = input(&mut g, i64::MAX - 1);
    let t = comp_graph::add(&mut g, m, one);
    assert_eq!(t.compute(&mut g), Ok(i64::MAX));
}

#[test]
fn powers() {
    let mut g: Graph<i64, Arith> = Graph::new();
    let two = input(&mut g, 2);
    let minus_two = input(&mut g, -2);
    let minus_one = input(&mut g, -1);
    let zero = input(&mut g, 0);
    let three = input(&mut g, 3);
    let cases = [
        (two, 10, Ok(1024)),
        (two, 62, Ok(4611686018427387904)),
        (two, 63, Err(GraphError::Unrepresentable)),
        (minus_two, 63, Ok(i64::MIN)),
        (minus_two, 64, Err(GraphError::Unrepresentable)),
        (minus_one, 3, Ok(-1)),
        (minus_one, i64::MAX - 1, Ok(1)),
        (zero, 0, Ok(1)),
        (zero, 5, Ok(0)),
        (three, 0, Ok(1)),
        (three, -1, Err(GraphError::Unrepresentable)),
    ];
    for (base, exponent, expected) in cases {
        let p = comp_graph::pow_const(&mut g, base, exponent);
        assert_eq!(p.compute(&mut g), expected, "{:?}", (base, exponent));
    }
}

#[test]
fn pow_follows_its_base() {
    let mut g: Graph<i64, Arith> = Graph::new();
    let x = input(&mut g, 3);
    let p = comp_graph::pow_const(&mut g, x, 3);
    let s = comp_graph::add(&mut g, p, x);
    assert_eq!(s.compute(&mut g), Ok(30));
    x.set(&mut g, 4).unwrap();
    assert_eq!(s.compute(&mut g), Ok(68));
}

#[test]
fn operations_on_their_own() {
    assert_eq!(Add {}.compute(&vec![4, 5]), Ok(9));
    assert_eq!(Mul {}.compute(&vec![4, 5]), Ok(20));
    assert_eq!(Pow {}.compute(&vec![4, 5]), Ok(1024));
    assert_eq!(Add {}.compute(&vec![4]), Err(GraphError::ArityError));
    assert_eq!(Mul {}.compute(&vec![]), Err(GraphError::ArityError));
    assert_eq!(Add {}.compute(&vec![1, 2, 3]), Ok(3));
    assert_eq!(Add {}.compute(&vec![4, 5]), Add {}.compute(&vec![4, 5]));
}

#[test]
fn nodes_are_numbered_in_order_of_creation() {
    let mut g: Graph<i64, Arith> = Graph::new();
    assert_eq!(g.len(), 0);
    let x1 = g.create_input();
    let x2 = input(&mut g, 8);
    assert_eq!((x1.id, x2.id), (0, 1));
    assert_eq!(g.cached(x1), None);
    assert_eq!(g.cached(x2), Some(8));
    let p = comp_graph::pow_const(&mut g, x2, 2);
    assert_eq!(p.id, 3);
    assert_eq!(g.len(), 4);
    assert_eq!(p.compute(&mut g), Ok(64));
}

#[test]
fn a_read_leaves_unrelated_nodes_alone() {
    let mut g: Graph<i64, Arith> = Graph::new();
    let x1 = input(&mut g, 1);
    let x2 = input(&mut g, 2);
    let left = comp_graph::add(&mut g, x1, x2);
    let right = comp_graph::mul(&mut g, x1, x2);
    let top = comp_graph::add(&mut g, left, x2);
    assert_eq!(top.compute(&mut g), Ok(5));
    assert_eq!(g.cached(left), Some(3));
    assert_eq!(g.cached(right), None);
}
