use rgraph::Cache;
use rgraph::Graph;
use rgraph::GraphSolver;
use rgraph::Node;
use rgraph::NodeRunner;
use rgraph::TaskBody;
use rgraph::Value;
use rgraph::ValueKind;
use rgraph::ValuesCache;

#[test]
fn main_graph() {
    let mut g = Graph::new();

    let node = Node::new("one", TaskBody::Emit(vec![]), vec![], vec![]);
    g.add_node(node).unwrap();

    let node = Node::new("two", TaskBody::Emit(vec![]), vec![], vec![]);
    g.add_node(node).unwrap();

    let cache = ValuesCache::new();
    let mut solver = GraphSolver::new(&g, cache);

    let x = g.get_node("one").expect("must exist");
    assert!(x.run(&mut solver).is_ok());
    let y = g.get_node("two").expect("must exist");
    assert!(y.run(&mut solver).is_ok());
}

#[test]
fn node_with_assets() {
    let g = Graph::new();
    let cache = ValuesCache::new();
    let mut solver = GraphSolver::new(&g, cache);

    let node = Node::new(
        "test",
        TaskBody::SumU32 { add: 1 },
        vec!["i".to_string()],
        vec!["x".to_string()],
    );

    solver.save_value_str("i", Value::U32(1));
    assert!(node.run(&mut solver).is_ok());
    let res = solver.get_value("x", ValueKind::U32).unwrap();
    assert!(res == Value::U32(2));
}

#[test]
fn main_node_not_ready() {
    let g = Graph::new();
    let cache = ValuesCache::new();
    let mut solver = GraphSolver::new(&g, cache);

    let node = Node::new(
        "test",
        TaskBody::SumU32 { add: 1 },
        vec!["i".to_string()],
        vec!["x".to_string()],
    );

    assert!(node.run(&mut solver).is_err());
}

#[test]
fn main_construct_nodes() {
    let mut g = Graph::new();
    g.add_node(Node::new(
        "no output",
        TaskBody::Emit(vec![]),
        vec!["i".to_string(), "j".to_string()],
        vec![],
    ))
    .unwrap();

    g.add_node(Node::new(
        "no input",
        TaskBody::Emit(vec![
            Value::F32Bits(1.0f32.to_bits()),
            Value::F64Bits(4.0f64.to_bits()),
        ]),
        vec![],
        vec!["x".to_string(), "y".to_string()],
    ))
    .unwrap();

    g.add_node(Node::new(
        "both input and output",
        TaskBody::SumU32ToF32 { add: 0 },
        vec!["i2".to_string(), "j2".to_string()],
        vec!["x2".to_string(), "y2".to_string()],
    ))
    .unwrap();
}

#[test]
fn main_solver() {
    let g = Graph::new();
    let cache = ValuesCache::new();
    let mut s = GraphSolver::new(&g, cache);

    let a: i32 = 1;
    s.save_value_str("a", Value::I32(a));

    assert!(s.get_value("a", ValueKind::I32).is_ok());
    assert!(s.get_value("a", ValueKind::U32).is_err());
    assert!(s.get_value("j", ValueKind::U32).is_err());

    println!(" hey");
}
