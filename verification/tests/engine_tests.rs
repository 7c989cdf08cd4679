use rgraph::Cache;
use rgraph::Graph;
use rgraph::GraphSolver;
use rgraph::Node;
use rgraph::NodeRunner;
use rgraph::TaskBody;
use rgraph::Value;
use rgraph::ValueKind;
use rgraph::ValuesCache;

#[test]
fn lib_graph() {
    let mut g = Graph::new();

    let node = Node::new("one", TaskBody::Emit(vec![]), vec![], vec![]);
    g.add_node(node).unwrap();

    let node = Node::new("two", TaskBody::Emit(vec![]), vec![], vec![]);
    g.add_node(node).unwrap();

    let cache = ValuesCache::new();
    let mut solver = GraphSolver::new(&g, cache);

    let x = g.get_node("one").expect("must exist");
    assert!(x.run(&mut solver).is_ok());
    let y = g.get_node("two").expect("must exist");
    assert!(y.run(&mut solver).is_ok());
}

#[test]
fn lib_node_not_ready() {
    let g = Graph::new();
    let cache = ValuesCache::new();
    let mut solver = GraphSolver::new(&g, cache);

    let node = Node::new(
        "test",
        TaskBody::SumU32 { add: 1 },
        vec!["test::i".to_string()],
        vec!["test::x".to_string()],
    );

    assert!(node.run(&mut solver).is_err());
}

#[test]
fn lib_construct_nodes() {
    let mut g = Graph::new();
    g.add_node(Node::new(
        "no_output",
        TaskBody::Emit(vec![]),
        vec!["no_output::i".to_string(), "no_output::j".to_string()],
        vec![],
    ))
    .unwrap();

    g.add_node(Node::new(
        "no_input",
        TaskBody::Emit(vec![
            Value::F32Bits(1.0f32.to_bits()),
            Value::F64Bits(4.0f64.to_bits()),
        ]),
        vec![],
        vec!["no_input::x".to_string(), "no_input::y".to_string()],
    ))
    .unwrap();

    g.add_node(Node::new(
        "both_input_and_output",
        TaskBody::SumU32ToF32 { add: 0 },
        vec![
            "both_input_and_output::i".to_string(),
            "both_input_and_output::j".to_string(),
        ],
        vec![
            "both_input_and_output::x".to_string(),
            "both_input_and_output::y".to_string(),
        ],
    ))
    .unwrap();
}

#[test]
fn lib_solver() {
    let g = Graph::new();
    let cache = ValuesCache::new();
    let mut s = GraphSolver::new(&g, cache);

    let a: i32 = 1;
    s.save_value_str("a", Value::I32(a));

    assert!(s.get_value("a", ValueKind::I32).is_ok());
    assert!(s.get_value("a", ValueKind::U32).is_err());
    assert!(s.get_value("j", ValueKind::U32).is_err());

    println!(" hey");
}

#[test]
fn lib_graph_with_assets() {
    let mut g = Graph::new();

    g.add_node(Node::new(
        "gen_one",
        TaskBody::Emit(vec![Value::U32(1)]),
        vec![],
        vec!["gen_one::one".to_string()],
    ))
    .unwrap();

    g.add_node(Node::new(
        "plus_one",
        TaskBody::SumU32 { add: 1 },
        vec!["plus_one::one".to_string()],
        vec!["plus_one::plusone".to_string()],
    ))
    .unwrap();

    g.add_node(Node::new(
        "the_one_task",
        TaskBody::SumU32ToF32 { add: 0 },
        vec![
            "the_one_task::one".to_string(),
            "the_one_task::plusone".to_string(),
        ],
        vec!["the_one_task::last_value".to_string()],
    ))
    .unwrap();

    g.bind_asset("gen_one::one", "plus_one::one")
        .expect("binding must be doable");
    g.bind_asset("plus_one::plusone", "the_one_task::plusone")
        .expect("binding must be doable");
    g.bind_asset("gen_one::one", "the_one_task::one")
        .expect("binding must be doable");

    g.get_binding_str("plus_one::one").expect("binding must be set");
    g.get_binding_str("the_one_task::plusone")
        .expect("binding must be set");
    g.get_binding_str("the_one_task::one")
        .expect("binding must be set");

    let mut cache = ValuesCache::new();

    for _ in 0..10 {
        let mut solver = GraphSolver::new(&g, cache);
        assert!(solver.execute("nop").is_err());
        solver.execute("the_one_task").expect("could not execute");
        solver
            .get_value("the_one_task::last_value", ValueKind::F32)
            .expect("could not retrieve result");
        cache = solver.finish();
    }

    let last = cache
        .get_value("the_one_task::last_value", ValueKind::F32)
        .expect("must be f32");
    assert!(match last {
        Value::F32Bits(bits) => f32::from_bits(bits) == 3f32,
        _ => false,
    });
}

#[test]
fn terminals() {
    let mut g = Graph::new();
    g.add_node(Node::new(
        "sink_1",
        TaskBody::Emit(vec![]),
        vec!["sink_1::input".to_string()],
        vec![],
    ))
    .unwrap();

    g.add_node(Node::new(
        "sink_2",
        TaskBody::Emit(vec![]),
        vec!["sink_2::name".to_string()],
        vec![],
    ))
    .unwrap();

    g.add_node(Node::new(
        "no_input",
        TaskBody::Emit(vec![Value::U32(1234)]),
        vec![],
        vec!["no_input::o".to_string()],
    ))
    .unwrap();

    g.bind_asset("no_input::o", "sink_1::input")
        .expect("binding must be doable");
    g.bind_asset("no_input::o", "sink_2::name")
        .expect("binding must be doable");

    let cache = ValuesCache::new();
    let cache = {
        let mut solver = GraphSolver::new(&g, cache);
        solver.execute_terminals().expect("this should run");
        solver.finish()
    };

    assert!(
        cache.get_value("no_input::o", ValueKind::U32).expect("must be u32") == Value::U32(1234)
    );
}

#[test]
fn freestanding_assets() {
    let mut g = Graph::new();

    g.add_node(Node::new(
        "node1",
        TaskBody::Emit(vec![]),
        vec!["node1::a".to_string()],
        vec![],
    ))
    .unwrap();
    assert!(g.get_unbound_assets().len() == 1);

    g.define_freestanding_asset("startvalue", Value::I32(0))
        .expect("redeclared?");

    g.bind_asset("startvalue", "node1::a")
        .expect("binding must be doable");

    println!("{:?}", g.get_freestanding_assets());
    println!("{:?}", g.get_unbound_assets());
    assert!(g.get_unbound_assets().len() == 0);
}

#[test]
fn unbound_assets() {
    let mut g = Graph::new();
    assert!(g.get_unbound_assets().len() == 0);

    g.add_node(Node::new(
        "consumer",
        TaskBody::Emit(vec![]),
        vec![
            "consumer::a".to_string(),
            "consumer::b".to_string(),
            "consumer::c".to_string(),
        ],
        vec![],
    ))
    .unwrap();
    assert!(g.get_unbound_assets().len() == 3);

    g.add_node(Node::new(
        "producer",
        TaskBody::Emit(vec![Value::I32(1)]),
        vec![],
        vec!["producer::v".to_string()],
    ))
    .unwrap();
    assert!(g.get_unbound_assets().len() == 3);

    g.bind_asset("producer::v", "consumer::b")
        .expect("binding must be doable");
    println!("{:?}", g.get_unbound_assets());
    assert!(g.get_unbound_assets().len() == 2);
}
