use rgraph::float_bits::u32_to_f32_bits;
use rgraph::Cache;
use rgraph::Graph;
use rgraph::GraphError;
use rgraph::GraphSolver;
use rgraph::Node;
use rgraph::NodeRunner;
use rgraph::SolverError;
use rgraph::SolverStatus;
use rgraph::TaskBody;
use rgraph::Value;
use rgraph::ValueKind;
use rgraph::ValuesCache;

fn three_task_graph() -> Graph {
    let mut g = Graph::new();
    g.add_node(Node::new(
        "gen_one",
        TaskBody::Emit(vec![Value::U32(1)]),
        vec![],
        vec!["gen_one::one".to_string()],
    ))
    .unwrap();
    g.add_node(Node::new(
        "plus_one",
        TaskBody::SumU32 { add: 1 },
        vec!["plus_one::one".to_string()],
        vec!["plus_one::plusone".to_string()],
    ))
    .unwrap();
    g.add_node(Node::new(
        "combine",
        TaskBody::SumU32ToF32 { add: 0 },
        vec!["combine::one".to_string(), "combine::plusone".to_string()],
        vec!["combine::last".to_string()],
    ))
    .unwrap();
    g.bind_asset("gen_one::one", "plus_one::one").unwrap();
    g.bind_asset("gen_one::one", "combine::one").unwrap();
    g.bind_asset("plus_one::plusone", "combine::plusone").unwrap();
    g
}

// Requesting the same task twice within one solve leaves exactly the
// results of requesting it once.
#[test]
fn idempotent_within_one_solve() {
    let g = three_task_graph();
    let mut solver = GraphSolver::new(&g, ValuesCache::new());
    solver.execute("combine").expect("first request");
    let one = solver.get_value("gen_one::one", ValueKind::U32).unwrap();
    let plusone = solver.get_value("plus_one::plusone", ValueKind::U32).unwrap();
    let last = solver.get_value("combine::last", ValueKind::F32).unwrap();
    solver.execute("combine").expect("second request");
    assert_eq!(solver.get_value("gen_one::one", ValueKind::U32).unwrap(), one);
    assert_eq!(
        solver.get_value("plus_one::plusone", ValueKind::U32).unwrap(),
        plusone
    );
    assert_eq!(solver.get_value("combine::last", ValueKind::F32).unwrap(), last);
}

// Store round-trip: a value written under a name is read back equal under
// the same kind; another kind is a wrong-type failure; an unwritten name
// was never created.
#[test]
fn store_round_trip() {
    let mut cache = ValuesCache::new();
    cache.save_value_str("answer", Value::U64(42));
    assert_eq!(
        cache.get_value("answer", ValueKind::U64).unwrap(),
        Value::U64(42)
    );
    assert!(matches!(
        cache.get_value("answer", ValueKind::I64),
        Err(SolverError::AssetWrongType(n)) if n == "answer"
    ));
    assert!(matches!(
        cache.get_value("nothing", ValueKind::U64),
        Err(SolverError::AssetNotCreated(n)) if n == "nothing"
    ));
    cache.save_value_str("answer", Value::Bool(true));
    assert_eq!(
        cache.get_value("answer", ValueKind::Bool).unwrap(),
        Value::Bool(true)
    );
}

// Memoization across generations, with the varying input fed directly
// into the solver: an unchanged input reports the consumer Cached, a
// changed one reports it Executed with a fresh result.
#[test]
fn memoization_chain_statuses() {
    let mut g = Graph::new();
    g.add_node(Node::new(
        "a",
        TaskBody::SumU32 { add: 0 },
        vec!["a::i".to_string()],
        vec!["a::out".to_string()],
    ))
    .unwrap();
    g.add_node(Node::new(
        "b",
        TaskBody::SumU32 { add: 1 },
        vec!["b::in".to_string()],
        vec!["b::val".to_string()],
    ))
    .unwrap();
    g.bind_asset("a::out", "b::in").unwrap();

    let ta = g.get_node("a").unwrap();
    let tb = g.get_node("b").unwrap();

    let mut solver = GraphSolver::new(&g, ValuesCache::new());
    solver.save_value_str("a::i", Value::U32(5));
    assert!(matches!(ta.run(&mut solver), Ok(SolverStatus::Executed)));
    assert!(matches!(tb.run(&mut solver), Ok(SolverStatus::Executed)));
    assert_eq!(solver.get_value("b::val", ValueKind::U32).unwrap(), Value::U32(6));
    let cache = solver.finish();

    // same input as the previous generation: the chain is reused
    let mut solver = GraphSolver::new(&g, cache);
    solver.save_value_str("a::i", Value::U32(5));
    assert!(matches!(ta.run(&mut solver), Ok(SolverStatus::Cached)));
    assert!(matches!(tb.run(&mut solver), Ok(SolverStatus::Cached)));
    assert_eq!(solver.get_value("b::val", ValueKind::U32).unwrap(), Value::U32(6));
    let cache = solver.finish();

    // changed input: the chain recomputes
    let mut solver = GraphSolver::new(&g, cache);
    solver.save_value_str("a::i", Value::U32(7));
    assert!(matches!(ta.run(&mut solver), Ok(SolverStatus::Executed)));
    assert!(matches!(tb.run(&mut solver), Ok(SolverStatus::Executed)));
    assert_eq!(solver.get_value("b::val", ValueKind::U32).unwrap(), Value::U32(8));
}

// A chain fed by a freestanding asset is wholly reused on a second solve
// over the same baseline.
#[test]
fn memoization_freestanding_unchanged() {
    let mut g = Graph::new();
    g.define_freestanding_asset("start", Value::U32(3)).unwrap();
    g.add_node(Node::new(
        "a",
        TaskBody::SumU32 { add: 10 },
        vec!["a::i".to_string()],
        vec!["a::out".to_string()],
    ))
    .unwrap();
    g.add_node(Node::new(
        "b",
        TaskBody::SumU32 { add: 100 },
        vec!["b::in".to_string()],
        vec!["b::val".to_string()],
    ))
    .unwrap();
    g.bind_asset("start", "a::i").unwrap();
    g.bind_asset("a::out", "b::in").unwrap();

    let mut solver = GraphSolver::new(&g, ValuesCache::new());
    solver.execute("b").expect("first solve");
    assert_eq!(
        solver.get_value("b::val", ValueKind::U32).unwrap(),
        Value::U32(113)
    );
    let cache = solver.finish();

    let mut solver = GraphSolver::new(&g, cache);
    solver.execute("b").expect("second solve");
    let tb = g.get_node("b").unwrap();
    assert!(matches!(tb.run(&mut solver), Ok(SolverStatus::Cached)));
    assert_eq!(
        solver.get_value("b::val", ValueKind::U32).unwrap(),
        Value::U32(113)
    );
}

// Binding validation: a sink that is no declared input, then a source
// that is neither a declared output nor freestanding.
#[test]
fn binding_validation() {
    let mut g = Graph::new();
    g.add_node(Node::new(
        "p",
        TaskBody::Emit(vec![Value::U32(0)]),
        vec![],
        vec!["p::out".to_string()],
    ))
    .unwrap();
    g.add_node(Node::new(
        "c",
        TaskBody::Emit(vec![]),
        vec!["c::in".to_string()],
        vec![],
    ))
    .unwrap();

    assert!(matches!(
        g.bind_asset("p::out", "no::such"),
        Err(GraphError::UndefinedAssetSlot(n)) if n == "no::such"
    ));
    assert!(matches!(
        g.bind_asset("no::such", "c::in"),
        Err(GraphError::UndefinedAssetSlot(n)) if n == "no::such"
    ));
    assert!(g.bind_asset("p::out", "c::in").is_ok());
}

// Terminal discovery: a task with zero outputs is run by
// execute_terminals, and a graph without terminals is refused.
#[test]
fn terminal_discovery() {
    let mut g = Graph::new();
    g.add_node(Node::new(
        "src",
        TaskBody::Emit(vec![Value::U32(9)]),
        vec![],
        vec!["src::o".to_string()],
    ))
    .unwrap();
    g.add_node(Node::new(
        "drain",
        TaskBody::Emit(vec![]),
        vec!["drain::i".to_string()],
        vec![],
    ))
    .unwrap();
    g.bind_asset("src::o", "drain::i").unwrap();

    let mut solver = GraphSolver::new(&g, ValuesCache::new());
    solver.execute_terminals().expect("terminal must run");
    // the terminal's dependency ran, so its producer's output is stored
    assert_eq!(solver.get_value("src::o", ValueKind::U32).unwrap(), Value::U32(9));

    let mut g2 = Graph::new();
    g2.add_node(Node::new(
        "only",
        TaskBody::Emit(vec![Value::U32(0)]),
        vec![],
        vec!["only::o".to_string()],
    ))
    .unwrap();
    let mut solver2 = GraphSolver::new(&g2, ValuesCache::new());
    assert!(matches!(
        solver2.execute_terminals(),
        Err(SolverError::NoTerminalsDefined)
    ));
}

// The concrete three-task scenario: solving `combine` produces 1, 2 and
// 3.0, all still retrievable from the caller's store after the solver is
// finished.
#[test]
fn three_task_scenario() {
    let g = three_task_graph();
    let mut solver = GraphSolver::new(&g, ValuesCache::new());
    solver.execute("combine").expect("solve must succeed");
    let cache = solver.finish();

    assert_eq!(
        cache.get_value("gen_one::one", ValueKind::U32).unwrap(),
        Value::U32(1)
    );
    assert_eq!(
        cache.get_value("plus_one::plusone", ValueKind::U32).unwrap(),
        Value::U32(2)
    );
    let last = cache.get_value("combine::last", ValueKind::F32).unwrap();
    assert!(matches!(last, Value::F32Bits(bits) if f32::from_bits(bits) == 3.0f32));
}

// Three inputs and no bindings report exactly 3 unbound inputs; binding
// one leaves 2.
#[test]
fn unbound_inputs_counted() {
    let mut g = Graph::new();
    g.add_node(Node::new(
        "wide",
        TaskBody::Emit(vec![]),
        vec![
            "wide::a".to_string(),
            "wide::b".to_string(),
            "wide::c".to_string(),
        ],
        vec![],
    ))
    .unwrap();
    assert_eq!(g.get_unbound_assets().len(), 3);

    g.add_node(Node::new(
        "feed",
        TaskBody::Emit(vec![Value::U32(0)]),
        vec![],
        vec!["feed::v".to_string()],
    ))
    .unwrap();
    g.bind_asset("feed::v", "wide::b").unwrap();
    let unbound = g.get_unbound_assets();
    assert_eq!(unbound.len(), 2);
    assert!(unbound.contains(&"wide::a".to_string()));
    assert!(unbound.contains(&"wide::c".to_string()));
}

#[test]
fn construction_errors() {
    let mut g = Graph::new();
    g.add_node(Node::new("t", TaskBody::Emit(vec![]), vec![], vec![])).unwrap();
    assert!(matches!(
        g.add_node(Node::new("t", TaskBody::Emit(vec![]), vec![], vec![])),
        Err(GraphError::RedefinedNode(n)) if n == "t"
    ));

    g.define_freestanding_asset("k", Value::U32(1)).unwrap();
    assert!(matches!(
        g.define_freestanding_asset("k", Value::U32(2)),
        Err(GraphError::RedeclaredAsset(n)) if n == "k"
    ));
}

#[test]
fn solve_errors() {
    let mut g = Graph::new();
    g.add_node(Node::new(
        "lonely",
        TaskBody::SumU32 { add: 1 },
        vec!["lonely::i".to_string()],
        vec!["lonely::o".to_string()],
    ))
    .unwrap();

    let mut solver = GraphSolver::new(&g, ValuesCache::new());
    // the input is unbound and was not fed into the current store
    assert!(matches!(
        solver.execute("lonely"),
        Err(SolverError::AssetNotDeclared(n)) if n == "lonely::i"
    ));
    assert!(matches!(
        solver.execute("ghost"),
        Err(SolverError::NodeNotFound(n)) if n == "ghost"
    ));
    assert!(matches!(
        solver.get_binding("lonely::i"),
        Err(SolverError::AssetUnbound(n)) if n == "lonely::i"
    ));

    // fed directly, the unbound input satisfies the resolution and the run
    solver.save_value_str("lonely::i", Value::U32(41));
    assert!(solver.execute("lonely").is_ok());
    assert_eq!(
        solver.get_value("lonely::o", ValueKind::U32).unwrap(),
        Value::U32(42)
    );

    // a wrongly-kinded input fails the run with the source's name
    solver.save_value_str("lonely::i", Value::Bool(true));
    assert!(matches!(
        solver.execute("lonely"),
        Err(SolverError::AssetWrongType(n)) if n == "lonely::i"
    ));
}

#[test]
fn reuse_helpers() {
    let mut g = Graph::new();
    g.add_node(Node::new(
        "p",
        TaskBody::Emit(vec![Value::U32(7)]),
        vec![],
        vec!["p::o".to_string()],
    ))
    .unwrap();
    g.add_node(Node::new(
        "c",
        TaskBody::Emit(vec![]),
        vec!["c::i".to_string()],
        vec![],
    ))
    .unwrap();
    g.bind_asset("p::o", "c::i").unwrap();

    let mut solver = GraphSolver::new(&g, ValuesCache::new());
    solver.execute("c").unwrap();
    let cache = solver.finish();

    let mut solver = GraphSolver::new(&g, cache);
    // the previous store holds p::o == 7: an equal value is not new, a
    // different one is, and an unknown name is always new
    assert!(!solver.input_is_new_str(&Value::U32(7), "c::i"));
    assert!(solver.input_is_new_str(&Value::U32(8), "c::i"));
    assert!(solver.input_is_new_str(&Value::U32(7), "unknown"));

    // copying previous outputs succeeds exactly when all are present
    assert!(solver.use_old_ouput(&vec!["p::o".to_string()]));
    assert_eq!(solver.get_value("p::o", ValueKind::U32).unwrap(), Value::U32(7));
    assert!(!solver.use_old_ouput(&vec!["p::o".to_string(), "missing".to_string()]));
}

#[test]
fn f32_encoding_matches_cast() {
    let samples: [u32; 12] = [
        0,
        1,
        2,
        3,
        7,
        100,
        8_388_607,
        8_388_608,
        16_777_215,
        16_777_217,
        2_147_483_647,
        4_294_967_295,
    ];
    for &x in samples.iter() {
        let bits = u32_to_f32_bits(x);
        assert_eq!(f32::from_bits(bits), x as f32);
    }
}

#[test]
fn provider_queries() {
    let mut g = Graph::new();
    g.define_freestanding_asset("seed", Value::U32(2)).unwrap();
    g.add_node(Node::new(
        "user",
        TaskBody::SumU32 { add: 0 },
        vec!["user::i".to_string()],
        vec!["user::o".to_string()],
    ))
    .unwrap();
    g.bind_asset("seed", "user::i").unwrap();

    // the bare freestanding name answers as a preset, a bound input as its
    // producing task, an unknown name as nothing
    assert!(!g.what_provides("seed").is_none());
    assert!(!g.what_provides("user::i").is_none());
    assert!(g.what_provides("nowhere").is_none());
}
