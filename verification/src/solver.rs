//! The transient execution engine.
//!
//! A solver is built for one solve over a graph and the caller's store
//! from the previous solve, executes the requested tasks' dependency
//! closures against a fresh current store, and hands the populated store
//! back through [`GraphSolver::finish`], making it the baseline of the
//! next generation.
//!
//! The behaviour of one task run is pinned down by [`run_model`]: read
//! every input through its binding, compare each against the previous
//! store, and either reuse the previously stored outputs (`Cached`) or
//! execute the body and store fresh outputs (`Executed`).

use vstd::prelude::*;

use crate::errors::SolverError;
use crate::errors::SolverErrorV;
use crate::errors::SolverStatus;
use crate::graph::AssetProvider;
use crate::graph::Graph;
use crate::graph::GraphModel;
use crate::graph::graph_wf;
use crate::graph::provider_model;
use crate::graph::ProviderModel;
use crate::node::body_kind;
use crate::node::body_kind_req;
use crate::node::body_vals;
use crate::node::eval_body;
use crate::node::Node;
use crate::node::NodeModel;
use crate::store::Cache;
use crate::store::ValuesCache;
use crate::value::kind_of;
use crate::value::Value;
use crate::value::ValueKind;

verus! {

/// The store name an input is read under: its binding when bound, its own
/// name otherwise.
pub open spec fn input_source(bindings: Map<Seq<char>, Seq<char>>, n: Seq<char>) -> Seq<char> {
    if bindings.dom().contains(n) {
        bindings[n]
    } else {
        n
    }
}

/// Reading the inputs `ins` from the store `cur`, in order: the values
/// read, or the first failure.  When `kreq` names a kind, a value of any
/// other kind is a wrong-type failure.
pub open spec fn read_inputs(
    cur: Map<Seq<char>, Value>,
    bindings: Map<Seq<char>, Seq<char>>,
    ins: Seq<Seq<char>>,
    kreq: Option<ValueKind>,
) -> Result<Seq<Value>, SolverErrorV>
    decreases ins.len(),
{
    if ins.len() == 0 {
        Ok(Seq::empty())
    } else {
        let src = input_source(bindings, ins[0]);
        if !cur.dom().contains(src) {
            Err(SolverErrorV::AssetNotCreated(src))
        } else if kreq is Some && kind_of(cur[src]) != kreq->Some_0 {
            Err(SolverErrorV::AssetWrongType(src))
        } else {
            match read_inputs(cur, bindings, ins.drop_first(), kreq) {
                Ok(vs) => Ok(seq![cur[src]] + vs),
                Err(e) => Err(e),
            }
        }
    }
}

proof fn lemma_read_inputs_concat(
    cur: Map<Seq<char>, Value>,
    bindings: Map<Seq<char>, Seq<char>>,
    a: Seq<Seq<char>>,
    b: Seq<Seq<char>>,
    kreq: Option<ValueKind>,
)
    ensures
        read_inputs(cur, bindings, a + b, kreq) == (match read_inputs(cur, bindings, a, kreq) {
            Err(e) => Err::<Seq<Value>, SolverErrorV>(e),
            Ok(va) => match read_inputs(cur, bindings, b, kreq) {
                Err(e) => Err(e),
                Ok(vb) => Ok(va + vb),
            },
        }),
    decreases a.len(),
{
    if a.len() == 0 {
        assert(a + b =~= b);
        match read_inputs(cur, bindings, b, kreq) {
            Ok(vb) => {
                assert(Seq::<Value>::empty() + vb =~= vb);
            },
            Err(_) => {},
        }
    } else {
        assert((a + b)[0] == a[0]);
        assert((a + b).drop_first() =~= a.drop_first() + b);
        lemma_read_inputs_concat(cur, bindings, a.drop_first(), b, kreq);
        let src = input_source(bindings, a[0]);
        if cur.dom().contains(src) && !(kreq is Some && kind_of(cur[src]) != kreq->Some_0) {
            match read_inputs(cur, bindings, a.drop_first(), kreq) {
                Ok(va1) => {
                    match read_inputs(cur, bindings, b, kreq) {
                        Ok(vb) => {
                            assert(seq![cur[src]] + (va1 + vb) =~= (seq![cur[src]] + va1) + vb);
                        },
                        Err(_) => {},
                    }
                },
                Err(_) => {},
            }
        }
    }
}

/// Whether every input of `ins` reads the same value from `cur` as the
/// previous store `prev` holds under the same source name.  Vacuously true
/// of a task with no inputs.
pub open spec fn inputs_unchanged(
    cur: Map<Seq<char>, Value>,
    prev: Map<Seq<char>, Value>,
    bindings: Map<Seq<char>, Seq<char>>,
    ins: Seq<Seq<char>>,
) -> bool {
    forall|i: int|
        0 <= i < ins.len() ==> {
            let src = input_source(bindings, #[trigger] ins[i]);
            prev.dom().contains(src) && prev[src] == cur[src]
        }
}

/// Whether the previous store holds every declared output.
pub open spec fn outs_in_prev(prev: Map<Seq<char>, Value>, outs: Seq<Seq<char>>) -> bool {
    forall|i: int| 0 <= i < outs.len() ==> prev.dom().contains(#[trigger] outs[i])
}

/// The store after copying the first `n` outputs from `prev`, in order.
pub open spec fn copy_outputs_n(
    cur: Map<Seq<char>, Value>,
    prev: Map<Seq<char>, Value>,
    outs: Seq<Seq<char>>,
    n: int,
) -> Map<Seq<char>, Value>
    decreases n,
{
    if n <= 0 {
        cur
    } else {
        copy_outputs_n(cur, prev, outs, n - 1).insert(outs[n - 1], prev[outs[n - 1]])
    }
}

/// The store after writing `vals[i]` under `outs[i]`, in order, for the
/// first `n` pairs.
pub open spec fn write_outputs_n(
    m: Map<Seq<char>, Value>,
    outs: Seq<Seq<char>>,
    vals: Seq<Value>,
    n: int,
) -> Map<Seq<char>, Value>
    decreases n,
{
    if n <= 0 {
        m
    } else {
        write_outputs_n(m, outs, vals, n - 1).insert(outs[n - 1], vals[n - 1])
    }
}

/// The store after writing the body's values to the declared outputs,
/// pairwise in order.
pub open spec fn write_outputs(
    m: Map<Seq<char>, Value>,
    outs: Seq<Seq<char>>,
    vals: Seq<Value>,
) -> Map<Seq<char>, Value> {
    write_outputs_n(
        m,
        outs,
        vals,
        if outs.len() <= vals.len() {
            outs.len() as int
        } else {
            vals.len() as int
        },
    )
}

/// One run of task `t` against the current store `cur` and the previous
/// store `prev`: every input is read through its binding (the first
/// failure aborts the run and leaves the store untouched); when no input
/// changed since the previous solve and every output is available there,
/// the previous outputs are copied over and the run reports `Cached`;
/// otherwise the body executes on the values read and its outputs are
/// written.
pub open spec fn run_model(
    bindings: Map<Seq<char>, Seq<char>>,
    t: NodeModel,
    cur: Map<Seq<char>, Value>,
    prev: Map<Seq<char>, Value>,
) -> Result<(SolverStatus, Map<Seq<char>, Value>), SolverErrorV> {
    match read_inputs(cur, bindings, t.ins, body_kind_req(t.body)) {
        Err(e) => Err(e),
        Ok(vals) => {
            if inputs_unchanged(cur, prev, bindings, t.ins) && outs_in_prev(prev, t.outs) {
                Ok((SolverStatus::Cached, copy_outputs_n(cur, prev, t.outs, t.outs.len() as int)))
            } else {
                Ok((SolverStatus::Executed, write_outputs(cur, t.outs, body_vals(t.body, vals))))
            }
        },
    }
}

/// The relation between a run's result and the store it leaves behind, as
/// [`run_model`] gives them: a failed run leaves the store untouched.
pub open spec fn run_post(
    bindings: Map<Seq<char>, Seq<char>>,
    t: NodeModel,
    cur0: Map<Seq<char>, Value>,
    prev: Map<Seq<char>, Value>,
    cur1: Map<Seq<char>, Value>,
    r: Result<SolverStatus, SolverError>,
) -> bool {
    match run_model(bindings, t, cur0, prev) {
        Ok((st, m)) => r is Ok && r->Ok_0 == st && cur1 == m,
        Err(e) => r is Err && r->Err_0@ == e && cur1 == cur0,
    }
}

/// The number of leading outputs the previous store can supply.
pub open spec fn copied_prefix_len(prev: Map<Seq<char>, Value>, outs: Seq<Seq<char>>) -> int
    decreases outs.len(),
{
    if outs.len() == 0 {
        0
    } else if !prev.dom().contains(outs[0]) {
        0
    } else {
        1 + copied_prefix_len(prev, outs.drop_first())
    }
}

proof fn lemma_copied_prefix_len_is(prev: Map<Seq<char>, Value>, outs: Seq<Seq<char>>, k: int)
    requires
        0 <= k <= outs.len(),
        forall|j: int| 0 <= j < k ==> prev.dom().contains(#[trigger] outs[j]),
        k < outs.len() ==> !prev.dom().contains(outs[k]),
    ensures
        copied_prefix_len(prev, outs) == k,
    decreases outs.len(),
{
    if outs.len() > 0 && k > 0 {
        assert(prev.dom().contains(outs[0]));
        assert forall|j: int| 0 <= j < k - 1 implies prev.dom().contains(
            #[trigger] outs.drop_first()[j],
        ) by {
            assert(outs.drop_first()[j] == outs[j + 1]);
        }
        if k - 1 < outs.drop_first().len() {
            assert(outs.drop_first()[k - 1] == outs[k]);
        }
        lemma_copied_prefix_len_is(prev, outs.drop_first(), k - 1);
    }
}


/// The outcome of the worklist traversal that resolves a dependency
/// closure, under a fuel bound: the visitation list, a failure, or fuel
/// exhaustion (which a cyclic binding graph forces at every fuel).
pub enum Resolution {
    Done(Seq<usize>),
    Stuck(SolverErrorV),
    OutOfFuel,
}

/// Scanning one task's inputs during closure resolution, in order: the
/// producer tasks to enqueue, or the first failure.  An unbound input must
/// already be fed into the current store; a bound one must resolve to a
/// producing task — a freestanding asset reached through a binding is an
/// unsupported path, and anything else has no producer.
pub open spec fn scan_inputs(
    g: GraphModel,
    ins: Seq<Seq<char>>,
    cur: Map<Seq<char>, Value>,
) -> Result<Seq<usize>, SolverErrorV>
    decreases ins.len(),
{
    if ins.len() == 0 {
        Ok(Seq::empty())
    } else {
        let n = ins[0];
        if !g.bindings.dom().contains(n) {
            if !cur.dom().contains(n) {
                Err(SolverErrorV::AssetNotDeclared(n))
            } else {
                scan_inputs(g, ins.drop_first(), cur)
            }
        } else {
            let b = g.bindings[n];
            match provider_model(g, b) {
                ProviderModel::Node(t) => match scan_inputs(g, ins.drop_first(), cur) {
                    Ok(rest) => Ok(seq![t] + rest),
                    Err(e) => Err(e),
                },
                ProviderModel::Preset(_) => Err(SolverErrorV::NotImplemented),
                ProviderModel::Missing => Err(SolverErrorV::AssetNotProduced(b)),
            }
        }
    }
}

proof fn lemma_scan_inputs_concat(
    g: GraphModel,
    a: Seq<Seq<char>>,
    b: Seq<Seq<char>>,
    cur: Map<Seq<char>, Value>,
)
    ensures
        scan_inputs(g, a + b, cur) == (match scan_inputs(g, a, cur) {
            Err(e) => Err::<Seq<usize>, SolverErrorV>(e),
            Ok(pa) => match scan_inputs(g, b, cur) {
                Err(e) => Err(e),
                Ok(pb) => Ok(pa + pb),
            },
        }),
    decreases a.len(),
{
    if a.len() == 0 {
        assert(a + b =~= b);
        match scan_inputs(g, b, cur) {
            Ok(pb) => {
                assert(Seq::<usize>::empty() + pb =~= pb);
            },
            Err(_) => {},
        }
    } else {
        assert((a + b)[0] == a[0]);
        assert((a + b).drop_first() =~= a.drop_first() + b);
        lemma_scan_inputs_concat(g, a.drop_first(), b, cur);
        let n = a[0];
        if g.bindings.dom().contains(n) {
            let bd = g.bindings[n];
            if provider_model(g, bd) is Node {
                let t = provider_model(g, bd)->Node_0;
                match scan_inputs(g, a.drop_first(), cur) {
                    Ok(pa1) => {
                        match scan_inputs(g, b, cur) {
                            Ok(pb) => {
                                assert(seq![t] + (pa1 + pb) =~= (seq![t] + pa1) + pb);
                            },
                            Err(_) => {},
                        }
                    },
                    Err(_) => {},
                }
            }
        }
    }
}

/// The worklist traversal: pop a task from the queue's end, enqueue the
/// producers of its bound inputs, append it to the visitation list, and
/// repeat until the queue empties or a resolution failure occurs.
pub open spec fn resolve_model(
    g: GraphModel,
    queue: Seq<usize>,
    acc: Seq<usize>,
    cur: Map<Seq<char>, Value>,
    fuel: nat,
) -> Resolution
    decreases fuel,
{
    if queue.len() == 0 {
        Resolution::Done(acc)
    } else if fuel == 0 {
        Resolution::OutOfFuel
    } else {
        let t = queue.last();
        match scan_inputs(g, g.tasks[t as int].ins, cur) {
            Err(e) => Resolution::Stuck(e),
            Ok(pushes) => resolve_model(
                g,
                queue.drop_last() + pushes,
                acc.push(t),
                cur,
                (fuel - 1) as nat,
            ),
        }
    }
}

/// The task models at the given arena indices, in order.
pub open spec fn tasks_of(g: GraphModel, order: Seq<usize>) -> Seq<NodeModel> {
    order.map_values(|t: usize| g.tasks[t as int])
}

/// Running a list of tasks in order, each as [`run_model`] states, threading
/// the store through: the final store, and the first failure if any run
/// fails (the store then holds what the earlier runs wrote).
pub open spec fn run_seq(
    bindings: Map<Seq<char>, Seq<char>>,
    tasks: Seq<NodeModel>,
    cur: Map<Seq<char>, Value>,
    prev: Map<Seq<char>, Value>,
) -> (Map<Seq<char>, Value>, Option<SolverErrorV>)
    decreases tasks.len(),
{
    if tasks.len() == 0 {
        (cur, None)
    } else {
        match run_model(bindings, tasks[0], cur, prev) {
            Err(e) => (cur, Some(e)),
            Ok((st, cur1)) => run_seq(bindings, tasks.drop_first(), cur1, prev),
        }
    }
}

proof fn lemma_run_seq_concat(
    bindings: Map<Seq<char>, Seq<char>>,
    a: Seq<NodeModel>,
    b: Seq<NodeModel>,
    cur: Map<Seq<char>, Value>,
    prev: Map<Seq<char>, Value>,
)
    ensures
        run_seq(bindings, a + b, cur, prev) == (match run_seq(bindings, a, cur, prev) {
            (m, Some(e)) => (m, Some(e)),
            (m, None) => run_seq(bindings, b, m, prev),
        }),
    decreases a.len(),
{
    if a.len() == 0 {
        assert(a + b =~= b);
    } else {
        assert((a + b)[0] == a[0]);
        assert((a + b).drop_first() =~= a.drop_first() + b);
        match run_model(bindings, a[0], cur, prev) {
            Err(_) => {},
            Ok((st, cur1)) => {
                lemma_run_seq_concat(bindings, a.drop_first(), b, cur1, prev);
            },
        }
    }
}

/// What a solve leaves behind: on success there is a fuel under which the
/// worklist traversal of the requested tasks finishes with a visitation
/// list, and the store is exactly the result of running that list in
/// reverse; on failure either the traversal itself fails (and the store is
/// untouched), or some run fails (and the store holds what the earlier
/// runs wrote).
pub open spec fn solve_post(
    g: GraphModel,
    reqs: Seq<usize>,
    cur0: Map<Seq<char>, Value>,
    prev: Map<Seq<char>, Value>,
    cur1: Map<Seq<char>, Value>,
    r: Result<SolverStatus, SolverError>,
) -> bool {
    match r {
        Ok(st) => st == SolverStatus::Executed && exists|fuel: nat, order: Seq<usize>|
            #![trigger resolve_model(g, reqs, Seq::empty(), cur0, fuel), tasks_of(g, order.reverse())]
            resolve_model(g, reqs, Seq::empty(), cur0, fuel) == Resolution::Done(order) && run_seq(
                g.bindings,
                tasks_of(g, order.reverse()),
                cur0,
                prev,
            ) == (cur1, None::<SolverErrorV>),
        Err(e) => {
            ||| ((exists|fuel: nat|
                #[trigger] resolve_model(g, reqs, Seq::empty(), cur0, fuel) == Resolution::Stuck(
                    e@,
                )) && cur1 == cur0)
            ||| (e@ == SolverErrorV::TraversalLimitReached && resolve_model(
                g,
                reqs,
                Seq::empty(),
                cur0,
                0xffff_ffff_ffff_ffff as nat,
            ) == Resolution::OutOfFuel && cur1 == cur0)
            ||| (exists|fuel: nat, order: Seq<usize>|
                #![trigger resolve_model(g, reqs, Seq::empty(), cur0, fuel), tasks_of(g, order.reverse())]
                resolve_model(g, reqs, Seq::empty(), cur0, fuel) == Resolution::Done(order)
                    && run_seq(g.bindings, tasks_of(g, order.reverse()), cur0, prev) == (
                cur1,
                Some(e@),
                ))
        },
    }
}

/// The transient solver: a reference to the graph, the store being
/// populated this solve, and the previous solve's store.
pub struct GraphSolver<'a> {
    graph: &'a Graph,
    cache: ValuesCache,
    last_cache: ValuesCache,
}

impl<'a> GraphSolver<'a> {
    /// The store populated by this solve.
    pub closed spec fn cur(&self) -> Map<Seq<char>, Value> {
        self.cache@
    }

    /// The previous solve's store.
    pub closed spec fn prev(&self) -> Map<Seq<char>, Value> {
        self.last_cache@
    }

    /// The graph this solver executes over.
    pub closed spec fn graph_model(&self) -> GraphModel {
        self.graph@
    }

    /// The solver's internal well-formedness, established by the
    /// constructor and preserved by every operation.
    pub closed spec fn wf(&self) -> bool {
        self.graph.wf() && self.cache.wf() && self.last_cache.wf()
    }

    /// A well-formed solver always sits over a well-formed graph.
    pub broadcast proof fn lemma_wf_graph(&self)
        requires
            #[trigger] self.wf(),
        ensures
            graph_wf(self.graph_model()),
    {
        self.graph.lemma_wf_model();
    }

    /// A solver for one solve over `graph`, taking the previous solve's
    /// store (which may be empty) as the memoization baseline.
    pub fn new(graph: &'a Graph, last_cache: ValuesCache) -> (r: GraphSolver<'a>)
        requires
            graph.wf(),
            last_cache.wf(),
        ensures
            r.wf(),
            r.graph_model() == graph@,
            r.cur() == Map::<Seq<char>, Value>::empty(),
            r.prev() == last_cache@,
    {
        GraphSolver { graph, cache: ValuesCache::new(), last_cache }
    }

    /// Ends the solve and hands the populated store back to the caller:
    /// the results of this solve become the next generation's baseline.
    pub fn finish(self) -> (r: ValuesCache)
        requires
            self.wf(),
        ensures
            r.wf(),
            r@ == self.cur(),
    {
        self.cache
    }

    /// The binding recorded for the input `name`; an unbound input is a
    /// solve-time failure.
    pub fn get_binding(&self, name: &str) -> (r: Result<&String, SolverError>)
        requires
            self.wf(),
        ensures
            match r {
                Ok(b) => self.graph_model().bindings.dom().contains(name@) && b@
                    == self.graph_model().bindings[name@],
                Err(e) => e@ == SolverErrorV::AssetUnbound(name@)
                    && !self.graph_model().bindings.dom().contains(name@),
            },
    {
        match self.graph.get_binding_str(name) {
            Some(x) => Ok(x),
            None => Err(SolverError::AssetUnbound(name.to_owned())),
        }
    }

    /// The store populated by this solve so far.
    pub fn get_values(&self) -> (r: &ValuesCache)
        ensures
            r@ == self.cur(),
    {
        &self.cache
    }

    /// Whether the value about to be used for the input `name` differs
    /// from the one the previous store holds under the same source name; a
    /// value absent there counts as new.
    pub fn input_is_new(&self, new_value: &Value, name: &String) -> (r: bool)
        requires
            self.wf(),
        ensures
            r == !{
                let src = input_source(self.graph_model().bindings, name@);
                self.prev().dom().contains(src) && self.prev()[src] == *new_value
            },
    {
        self.input_is_new_str(new_value, name.as_str())
    }

    /// Whether the value about to be used for the input `name` differs
    /// from the one the previous store holds under the same source name; a
    /// value absent there counts as new.
    pub fn input_is_new_str(&self, new_value: &Value, name: &str) -> (r: bool)
        requires
            self.wf(),
        ensures
            r == !{
                let src = input_source(self.graph_model().bindings, name@);
                self.prev().dom().contains(src) && self.prev()[src] == *new_value
            },
    {
        let src: String = match self.graph.get_binding_str(name) {
            Some(b) => b.clone(),
            None => name.to_owned(),
        };
        match self.last_cache.read(src.as_str()) {
            Some(old_value) => !(old_value == *new_value),
            None => true,
        }
    }

    /// Copies the named outputs from the previous store into the current
    /// one, in order, stopping at the first output the previous store
    /// lacks; reports whether all of them were available.
    pub fn use_old_ouput(&mut self, ouputs: &Vec<String>) -> (r: bool)
        requires
            old(self).wf(),
        ensures
            final(self).wf(),
            final(self).graph_model() == old(self).graph_model(),
            final(self).prev() == old(self).prev(),
            r == outs_in_prev(old(self).prev(), ouputs.deep_view()),
            final(self).cur() == copy_outputs_n(
                old(self).cur(),
                old(self).prev(),
                ouputs.deep_view(),
                copied_prefix_len(old(self).prev(), ouputs.deep_view()),
            ),
    {
        let ghost dv = ouputs.deep_view();
        let n = ouputs.len();
        for k in 0..n
            invariant
                self.wf(),
                self.graph_model() == old(self).graph_model(),
                self.prev() == old(self).prev(),
                n == dv.len(),
                ouputs.deep_view() == dv,
                forall|j: int| 0 <= j < k ==> self.prev().dom().contains(#[trigger] dv[j]),
                self.cur() == copy_outputs_n(old(self).cur(), old(self).prev(), dv, k as int),
        {
            proof {
                assert(ouputs.deep_view()[k as int] == ouputs@[k as int]@);
            }
            match self.last_cache.read(ouputs[k].as_str()) {
                Some(v) => {
                    self.cache.save_value(&ouputs[k], v);
                },
                None => {
                    proof {
                        lemma_copied_prefix_len_is(self.prev(), dv, k as int);
                    }
                    return false;
                },
            }
        }
        proof {
            lemma_copied_prefix_len_is(self.prev(), dv, n as int);
        }
        true
    }

    /// Executes the task `name`: resolves its transitive dependency
    /// closure and runs it in dependency order, as [`solve_post`] states.
    /// A name with no registered task is [`SolverError::NodeNotFound`].
    pub fn execute(&mut self, name: &str) -> (r: Result<SolverStatus, SolverError>)
        requires
            old(self).wf(),
        ensures
            final(self).wf(),
            final(self).graph_model() == old(self).graph_model(),
            final(self).prev() == old(self).prev(),
            ({
                let g = old(self).graph_model();
                if g.names.dom().contains(name@) {
                    solve_post(
                        g,
                        seq![g.names[name@]],
                        old(self).cur(),
                        old(self).prev(),
                        final(self).cur(),
                        r,
                    )
                } else {
                    r matches Err(e) && e@ == SolverErrorV::NodeNotFound(name@) && final(self).cur()
                        == old(self).cur()
                }
            }),
    {
        let gref = self.graph;
        match gref.node_index(name) {
            Some(idx) => {
                proof {
                    gref.lemma_wf_model();
                }
                let mut reqs: Vec<usize> = Vec::new();
                reqs.push(idx);
                proof {
                    assert(reqs@ =~= seq![self.graph_model().names[name@]]);
                }
                self.execute_all(&reqs)
            },
            None => Err(SolverError::NodeNotFound(name.to_owned())),
        }
    }

    /// Executes every terminal task, with its dependency closure, as
    /// [`solve_post`] states; a graph without terminals is
    /// [`SolverError::NoTerminalsDefined`].
    pub fn execute_terminals(&mut self) -> (r: Result<SolverStatus, SolverError>)
        requires
            old(self).wf(),
        ensures
            final(self).wf(),
            final(self).graph_model() == old(self).graph_model(),
            final(self).prev() == old(self).prev(),
            ({
                let g = old(self).graph_model();
                if g.terminals.len() == 0 {
                    r matches Err(e) && e@ == SolverErrorV::NoTerminalsDefined && final(self).cur()
                        == old(self).cur()
                } else {
                    solve_post(
                        g,
                        g.terminals,
                        old(self).cur(),
                        old(self).prev(),
                        final(self).cur(),
                        r,
                    )
                }
            }),
    {
        let gref = self.graph;
        let terms = gref.get_terminals();
        let n = terms.len();
        if n == 0 {
            return Err(SolverError::NoTerminalsDefined);
        }
        proof {
            gref.lemma_wf_model();
        }
        let mut reqs: Vec<usize> = Vec::new();
        for i in 0..n
            invariant
                n == terms@.len(),
                terms@ == gref@.terminals,
                reqs@ == terms@.take(i as int),
        {
            reqs.push(terms[i]);
            proof {
                assert(terms@.take(i + 1) =~= terms@.take(i as int).push(terms@[i as int]));
            }
        }
        proof {
            assert(terms@.take(n as int) =~= terms@);
        }
        self.execute_all(&reqs)
    }

    /// Resolves and runs the dependency closure of the requested tasks:
    /// the worklist traversal of [`resolve_model`], then every visited
    /// task in reverse visitation order.
    fn execute_all(&mut self, reqs: &Vec<usize>) -> (r: Result<SolverStatus, SolverError>)
        requires
            old(self).wf(),
            forall|i: int|
                0 <= i < reqs@.len() ==> (#[trigger] reqs@[i]) < old(
                    self,
                ).graph_model().tasks.len(),
        ensures
            final(self).wf(),
            final(self).graph_model() == old(self).graph_model(),
            final(self).prev() == old(self).prev(),
            solve_post(
                old(self).graph_model(),
                reqs@,
                old(self).cur(),
                old(self).prev(),
                final(self).cur(),
                r,
            ),
    {
        let ghost g = self.graph_model();
        let ghost cur0 = self.cur();
        let ghost prev = self.prev();
        proof {
            self.lemma_wf_graph();
        }
        let n_reqs = reqs.len();
        let mut queue: Vec<usize> = Vec::new();
        for i in 0..n_reqs
            invariant
                n_reqs == reqs@.len(),
                queue@ == reqs@.take(i as int),
        {
            queue.push(reqs[i]);
            proof {
                assert(reqs@.take(i + 1) =~= reqs@.take(i as int).push(reqs@[i as int]));
            }
        }
        proof {
            assert(reqs@.take(n_reqs as int) =~= reqs@);
        }
        let mut to_run: Vec<usize> = Vec::new();
        let ghost mut steps: nat = 0;
        let mut fuel: u64 = u64::MAX;
        while queue.len() != 0
            invariant
                steps + fuel == u64::MAX,
                self.wf(),
                self.graph_model() == old(self).graph_model(),
                self.cur() == cur0,
                self.prev() == prev,
                g == old(self).graph_model(),
                cur0 == old(self).cur(),
                prev == old(self).prev(),
                graph_wf(g),
                forall|i: int| 0 <= i < queue@.len() ==> (#[trigger] queue@[i]) < g.tasks.len(),
                forall|i: int| 0 <= i < to_run@.len() ==> (#[trigger] to_run@[i]) < g.tasks.len(),
                forall|f: nat|
                    resolve_model(g, reqs@, Seq::empty(), cur0, (f + steps) as nat)
                        == #[trigger] resolve_model(g, queue@, to_run@, cur0, f),
            decreases fuel,
        {
            if fuel == 0 {
                proof {
                    assert(resolve_model(g, queue@, to_run@, cur0, 0) == Resolution::OutOfFuel);
                    assert(resolve_model(g, reqs@, Seq::empty(), cur0, (0 + steps) as nat)
                        == Resolution::OutOfFuel);
                }
                return Err(SolverError::TraversalLimitReached);
            }
            fuel = fuel - 1;
            let ghost q_head = queue@;
            let ghost acc_head = to_run@;
            let t: usize = match queue.pop() {
                Some(t) => t,
                None => {
                    proof {
                        assert(false);
                    }
                    0
                },
            };
            let ghost q0 = queue@;
            proof {
                assert(q_head.last() == t);
                assert(q_head.drop_last() =~= q0);
            }
            let gref = self.graph;
            let task = gref.task_at(t);
            let ins = task.get_ins();
            let m = ins.len();
            let ghost tins = g.tasks[t as int].ins;
            let ghost mut pushed: Seq<usize> = Seq::empty();
            for j in 0..m
                invariant
                    self.wf(),
                    self.graph_model() == old(self).graph_model(),
                    self.cur() == cur0,
                    self.prev() == prev,
                    g == old(self).graph_model(),
                    cur0 == old(self).cur(),
                    prev == old(self).prev(),
                    graph_wf(g),
                    gref == self.graph,
                    gref.wf(),
                    gref@ == g,
                    t < g.tasks.len(),
                    tins == g.tasks[t as int].ins,
                    ins.deep_view() == tins,
                    m == tins.len(),
                    queue@ == q0 + pushed,
                    to_run@ == acc_head,
                    q_head == q0.push(t),
                    forall|i: int| 0 <= i < q0.len() ==> (#[trigger] q0[i]) < g.tasks.len(),
                    forall|i: int| 0 <= i < to_run@.len() ==> (#[trigger] to_run@[i]) < g.tasks.len(),
                    forall|i: int| 0 <= i < pushed.len() ==> (#[trigger] pushed[i]) < g.tasks.len(),
                    forall|f: nat|
                        resolve_model(g, reqs@, Seq::empty(), cur0, (f + steps) as nat)
                            == #[trigger] resolve_model(g, q_head, acc_head, cur0, f),
                    scan_inputs(g, tins.take(j as int), cur0) == Ok::<Seq<usize>, SolverErrorV>(
                        pushed,
                    ),
            {
                let ghost sng = seq![tins[j as int]];
                proof {
                    assert(ins.deep_view()[j as int] == ins@[j as int]@);
                    assert(tins.take(j + 1) =~= tins.take(j as int) + sng);
                    lemma_scan_inputs_concat(g, tins.take(j as int), sng, cur0);
                    assert(sng.drop_first() =~= Seq::<Seq<char>>::empty());
                    assert(scan_inputs(g, sng.drop_first(), cur0) == Ok::<Seq<usize>, SolverErrorV>(
                        Seq::empty(),
                    ));
                    assert(tins =~= tins.take(j + 1) + tins.skip(j + 1));
                }
                let input = &ins[j];
                match gref.get_binding(input) {
                    None => {
                        if !self.cache.contains(input.as_str()) {
                            proof {
                                let e = SolverErrorV::AssetNotDeclared(tins[j as int]);
                                assert(scan_inputs(g, sng, cur0) == Err::<Seq<usize>, SolverErrorV>(
                                    e,
                                ));
                                lemma_scan_inputs_concat(g, tins.take(j + 1), tins.skip(j + 1), cur0);
                                assert(scan_inputs(g, tins, cur0) == Err::<Seq<usize>, SolverErrorV>(
                                    e,
                                ));
                                assert(resolve_model(g, q_head, acc_head, cur0, 1)
                                    == Resolution::Stuck(e));
                                assert(resolve_model(g, reqs@, Seq::empty(), cur0, (1 + steps) as nat)
                                    == Resolution::Stuck(e));
                            }
                            return Err(SolverError::AssetNotDeclared(input.clone()));
                        }
                    },
                    Some(input_binding) => {
                        let ghost b = g.bindings[tins[j as int]];
                        match gref.what_provides(input_binding.as_str()) {
                            AssetProvider::Node(idx) => {
                                proof {
                                    assert(provider_model(g, b) == ProviderModel::Node(idx));
                                    assert(idx < g.tasks.len());
                                }
                                queue.push(idx);
                                proof {
                                    let pa = pushed;
                                    assert(scan_inputs(g, sng, cur0) == Ok::<
                                        Seq<usize>,
                                        SolverErrorV,
                                    >(seq![idx] + Seq::<usize>::empty()));
                                    assert(seq![idx] + Seq::<usize>::empty() =~= seq![idx]);
                                    assert(scan_inputs(g, tins.take(j + 1), cur0) == Ok::<
                                        Seq<usize>,
                                        SolverErrorV,
                                    >(pa + seq![idx]));
                                    pushed = pushed.push(idx);
                                    assert(pa + seq![idx] =~= pushed);
                                    assert(queue@ =~= q0 + pushed);
                                }
                            },
                            AssetProvider::Preset(_) => {
                                proof {
                                    let e = SolverErrorV::NotImplemented;
                                    assert(scan_inputs(g, sng, cur0) == Err::<
                                        Seq<usize>,
                                        SolverErrorV,
                                    >(e));
                                    lemma_scan_inputs_concat(
                                        g,
                                        tins.take(j + 1),
                                        tins.skip(j + 1),
                                        cur0,
                                    );
                                    assert(resolve_model(g, q_head, acc_head, cur0, 1)
                                        == Resolution::Stuck(e));
                                    assert(resolve_model(
                                        g,
                                        reqs@,
                                        Seq::empty(),
                                        cur0,
                                        (1 + steps) as nat,
                                    ) == Resolution::Stuck(e));
                                }
                                return Err(SolverError::NotImplemented);
                            },
                            AssetProvider::Missing => {
                                proof {
                                    let e = SolverErrorV::AssetNotProduced(b);
                                    assert(scan_inputs(g, sng, cur0) == Err::<
                                        Seq<usize>,
                                        SolverErrorV,
                                    >(e));
                                    lemma_scan_inputs_concat(
                                        g,
                                        tins.take(j + 1),
                                        tins.skip(j + 1),
                                        cur0,
                                    );
                                    assert(resolve_model(g, q_head, acc_head, cur0, 1)
                                        == Resolution::Stuck(e));
                                    assert(resolve_model(
                                        g,
                                        reqs@,
                                        Seq::empty(),
                                        cur0,
                                        (1 + steps) as nat,
                                    ) == Resolution::Stuck(e));
                                }
                                return Err(SolverError::AssetNotProduced(input_binding.clone()));
                            },
                        }
                    },
                }
            }
            proof {
                assert(tins.take(m as int) =~= tins);
            }
            to_run.push(t);
            proof {
                assert(to_run@ =~= acc_head.push(t));
                assert forall|f: nat|
                    resolve_model(g, reqs@, Seq::empty(), cur0, (f + (steps + 1)) as nat)
                        == #[trigger] resolve_model(g, queue@, to_run@, cur0, f) by {
                    assert(resolve_model(g, reqs@, Seq::empty(), cur0, ((f + 1) + steps) as nat)
                        == resolve_model(g, q_head, acc_head, cur0, (f + 1) as nat));
                    assert(resolve_model(g, q_head, acc_head, cur0, (f + 1) as nat)
                        == resolve_model(g, q0 + pushed, acc_head.push(t), cur0, f));
                }
                steps = steps + 1;
            }
        }
        proof {
            assert(resolve_model(g, queue@, to_run@, cur0, 0) == Resolution::Done(to_run@));
            assert(resolve_model(g, reqs@, Seq::empty(), cur0, steps) == Resolution::Done(to_run@));
        }
        let ghost order = to_run@;
        let ghost rev = order.reverse();
        let n_run = to_run.len();
        for k in 0..n_run
            invariant
                self.wf(),
                self.graph_model() == old(self).graph_model(),
                self.prev() == prev,
                g == old(self).graph_model(),
                cur0 == old(self).cur(),
                prev == old(self).prev(),
                graph_wf(g),
                n_run == to_run@.len(),
                to_run@ == order,
                rev == order.reverse(),
                forall|i: int| 0 <= i < to_run@.len() ==> (#[trigger] to_run@[i]) < g.tasks.len(),
                resolve_model(g, reqs@, Seq::empty(), cur0, steps) == Resolution::Done(order),
                run_seq(g.bindings, tasks_of(g, rev.take(k as int)), cur0, prev) == (
                    self.cur(),
                    None::<SolverErrorV>,
                ),
        {
            let idx = to_run[n_run - 1 - k];
            proof {
                assert(rev[k as int] == order[n_run - 1 - k]);
            }
            let gref = self.graph;
            let task = gref.task_at(idx);
            let ghost cur_mid = self.cur();
            let res = task.run(self);
            proof {
                assert(rev.take(k + 1) =~= rev.take(k as int).push(rev[k as int]));
                assert(tasks_of(g, rev.take(k + 1)) =~= tasks_of(g, rev.take(k as int)).push(
                    g.tasks[idx as int],
                ));
                lemma_run_seq_concat(
                    g.bindings,
                    tasks_of(g, rev.take(k as int)),
                    seq![g.tasks[idx as int]],
                    cur0,
                    prev,
                );
                assert(tasks_of(g, rev.take(k as int)) + seq![g.tasks[idx as int]] =~= tasks_of(
                    g,
                    rev.take(k + 1),
                ));
                assert(seq![g.tasks[idx as int]].drop_first() =~= Seq::<NodeModel>::empty());
            }
            match res {
                Ok(_st) => {
                    proof {
                        assert(run_model(g.bindings, g.tasks[idx as int], cur_mid, prev) == Ok::<
                            (SolverStatus, Map<Seq<char>, Value>),
                            SolverErrorV,
                        >((_st, self.cur())));
                        assert(run_seq(
                            g.bindings,
                            seq![g.tasks[idx as int]].drop_first(),
                            self.cur(),
                            prev,
                        ) == (self.cur(), None::<SolverErrorV>));
                        assert(run_seq(g.bindings, seq![g.tasks[idx as int]], cur_mid, prev) == (
                            self.cur(),
                            None::<SolverErrorV>,
                        ));
                        assert(run_seq(g.bindings, tasks_of(g, rev.take(k + 1)), cur0, prev) == (
                            self.cur(),
                            None::<SolverErrorV>,
                        ));
                    }
                },
                Err(e) => {
                    proof {
                        assert(run_seq(g.bindings, seq![g.tasks[idx as int]], cur_mid, prev) == (
                            self.cur(),
                            Some(e@),
                        ));
                        assert(run_seq(g.bindings, tasks_of(g, rev.take(k + 1)), cur0, prev) == (
                            self.cur(),
                            Some(e@),
                        ));
                        assert(rev =~= rev.take(k + 1) + rev.skip(k + 1));
                        assert(tasks_of(g, rev) =~= tasks_of(g, rev.take(k + 1)) + tasks_of(
                            g,
                            rev.skip(k + 1),
                        ));
                        lemma_run_seq_concat(
                            g.bindings,
                            tasks_of(g, rev.take(k + 1)),
                            tasks_of(g, rev.skip(k + 1)),
                            cur0,
                            prev,
                        );
                        assert(run_seq(g.bindings, tasks_of(g, rev), cur0, prev) == (
                            self.cur(),
                            Some(e@),
                        ));
                    }
                    return Err(e);
                },
            }
        }
        proof {
            assert(rev.take(n_run as int) =~= rev);
        }
        Ok(SolverStatus::Executed)
    }
}

impl<'a> Cache for GraphSolver<'a> {
    open spec fn stored(&self) -> Map<Seq<char>, Value> {
        self.cur()
    }

    open spec fn cache_inv(&self) -> bool {
        self.wf()
    }

    fn get_value(&self, name: &str, kind: ValueKind) -> (r: Result<Value, SolverError>) {
        self.cache.get_value(name, kind)
    }

    fn save_value(&mut self, name: &String, value: Value) {
        self.cache.save_value(name, value);
    }

    fn save_value_str(&mut self, name: &str, value: Value) {
        self.cache.save_value_str(name, value);
    }
}

impl Node {
    /// Runs the task against the solver: reads every declared input
    /// through its binding, then either reuses the previous outputs
    /// (`Cached`) or executes the body (`Executed`); see [`run_model`].
    pub fn run(&self, solver: &mut GraphSolver<'_>) -> (r: Result<SolverStatus, SolverError>)
        requires
            old(solver).wf(),
        ensures
            final(solver).wf(),
            final(solver).graph_model() == old(solver).graph_model(),
            final(solver).prev() == old(solver).prev(),
            run_post(
                old(solver).graph_model().bindings,
                self@,
                old(solver).cur(),
                old(solver).prev(),
                final(solver).cur(),
                r,
            ),
    {
        let ghost bindings = solver.graph_model().bindings;
        let ghost cur0 = solver.cur();
        let ghost prev = solver.prev();
        let ghost tm = self@;
        let ins = self.get_ins();
        let n = ins.len();
        let kreq = body_kind(self.get_body());
        let mut vals: Vec<Value> = Vec::new();
        let mut unchanged = true;
        for i in 0..n
            invariant
                solver.wf(),
                solver.graph_model() == old(solver).graph_model(),
                solver.cur() == cur0,
                solver.prev() == prev,
                cur0 == old(solver).cur(),
                prev == old(solver).prev(),
                tm == self@,
                bindings == solver.graph_model().bindings,
                ins.deep_view() == tm.ins,
                n == tm.ins.len(),
                kreq == body_kind_req(tm.body),
                read_inputs(cur0, bindings, tm.ins.take(i as int), kreq) == Ok::<
                    Seq<Value>,
                    SolverErrorV,
                >(vals@),
                unchanged == inputs_unchanged(cur0, prev, bindings, tm.ins.take(i as int)),
        {
            let ghost sng = seq![tm.ins[i as int]];
            proof {
                assert(ins.deep_view()[i as int] == ins@[i as int]@);
                assert(tm.ins.take(i + 1) =~= tm.ins.take(i as int) + sng);
                lemma_read_inputs_concat(cur0, bindings, tm.ins.take(i as int), sng, kreq);
                assert(sng.drop_first() =~= Seq::<Seq<char>>::empty());
                assert(read_inputs(cur0, bindings, sng.drop_first(), kreq) == Ok::<
                    Seq<Value>,
                    SolverErrorV,
                >(Seq::empty()));
            }
            let name = &ins[i];
            let src: String = match solver.graph.get_binding_str(name.as_str()) {
                Some(b) => b.clone(),
                None => name.clone(),
            };
            proof {
                assert(src@ == input_source(bindings, tm.ins[i as int]));
            }
            let v: Value = match solver.cache.read(src.as_str()) {
                Some(v) => v,
                None => {
                    proof {
                        assert(read_inputs(cur0, bindings, sng, kreq) == Err::<
                            Seq<Value>,
                            SolverErrorV,
                        >(SolverErrorV::AssetNotCreated(src@)));
                        assert(read_inputs(cur0, bindings, tm.ins.take(i + 1), kreq) == Err::<
                            Seq<Value>,
                            SolverErrorV,
                        >(SolverErrorV::AssetNotCreated(src@)));
                        assert(tm.ins =~= tm.ins.take(i + 1) + tm.ins.skip(i + 1));
                        lemma_read_inputs_concat(
                            cur0,
                            bindings,
                            tm.ins.take(i + 1),
                            tm.ins.skip(i + 1),
                            kreq,
                        );
                        assert(read_inputs(cur0, bindings, tm.ins, kreq) == Err::<
                            Seq<Value>,
                            SolverErrorV,
                        >(SolverErrorV::AssetNotCreated(src@)));
                        assert(run_model(bindings, tm, cur0, prev) == Err::<
                            (SolverStatus, Map<Seq<char>, Value>),
                            SolverErrorV,
                        >(SolverErrorV::AssetNotCreated(src@)));
                        assert(solver.cur() == cur0);
                    }
                    return Err(SolverError::AssetNotCreated(src));
                },
            };
            if let Some(k) = kreq {
                let vk = v.kind();
                if !(vk == k) {
                    proof {
                        assert(cur0.dom().contains(src@) && kind_of(cur0[src@]) != k);
                        assert(read_inputs(cur0, bindings, sng, kreq) == Err::<
                            Seq<Value>,
                            SolverErrorV,
                        >(SolverErrorV::AssetWrongType(src@)));
                        assert(read_inputs(cur0, bindings, tm.ins.take(i + 1), kreq) == Err::<
                            Seq<Value>,
                            SolverErrorV,
                        >(SolverErrorV::AssetWrongType(src@)));
                        assert(tm.ins =~= tm.ins.take(i + 1) + tm.ins.skip(i + 1));
                        lemma_read_inputs_concat(
                            cur0,
                            bindings,
                            tm.ins.take(i + 1),
                            tm.ins.skip(i + 1),
                            kreq,
                        );
                    }
                    return Err(SolverError::AssetWrongType(src));
                }
            }
            let still_old: bool = match solver.last_cache.read(src.as_str()) {
                Some(pv) => pv == v,
                None => false,
            };
            unchanged = unchanged && still_old;
            let ghost vals0 = vals@;
            vals.push(v);
            proof {
                assert(v == cur0[src@]);
                assert(read_inputs(cur0, bindings, sng, kreq) == Ok::<Seq<Value>, SolverErrorV>(
                    seq![cur0[src@]] + Seq::empty(),
                ));
                assert(seq![cur0[src@]] + Seq::<Value>::empty() =~= seq![cur0[src@]]);
                assert(vals@ =~= vals0 + seq![cur0[src@]]);
                assert(read_inputs(cur0, bindings, tm.ins.take(i + 1), kreq) == Ok::<
                    Seq<Value>,
                    SolverErrorV,
                >(vals@));
                assert forall|x: int|
                    0 <= x < i + 1 && unchanged implies {
                    let s = input_source(bindings, #[trigger] tm.ins.take(i + 1)[x]);
                    prev.dom().contains(s) && prev[s] == cur0[s]
                } by {
                    if x < i {
                        assert(tm.ins.take(i as int)[x] == tm.ins.take(i + 1)[x]);
                    }
                }
                if !unchanged {
                    if inputs_unchanged(cur0, prev, bindings, tm.ins.take(i + 1)) {
                        assert forall|x: int|
                            0 <= x < i implies {
                            let s = input_source(bindings, #[trigger] tm.ins.take(i as int)[x]);
                            prev.dom().contains(s) && prev[s] == cur0[s]
                        } by {
                            assert(tm.ins.take(i + 1)[x] == tm.ins.take(i as int)[x]);
                        }
                        assert(tm.ins.take(i + 1)[i as int] == tm.ins[i as int]);
                        assert(false);
                    }
                }
            }
        }
        proof {
            assert(tm.ins.take(n as int) =~= tm.ins);
        }
        if unchanged {
            let outs = self.get_outs();
            let n_outs = outs.len();
            let mut all_present = true;
            for k in 0..n_outs
                invariant
                    solver.wf(),
                    solver.prev() == prev,
                    outs.deep_view() == tm.outs,
                    n_outs == tm.outs.len(),
                    all_present == outs_in_prev(prev, tm.outs.take(k as int)),
            {
                proof {
                    assert(outs.deep_view()[k as int] == outs@[k as int]@);
                }
                let here = solver.last_cache.contains(outs[k].as_str());
                all_present = all_present && here;
                proof {
                    assert forall|x: int|
                        0 <= x < k + 1 && all_present implies prev.dom().contains(
                        #[trigger] tm.outs.take(k + 1)[x],
                    ) by {
                        assert(tm.outs.take(k + 1)[x] == tm.outs[x]);
                        if x < k {
                            assert(tm.outs.take(k as int)[x] == tm.outs[x]);
                        }
                    }
                    if !all_present {
                        if outs_in_prev(prev, tm.outs.take(k + 1)) {
                            assert forall|x: int|
                                0 <= x < k implies prev.dom().contains(
                                #[trigger] tm.outs.take(k as int)[x],
                            ) by {
                                assert(tm.outs.take(k as int)[x] == tm.outs.take(k + 1)[x]);
                            }
                            assert(tm.outs.take(k + 1)[k as int] == tm.outs[k as int]);
                            assert(false);
                        }
                    }
                }
            }
            proof {
                assert(tm.outs.take(n_outs as int) =~= tm.outs);
            }
            if all_present {
                for k in 0..n_outs
                    invariant
                        solver.wf(),
                        solver.graph_model() == old(solver).graph_model(),
                        solver.prev() == prev,
                        outs.deep_view() == tm.outs,
                        n_outs == tm.outs.len(),
                        outs_in_prev(prev, tm.outs),
                        solver.cur() == copy_outputs_n(cur0, prev, tm.outs, k as int),
                {
                    proof {
                        assert(outs.deep_view()[k as int] == outs@[k as int]@);
                        assert(prev.dom().contains(tm.outs[k as int]));
                    }
                    match solver.last_cache.read(outs[k].as_str()) {
                        Some(v) => {
                            solver.cache.save_value(&outs[k], v);
                        },
                        None => {
                            proof {
                                assert(false);
                            }
                        },
                    }
                }
                return Ok(SolverStatus::Cached);
            }
        }
        let outvals = eval_body(self.get_body(), &vals);
        let outs = self.get_outs();
        let n_outs = outs.len();
        let n_vals = outvals.len();
        let n_min: usize = if n_outs <= n_vals {
            n_outs
        } else {
            n_vals
        };
        for k in 0..n_min
            invariant
                solver.wf(),
                solver.graph_model() == old(solver).graph_model(),
                solver.prev() == prev,
                outs.deep_view() == tm.outs,
                n_outs == tm.outs.len(),
                outvals@ == body_vals(tm.body, vals@),
                n_vals == outvals@.len(),
                n_min == if n_outs <= n_vals {
                    n_outs as int
                } else {
                    n_vals as int
                },
                solver.cur() == write_outputs_n(cur0, tm.outs, outvals@, k as int),
        {
            proof {
                assert(outs.deep_view()[k as int] == outs@[k as int]@);
            }
            solver.cache.save_value(&outs[k], outvals[k]);
        }
        Ok(SolverStatus::Executed)
    }
}

/// The common interface of registered tasks: the name, the declared input
/// and output asset names, and one run against a solver.
pub trait NodeRunner {
    /// The task's mathematical value.
    spec fn node_model(&self) -> NodeModel;

    /// The task's name.
    fn get_name(&self) -> (r: &str)
        ensures
            r@ == self.node_model().name,
    ;

    /// The declared input asset names, in order.
    fn get_ins(&self) -> (r: &Vec<String>)
        ensures
            r.deep_view() == self.node_model().ins,
    ;

    /// The declared output asset names, in order.
    fn get_outs(&self) -> (r: &Vec<String>)
        ensures
            r.deep_view() == self.node_model().outs,
    ;

    /// Runs the task against the solver, as [`run_model`] states.
    fn run(&self, solver: &mut GraphSolver<'_>) -> (r: Result<SolverStatus, SolverError>)
        requires
            old(solver).wf(),
        ensures
            final(solver).wf(),
            final(solver).graph_model() == old(solver).graph_model(),
            final(solver).prev() == old(solver).prev(),
            run_post(
                old(solver).graph_model().bindings,
                self.node_model(),
                old(solver).cur(),
                old(solver).prev(),
                final(solver).cur(),
                r,
            ),
    ;
}

impl NodeRunner for Node {
    open spec fn node_model(&self) -> NodeModel {
        self@
    }

    fn get_name(&self) -> (r: &str) {
        Node::get_name(self)
    }

    fn get_ins(&self) -> (r: &Vec<String>) {
        Node::get_ins(self)
    }

    fn get_outs(&self) -> (r: &Vec<String>) {
        Node::get_outs(self)
    }

    fn run(&self, solver: &mut GraphSolver<'_>) -> (r: Result<SolverStatus, SolverError>) {
        Node::run(self, solver)
    }
}

} // verus!
