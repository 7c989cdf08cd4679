//! The static task graph: registered tasks, the producer index, the
//! terminal set, the binding table and the freestanding assets.
//!
//! Tasks live in an arena and are referred to by index; the name index and
//! the producer index store indices into that arena.  The graph is built
//! once and is read-only while a solver runs.

use vstd::prelude::*;
use vstd::string::StringExecFns;

use crate::errors::GraphError;
use crate::errors::GraphErrorV;
use crate::node::Node;
use crate::node::NodeModel;
use crate::node::TaskBody;
use crate::table::NameTable;
use crate::value::Value;

verus! {

/// The mathematical value of a [`Graph`].
pub struct GraphModel {
    /// The registered tasks, in registration order.
    pub tasks: Seq<NodeModel>,
    /// Task name to arena index.
    pub names: Map<Seq<char>, usize>,
    /// Indices of the output-less tasks, in registration order.
    pub terminals: Seq<usize>,
    /// Output asset name to the index of the task producing it; the latest
    /// registration wins.
    pub providers: Map<Seq<char>, usize>,
    /// Consumer input asset name to producer output asset name.
    pub bindings: Map<Seq<char>, Seq<char>>,
    /// The declared freestanding asset names, in declaration order.
    pub free: Seq<Seq<char>>,
}

/// Consistency of the graph's derived indices with its task arena.
pub open spec fn graph_wf(g: GraphModel) -> bool {
    &&& forall|n: Seq<char>| #[trigger]
        g.names.dom().contains(n) ==> g.names[n] < g.tasks.len() && g.tasks[g.names[n] as int].name
            == n
    &&& forall|i: int|
        0 <= i < g.tasks.len() ==> g.names.dom().contains(#[trigger] g.tasks[i].name)
            && g.names[g.tasks[i].name] == i
    &&& forall|o: Seq<char>| #[trigger]
        g.providers.dom().contains(o) ==> g.providers[o] < g.tasks.len() && g.tasks[g.providers[o]
            as int].outs.contains(o)
    &&& forall|i: int, j: int|
        0 <= i < g.tasks.len() && 0 <= j < g.tasks[i].outs.len() ==> g.providers.dom().contains(
            #[trigger] g.tasks[i].outs[j],
        ) && i <= g.providers[g.tasks[i].outs[j]]
    &&& forall|k: int|
        0 <= k < g.terminals.len() ==> (#[trigger] g.terminals[k]) < g.tasks.len()
            && g.tasks[g.terminals[k] as int].outs.len() == 0
    &&& forall|i: int|
        0 <= i < g.tasks.len() && (#[trigger] g.tasks[i].outs.len()) == 0 ==> g.terminals.contains(
            i as usize,
        )
    &&& forall|a: int, b: int| 0 <= a < b < g.free.len() ==> g.free[a] != g.free[b]
}

/// What provides an asset: nothing, a producing task (by arena index), or
/// a freestanding asset.
pub enum AssetProvider {
    Missing,
    Node(usize),
    Preset(String),
}

/// The mathematical value of an [`AssetProvider`].
pub enum ProviderModel {
    Missing,
    Node(usize),
    Preset(Seq<char>),
}

impl View for AssetProvider {
    type V = ProviderModel;

    open spec fn view(&self) -> ProviderModel {
        match self {
            AssetProvider::Missing => ProviderModel::Missing,
            AssetProvider::Node(i) => ProviderModel::Node(*i),
            AssetProvider::Preset(s) => ProviderModel::Preset(s@),
        }
    }
}

impl AssetProvider {
    /// Whether no provider was found.
    pub fn is_none(&self) -> (r: bool)
        ensures
            r == (self@ == ProviderModel::Missing),
    {
        match self {
            AssetProvider::Missing => true,
            _ => false,
        }
    }
}

/// The provider of asset `n` in graph `g`: bindings are resolved one hop,
/// then the producer index is consulted, then the freestanding set.
pub open spec fn provider_model(g: GraphModel, n: Seq<char>) -> ProviderModel {
    let p = if g.bindings.dom().contains(n) {
        g.bindings[n]
    } else {
        n
    };
    if g.providers.dom().contains(p) {
        ProviderModel::Node(g.providers[p])
    } else if g.free.contains(p) {
        ProviderModel::Preset(p)
    } else {
        ProviderModel::Missing
    }
}

/// The producer index after indexing every name of `outs` to task `i`.
pub open spec fn providers_after(
    p: Map<Seq<char>, usize>,
    outs: Seq<Seq<char>>,
    i: usize,
) -> Map<Seq<char>, usize>
    decreases outs.len(),
{
    if outs.len() == 0 {
        p
    } else {
        providers_after(p, outs.drop_last(), i).insert(outs.last(), i)
    }
}

proof fn lemma_providers_after_facts(p: Map<Seq<char>, usize>, outs: Seq<Seq<char>>, i: usize)
    ensures
        forall|o: Seq<char>| #[trigger]
            providers_after(p, outs, i).dom().contains(o) <==> (p.dom().contains(o)
                || outs.contains(o)),
        forall|o: Seq<char>|
            outs.contains(o) ==> #[trigger] providers_after(p, outs, i)[o] == i,
        forall|o: Seq<char>|
            !outs.contains(o) && p.dom().contains(o) ==> #[trigger] providers_after(p, outs, i)[o]
                == p[o],
    decreases outs.len(),
{
    if outs.len() > 0 {
        lemma_providers_after_facts(p, outs.drop_last(), i);
        assert forall|o: Seq<char>| outs.contains(o) implies #[trigger] providers_after(
            p,
            outs,
            i,
        )[o] == i by {
            if o != outs.last() {
                let k = choose|k: int| 0 <= k < outs.len() && outs[k] == o;
                assert(outs.drop_last()[k] == o);
                assert(outs.drop_last().contains(o));
                assert(providers_after(p, outs.drop_last(), i).dom().contains(o));
                assert(providers_after(p, outs.drop_last(), i)[o] == i);
            }
        }
        assert forall|o: Seq<char>| #[trigger]
            providers_after(p, outs, i).dom().contains(o) implies (p.dom().contains(o)
            || outs.contains(o)) by {
            if o == outs.last() {
                assert(outs[outs.len() - 1] == o);
            } else {
                assert(providers_after(p, outs.drop_last(), i).dom().contains(o));
                if outs.drop_last().contains(o) {
                    let k = choose|k: int|
                        0 <= k < outs.drop_last().len() && outs.drop_last()[k] == o;
                    assert(outs[k] == o);
                }
            }
        }
        assert forall|o: Seq<char>|
            (p.dom().contains(o) || outs.contains(o)) implies #[trigger] providers_after(
            p,
            outs,
            i,
        ).dom().contains(o) by {
            if o == outs.last() {
            } else {
                if outs.contains(o) {
                    let k = choose|k: int| 0 <= k < outs.len() && outs[k] == o;
                    assert(outs.drop_last()[k] == o);
                    assert(outs.drop_last().contains(o));
                }
                assert(providers_after(p, outs.drop_last(), i).dom().contains(o));
            }
        }
        assert forall|o: Seq<char>| !outs.contains(o) && p.dom().contains(o) implies #[trigger]
            providers_after(p, outs, i)[o] == p[o] by {
            assert(!outs.drop_last().contains(o)) by {
                if outs.drop_last().contains(o) {
                    let k = choose|k: int|
                        0 <= k < outs.drop_last().len() && outs.drop_last()[k] == o;
                    assert(outs[k] == o);
                }
            }
            assert(o != outs.last()) by {
                if o == outs.last() {
                    assert(outs[outs.len() - 1] == o);
                }
            }
            assert(providers_after(p, outs.drop_last(), i).dom().contains(o));
            assert(providers_after(p, outs.drop_last(), i)[o] == p[o]);
        }
    }
}


/// Whether `n` is a declared input slot of some registered task.
pub open spec fn some_input(g: GraphModel, n: Seq<char>) -> bool {
    exists|i: int, j: int|
        0 <= i < g.tasks.len() && 0 <= j < g.tasks[i].ins.len() && g.tasks[i].ins[j] == n
}

/// Whether `n` is a declared output slot of some registered task.
pub open spec fn some_output(g: GraphModel, n: Seq<char>) -> bool {
    exists|i: int, j: int|
        0 <= i < g.tasks.len() && 0 <= j < g.tasks[i].outs.len() && g.tasks[i].outs[j] == n
}

/// The canonical output name of the freestanding asset `n`.
pub open spec fn value_asset_name(n: Seq<char>) -> Seq<char> {
    n + "::value"@
}

/// The name a binding source resolves to: a freestanding asset stands for
/// its canonical output.
pub open spec fn resolved_source(g: GraphModel, src: Seq<char>) -> Seq<char> {
    if g.free.contains(src) {
        value_asset_name(src)
    } else {
        src
    }
}

/// Exactly what `bind_asset` does: rejects a sink that is no declared
/// input, rejects a source that is neither a declared output nor a
/// freestanding asset, and otherwise records (or overwrites) the edge.
pub open spec fn bind_post(
    g0: GraphModel,
    src: Seq<char>,
    sink: Seq<char>,
    g1: GraphModel,
    r: Result<(), GraphErrorV>,
) -> bool {
    if !some_input(g0, sink) {
        r == Err::<(), GraphErrorV>(GraphErrorV::UndefinedAssetSlot(sink)) && g1 == g0
    } else if !some_output(g0, resolved_source(g0, src)) {
        r == Err::<(), GraphErrorV>(GraphErrorV::UndefinedAssetSlot(resolved_source(g0, src)))
            && g1 == g0
    } else {
        r == Ok::<(), GraphErrorV>(()) && g1 == (GraphModel {
            bindings: g0.bindings.insert(sink, resolved_source(g0, src)),
            ..g0
        })
    }
}

/// The task synthesized for a freestanding asset: no inputs, one output
/// holding the constant value.
pub open spec fn synth_node_model(n: Seq<char>, v: Value) -> NodeModel {
    NodeModel {
        name: n,
        ins: Seq::empty(),
        outs: seq![value_asset_name(n)],
        body: crate::node::BodyModel::Emit(seq![v]),
    }
}

/// The model after registering a task.
pub open spec fn add_node_model(g: GraphModel, nm: NodeModel) -> GraphModel {
    GraphModel {
        tasks: g.tasks.push(nm),
        names: g.names.insert(nm.name, g.tasks.len() as usize),
        terminals: if nm.outs.len() == 0 {
            g.terminals.push(g.tasks.len() as usize)
        } else {
            g.terminals
        },
        providers: providers_after(g.providers, nm.outs, g.tasks.len() as usize),
        bindings: g.bindings,
        free: g.free,
    }
}

/// The unbound inputs among `ins`, in order.
pub open spec fn unbound_ins(g: GraphModel, ins: Seq<Seq<char>>) -> Seq<Seq<char>>
    decreases ins.len(),
{
    if ins.len() == 0 {
        Seq::empty()
    } else {
        unbound_ins(g, ins.drop_last()) + (if provider_model(g, ins.last())
            == ProviderModel::Missing {
            seq![ins.last()]
        } else {
            Seq::empty()
        })
    }
}

/// The unbound inputs of the first `n` tasks, in order.
pub open spec fn unbound_model(g: GraphModel, n: int) -> Seq<Seq<char>>
    decreases n,
{
    if n <= 0 {
        Seq::empty()
    } else {
        unbound_model(g, n - 1) + unbound_ins(g, g.tasks[n - 1].ins)
    }
}

/// The static registry: tasks, derived indices, bindings and freestanding
/// assets.
pub struct Graph {
    tasks: Vec<Node>,
    names: NameTable<usize>,
    terminals: Vec<usize>,
    providers: NameTable<usize>,
    bindings: NameTable<String>,
    freestanding: Vec<String>,
}

impl View for Graph {
    type V = GraphModel;

    closed spec fn view(&self) -> GraphModel {
        GraphModel {
            tasks: Seq::new(self.tasks@.len(), |i: int| self.tasks@[i]@),
            names: self.names@,
            terminals: self.terminals@,
            providers: self.providers@,
            bindings: self.bindings@,
            free: self.freestanding.deep_view(),
        }
    }
}

impl Graph {
    /// Well-formedness: the derived indices describe the task arena.
    /// Established by the constructor and preserved by every operation.
    pub closed spec fn wf(&self) -> bool {
        &&& self.names.wf()
        &&& self.providers.wf()
        &&& self.bindings.wf()
        &&& graph_wf(self@)
    }

    /// The graph's well-formedness seen on its model.
    pub broadcast proof fn lemma_wf_model(&self)
        requires
            #[trigger] self.wf(),
        ensures
            graph_wf(self@),
    {
    }

    /// An empty graph.
    pub fn new() -> (r: Graph)
        ensures
            r.wf(),
            r@.tasks == Seq::<NodeModel>::empty(),
            r@.names == Map::<Seq<char>, usize>::empty(),
            r@.terminals == Seq::<usize>::empty(),
            r@.providers == Map::<Seq<char>, usize>::empty(),
            r@.bindings == Map::<Seq<char>, Seq<char>>::empty(),
            r@.free == Seq::<Seq<char>>::empty(),
    {
        let g = Graph {
            tasks: Vec::new(),
            names: NameTable::new(),
            terminals: Vec::new(),
            providers: NameTable::new(),
            bindings: NameTable::new(),
            freestanding: Vec::new(),
        };
        proof {
            assert(g@.tasks =~= Seq::<NodeModel>::empty());
            assert(g@.free =~= Seq::<Seq<char>>::empty());
        }
        g
    }

    /// The number of registered tasks.
    pub fn task_count(&self) -> (r: usize)
        ensures
            r == self@.tasks.len(),
    {
        self.tasks.len()
    }

    /// The task at arena index `i`.
    pub fn task_at(&self, i: usize) -> (r: &Node)
        requires
            i < self@.tasks.len(),
        ensures
            r@ == self@.tasks[i as int],
    {
        &self.tasks[i]
    }

    /// Registers a task.  Fails with [`GraphError::RedefinedNode`] when the
    /// name is taken; otherwise indexes every output, records the task as a
    /// terminal when it has no outputs, and stores it.
    pub fn add_node(&mut self, node: Node) -> (r: Result<(), GraphError>)
        requires
            old(self).wf(),
        ensures
            final(self).wf(),
            match r {
                Ok(()) => !old(self)@.names.dom().contains(node@.name) && final(self)@
                    == add_node_model(old(self)@, node@),
                Err(e) => e@ == GraphErrorV::RedefinedNode(node@.name) && old(
                    self,
                )@.names.dom().contains(node@.name) && final(self)@ == old(self)@,
            },
    {
        let name: String = node.get_name().to_owned();
        if self.names.contains(name.as_str()) {
            return Err(GraphError::RedefinedNode(name));
        }
        let idx = self.tasks.len();
        let ghost g0 = self@;
        let ghost nm = node@;
        let outs = node.get_outs();
        let n_outs = outs.len();
        for j in 0..n_outs
            invariant
                n_outs == nm.outs.len(),
                outs.deep_view() == nm.outs,
                self.names.wf(),
                self.bindings.wf(),
                self.providers.wf(),
                self.providers@ == providers_after(g0.providers, nm.outs.take(j as int), idx),
                self.tasks@ == old(self).tasks@,
                self.names@ == g0.names,
                self.terminals@ == g0.terminals,
                self.bindings@ == g0.bindings,
                self.freestanding == old(self).freestanding,
        {
            self.providers.insert(outs[j].clone(), idx);
            proof {
                assert(nm.outs.take(j + 1).drop_last() =~= nm.outs.take(j as int));
                assert(nm.outs.take(j + 1).last() == nm.outs[j as int]);
                assert(outs.deep_view()[j as int] == outs@[j as int]@);
            }
        }
        proof {
            assert(nm.outs.take(n_outs as int) =~= nm.outs);
        }
        if n_outs == 0 {
            self.terminals.push(idx);
        }
        self.tasks.push(node);
        self.names.insert(name, idx);
        proof {
            let g1 = self@;
            let gm = add_node_model(g0, nm);
            assert(g1.tasks =~= gm.tasks);
            assert(g1 == gm);
            lemma_providers_after_facts(g0.providers, nm.outs, idx);
            assert forall|i: int|
                0 <= i < g1.tasks.len() implies g1.names.dom().contains(
                #[trigger] g1.tasks[i].name,
            ) && g1.names[g1.tasks[i].name] == i by {
                if i < g0.tasks.len() {
                    assert(g0.names.dom().contains(g1.tasks[i].name));
                    assert(g1.tasks[i].name != nm.name);
                }
            }
            assert forall|i: int, j: int|
                0 <= i < g1.tasks.len() && 0 <= j < g1.tasks[i].outs.len() implies
                g1.providers.dom().contains(#[trigger] g1.tasks[i].outs[j]) && i
                    <= g1.providers[g1.tasks[i].outs[j]] by {
                let o = g1.tasks[i].outs[j];
                if i < g0.tasks.len() {
                    assert(g0.providers.dom().contains(o) && i <= g0.providers[o]);
                    if !nm.outs.contains(o) {
                        assert(g1.providers[o] == g0.providers[o]);
                    }
                } else {
                    assert(nm.outs[j] == o);
                    assert(nm.outs.contains(o));
                }
            }
            assert forall|o: Seq<char>| #[trigger]
                g1.providers.dom().contains(o) implies g1.providers[o] < g1.tasks.len()
                && g1.tasks[g1.providers[o] as int].outs.contains(o) by {
                if nm.outs.contains(o) {
                    assert(g1.providers[o] == idx);
                } else {
                    assert(g0.providers.dom().contains(o));
                    assert(g1.providers[o] == g0.providers[o]);
                    assert(g0.tasks[g0.providers[o] as int].outs.contains(o));
                    assert(g1.tasks[g1.providers[o] as int] == g0.tasks[g0.providers[o] as int]);
                }
            }
            assert forall|i: int|
                0 <= i < g1.tasks.len() && (#[trigger] g1.tasks[i].outs.len())
                    == 0 implies g1.terminals.contains(i as usize) by {
                if i < g0.tasks.len() {
                    assert(g0.terminals.contains(i as usize));
                    let k = choose|k: int|
                        0 <= k < g0.terminals.len() && g0.terminals[k] == i as usize;
                    assert(g1.terminals[k] == i as usize);
                } else {
                    assert(g1.terminals.len() == g0.terminals.len() + 1);
                    assert(g1.terminals[g0.terminals.len() as int] == i as usize);
                }
            }
        }
        Ok(())
    }

    /// The arena index of the task with the given name, if any.
    pub fn node_index(&self, name: &str) -> (r: Option<usize>)
        requires
            self.wf(),
        ensures
            match r {
                Some(i) => self@.names.dom().contains(name@) && i == self@.names[name@],
                None => !self@.names.dom().contains(name@),
            },
    {
        match self.names.get(name) {
            Some(i) => Some(*i),
            None => None,
        }
    }

    /// The registered task with the given name, if any.
    pub fn get_node(&self, name: &str) -> (r: Option<&Node>)
        requires
            self.wf(),
        ensures
            match r {
                Some(n) => self@.names.dom().contains(name@) && n@ == self@.tasks[self@.names[name@]
                    as int],
                None => !self@.names.dom().contains(name@),
            },
    {
        match self.names.get(name) {
            Some(i) => Some(&self.tasks[*i]),
            None => None,
        }
    }

    /// The arena indices of the terminal (output-less) tasks.
    pub fn get_terminals(&self) -> (r: &Vec<usize>)
        ensures
            r@ == self@.terminals,
    {
        &self.terminals
    }

    /// The binding recorded for the consumer input `name`, if any.
    pub fn get_binding(&self, name: &String) -> (r: Option<&String>)
        requires
            self.wf(),
        ensures
            match r {
                Some(b) => self@.bindings.dom().contains(name@) && b@ == self@.bindings[name@],
                None => !self@.bindings.dom().contains(name@),
            },
    {
        self.bindings.get(name.as_str())
    }

    /// The binding recorded for the consumer input `name`, if any.
    pub fn get_binding_str(&self, name: &str) -> (r: Option<&String>)
        requires
            self.wf(),
        ensures
            match r {
                Some(b) => self@.bindings.dom().contains(name@) && b@ == self@.bindings[name@],
                None => !self@.bindings.dom().contains(name@),
            },
    {
        self.bindings.get(name)
    }

    /// The declared freestanding asset names.
    pub fn get_freestanding_assets(&self) -> (r: &Vec<String>)
        ensures
            r.deep_view() == self@.free,
    {
        &self.freestanding
    }


    /// Whether some registered task declares `name` as an input.
    fn has_input_slot(&self, name: &str) -> (r: bool)
        requires
            self.wf(),
        ensures
            r == some_input(self@, name@),
    {
        let key: String = name.to_owned();
        let n = self.tasks.len();
        for i in 0..n
            invariant
                self.wf(),
                key@ == name@,
                n == self@.tasks.len(),
                forall|a: int, b: int|
                    0 <= a < i && 0 <= b < self@.tasks[a].ins.len() ==> self@.tasks[a].ins[b]
                        != name@,
        {
            let ins = self.tasks[i].get_ins();
            let m = ins.len();
            for j in 0..m
                invariant
                    self.wf(),
                    key@ == name@,
                    i < n == self@.tasks.len(),
                    ins.deep_view() == self@.tasks[i as int].ins,
                    m == self@.tasks[i as int].ins.len(),
                    forall|b: int| 0 <= b < j ==> self@.tasks[i as int].ins[b] != name@,
            {
                proof {
                    assert(ins.deep_view()[j as int] == ins@[j as int]@);
                }
                if ins[j] == key {
                    return true;
                }
            }
        }
        false
    }

    /// Whether some registered task declares `name` as an output.
    fn has_output_slot(&self, name: &str) -> (r: bool)
        requires
            self.wf(),
        ensures
            r == some_output(self@, name@),
    {
        let key: String = name.to_owned();
        let n = self.tasks.len();
        for i in 0..n
            invariant
                self.wf(),
                key@ == name@,
                n == self@.tasks.len(),
                forall|a: int, b: int|
                    0 <= a < i && 0 <= b < self@.tasks[a].outs.len() ==> self@.tasks[a].outs[b]
                        != name@,
        {
            let outs = self.tasks[i].get_outs();
            let m = outs.len();
            for j in 0..m
                invariant
                    self.wf(),
                    key@ == name@,
                    i < n == self@.tasks.len(),
                    outs.deep_view() == self@.tasks[i as int].outs,
                    m == self@.tasks[i as int].outs.len(),
                    forall|b: int| 0 <= b < j ==> self@.tasks[i as int].outs[b] != name@,
            {
                proof {
                    assert(outs.deep_view()[j as int] == outs@[j as int]@);
                }
                if outs[j] == key {
                    return true;
                }
            }
        }
        false
    }

    /// Binds the output (or freestanding) asset `src` to the input asset
    /// `sink`.  Rebinding an already bound input overwrites the edge; a
    /// rejected binding leaves the graph unchanged.
    pub fn bind_asset(&mut self, src: &str, sink: &str) -> (r: Result<(), GraphError>)
        requires
            old(self).wf(),
        ensures
            final(self).wf(),
            bind_post(
                old(self)@,
                src@,
                sink@,
                final(self)@,
                match r {
                    Ok(()) => Ok(()),
                    Err(e) => Err(e@),
                },
            ),
    {
        if !self.has_input_slot(sink) {
            return Err(GraphError::UndefinedAssetSlot(sink.to_owned()));
        }
        let src_res: String = if self.is_freestanding(src) {
            let mut s: String = src.to_owned();
            s.append("::value");
            s
        } else {
            src.to_owned()
        };
        if !self.has_output_slot(src_res.as_str()) {
            return Err(GraphError::UndefinedAssetSlot(src_res));
        }
        self.bindings.insert(sink.to_owned(), src_res);
        Ok(())
    }

    /// The provider of the asset `name`: its binding is resolved one hop,
    /// then the producer index is consulted, then the freestanding set.
    pub fn what_provides(&self, name: &str) -> (r: AssetProvider)
        requires
            self.wf(),
        ensures
            r@ == provider_model(self@, name@),
    {
        let resolved: String = match self.get_binding_str(name) {
            Some(b) => b.clone(),
            None => name.to_owned(),
        };
        match self.providers.get(resolved.as_str()) {
            Some(i) => AssetProvider::Node(*i),
            None => {
                if self.is_freestanding(resolved.as_str()) {
                    AssetProvider::Preset(resolved)
                } else {
                    AssetProvider::Missing
                }
            },
        }
    }

    /// Declares a freestanding (constant) asset: a zero-input task named
    /// after the asset whose single output is its canonical value name.
    pub fn define_freestanding_asset(&mut self, name: &str, val: Value) -> (r: Result<
        (),
        GraphError,
    >)
        requires
            old(self).wf(),
        ensures
            final(self).wf(),
            ({
                let g0 = old(self)@;
                let g1 = final(self)@;
                if g0.free.contains(name@) {
                    r matches Err(e) && e@ == GraphErrorV::RedeclaredAsset(name@) && g1 == g0
                } else if g0.names.dom().contains(name@) {
                    r matches Err(e) && e@ == GraphErrorV::RedefinedNode(name@) && g1 == g0
                } else {
                    r matches Ok(()) && g1 == add_node_model(
                        (GraphModel { free: g0.free.push(name@), ..g0 }),
                        synth_node_model(name@, val),
                    )
                }
            }),
    {
        if self.is_freestanding(name) {
            return Err(GraphError::RedeclaredAsset(name.to_owned()));
        }
        if self.names.contains(name) {
            return Err(GraphError::RedefinedNode(name.to_owned()));
        }
        let ghost g0 = self@;
        let mut outname: String = name.to_owned();
        outname.append("::value");
        let mut outs: Vec<String> = Vec::new();
        outs.push(outname);
        let mut vals: Vec<Value> = Vec::new();
        vals.push(val);
        let node = Node::new(name, TaskBody::Emit(vals), Vec::new(), outs);
        proof {
            assert(node@.ins =~= synth_node_model(name@, val).ins);
            assert(node@.outs =~= synth_node_model(name@, val).outs);
            assert(node@.body == synth_node_model(name@, val).body);
            assert(node@ == synth_node_model(name@, val));
        }
        self.freestanding.push(name.to_owned());
        proof {
            assert(self@.free =~= g0.free.push(name@));
            assert forall|a: int, b: int| 0 <= a < b < self@.free.len() implies self@.free[a]
                != self@.free[b] by {
                if b == self@.free.len() - 1 {
                    assert(!g0.free.contains(name@));
                    if g0.free[a] == name@ {
                        assert(g0.free.contains(name@));
                    }
                }
            }
            assert(self@ == (GraphModel { free: g0.free.push(name@), ..g0 }));
        }
        match self.add_node(node) {
            Ok(()) => Ok(()),
            Err(e) => {
                proof {
                    assert(false);
                }
                Err(e)
            },
        }
    }

    /// Every declared input asset, over all registered tasks, for which
    /// [`Graph::what_provides`] reports no provider.
    pub fn get_unbound_assets(&self) -> (r: Vec<String>)
        requires
            self.wf(),
        ensures
            r.deep_view() == unbound_model(self@, self@.tasks.len() as int),
    {
        let mut out: Vec<String> = Vec::new();
        proof {
            assert(out.deep_view() =~= unbound_model(self@, 0));
        }
        let n = self.tasks.len();
        for i in 0..n
            invariant
                self.wf(),
                n == self@.tasks.len(),
                out.deep_view() == unbound_model(self@, i as int),
        {
            let ins = self.tasks[i].get_ins();
            let m = ins.len();
            let ghost base = out.deep_view();
            for j in 0..m
                invariant
                    self.wf(),
                    i < n == self@.tasks.len(),
                    ins.deep_view() == self@.tasks[i as int].ins,
                    m == self@.tasks[i as int].ins.len(),
                    out.deep_view() == base + unbound_ins(
                        self@,
                        self@.tasks[i as int].ins.take(j as int),
                    ),
            {
                let ghost tins = self@.tasks[i as int].ins;
                proof {
                    assert(ins.deep_view()[j as int] == ins@[j as int]@);
                    assert(tins.take(j + 1).drop_last() =~= tins.take(j as int));
                    assert(tins.take(j + 1).last() == tins[j as int]);
                }
                let provider = self.what_provides(ins[j].as_str());
                if provider.is_none() {
                    let ghost dv0 = out.deep_view();
                    out.push(ins[j].clone());
                    proof {
                        assert(out.deep_view() =~= dv0.push(tins[j as int]));
                        assert(out.deep_view() =~= base + unbound_ins(self@, tins.take(j + 1)));
                    }
                } else {
                    proof {
                        assert(out.deep_view() =~= base + unbound_ins(self@, tins.take(j + 1)));
                    }
                }
            }
            proof {
                assert(self@.tasks[i as int].ins.take(m as int) =~= self@.tasks[i as int].ins);
                assert(out.deep_view() =~= unbound_model(self@, i + 1));
            }
        }
        out
    }

    /// Whether `name` is declared freestanding.
    fn is_freestanding(&self, name: &str) -> (r: bool)
        ensures
            r == self@.free.contains(name@),
    {
        let key: String = name.to_owned();
        let n = self.freestanding.len();
        for i in 0..n
            invariant
                n == self.freestanding@.len(),
                key@ == name@,
                forall|j: int| 0 <= j < i ==> self.freestanding.deep_view()[j] != name@,
        {
            if self.freestanding[i] == key {
                proof {
                    assert(self@.free[i as int] == name@);
                }
                return true;
            }
            proof {
                assert(self.freestanding.deep_view()[i as int] == self.freestanding@[i as int]@);
            }
        }
        proof {
            if self@.free.contains(name@) {
                let j = choose|j: int| 0 <= j < self@.free.len() && self@.free[j] == name@;
                assert(self.freestanding.deep_view()[j] == name@);
            }
        }
        false
    }
}

} // verus!
