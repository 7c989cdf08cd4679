//! Laws of the engine, proved from the models the contracts use.
//!
//! The central one: within one generation, executing a valid (acyclically
//! ordered, arity-consistent) task order twice leaves exactly the store
//! that executing it once leaves.

use vstd::prelude::*;

use crate::errors::SolverStatus;
use crate::node::body_vals;
use crate::node::BodyModel;
use crate::node::NodeModel;
use crate::solver::copy_outputs_n;
use crate::solver::input_source;
use crate::solver::inputs_unchanged;
use crate::solver::outs_in_prev;
use crate::solver::read_inputs;
use crate::solver::run_model;
use crate::solver::run_seq;
use crate::solver::write_outputs;
use crate::solver::write_outputs_n;
use crate::solver::resolve_model;
use crate::solver::Resolution;
use crate::value::Value;
use crate::node::body_kind_req;

verus! {

/// A name some task of `ts` declares as an output.
pub open spec fn an_output_of(ts: Seq<NodeModel>, k: Seq<char>) -> bool {
    exists|x: int, j: int| 0 <= x < ts.len() && 0 <= j < ts[x].outs.len() && ts[x].outs[j] == k
}

/// The number of values a body produces, whatever its inputs.
pub open spec fn body_arity(b: BodyModel) -> nat {
    match b {
        BodyModel::Emit(vs) => vs.len(),
        BodyModel::SumU32(_) => 1,
        BodyModel::SumU32ToF32(_) => 1,
    }
}

/// Every task declares no more outputs than its body produces, so a run
/// that executes the body writes every declared output.
pub open spec fn arities_ok(ts: Seq<NodeModel>) -> bool {
    forall|x: int| 0 <= x < ts.len() ==> (#[trigger] ts[x]).outs.len() <= body_arity(ts[x].body)
}

/// No task of the order reads an asset that it, or a task after it,
/// produces: producers stand strictly before their consumers.  This is
/// what "acyclic along the requested path" means for an execution order.
pub open spec fn order_stable(bindings: Map<Seq<char>, Seq<char>>, ts: Seq<NodeModel>) -> bool {
    forall|x: int, y: int, i: int, j: int|
        0 <= x <= y < ts.len() && 0 <= i < ts[x].ins.len() && 0 <= j < ts[y].outs.len()
            ==> input_source(bindings, #[trigger] ts[x].ins[i]) != #[trigger] ts[y].outs[j]
}

/// Two stores agree at `k`: both hold it with the same value, or neither
/// holds it.
pub open spec fn agree_at(
    a: Map<Seq<char>, Value>,
    b: Map<Seq<char>, Value>,
    k: Seq<char>,
) -> bool {
    a.dom().contains(k) == b.dom().contains(k) && (a.dom().contains(k) ==> a[k] == b[k])
}

proof fn lemma_body_vals_arity(b: BodyModel, vals: Seq<Value>)
    ensures
        body_vals(b, vals).len() == body_arity(b),
{
}

/// A successful read means every input's source is in the store.
proof fn lemma_read_ok_sources_present(
    cur: Map<Seq<char>, Value>,
    bindings: Map<Seq<char>, Seq<char>>,
    ins: Seq<Seq<char>>,
    kreq: Option<crate::value::ValueKind>,
)
    requires
        read_inputs(cur, bindings, ins, kreq) is Ok,
    ensures
        forall|i: int|
            0 <= i < ins.len() ==> cur.dom().contains(input_source(bindings, #[trigger] ins[i])),
    decreases ins.len(),
{
    if ins.len() > 0 {
        lemma_read_ok_sources_present(cur, bindings, ins.drop_first(), kreq);
        assert forall|i: int| 0 <= i < ins.len() implies cur.dom().contains(
            input_source(bindings, #[trigger] ins[i]),
        ) by {
            if i > 0 {
                assert(ins.drop_first()[i - 1] == ins[i]);
            }
        }
    }
}

/// Reading from two stores that agree at every input source gives the
/// same values or the same failure.
proof fn lemma_read_same(
    a: Map<Seq<char>, Value>,
    b: Map<Seq<char>, Value>,
    bindings: Map<Seq<char>, Seq<char>>,
    ins: Seq<Seq<char>>,
    kreq: Option<crate::value::ValueKind>,
)
    requires
        forall|i: int|
            0 <= i < ins.len() ==> agree_at(a, b, input_source(bindings, #[trigger] ins[i])),
    ensures
        read_inputs(a, bindings, ins, kreq) == read_inputs(b, bindings, ins, kreq),
    decreases ins.len(),
{
    if ins.len() > 0 {
        assert forall|i: int|
            0 <= i < ins.drop_first().len() implies agree_at(
            a,
            b,
            input_source(bindings, #[trigger] ins.drop_first()[i]),
        ) by {
            assert(ins.drop_first()[i] == ins[i + 1]);
        }
        lemma_read_same(a, b, bindings, ins.drop_first(), kreq);
        assert(agree_at(a, b, input_source(bindings, ins[0])));
    }
}

/// Comparing against the previous store is the same from two stores that
/// agree at every input source the read found present.
proof fn lemma_unchanged_same(
    a: Map<Seq<char>, Value>,
    b: Map<Seq<char>, Value>,
    prev: Map<Seq<char>, Value>,
    bindings: Map<Seq<char>, Seq<char>>,
    ins: Seq<Seq<char>>,
    kreq: Option<crate::value::ValueKind>,
)
    requires
        read_inputs(a, bindings, ins, kreq) is Ok,
        forall|i: int|
            0 <= i < ins.len() ==> agree_at(a, b, input_source(bindings, #[trigger] ins[i])),
    ensures
        inputs_unchanged(a, prev, bindings, ins) == inputs_unchanged(b, prev, bindings, ins),
{
    lemma_read_ok_sources_present(a, bindings, ins, kreq);
    if inputs_unchanged(a, prev, bindings, ins) {
        assert forall|i: int| 0 <= i < ins.len() implies {
            let src = input_source(bindings, #[trigger] ins[i]);
            prev.dom().contains(src) && prev[src] == b[src]
        } by {
            let src = input_source(bindings, ins[i]);
            assert(agree_at(a, b, src));
        }
    }
    if inputs_unchanged(b, prev, bindings, ins) {
        assert forall|i: int| 0 <= i < ins.len() implies {
            let src = input_source(bindings, #[trigger] ins[i]);
            prev.dom().contains(src) && prev[src] == a[src]
        } by {
            let src = input_source(bindings, ins[i]);
            assert(agree_at(a, b, src));
        }
    }
}

/// The outputs a run writes and the values it writes them with: the
/// previous store's values on the cached path, the body's values
/// otherwise.
pub open spec fn run_writes(
    bindings: Map<Seq<char>, Seq<char>>,
    t: NodeModel,
    cur: Map<Seq<char>, Value>,
    prev: Map<Seq<char>, Value>,
) -> Seq<(Seq<char>, Value)> {
    if inputs_unchanged(cur, prev, bindings, t.ins) && outs_in_prev(prev, t.outs) {
        Seq::new(t.outs.len(), |i: int| (t.outs[i], prev[t.outs[i]]))
    } else {
        let vals = read_inputs(cur, bindings, t.ins, body_kind_req(t.body))->Ok_0;
        let bv = body_vals(t.body, vals);
        let n: int = if t.outs.len() <= bv.len() {
            t.outs.len() as int
        } else {
            bv.len() as int
        };
        Seq::new(n as nat, |i: int| (t.outs[i], bv[i]))
    }
}

/// A write list applied to a store, in order; a later write of the same
/// name wins.
pub open spec fn apply_writes(
    m: Map<Seq<char>, Value>,
    ws: Seq<(Seq<char>, Value)>,
) -> Map<Seq<char>, Value>
    decreases ws.len(),
{
    if ws.len() == 0 {
        m
    } else {
        apply_writes(m, ws.drop_last()).insert(ws.last().0, ws.last().1)
    }
}

/// Whether some write of `ws` writes the name `k`.
pub open spec fn writes_key(ws: Seq<(Seq<char>, Value)>, k: Seq<char>) -> bool {
    exists|i: int| 0 <= i < ws.len() && (#[trigger] ws[i]).0 == k
}

proof fn lemma_apply_writes_frame(
    m: Map<Seq<char>, Value>,
    ws: Seq<(Seq<char>, Value)>,
    k: Seq<char>,
)
    requires
        !writes_key(ws, k),
    ensures
        agree_at(apply_writes(m, ws), m, k),
    decreases ws.len(),
{
    if ws.len() > 0 {
        assert(!writes_key(ws.drop_last(), k)) by {
            if writes_key(ws.drop_last(), k) {
                let i = choose|i: int| 0 <= i < ws.drop_last().len() && (ws.drop_last()[i]).0 == k;
                assert((ws[i]).0 == k);
            }
        }
        assert(ws.last().0 != k) by {
            if ws.last().0 == k {
                assert((ws[ws.len() - 1]).0 == k);
            }
        }
        lemma_apply_writes_frame(m, ws.drop_last(), k);
    }
}

proof fn lemma_apply_writes_on_key(
    m1: Map<Seq<char>, Value>,
    m2: Map<Seq<char>, Value>,
    ws: Seq<(Seq<char>, Value)>,
    k: Seq<char>,
)
    requires
        writes_key(ws, k),
    ensures
        apply_writes(m1, ws).dom().contains(k),
        apply_writes(m2, ws).dom().contains(k),
        apply_writes(m1, ws)[k] == apply_writes(m2, ws)[k],
    decreases ws.len(),
{
    let i = choose|i: int| 0 <= i < ws.len() && (#[trigger] ws[i]).0 == k;
    if ws.last().0 == k {
    } else {
        assert(i < ws.len() - 1);
        assert(ws.drop_last()[i] == ws[i]);
        assert(writes_key(ws.drop_last(), k));
        lemma_apply_writes_on_key(m1, m2, ws.drop_last(), k);
    }
}

proof fn lemma_copy_is_apply(
    cur: Map<Seq<char>, Value>,
    prev: Map<Seq<char>, Value>,
    outs: Seq<Seq<char>>,
    n: int,
)
    requires
        0 <= n <= outs.len(),
    ensures
        copy_outputs_n(cur, prev, outs, n) == apply_writes(
            cur,
            Seq::new(n as nat, |i: int| (outs[i], prev[outs[i]])),
        ),
    decreases n,
{
    let ws = Seq::new(n as nat, |i: int| (outs[i], prev[outs[i]]));
    if n > 0 {
        lemma_copy_is_apply(cur, prev, outs, n - 1);
        assert(ws.drop_last() =~= Seq::new((n - 1) as nat, |i: int| (outs[i], prev[outs[i]])));
    }
}

proof fn lemma_write_is_apply(
    cur: Map<Seq<char>, Value>,
    outs: Seq<Seq<char>>,
    vals: Seq<Value>,
    n: int,
)
    requires
        0 <= n <= outs.len(),
        n <= vals.len(),
    ensures
        write_outputs_n(cur, outs, vals, n) == apply_writes(
            cur,
            Seq::new(n as nat, |i: int| (outs[i], vals[i])),
        ),
    decreases n,
{
    let ws = Seq::new(n as nat, |i: int| (outs[i], vals[i]));
    if n > 0 {
        lemma_write_is_apply(cur, outs, vals, n - 1);
        assert(ws.drop_last() =~= Seq::new((n - 1) as nat, |i: int| (outs[i], vals[i])));
    }
}

/// A successful run produces exactly the store with its writes applied.
proof fn lemma_run_model_as_writes(
    bindings: Map<Seq<char>, Seq<char>>,
    t: NodeModel,
    cur: Map<Seq<char>, Value>,
    prev: Map<Seq<char>, Value>,
)
    requires
        read_inputs(cur, bindings, t.ins, body_kind_req(t.body)) is Ok,
    ensures
        run_model(bindings, t, cur, prev) matches Ok((st, m)) && m == apply_writes(
            cur,
            run_writes(bindings, t, cur, prev),
        ),
{
    if inputs_unchanged(cur, prev, bindings, t.ins) && outs_in_prev(prev, t.outs) {
        lemma_copy_is_apply(cur, prev, t.outs, t.outs.len() as int);
    } else {
        let vals = read_inputs(cur, bindings, t.ins, body_kind_req(t.body))->Ok_0;
        let bv = body_vals(t.body, vals);
        let n: int = if t.outs.len() <= bv.len() {
            t.outs.len() as int
        } else {
            bv.len() as int
        };
        lemma_write_is_apply(cur, t.outs, bv, n);
        assert(write_outputs(cur, t.outs, bv) == write_outputs_n(cur, t.outs, bv, n));
    }
}

/// Two stores that agree at every input source of `t` give the same run:
/// same outcome, same status, and the same writes.
proof fn lemma_run_same(
    bindings: Map<Seq<char>, Seq<char>>,
    t: NodeModel,
    a: Map<Seq<char>, Value>,
    b: Map<Seq<char>, Value>,
    prev: Map<Seq<char>, Value>,
)
    requires
        forall|i: int|
            0 <= i < t.ins.len() ==> agree_at(a, b, input_source(bindings, #[trigger] t.ins[i])),
    ensures
        run_model(bindings, t, a, prev) is Err ==> run_model(bindings, t, b, prev) == run_model(
            bindings,
            t,
            a,
            prev,
        ),
        run_model(bindings, t, a, prev) is Ok ==> ({
            &&& run_writes(bindings, t, b, prev) == run_writes(bindings, t, a, prev)
            &&& run_model(bindings, t, b, prev) matches Ok((st, m)) && run_model(
                bindings,
                t,
                a,
                prev,
            )->Ok_0.0 == st && m == apply_writes(b, run_writes(bindings, t, a, prev))
        }),
{
    let kreq = body_kind_req(t.body);
    lemma_read_same(a, b, bindings, t.ins, kreq);
    if read_inputs(a, bindings, t.ins, kreq) is Ok {
        lemma_unchanged_same(a, b, prev, bindings, t.ins, kreq);
        lemma_run_model_as_writes(bindings, t, a, prev);
        lemma_run_model_as_writes(bindings, t, b, prev);
    }
}

/// The writes of `run_writes` name only declared outputs.
proof fn lemma_run_writes_keys(
    bindings: Map<Seq<char>, Seq<char>>,
    t: NodeModel,
    cur: Map<Seq<char>, Value>,
    prev: Map<Seq<char>, Value>,
    k: Seq<char>,
)
    requires
        writes_key(run_writes(bindings, t, cur, prev), k),
    ensures
        t.outs.contains(k),
{
    let ws = run_writes(bindings, t, cur, prev);
    let i = choose|i: int| 0 <= i < ws.len() && (#[trigger] ws[i]).0 == k;
    assert(t.outs[i] == k);
}

/// Under consistent arities, a successful run writes every declared
/// output.
proof fn lemma_run_writes_all_outs(
    bindings: Map<Seq<char>, Seq<char>>,
    t: NodeModel,
    cur: Map<Seq<char>, Value>,
    prev: Map<Seq<char>, Value>,
    k: Seq<char>,
)
    requires
        t.outs.len() <= body_arity(t.body),
        t.outs.contains(k),
    ensures
        writes_key(run_writes(bindings, t, cur, prev), k),
{
    let ws = run_writes(bindings, t, cur, prev);
    let j = choose|j: int| 0 <= j < t.outs.len() && t.outs[j] == k;
    if inputs_unchanged(cur, prev, bindings, t.ins) && outs_in_prev(prev, t.outs) {
        assert((ws[j]).0 == k);
    } else {
        let vals = read_inputs(cur, bindings, t.ins, body_kind_req(t.body))->Ok_0;
        lemma_body_vals_arity(t.body, vals);
        assert((ws[j]).0 == k);
    }
}

/// Replaying a successfully executed order from a store that agrees with
/// the first execution's start everywhere outside the order's outputs,
/// and with the first execution's result on the outputs, again succeeds;
/// the replay's result agrees with the first execution's result on the
/// outputs and with the replay's start elsewhere.
proof fn lemma_replay(
    bindings: Map<Seq<char>, Seq<char>>,
    ts: Seq<NodeModel>,
    a: Map<Seq<char>, Value>,
    b: Map<Seq<char>, Value>,
    prev: Map<Seq<char>, Value>,
)
    requires
        run_seq(bindings, ts, a, prev).1 is None,
        order_stable(bindings, ts),
        arities_ok(ts),
        forall|k: Seq<char>| an_output_of(ts, k) || agree_at(a, b, #[trigger] agree_key(k)),
    ensures
        run_seq(bindings, ts, b, prev).1 is None,
        forall|k: Seq<char>|
            !an_output_of(ts, k) ==> agree_at(run_seq(bindings, ts, b, prev).0, b, #[trigger] agree_key(k)),
        forall|k: Seq<char>|
            an_output_of(ts, k) ==> run_seq(bindings, ts, b, prev).0.dom().contains(
                #[trigger] agree_key(k),
            ) && run_seq(bindings, ts, a, prev).0.dom().contains(k) && run_seq(
                bindings,
                ts,
                b,
                prev,
            ).0[k] == run_seq(bindings, ts, a, prev).0[k],
    decreases ts.len(),
{
    if ts.len() == 0 {
    } else {
        let t = ts[0];
        let rest = ts.drop_first();
        // the first task's sources are outputs of no task in the order
        assert forall|i: int|
            0 <= i < t.ins.len() implies agree_at(
            a,
            b,
            input_source(bindings, #[trigger] t.ins[i]),
        ) by {
            let s = input_source(bindings, t.ins[i]);
            if an_output_of(ts, s) {
                let (y, j) = choose|y: int, j: int|
                    0 <= y < ts.len() && 0 <= j < ts[y].outs.len() && ts[y].outs[j] == s;
                assert(input_source(bindings, ts[0].ins[i]) != ts[y].outs[j]);
                assert(false);
            }
            assert(agree_at(a, b, agree_key(s)));
        }
        assert(run_model(bindings, t, a, prev) is Ok);
        lemma_run_same(bindings, t, a, b, prev);
        let ws = run_writes(bindings, t, a, prev);
        lemma_run_model_as_writes(bindings, t, a, prev);
        let a1 = apply_writes(a, ws);
        let b1 = apply_writes(b, ws);
        assert(run_seq(bindings, ts, a, prev) == run_seq(bindings, rest, a1, prev));
        assert(run_seq(bindings, ts, b, prev) == run_seq(bindings, rest, b1, prev));
        // stability and arities carry to the rest of the order
        assert forall|x: int, y: int, i: int, j: int|
            0 <= x <= y < rest.len() && 0 <= i < rest[x].ins.len() && 0 <= j
                < rest[y].outs.len() implies input_source(bindings, #[trigger] rest[x].ins[i])
            != #[trigger] rest[y].outs[j] by {
            assert(rest[x] == ts[x + 1] && rest[y] == ts[y + 1]);
            assert(input_source(bindings, ts[x + 1].ins[i]) != ts[y + 1].outs[j]);
        }
        assert(arities_ok(rest)) by {
            assert(forall|x: int| 0 <= x < rest.len() ==> #[trigger] rest[x] == ts[x + 1]);
        }
        // agreement carries to the rest of the order
        assert forall|k: Seq<char>|
            an_output_of(rest, k) || agree_at(a1, b1, #[trigger] agree_key(k)) by {
            if !an_output_of(rest, k) {
                if writes_key(ws, k) {
                    lemma_apply_writes_on_key(a, b, ws, k);
                } else {
                    lemma_apply_writes_frame(a, ws, k);
                    lemma_apply_writes_frame(b, ws, k);
                    if an_output_of(ts, k) {
                        let (y, j) = choose|y: int, j: int|
                            0 <= y < ts.len() && 0 <= j < ts[y].outs.len() && ts[y].outs[j] == k;
                        if y == 0 {
                            lemma_run_writes_all_outs(bindings, t, a, prev, k);
                            assert(false);
                        } else {
                            assert(rest[y - 1].outs[j] == k);
                            assert(an_output_of(rest, k));
                            assert(false);
                        }
                    }
                    assert(agree_at(a, b, agree_key(k)));
                }
            }
        }
        lemma_replay(bindings, rest, a1, b1, prev);
        let fa = run_seq(bindings, rest, a1, prev).0;
        let fb = run_seq(bindings, rest, b1, prev).0;
        // outputs of the whole order: from the rest, or written by the
        // first task and untouched after
        assert forall|k: Seq<char>|
            an_output_of(ts, k) implies fb.dom().contains(#[trigger] agree_key(k))
            && fa.dom().contains(k) && fb[k] == fa[k] by {
            if an_output_of(rest, k) {
            } else {
                let (y, j) = choose|y: int, j: int|
                    0 <= y < ts.len() && 0 <= j < ts[y].outs.len() && ts[y].outs[j] == k;
                if y > 0 {
                    assert(rest[y - 1].outs[j] == k);
                    assert(false);
                }
                lemma_run_writes_all_outs(bindings, t, a, prev, k);
                lemma_apply_writes_on_key(a, b, ws, k);
                lemma_run_seq_frame(bindings, rest, a1, prev);
                assert(agree_at(fa, a1, agree_key(k)));
                assert(agree_at(fb, b1, agree_key(k)));
            }
        }
        assert forall|k: Seq<char>|
            !an_output_of(ts, k) implies agree_at(fb, b, #[trigger] agree_key(k)) by {
            assert(!an_output_of(rest, k)) by {
                if an_output_of(rest, k) {
                    let (y, j) = choose|y: int, j: int|
                        0 <= y < rest.len() && 0 <= j < rest[y].outs.len() && rest[y].outs[j] == k;
                    assert(ts[y + 1].outs[j] == k);
                }
            }
            assert(agree_at(fb, b1, agree_key(k)));
            assert(!writes_key(ws, k)) by {
                if writes_key(ws, k) {
                    lemma_run_writes_keys(bindings, t, a, prev, k);
                    let j = choose|j: int| 0 <= j < t.outs.len() && t.outs[j] == k;
                    assert(ts[0].outs[j] == k);
                }
            }
            lemma_apply_writes_frame(b, ws, k);
        }
    }
}

/// An identity marker so one quantified variable can serve several
/// quantifiers without a shared trigger term.
pub open spec fn agree_key(k: Seq<char>) -> Seq<char> {
    k
}

/// A successful execution touches nothing outside the order's declared
/// outputs, and leaves every declared output in the store.
pub proof fn lemma_run_seq_frame(
    bindings: Map<Seq<char>, Seq<char>>,
    ts: Seq<NodeModel>,
    cur: Map<Seq<char>, Value>,
    prev: Map<Seq<char>, Value>,
)
    requires
        run_seq(bindings, ts, cur, prev).1 is None,
        arities_ok(ts),
    ensures
        forall|k: Seq<char>|
            !an_output_of(ts, k) ==> agree_at(run_seq(bindings, ts, cur, prev).0, cur, #[trigger] agree_key(k)),
        forall|k: Seq<char>|
            an_output_of(ts, k) ==> run_seq(bindings, ts, cur, prev).0.dom().contains(
                #[trigger] agree_key(k),
            ),
    decreases ts.len(),
{
    if ts.len() > 0 {
        let t = ts[0];
        let rest = ts.drop_first();
        assert(run_model(bindings, t, cur, prev) is Ok);
        lemma_run_model_as_writes(bindings, t, cur, prev);
        let ws = run_writes(bindings, t, cur, prev);
        let cur1 = apply_writes(cur, ws);
        assert(run_seq(bindings, ts, cur, prev) == run_seq(bindings, rest, cur1, prev));
        assert(arities_ok(rest)) by {
            assert(forall|x: int| 0 <= x < rest.len() ==> #[trigger] rest[x] == ts[x + 1]);
        }
        lemma_run_seq_frame(bindings, rest, cur1, prev);
        let fin = run_seq(bindings, rest, cur1, prev).0;
        assert forall|k: Seq<char>|
            !an_output_of(ts, k) implies agree_at(fin, cur, #[trigger] agree_key(k)) by {
            assert(!an_output_of(rest, k)) by {
                if an_output_of(rest, k) {
                    let (y, j) = choose|y: int, j: int|
                        0 <= y < rest.len() && 0 <= j < rest[y].outs.len() && rest[y].outs[j] == k;
                    assert(ts[y + 1].outs[j] == k);
                }
            }
            assert(agree_at(fin, cur1, agree_key(k)));
            assert(!writes_key(ws, k)) by {
                if writes_key(ws, k) {
                    lemma_run_writes_keys(bindings, t, cur, prev, k);
                    let j = choose|j: int| 0 <= j < t.outs.len() && t.outs[j] == k;
                    assert(ts[0].outs[j] == k);
                }
            }
            lemma_apply_writes_frame(cur, ws, k);
        }
        assert forall|k: Seq<char>| an_output_of(ts, k) implies fin.dom().contains(
            #[trigger] agree_key(k),
        ) by {
            if an_output_of(rest, k) {
            } else {
                let (y, j) = choose|y: int, j: int|
                    0 <= y < ts.len() && 0 <= j < ts[y].outs.len() && ts[y].outs[j] == k;
                if y > 0 {
                    assert(rest[y - 1].outs[j] == k);
                    assert(false);
                }
                lemma_run_writes_all_outs(bindings, t, cur, prev, k);
                lemma_apply_writes_on_key(cur, cur, ws, k);
                assert(agree_at(fin, cur1, agree_key(k)));
            }
        }
    }
}

/// Law: within one generation, executing a valid order twice leaves
/// exactly the store that executing it once leaves — requesting the same
/// work again changes nothing.  Valid means: producers stand strictly
/// before their consumers (no task reads an output of itself or of a
/// later task), and every task's body covers its declared outputs.
pub proof fn lemma_idempotent_within_generation(
    bindings: Map<Seq<char>, Seq<char>>,
    ts: Seq<NodeModel>,
    cur0: Map<Seq<char>, Value>,
    prev: Map<Seq<char>, Value>,
)
    requires
        run_seq(bindings, ts, cur0, prev).1 is None,
        order_stable(bindings, ts),
        arities_ok(ts),
    ensures
        run_seq(bindings, ts, run_seq(bindings, ts, cur0, prev).0, prev) == run_seq(
            bindings,
            ts,
            cur0,
            prev,
        ),
{
    let cur1 = run_seq(bindings, ts, cur0, prev).0;
    lemma_run_seq_frame(bindings, ts, cur0, prev);
    assert forall|k: Seq<char>|
        an_output_of(ts, k) || agree_at(cur0, cur1, #[trigger] agree_key(k)) by {
        if !an_output_of(ts, k) {
            assert(agree_at(cur1, cur0, agree_key(k)));
        }
    }
    lemma_replay(bindings, ts, cur0, cur1, prev);
    let cur2 = run_seq(bindings, ts, cur1, prev).0;
    assert forall|k: Seq<char>| agree_at(cur2, cur1, #[trigger] agree_key(k)) by {
        if an_output_of(ts, k) {
        } else {
            assert(agree_at(cur2, cur1, agree_key(k)));
        }
    }
    assert(cur2.dom() =~= cur1.dom()) by {
        assert forall|k: Seq<char>|
            cur2.dom().contains(k) <==> cur1.dom().contains(k) by {
            assert(agree_at(cur2, cur1, agree_key(k)));
        }
    }
    assert(cur2 =~= cur1) by {
        assert forall|k: Seq<char>| cur1.dom().contains(k) implies cur2[k] == cur1[k] by {
            assert(agree_at(cur2, cur1, agree_key(k)));
        }
    }
}

/// Law: a task all of whose inputs read values equal to the previous
/// store's, and all of whose outputs the previous store holds, reports
/// `Cached` and copies those outputs; its body does not run.
pub proof fn lemma_memoization_cached(
    bindings: Map<Seq<char>, Seq<char>>,
    t: NodeModel,
    cur: Map<Seq<char>, Value>,
    prev: Map<Seq<char>, Value>,
)
    requires
        read_inputs(cur, bindings, t.ins, body_kind_req(t.body)) is Ok,
        inputs_unchanged(cur, prev, bindings, t.ins),
        outs_in_prev(prev, t.outs),
    ensures
        run_model(bindings, t, cur, prev) == Ok::<
            (SolverStatus, Map<Seq<char>, Value>),
            crate::errors::SolverErrorV,
        >((SolverStatus::Cached, copy_outputs_n(cur, prev, t.outs, t.outs.len() as int))),
{
}

/// Law: a task one of whose inputs reads a value the previous store lacks
/// or holds differently executes its body and writes fresh outputs.
pub proof fn lemma_memoization_executed(
    bindings: Map<Seq<char>, Seq<char>>,
    t: NodeModel,
    cur: Map<Seq<char>, Value>,
    prev: Map<Seq<char>, Value>,
    i: int,
)
    requires
        read_inputs(cur, bindings, t.ins, body_kind_req(t.body)) is Ok,
        0 <= i < t.ins.len(),
        ({
            let src = input_source(bindings, t.ins[i]);
            !(prev.dom().contains(src) && prev[src] == cur[src])
        }),
    ensures
        run_model(bindings, t, cur, prev) == Ok::<
            (SolverStatus, Map<Seq<char>, Value>),
            crate::errors::SolverErrorV,
        >(
            (
                SolverStatus::Executed,
                write_outputs(
                    cur,
                    t.outs,
                    body_vals(
                        t.body,
                        read_inputs(cur, bindings, t.ins, body_kind_req(t.body))->Ok_0,
                    ),
                ),
            ),
        ),
{
    assert(!inputs_unchanged(cur, prev, bindings, t.ins));
}

/// Law: the traversal's outcome is stable in the fuel — once it finishes
/// or fails under some fuel, every larger fuel gives the same outcome, so
/// the execution order a solve reports is unique.
pub proof fn lemma_resolution_fuel_monotone(
    g: crate::graph::GraphModel,
    queue: Seq<usize>,
    acc: Seq<usize>,
    cur: Map<Seq<char>, Value>,
    f1: nat,
    f2: nat,
)
    requires
        f1 <= f2,
        resolve_model(g, queue, acc, cur, f1) != Resolution::OutOfFuel,
    ensures
        resolve_model(g, queue, acc, cur, f2) == resolve_model(g, queue, acc, cur, f1),
    decreases f1,
{
    if queue.len() == 0 {
    } else {
        let t = queue.last();
        match crate::solver::scan_inputs(g, g.tasks[t as int].ins, cur) {
            Err(_) => {},
            Ok(pushes) => {
                lemma_resolution_fuel_monotone(
                    g,
                    queue.drop_last() + pushes,
                    acc.push(t),
                    cur,
                    (f1 - 1) as nat,
                    (f2 - 1) as nat,
                );
            },
        }
    }
}

/// Law: a successful resolution visits every task it started from — in
/// particular, every requested task (every terminal, when solving the
/// terminals) appears in the execution order.
pub proof fn lemma_resolution_visits_requests(
    g: crate::graph::GraphModel,
    queue: Seq<usize>,
    acc: Seq<usize>,
    cur: Map<Seq<char>, Value>,
    fuel: nat,
    order: Seq<usize>,
)
    requires
        resolve_model(g, queue, acc, cur, fuel) == Resolution::Done(order),
    ensures
        forall|x: usize| queue.contains(x) || acc.contains(x) ==> order.contains(x),
    decreases fuel,
{
    if queue.len() == 0 {
    } else {
        let t = queue.last();
        match crate::solver::scan_inputs(g, g.tasks[t as int].ins, cur) {
            Err(_) => {},
            Ok(pushes) => {
                lemma_resolution_visits_requests(
                    g,
                    queue.drop_last() + pushes,
                    acc.push(t),
                    cur,
                    (fuel - 1) as nat,
                    order,
                );
                assert forall|x: usize| queue.contains(x) || acc.contains(x) implies
                    order.contains(x) by {
                    if acc.contains(x) {
                        let i = choose|i: int| 0 <= i < acc.len() && acc[i] == x;
                        assert(acc.push(t)[i] == x);
                        assert(acc.push(t).contains(x));
                    } else {
                        let i = choose|i: int| 0 <= i < queue.len() && queue[i] == x;
                        if i == queue.len() - 1 {
                            assert(acc.push(t)[acc.len() as int] == x);
                            assert(acc.push(t).contains(x));
                        } else {
                            assert((queue.drop_last() + pushes)[i] == x);
                            assert((queue.drop_last() + pushes).contains(x));
                        }
                    }
                }
            },
        }
    }
}

} // verus!
