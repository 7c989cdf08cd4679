//! Tasks: named units of work with declared inputs, outputs and a body.
//!
//! A body is drawn from a closed language: emit fixed values, or combine
//! the `u32` inputs by a wrapping sum, optionally narrowed to an `f32` bit
//! pattern.  The body's meaning is a total function of the input values,
//! which is what the memoization protocol relies on.

use vstd::arithmetic::div_mod::lemma_add_mod_noop;
use vstd::arithmetic::div_mod::lemma_small_mod;
use vstd::prelude::*;
use vstd::string::StringExecFns;

use crate::float_bits::f32_bits_of_u32;
use crate::float_bits::u32_to_f32_bits;
use crate::value::Value;
use crate::value::ValueKind;

verus! {

/// The canonical name of a task's asset: `"<task>::<asset>"`.
pub fn asset_str(node: &str, asset: &str) -> (r: String)
    ensures
        r@ == node@ + "::"@ + asset@,
{
    let mut s: String = node.to_owned();
    s.append("::");
    s.append(asset);
    s
}

/// The executable body of a task.
pub enum TaskBody {
    /// Writes the given values to the declared outputs, one each, in order.
    Emit(Vec<Value>),
    /// One output: the wrapping sum of all inputs plus `add`, as a `u32`.
    /// Every input must hold a `u32`.
    SumU32 { add: u32 },
    /// One output: the wrapping sum of all inputs plus `add`, encoded as
    /// the bit pattern of the nearest `f32`.  Every input must hold a `u32`.
    SumU32ToF32 { add: u32 },
}

/// The mathematical value of a [`TaskBody`].
pub enum BodyModel {
    Emit(Seq<Value>),
    SumU32(u32),
    SumU32ToF32(u32),
}

impl View for TaskBody {
    type V = BodyModel;

    open spec fn view(&self) -> BodyModel {
        match self {
            TaskBody::Emit(vs) => BodyModel::Emit(vs@),
            TaskBody::SumU32 { add } => BodyModel::SumU32(*add),
            TaskBody::SumU32ToF32 { add } => BodyModel::SumU32ToF32(*add),
        }
    }
}

/// The kind every input value must have before this body can run, if the
/// body constrains its inputs at all.
pub open spec fn body_kind_req(b: BodyModel) -> Option<ValueKind> {
    match b {
        BodyModel::Emit(_) => None,
        BodyModel::SumU32(_) => Some(ValueKind::U32),
        BodyModel::SumU32ToF32(_) => Some(ValueKind::U32),
    }
}

/// The kind every input value must have, as an executable check.
pub fn body_kind(b: &TaskBody) -> (r: Option<ValueKind>)
    ensures
        r == body_kind_req(b@),
{
    match b {
        TaskBody::Emit(_) => None,
        TaskBody::SumU32 { .. } => Some(ValueKind::U32),
        TaskBody::SumU32ToF32 { .. } => Some(ValueKind::U32),
    }
}

/// The sum of the `u32` payloads of a value sequence.
pub open spec fn sum_u32(vals: Seq<Value>) -> nat
    decreases vals.len(),
{
    if vals.len() == 0 {
        0
    } else {
        sum_u32(vals.drop_last()) + (match vals.last() {
            Value::U32(x) => x as nat,
            _ => 0,
        })
    }
}

/// The values a body produces from the given input values, in output
/// order.  Sums wrap modulo `2^32`, as the `u32` additions of the
/// authoring layer do.
pub open spec fn body_vals(b: BodyModel, vals: Seq<Value>) -> Seq<Value> {
    match b {
        BodyModel::Emit(vs) => vs,
        BodyModel::SumU32(add) => seq![
            Value::U32(((sum_u32(vals) + add) % 0x1_0000_0000) as u32),
        ],
        BodyModel::SumU32ToF32(add) => seq![
            Value::F32Bits(f32_bits_of_u32(((sum_u32(vals) + add) % 0x1_0000_0000) as u32)),
        ],
    }
}

/// The wrapping sum of the `u32` payloads, reduced modulo `2^32`.
fn sum_vals_wrapping(vals: &Vec<Value>) -> (s: u64)
    ensures
        s == sum_u32(vals@) % 0x1_0000_0000,
{
    let mut acc: u64 = 0;
    let n = vals.len();
    for i in 0..n
        invariant
            n == vals@.len(),
            acc == sum_u32(vals@.take(i as int)) % 0x1_0000_0000,
    {
        let x: u64 = match vals[i] {
            Value::U32(x) => x as u64,
            _ => 0,
        };
        proof {
            assert(vals@.take(i + 1).drop_last() =~= vals@.take(i as int));
            assert(vals@.take(i + 1).last() == vals@[i as int]);
            lemma_small_mod(x as nat, 0x1_0000_0000);
            lemma_add_mod_noop(sum_u32(vals@.take(i as int)) as int, x as int, 0x1_0000_0000);
        }
        acc = (acc + x) % 0x1_0000_0000;
    }
    proof {
        assert(vals@.take(n as int) =~= vals@);
    }
    acc
}

/// Runs a body on the given input values.
pub fn eval_body(body: &TaskBody, vals: &Vec<Value>) -> (r: Vec<Value>)
    ensures
        r@ == body_vals(body@, vals@),
{
    match body {
        TaskBody::Emit(vs) => {
            let mut out: Vec<Value> = Vec::new();
            let n = vs.len();
            for i in 0..n
                invariant
                    n == vs@.len(),
                    out@ == vs@.take(i as int),
            {
                out.push(vs[i]);
                proof {
                    assert(vs@.take(i + 1) =~= vs@.take(i as int).push(vs@[i as int]));
                }
            }
            proof {
                assert(vs@.take(n as int) =~= vs@);
            }
            out
        },
        TaskBody::SumU32 { add } => {
            let s = sum_vals_wrapping(vals);
            proof {
                lemma_small_mod(*add as nat, 0x1_0000_0000);
                lemma_add_mod_noop(sum_u32(vals@) as int, *add as int, 0x1_0000_0000);
            }
            let w: u64 = (s + (*add as u64)) % 0x1_0000_0000;
            let mut out: Vec<Value> = Vec::new();
            out.push(Value::U32(w as u32));
            proof {
                assert(out@ =~= body_vals(body@, vals@));
            }
            out
        },
        TaskBody::SumU32ToF32 { add } => {
            let s = sum_vals_wrapping(vals);
            proof {
                lemma_small_mod(*add as nat, 0x1_0000_0000);
                lemma_add_mod_noop(sum_u32(vals@) as int, *add as int, 0x1_0000_0000);
            }
            let w: u64 = (s + (*add as u64)) % 0x1_0000_0000;
            let mut out: Vec<Value> = Vec::new();
            out.push(Value::F32Bits(u32_to_f32_bits(w as u32)));
            proof {
                assert(out@ =~= body_vals(body@, vals@));
            }
            out
        },
    }
}

/// The mathematical value of a [`Node`].
pub struct NodeModel {
    pub name: Seq<char>,
    pub ins: Seq<Seq<char>>,
    pub outs: Seq<Seq<char>>,
    pub body: BodyModel,
}

/// A named task: ordered input and output asset names and a body.
/// Immutable once registered in a graph.
pub struct Node {
    name: String,
    body: TaskBody,
    ins: Vec<String>,
    outs: Vec<String>,
}

impl View for Node {
    type V = NodeModel;

    closed spec fn view(&self) -> NodeModel {
        NodeModel {
            name: self.name@,
            ins: self.ins.deep_view(),
            outs: self.outs.deep_view(),
            body: self.body@,
        }
    }
}

impl Node {
    /// A task with the given name, body, and input and output asset names.
    pub fn new(name: &str, body: TaskBody, ins: Vec<String>, outs: Vec<String>) -> (r: Node)
        ensures
            r@.name == name@,
            r@.ins == ins.deep_view(),
            r@.outs == outs.deep_view(),
            r@.body == body@,
    {
        Node { name: name.to_owned(), body, ins, outs }
    }

    /// The task's name.
    pub fn get_name(&self) -> (r: &str)
        ensures
            r@ == self@.name,
    {
        self.name.as_str()
    }

    /// The declared input asset names, in order.
    pub fn get_ins(&self) -> (r: &Vec<String>)
        ensures
            r.deep_view() == self@.ins,
    {
        &self.ins
    }

    /// The declared output asset names, in order.
    pub fn get_outs(&self) -> (r: &Vec<String>)
        ensures
            r.deep_view() == self@.outs,
    {
        &self.outs
    }

    /// The task's body.
    pub fn get_body(&self) -> (r: &TaskBody)
        ensures
            r@ == self@.body,
    {
        &self.body
    }
}

} // verus!
