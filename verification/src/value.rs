use vstd::prelude::*;

verus! {

/// Mathematical model of a bencode term: a signed integer, a raw byte
/// string, an ordered list, or a dictionary given as an ordered sequence
/// of (key, value) entries.
pub enum SpecValue {
    Int(int),
    Bytes(Seq<u8>),
    List(Seq<SpecValue>),
    Dict(Seq<(Seq<u8>, SpecValue)>),
}

/// A decoded bencode term. Dictionary entries keep the order in which the
/// input presented them; the encoder, not this type, is responsible for
/// canonical key order.
#[derive(Debug)]
pub enum Value {
    Int(i64),
    Bytes(Vec<u8>),
    List(Vec<Value>),
    Dict(Vec<(Vec<u8>, Value)>),
}

impl Value {
    /// The mathematical term this value stands for.
    pub open spec fn deep(self) -> SpecValue
        decreases self, 0nat,
    {
        match self {
            Value::Int(i) => SpecValue::Int(i as int),
            Value::Bytes(b) => SpecValue::Bytes(b@),
            Value::List(vs) => SpecValue::List(deep_seq(vs@)),
            Value::Dict(es) => SpecValue::Dict(deep_entries(es@)),
        }
    }
}

/// The terms a sequence of exec values stands for, element by element.
pub open spec fn deep_seq(vs: Seq<Value>) -> Seq<SpecValue>
    decreases vs, 1nat,
{
    Seq::new(
        vs.len(),
        |i: int|
            if 0 <= i < vs.len() {
                vs[i].deep()
            } else {
                SpecValue::Int(0)
            },
    )
}

/// The entry pairs a sequence of exec entries stands for.
pub open spec fn deep_entries(es: Seq<(Vec<u8>, Value)>) -> Seq<(Seq<u8>, SpecValue)>
    decreases es, 1nat,
{
    Seq::new(
        es.len(),
        |i: int|
            if 0 <= i < es.len() {
                (es[i].0@, es[i].1.deep())
            } else {
                (Seq::empty(), SpecValue::Int(0))
            },
    )
}

impl View for Value {
    type V = SpecValue;

    open spec fn view(&self) -> SpecValue {
        self.deep()
    }
}

/// Every integer of the term fits in a signed 64-bit machine word; this
/// holds of every term an exec `Value` stands for.
pub open spec fn wf_val(v: SpecValue) -> bool
    decreases v,
{
    match v {
        SpecValue::Int(i) => i64::MIN <= i <= i64::MAX,
        SpecValue::Bytes(_) => true,
        SpecValue::List(vs) => forall|i: int| 0 <= i < vs.len() ==> wf_val(#[trigger] vs[i]),
        SpecValue::Dict(es) => forall|i: int| 0 <= i < es.len() ==> wf_val(#[trigger] es[i].1),
    }
}

/// The term an exec `Value` stands for is always well formed.
pub proof fn lemma_deep_wf(v: Value)
    ensures
        wf_val(v@),
    decreases v,
{
    match v {
        Value::Int(_) => {}
        Value::Bytes(_) => {}
        Value::List(vs) => {
            assert forall|i: int| 0 <= i < v@->List_0.len() implies wf_val(#[trigger] v@->List_0[i]) by {
                lemma_deep_wf(vs@[i]);
            }
        }
        Value::Dict(es) => {
            assert forall|i: int| 0 <= i < v@->Dict_0.len() implies wf_val(#[trigger] v@->Dict_0[i].1) by {
                lemma_deep_wf(es@[i].1);
            }
        }
    }
}

} // verus!
