use vstd::prelude::*;

verus! {

/// A float literal as the tokenizer read it: the mantissa text (an optional
/// leading `-`, digits and at most one `.`) and, when an exponent marker was
/// seen, the exponent text (an optional leading `-` and digits). The number
/// it denotes is `mantissa * 10^exponent`.
#[derive(Debug, Clone, PartialEq)]
pub struct FloatLiteral {
    pub mantissa: String,
    pub exponent: Option<String>,
}

/// A number: its kind is chosen by the literal's shape, once.
#[derive(Debug, Clone, PartialEq)]
pub enum Number {
    Integer(i64),
    Float(FloatLiteral),
}

/// A parsed JSON value. An object keeps its entries in the order in which
/// their keys first appeared, each key once.
#[derive(Debug, PartialEq)]
pub enum Value {
    Null,
    Boolean(bool),
    Number(Number),
    String(String),
    Array(Vec<Value>),
    Object(Vec<(String, Value)>),
}

/// The model of a `Number`.
pub enum NumberModel {
    Integer(i64),
    Float { mantissa: Seq<char>, exponent: Option<Seq<char>> },
}

/// The model of a `Value`: strings become character sequences.
pub enum Json {
    Null,
    Boolean(bool),
    Number(NumberModel),
    Str(Seq<char>),
    Array(Seq<Json>),
    Object(Seq<(Seq<char>, Json)>),
}

/// The models of the first `n` items.
pub open spec fn items_prefix(items: Seq<Value>, n: int) -> Seq<Json>
    decreases items, n,
{
    if n <= 0 || n > items.len() {
        Seq::empty()
    } else {
        items_prefix(items, n - 1).push(items[n - 1].view())
    }
}

/// The models of the first `n` entries.
pub open spec fn entries_prefix(es: Seq<(String, Value)>, n: int) -> Seq<(Seq<char>, Json)>
    decreases es, n,
{
    if n <= 0 || n > es.len() {
        Seq::empty()
    } else {
        entries_prefix(es, n - 1).push((es[n - 1].0@, es[n - 1].1.view()))
    }
}

/// The models of an array's items.
pub open spec fn items_model(items: Seq<Value>) -> Seq<Json> {
    Seq::new(items.len(), |i: int| items[i]@)
}

/// The models of an object's entries.
pub open spec fn entries_model(es: Seq<(String, Value)>) -> Seq<(Seq<char>, Json)> {
    Seq::new(es.len(), |i: int| (es[i].0@, es[i].1@))
}

proof fn lemma_items_prefix(items: Seq<Value>, n: int)
    requires
        0 <= n <= items.len(),
    ensures
        items_prefix(items, n) =~= items_model(items).take(n),
    decreases n,
{
    if n > 0 {
        lemma_items_prefix(items, n - 1);
        assert(items_model(items).take(n) =~= items_model(items).take(n - 1).push(items[n - 1]@));
    }
}

proof fn lemma_entries_prefix(es: Seq<(String, Value)>, n: int)
    requires
        0 <= n <= es.len(),
    ensures
        entries_prefix(es, n) =~= entries_model(es).take(n),
    decreases n,
{
    if n > 0 {
        lemma_entries_prefix(es, n - 1);
        assert(entries_model(es).take(n) =~= entries_model(es).take(n - 1).push(
            (es[n - 1].0@, es[n - 1].1@),
        ));
    }
}

/// An array's model is the sequence of its items' models.
pub proof fn lemma_array_view(items: Vec<Value>)
    ensures
        Value::Array(items)@ == Json::Array(items_model(items@)),
{
    lemma_items_prefix(items@, items@.len() as int);
    assert(items_model(items@).take(items@.len() as int) =~= items_model(items@));
}

/// An object's model is the sequence of its entries' models.
pub proof fn lemma_object_view(es: Vec<(String, Value)>)
    ensures
        Value::Object(es)@ == Json::Object(entries_model(es@)),
{
    lemma_entries_prefix(es@, es@.len() as int);
    assert(entries_model(es@).take(es@.len() as int) =~= entries_model(es@));
}

impl FloatLiteral {
    /// A copy of this literal.
    pub fn copied(&self) -> (r: FloatLiteral)
        ensures
            r.mantissa@ == self.mantissa@,
            r.exponent.is_some() == self.exponent.is_some(),
            r.exponent.is_some() ==> r.exponent.unwrap()@ == self.exponent.unwrap()@,
    {
        let exponent = match &self.exponent {
            Some(e) => Some(e.clone()),
            None => None,
        };
        FloatLiteral { mantissa: self.mantissa.clone(), exponent }
    }
}

impl Number {
    /// A copy of this number.
    pub fn copied(&self) -> (r: Number)
        ensures
            r@ == self@,
    {
        match self {
            Number::Integer(i) => Number::Integer(*i),
            Number::Float(f) => Number::Float(f.copied()),
        }
    }
}

impl View for Number {
    type V = NumberModel;

    open spec fn view(&self) -> NumberModel {
        match self {
            Number::Integer(i) => NumberModel::Integer(*i),
            Number::Float(f) => NumberModel::Float {
                mantissa: f.mantissa@,
                exponent: match &f.exponent {
                    Some(e) => Some(e@),
                    None => None,
                },
            },
        }
    }
}

impl View for Value {
    type V = Json;

    open spec fn view(&self) -> Json
        decreases self,
    {
        match self {
            Value::Null => Json::Null,
            Value::Boolean(b) => Json::Boolean(*b),
            Value::Number(n) => Json::Number(n@),
            Value::String(s) => Json::Str(s@),
            Value::Array(items) => Json::Array(items_prefix(items@, items@.len() as int)),
            Value::Object(es) => Json::Object(entries_prefix(es@, es@.len() as int)),
        }
    }
}

} // verus!
