//! What a `return` statement hands to its caller, and what an expression
//! evaluates to.

use vstd::prelude::*;
use crate::value::values_view;
use crate::value::Value;
use crate::value::ValueView;

verus! {

/// The value that a pending `return` carries.
#[derive(Debug)]
pub enum ReturnValue {
    Bool(bool),
    Algebra(Value),
    Array(Vec<Value>),
}

/// A return value as contracts see it.
pub enum RetView {
    Bool(bool),
    Algebra(ValueView),
    Array(Seq<ValueView>),
}

impl View for ReturnValue {
    type V = RetView;

    open spec fn view(&self) -> RetView {
        match self {
            ReturnValue::Bool(b) => RetView::Bool(*b),
            ReturnValue::Algebra(v) => RetView::Algebra(v@),
            ReturnValue::Array(a) => RetView::Array(values_view(a@)),
        }
    }
}

/// A copy of the values `v`.
pub fn clone_values(v: &Vec<Value>) -> (r: Vec<Value>)
    ensures
        values_view(r@) == values_view(v@),
{
    let mut out: Vec<Value> = Vec::new();
    let mut i: usize = 0;
    while i < v.len()
        invariant
            i <= v.len(),
            out@.len() == i,
            forall|j: int| 0 <= j < i ==> out@[j]@ == v@[j]@,
        decreases v.len() - i,
    {
        out.push(v[i].clone());
        i += 1;
    }
    proof {
        assert(values_view(out@) =~= values_view(v@));
    }
    out
}

impl Clone for ReturnValue {
    fn clone(&self) -> (r: Self)
        ensures
            r@ == self@,
    {
        match self {
            ReturnValue::Bool(b) => ReturnValue::Bool(*b),
            ReturnValue::Algebra(v) => ReturnValue::Algebra(v.clone()),
            ReturnValue::Array(a) => ReturnValue::Array(clone_values(a)),
        }
    }
}

} // verus!
