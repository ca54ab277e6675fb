//! Symbolic evaluation of arithmetic-circuit programs over a prime field.
//!
//! The crate is organised bottom-up: fixed-width integers and modular
//! arithmetic, linear combinations and symbolic values, the signal and
//! constraint store, the lexical scope chain, and the evaluator that walks a
//! program and fills the store.

pub mod ast;
pub mod bigint;
pub mod codec;
pub mod constraint;
pub mod discipline;
pub mod error;
pub mod evaluator;
pub mod field;
pub mod lc;
pub mod literal;
pub mod machine;
pub mod namemap;
pub mod retval;
pub mod run;
pub mod scope;
pub mod semantics;
pub mod store;
pub mod valuation;
pub mod value;
pub mod witness;
