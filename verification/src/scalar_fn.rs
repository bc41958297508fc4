//! Calls of built-in functions.
use std::sync::Arc;
use vstd::prelude::*;

use crate::expr::Expr;

verus! {

/// A call of a built-in function.
#[derive(Debug)]
pub struct ScalarFn<F> {
    pub func: F,
    pub inputs: Vec<Arc<Expr>>,
}

impl<F> ScalarFn<F> {
    /// A call of the function with one argument.
    pub fn unary(func: F, input: Arc<Expr>) -> (r: ScalarFn<F>)
        ensures
            r.func == func,
            r.inputs@ == seq![input],
    {
        let mut inputs: Vec<Arc<Expr>> = Vec::new();
        inputs.push(input);
        assert(inputs@ =~= seq![input]);
        ScalarFn { func, inputs }
    }
}

} // verus!
