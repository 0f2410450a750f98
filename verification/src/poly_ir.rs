//! The polynomial intermediate representation: a versioned list of named
//! constraint expressions over constants and variables.
use vstd::prelude::*;
use vstd::string::*;

verus! {

/// A constraint system in the intermediate representation.
#[derive(Debug)]
pub struct PolyIR {
    pub version: String,
    pub constraints: Vec<Constraint>,
}

/// A named constraint expression.
#[derive(Debug)]
pub struct Constraint {
    pub name: String,
    pub expr: Expr,
}

/// An expression: a constant, a variable, a sum or a product.
#[derive(Debug)]
pub enum Expr {
    Const { value: i64 },
    Var { name: String },
    Add { left: Box<Expr>, right: Box<Expr> },
    Mul { left: Box<Expr>, right: Box<Expr> },
}

impl PolyIR {
    /// The schema check: a version must be given.
    pub fn verify_schema(&self) -> (r: Result<(), String>)
        ensures
            r is Ok <==> self.version@.len() > 0,
            r matches Err(e) ==> e@ == "missing version"@,
    {
        if self.version.as_str().unicode_len() == 0 {
            return Err(String::from_str("missing version"));
        }
        Ok(())
    }
}

} // verus!
