pub mod common;

use vstd::prelude::*;
use crate::ast::program::Program;

verus! {

/// A parser of TeaLang source text.
pub struct Parser<'a> {
    input: &'a str,
    pub program: Option<Box<Program>>,
}

impl<'a> Parser<'a> {
    /// The source text.
    pub closed spec fn spec_input(&self) -> Seq<char> {
        self.input@
    }

    /// The parsed program, once there is one.
    pub closed spec fn spec_program(&self) -> Option<Box<Program>> {
        self.program
    }

    /// A parser of `input` that has not parsed yet.
    pub fn new(input: &'a str) -> (r: Self)
        ensures
            r.spec_input() == input@,
            r.spec_program() is None,
    {
        Self { input, program: None }
    }

    /// The source text.
    pub fn input(&self) -> (r: &'a str)
        ensures
            r@ == self.spec_input(),
    {
        self.input
    }
}

} // verus!
