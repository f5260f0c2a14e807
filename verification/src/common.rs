pub mod graph;
pub mod text;

use vstd::prelude::*;
use crate::common::text::{push_char, push_str};

verus! {

/// The operating system whose symbol conventions the output follows.
#[derive(Debug, Clone, Copy, PartialEq, Eq, Structural)]
pub enum Target {
    Linux,
    Macos,
}

/// The assembly name of `name` on `target`: macOS prefixes an underscore.
pub open spec fn mangled(target: Target, name: Seq<char>) -> Seq<char> {
    match target {
        Target::Macos => seq!['_'] + name,
        Target::Linux => name,
    }
}

impl Target {
    /// The assembly name of the symbol `name` on this target.
    pub fn mangle_symbol(&self, name: &str) -> (r: String)
        ensures
            r@ == mangled(*self, name@),
    {
        let mut s = String::new();
        if let Target::Macos = self {
            push_char(&mut s, '_');
        }
        push_str(&mut s, name);
        assert(s@ =~= mangled(*self, name@));
        s
    }
}

} // verus!
