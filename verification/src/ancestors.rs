//! Walking from a path up toward the root.

use vstd::prelude::*;
use crate::path::{Path, spec_parent};

verus! {

/// Yields a path, then its parent, then the parent's parent, and so on.
pub struct Ancestors<'a> {
    pub next: Option<Path<'a>>,
}

impl<'a> Ancestors<'a> {
    pub fn new(path: Path<'a>) -> (r: Ancestors<'a>)
        ensures
            r.next matches Some(p) && p@ == path@,
    {
        Ancestors { next: Some(path) }
    }

    /// Yield the current path and step to its parent.
    pub fn next(&mut self) -> (r: Option<Path<'a>>)
        ensures
            ({
                match old(self).next {
                    None => r is None && final(self).next is None,
                    Some(p) => {
                        &&& r matches Some(q) && q@ == p@
                        &&& (match spec_parent(p@) {
                            None => final(self).next is None,
                            Some(par) => final(self).next matches Some(np) && np@ == par,
                        })
                    },
                }
            }),
    {
        let next = self.next;
        self.next = match &next {
            Some(p) => p.parent(),
            None => None,
        };
        next
    }
}

} // verus!
