//! The warnings that can be turned off.

use crate::ast::{AnnArg, Annotation};
use crate::text::str_eq;
use vstd::prelude::*;

verus! {

/// A warning, by what it is about.
#[derive(Debug, Clone, Copy, PartialEq, Eq, Structural)]
pub enum Lint {
    /// A list is read after a write to it in a loop: the old list lives on, so that every
    /// round copies it.
    StaleWrite,
}

impl Lint {
    /// The name that `@allow` turns it off by.
    pub open spec fn name_spec(self) -> Seq<char> {
        match self {
            Lint::StaleWrite => "stale_write"@,
        }
    }

    pub fn name(self) -> (r: &'static str)
        ensures
            r@ == self.name_spec(),
    {
        match self {
            Lint::StaleWrite => "stale_write",
        }
    }

    /// The warning of a name.
    pub fn from_name(name: &str) -> (r: Option<Lint>)
        ensures
            match r {
                Some(l) => l.name_spec() == name@,
                None => forall|l: Lint| name@ != #[trigger] l.name_spec(),
            },
    {
        let lints = all();
        let mut i: usize = 0;
        while i < lints.len()
            invariant
                i <= lints.len(),
                forall|l: Lint| #[trigger] lints@.contains(l),
                forall|k: int| 0 <= k < i ==> (#[trigger] lints[k]).name_spec() != name@,
            decreases lints.len() - i,
        {
            let l = lints[i];
            if str_eq(l.name(), name) {
                return Some(l);
            }
            i += 1;
        }
        assert forall|l: Lint| name@ != #[trigger] l.name_spec() by {
            assert(lints@.contains(l));
        }
        None
    }
}

/// Every warning.
pub fn all() -> (r: Vec<Lint>)
    ensures
        r@ == seq![Lint::StaleWrite],
        forall|l: Lint| #[trigger] r@.contains(l),
{
    let r = vec![Lint::StaleWrite];
    assert(r@ =~= seq![Lint::StaleWrite]);
    assert forall|l: Lint| #[trigger] r@.contains(l) by {
        assert(r@[0] == l);
    }
    r
}

/// No two warnings share a name, so that a name turns off one warning only.
pub proof fn names_tell_lints_apart(a: Lint, b: Lint)
    requires
        a.name_spec() == b.name_spec(),
    ensures
        a == b,
{
}

/// Whether an argument names a warning: an item of one name, with no arguments of its own.
pub open spec fn names_lint(arg: AnnArg, lint: Lint) -> bool {
    arg matches AnnArg::Item { path, args } && path.len() == 1 && path[0]@ == lint.name_spec()
        && args.len() == 0
}

/// Whether an annotation turns a warning off.
pub open spec fn turns_off(a: Annotation, lint: Lint) -> bool {
    a.name@ == "allow"@ && exists|k: int|
        0 <= k < a.args.len() && names_lint(#[trigger] a.args[k], lint)
}

fn arg_names(arg: &AnnArg, lint: Lint) -> (r: bool)
    ensures
        r == names_lint(*arg, lint),
{
    match arg {
        AnnArg::Item { path, args } => path.len() == 1 && args.len() == 0 && str_eq(
            path[0].as_str(),
            lint.name(),
        ),
        AnnArg::Text(_) => false,
    }
}

/// Whether the annotations of a declaration turn a warning off. A longer path, an item with
/// arguments of its own, a text, and a name that is none of a warning turn nothing off.
pub fn allows(annotations: &Vec<Annotation>, lint: Lint) -> (r: bool)
    ensures
        r == exists|i: int|
            0 <= i < annotations.len() && turns_off(#[trigger] annotations[i], lint),
{
    let mut i: usize = 0;
    while i < annotations.len()
        invariant
            i <= annotations.len(),
            forall|k: int| 0 <= k < i ==> !turns_off(#[trigger] annotations[k], lint),
        decreases annotations.len() - i,
    {
        let a = &annotations[i];
        if str_eq(a.name.as_str(), "allow") {
            let mut k: usize = 0;
            while k < a.args.len()
                invariant
                    i < annotations.len(),
                    *a == annotations@[i as int],
                    a.name@ == "allow"@,
                    k <= a.args.len(),
                    forall|j: int| 0 <= j < k ==> !names_lint(#[trigger] a.args[j], lint),
                decreases a.args.len() - k,
            {
                if arg_names(&a.args[k], lint) {
                    assert(turns_off(annotations[i as int], lint));
                    return true;
                }
                k += 1;
            }
        }
        i += 1;
    }
    false
}

} // verus!
