//! The matching service: looking a molecule up, by canonical form, in a
//! reference table of known molecules.

use vstd::prelude::*;
use crate::hex::WORK_LIMIT;
use crate::model::{canon, bounded_mol};
use crate::molecule::Molecule;

verus! {

/// Where a molecule appears in a puzzle: as a reagent, as a product, or as
/// both.
#[derive(Clone, Copy, PartialEq, Eq, Structural, Debug)]
pub enum Role {
    Reagent,
    Product,
    Both,
}

/// One appearance of a molecule in the game's puzzle set: the puzzle it
/// occurs in, its role there, and its display name.
pub struct Appearance {
    pub puzzle: String,
    pub role: Role,
    pub name: String,
}

impl View for Appearance {
    type V = (Seq<char>, Role, Seq<char>);

    open spec fn view(&self) -> (Seq<char>, Role, Seq<char>) {
        (self.puzzle@, self.role, self.name@)
    }
}

impl Clone for Appearance {
    fn clone(&self) -> (r: Appearance)
        ensures
            r@ == self@,
    {
        Appearance { puzzle: self.puzzle.clone(), role: self.role, name: self.name.clone() }
    }
}

/// The values of a list of appearances.
pub open spec fn apps_view(s: Seq<Appearance>) -> Seq<(Seq<char>, Role, Seq<char>)> {
    s.map_values(|a: Appearance| a@)
}

/// Copy a list of appearances.
#[verifier::loop_isolation(false)]
fn clone_apps(v: &Vec<Appearance>) -> (r: Vec<Appearance>)
    ensures
        apps_view(r@) == apps_view(v@),
{
    let mut r: Vec<Appearance> = Vec::new();
    let mut i: usize = 0;
    while i < v.len()
        invariant
            i <= v.len(),
            apps_view(r@) == apps_view(v@).subrange(0, i as int),
        decreases v.len() - i,
    {
        r.push(v[i].clone());
        proof {
            assert(apps_view(r@) =~= apps_view(v@).subrange(0, i as int + 1));
        }
        i += 1;
    }
    proof {
        assert(apps_view(v@).subrange(0, v@.len() as int) =~= apps_view(v@));
    }
    r
}

/// Canonicalize a molecule and look it up, by structural equality of
/// canonical forms, in a reference table.  The result is the appearance
/// list of the first matching entry, or empty when no entry matches.
#[verifier::loop_isolation(false)]
pub fn lookup(table: &Vec<(Molecule, Vec<Appearance>)>, m: &Molecule) -> (r: Vec<Appearance>)
    requires
        bounded_mol(m@, WORK_LIMIT as int),
    ensures
        (forall|i: int| 0 <= i < table@.len() ==> (#[trigger] table@[i].0)@ != canon(m@))
            ==> r@.len() == 0,
        forall|i: int|
            (0 <= i < table@.len() && (#[trigger] table@[i].0)@ == canon(m@) && (forall|j: int|
                0 <= j < i ==> (#[trigger] table@[j].0)@ != canon(m@))) ==> apps_view(r@)
                == apps_view(table@[i].1@),
{
    let c = m.normalized();
    let mut i: usize = 0;
    while i < table.len()
        invariant
            i <= table.len(),
            c@ == canon(m@),
            forall|j: int| 0 <= j < i ==> (#[trigger] table@[j].0)@ != canon(m@),
        decreases table.len() - i,
    {
        if table[i].0.matches(&c) {
            let r = clone_apps(&table[i].1);
            proof {
                assert forall|t: int|
                    (0 <= t < table@.len() && (#[trigger] table@[t].0)@ == canon(m@) && (forall|
                        j: int,
                    |
                        0 <= j < t ==> (#[trigger] table@[j].0)@ != canon(m@))) implies apps_view(
                    r@,
                ) == apps_view(table@[t].1@) by {
                    if t < i {
                        assert(table@[t].0@ != canon(m@));
                    }
                    if t > i {
                        assert(table@[i as int].0@ != canon(m@));
                    }
                }
            }
            return r;
        }
        i += 1;
    }
    Vec::new()
}

} // verus!
