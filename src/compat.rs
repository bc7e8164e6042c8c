use vstd::prelude::*;
use crate::coord::CoOrd;

verus! {

/// An adjacency rule: `tile2` was seen in the cell reached from a `tile1`
/// cell by the step `direction`.
#[derive(PartialEq, Eq, Structural, Debug, Clone, Copy, Hash)]
pub struct Compat {
    pub tile1: char,
    pub tile2: char,
    pub direction: CoOrd,
}

/// Whether `rules` holds the rule `(tile1, tile2, direction)`.
pub fn has_rule(rules: &Vec<Compat>, tile1: char, tile2: char, direction: CoOrd) -> (r: bool)
    ensures
        r == rules@.contains((Compat { tile1: tile1, tile2: tile2, direction: direction })),
{
    let target = Compat { tile1, tile2, direction };
    let mut i: usize = 0;
    let mut found = false;
    while i < rules.len()
        invariant
            i <= rules.len(),
            found ==> rules@.contains(target),
            !found ==> forall|j: int| 0 <= j < i ==> rules@[j] != target,
        decreases rules.len() - i,
    {
        if rules[i] == target {
            found = true;
        }
        i += 1;
    }
    found
}

} // verus!
