//! Strategies for solving puzzles.
//!
//! Each strategy implements a single method `solve`, which takes a puzzle
//! and a raw word list and returns a solution or `None`. Whatever the
//! strategy, a returned solution always passes the puzzle's validator.

use vstd::prelude::*;

pub mod a_star;
pub mod brute_force;
pub mod pre_dict;

use crate::LBPuzzle;

verus! {

/// Strategy for solving a puzzle. `None` signals search exhaustion, not an
/// error; a returned solution is always valid for the board and spelled
/// entirely from words of the given list.
pub trait SolverStrategy<const S: usize, const L: usize> {
    fn solve(&self, puzzle: &LBPuzzle<S, L>, words: &Vec<String>) -> (r: Option<Vec<String>>)
        ensures
            r matches Some(soln) ==> puzzle.solution_valid(soln.deep_view()) && (forall|k: int|
                0 <= k < soln@.len() ==> words.deep_view().contains(
                    #[trigger] soln.deep_view()[k],
                )),
    ;
}

/// True if `v` holds a word spelled `w`.
pub fn contains_string(v: &Vec<String>, w: &String) -> (r: bool)
    ensures
        r == exists|k: int| 0 <= k < v@.len() && (#[trigger] v@[k])@ == w@,
{
    let mut i: usize = 0;
    while i < v.len()
        invariant
            i <= v@.len(),
            forall|k: int| 0 <= k < i as int ==> (#[trigger] v@[k])@ != w@,
        decreases v@.len() - i,
    {
        if v[i].eq(w) {
            return true;
        }
        i += 1;
    }
    false
}

} // verus!
