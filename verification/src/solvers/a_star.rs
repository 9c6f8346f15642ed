//! Solver that phrases the hunt for a word sequence as weighted graph
//! search: vertices pair the letter a partial solution ends on with the set
//! of board letters covered so far, edges are dictionary words, and the
//! heuristic counts the letters still uncovered. With the edge weight set to
//! the board size the heuristic never overestimates, so the search returns a
//! solution with the fewest possible words.

use vstd::prelude::*;

use crate::LBPuzzle;
use crate::chars_of;
use crate::contains_char;
use crate::index_of_char;
use crate::first_pos_in;
use crate::dictionary::SmartDictionary;
use crate::solvers::SolverStrategy;
use vstd::string::StrSliceExecFns;

verus! {

/// A search state: the letter the partial solution ends on (`None` at the
/// start), which distinct board letters are covered so far (one flag per
/// distinct letter, in board order), and the dictionary indices of the words
/// used to get here. Two vertices with the same letter and coverage are
/// interchangeable for the search, up to the path recorded in them.
#[derive(PartialEq, Eq, Hash, Clone)]
pub struct Vertex {
    pub letter: Option<char>,
    pub coverage: Vec<bool>,
    pub words_path: Vec<usize>,
}

/// Number of covered letters: the true flags in `cov`.
pub closed spec fn count_true(cov: Seq<bool>) -> int
    decreases cov.len(),
{
    if cov.len() == 0 {
        0
    } else {
        count_true(cov.drop_last()) + if cov.last() {
            1int
        } else {
            0int
        }
    }
}

/// The distinct characters of `s`, in order of first appearance.
pub closed spec fn distinct_of(s: Seq<char>) -> Seq<char>
    decreases s.len(),
{
    if s.len() == 0 {
        Seq::empty()
    } else {
        let pre = distinct_of(s.drop_last());
        if pre.contains(s.last()) {
            pre
        } else {
            pre.push(s.last())
        }
    }
}

/// The distinct letters of the board, in order of first appearance.
fn distinct_letters<const S: usize, const L: usize>(puzzle: &LBPuzzle<S, L>) -> (r: Vec<char>)
    ensures
        r@ == distinct_of(puzzle.all_letters_view()),
{
    let all_s = puzzle.all_letters();
    let all = chars_of(all_s.as_str());
    let mut out: Vec<char> = Vec::new();
    let mut i: usize = 0;
    while i < all.len()
        invariant
            all@ == puzzle.all_letters_view(),
            i <= all@.len(),
            out@ == distinct_of(all@.take(i as int)),
        decreases all@.len() - i,
    {
        proof {
            assert(all@.take(i as int + 1).drop_last() =~= all@.take(i as int));
            assert(all@.take(i as int + 1).last() == all@[i as int]);
        }
        if !contains_char(&out, all[i]) {
            out.push(all[i]);
        }
        i += 1;
    }
    proof {
        assert(all@.take(all@.len() as int) =~= all@);
    }
    out
}

/// A fresh vector holding the same indices.
fn clone_indices(v: &Vec<usize>) -> (r: Vec<usize>)
    ensures
        r@ == v@,
{
    let mut out: Vec<usize> = Vec::new();
    let mut i: usize = 0;
    while i < v.len()
        invariant
            i <= v@.len(),
            out@ == v@.take(i as int),
        decreases v@.len() - i,
    {
        out.push(v[i]);
        proof {
            assert(out@ =~= v@.take(i as int + 1));
        }
        i += 1;
    }
    proof {
        assert(out@ =~= v@);
    }
    out
}

/// Coverage flags after also using every letter of `w`: the flag at each
/// `w`-letter's position in `d` is raised.
pub closed spec fn covered_after(cov: Seq<bool>, d: Seq<char>, w: Seq<char>) -> Seq<bool>
    decreases w.len(),
{
    if w.len() == 0 {
        cov
    } else {
        let pre = covered_after(cov, d, w.drop_last());
        let p = first_pos_in(d, w.last(), 0);
        if p < d.len() && p < pre.len() {
            pre.update(p, true)
        } else {
            pre
        }
    }
}

/// Raise the flag of each letter of `w` that appears in `distinct`.
fn cover_union(cov: &Vec<bool>, distinct: &Vec<char>, w: &Vec<char>) -> (r: Vec<bool>)
    ensures
        r@ == covered_after(cov@, distinct@, w@),
{
    let mut out: Vec<bool> = Vec::new();
    let mut i: usize = 0;
    while i < cov.len()
        invariant
            i <= cov@.len(),
            out@ == cov@.take(i as int),
        decreases cov@.len() - i,
    {
        out.push(cov[i]);
        proof {
            assert(out@ =~= cov@.take(i as int + 1));
        }
        i += 1;
    }
    proof {
        assert(out@ =~= cov@);
    }
    let mut j: usize = 0;
    while j < w.len()
        invariant
            j <= w@.len(),
            out@.len() == cov@.len(),
            out@ == covered_after(cov@, distinct@, w@.take(j as int)),
        decreases w@.len() - j,
    {
        proof {
            assert(w@.take(j as int + 1).drop_last() =~= w@.take(j as int));
            assert(w@.take(j as int + 1).last() == w@[j as int]);
        }
        match index_of_char(distinct, w[j]) {
            Some(p) => {
                if p < out.len() {
                    out[p] = true;
                }
            },
            None => {},
        }
        j += 1;
    }
    proof {
        assert(w@.take(w@.len() as int) =~= w@);
    }
    out
}

/// The start state: no letter placed, nothing covered, no words used.
pub open spec fn is_start_spec<const S: usize, const L: usize>(
    v: Vertex,
    puzzle: &LBPuzzle<S, L>,
) -> bool {
    &&& v.letter is None
    &&& v.words_path@.len() == 0
    &&& v.coverage@ == Seq::new(distinct_of(puzzle.all_letters_view()).len(), |i: int| false)
}

/// Build the start state.
fn start_vertex<const S: usize, const L: usize>(puzzle: &LBPuzzle<S, L>) -> (v: Vertex)
    ensures
        is_start_spec(v, puzzle),
{
    let d = distinct_letters(puzzle);
    let n = d.len();
    let v = Vertex { letter: None, coverage: vec![false; n], words_path: Vec::new() };
    proof {
        assert(v.coverage@ =~= Seq::new(
            distinct_of(puzzle.all_letters_view()).len(),
            |i: int| false,
        ));
    }
    v
}

/// How many dictionary words can follow a partial solution ending on letter
/// `l` (every word at the very start).
pub open spec fn cand_count(dict: &SmartDictionary, l: Option<char>) -> int {
    match l {
        None => dict.flat_view().len() as int,
        Some(c) => if dict.letters_view().contains(c) {
            dict.group_count_of(c)
        } else {
            0
        },
    }
}

/// The global dictionary index of candidate `j`.
pub open spec fn cand_idx(dict: &SmartDictionary, l: Option<char>, j: int) -> int {
    match l {
        None => j,
        Some(c) => dict.group_start_of(c) + j,
    }
}

/// The word of candidate `j`.
pub open spec fn cand_word(dict: &SmartDictionary, l: Option<char>, j: int) -> Seq<char> {
    dict.flat_view()[cand_idx(dict, l, j)]
}

/// `w` is the successor that candidate `j` of `u` produces: it ends on the
/// candidate word's last letter, records that word's index, and covers what
/// `u` covered plus the word's letters.
pub open spec fn is_succ_at<const S: usize, const L: usize>(
    dict: &SmartDictionary,
    puzzle: &LBPuzzle<S, L>,
    u: Vertex,
    w: Vertex,
    j: int,
) -> bool {
    &&& w.letter == Some(cand_word(dict, u.letter, j).last())
    &&& w.words_path@.len() == u.words_path@.len() + 1
    &&& w.words_path@.take(u.words_path@.len() as int) == u.words_path@
    &&& w.words_path@.last() as int == cand_idx(dict, u.letter, j)
    &&& w.coverage@ == covered_after(
        u.coverage@,
        distinct_of(puzzle.all_letters_view()),
        cand_word(dict, u.letter, j),
    )
}

/// `w` is one of the successors of `u` in the search graph.
pub open spec fn succ_entry<const S: usize, const L: usize>(
    dict: &SmartDictionary,
    puzzle: &LBPuzzle<S, L>,
    u: Vertex,
    w: Vertex,
) -> bool {
    &&& u.words_path@.len() < puzzle.spec_max_words()
    &&& exists|j: int|
        0 <= j < cand_count(dict, u.letter) && #[trigger] is_succ_at(dict, puzzle, u, w, j)
}

/// `path` is a walk of the search graph from the start state.
pub open spec fn is_search_path<const S: usize, const L: usize>(
    dict: &SmartDictionary,
    puzzle: &LBPuzzle<S, L>,
    path: Seq<Vertex>,
) -> bool {
    &&& path.len() >= 1
    &&& is_start_spec(path[0], puzzle)
    &&& forall|a: int|
        0 <= a < path.len() - 1 ==> #[trigger] succ_entry(dict, puzzle, path[a], path[a + 1])
}

/// Goal test: the coverage flags count every board letter position.
pub open spec fn at_goal<const S: usize, const L: usize>(v: Vertex) -> bool {
    count_true(v.coverage@) >= LBPuzzle::<S, L>::spec_n_letters()
}

/// The words a search vertex's recorded indices spell.
pub open spec fn resolve_words(dict: &SmartDictionary, idxs: Seq<usize>) -> Seq<Seq<char>> {
    Seq::new(idxs.len(), |k: int| dict.flat_view()[idxs[k] as int])
}

/// This solver; its edge weight is a knob between fast (low) and
/// minimum-word-count (the board size) searches.
pub struct AStarSolver<const S: usize, const L: usize> {
    edge_weight: u32,
}

/// The search's cost sums stay within `u32` for this weight and word budget
/// (a machine limit the solver checks before searching).
pub open spec fn search_budget_ok<const S: usize, const L: usize>(
    solver: &AStarSolver<S, L>,
    puzzle: &LBPuzzle<S, L>,
) -> bool {
    (puzzle.spec_max_words() as int) * (solver.spec_edge_weight() as int) + LBPuzzle::<
        S,
        L,
    >::spec_n_letters() <= u32::MAX as int
}

impl<const S: usize, const L: usize> AStarSolver<S, L> {
    /// A positive edge weight, so the cost of a path counts its words.
    #[verifier::type_invariant]
    spec fn solver_inv(&self) -> bool {
        1 <= self.edge_weight
    }

    /// The configured edge weight.
    pub closed spec fn spec_edge_weight(&self) -> u32 {
        self.edge_weight
    }

    /// Make a solver with the given edge weight, clamped into the meaningful
    /// range: at least one, and at most the board size (as far as `u32` can
    /// hold it).
    pub fn with_edge_weight(edge_weight: u32) -> (r: Self)
        ensures
            1 <= r.spec_edge_weight(),
            1 <= edge_weight as int <= (S as int) * (L as int) ==> r.spec_edge_weight()
                == edge_weight,
            r.spec_edge_weight() as int <= if (S as int) * (L as int) < 1 {
                1int
            } else if (S as int) * (L as int) > u32::MAX as int {
                u32::MAX as int
            } else {
                (S as int) * (L as int)
            },
    {
        let cap: u32 = match S.checked_mul(L) {
            None => u32::MAX,
            Some(n) => if (n as u128) > (u32::MAX as u128) {
                u32::MAX
            } else {
                n as u32
            },
        };
        let base = if edge_weight == 0 {
            1
        } else {
            edge_weight
        };
        let capped = if base > cap {
            cap
        } else {
            base
        };
        let w = if capped == 0 {
            1
        } else {
            capped
        };
        AStarSolver { edge_weight: w }
    }

    /// `h(v)`: the number of board letter positions minus the number of
    /// covered letters (never below zero).
    closed spec fn spec_heuristic(&self, v: Vertex, n_letters: int) -> int {
        if count_true(v.coverage@) >= n_letters {
            0
        } else {
            n_letters - count_true(v.coverage@)
        }
    }

    /// `h(v) = (S*L) - |coverage(v)|`, clamped at zero.
    fn heuristic(&self, v: &Vertex, puzzle: &LBPuzzle<S, L>) -> (r: u32)
        ensures
            r as int == self.spec_heuristic(*v, LBPuzzle::<S, L>::spec_n_letters()),
    {
        proof {
            use_type_invariant(puzzle);
        }
        let total: usize = S * L;
        let mut covered: usize = 0;
        let mut i: usize = 0;
        while i < v.coverage.len()
            invariant
                i <= v.coverage@.len(),
                covered as int == count_true(v.coverage@.take(i as int)),
                covered <= i,
            decreases v.coverage@.len() - i,
        {
            proof {
                assert(v.coverage@.take(i as int + 1).drop_last() =~= v.coverage@.take(i as int));
                assert(v.coverage@.take(i as int + 1).last() == v.coverage@[i as int]);
            }
            if v.coverage[i] {
                covered = covered + 1;
            }
            i += 1;
        }
        proof {
            assert(v.coverage@.take(v.coverage@.len() as int) =~= v.coverage@);
        }
        if covered >= total {
            0
        } else {
            (total - covered) as u32
        }
    }

    /// Goal test: every board letter is covered.
    fn is_goal(&self, v: &Vertex, puzzle: &LBPuzzle<S, L>) -> (r: bool)
        ensures
            r == at_goal::<S, L>(*v),
    {
        self.heuristic(v, puzzle) == 0
    }

    /// Successors of `v`: exactly one vertex per dictionary word starting
    /// with `v`'s letter (every word at the start), each carrying the
    /// solver's edge weight — unless the word budget is spent, which makes
    /// `v` a dead end.
    fn successors(&self, v: &Vertex, dict: &SmartDictionary, puzzle: &LBPuzzle<S, L>) -> (r:
        Option<Vec<(Vertex, u32)>>)
        ensures
            r is None <==> v.words_path@.len() >= puzzle.spec_max_words(),
            r matches Some(list) ==> {
                &&& list@.len() == cand_count(dict, v.letter)
                &&& forall|j: int|
                    0 <= j < list@.len() ==> is_succ_at(
                        dict,
                        puzzle,
                        *v,
                        (#[trigger] list@[j]).0,
                        j,
                    ) && list@[j].1 == self.spec_edge_weight()
            },
    {
        proof {
            use_type_invariant(dict);
            dict.lemma_inv_words();
        }
        if v.words_path.len() >= puzzle.max_words() {
            return None;
        }
        let next_words: Vec<(usize, String)> = match v.letter {
            Some(l_) => match dict.get_indexed(l_) {
                Some(g) => g,
                None => Vec::new(),
            },
            None => dict.get_flat_indexed(),
        };
        proof {
            assert(next_words@.len() == cand_count(dict, v.letter));
            assert forall|j: int| 0 <= j < next_words@.len() implies ((#[trigger] next_words@[j]).0
                as int == cand_idx(dict, v.letter, j) && next_words@[j].1@ == cand_word(
                dict,
                v.letter,
                j,
            ) && 0 <= cand_idx(dict, v.letter, j) < dict.flat_view().len()) by {}
        }
        let distinct = distinct_letters(puzzle);
        let mut out: Vec<(Vertex, u32)> = Vec::new();
        let mut j: usize = 0;
        while j < next_words.len()
            invariant
                next_words@.len() == cand_count(dict, v.letter),
                forall|j2: int|
                    0 <= j2 < next_words@.len() ==> ((#[trigger] next_words@[j2]).0 as int
                        == cand_idx(dict, v.letter, j2) && next_words@[j2].1@ == cand_word(
                        dict,
                        v.letter,
                        j2,
                    ) && 0 <= cand_idx(dict, v.letter, j2) < dict.flat_view().len()),
                forall|j2: int|
                    0 <= j2 < dict.flat_view().len() ==> (#[trigger] dict.flat_view()[j2]).len()
                        >= 3,
                distinct@ == distinct_of(puzzle.all_letters_view()),
                j <= next_words@.len(),
                out@.len() == j as int,
                forall|k: int|
                    0 <= k < out@.len() ==> (is_succ_at(dict, puzzle, *v, (#[trigger] out@[k]).0, k)
                        && out@[k].1 == self.edge_weight),
            decreases next_words@.len() - j,
        {
            let wc = chars_of(next_words[j].1.as_str());
            let cov = cover_union(&v.coverage, &distinct, &wc);
            let mut wp = clone_indices(&v.words_path);
            wp.push(next_words[j].0);
            let newv = Vertex { letter: Some(wc[wc.len() - 1]), coverage: cov, words_path: wp };
            proof {
                assert(wp@.take(v.words_path@.len() as int) =~= v.words_path@);
            }
            out.push((newv, self.edge_weight));
            j += 1;
        }
        Some(out)
    }
}

/// Relies on pathfinding's `astar`: when it returns a path and cost, the
/// path starts at the given start node, every later node was produced (with
/// its cost) by the successors closure applied to its predecessor, and the
/// cost is the sum of the traversed edges' costs — here always the solver's
/// edge weight, so the cost equals the weight times the number of edges.
/// When it returns `None` the frontier was exhausted: every node reachable
/// from the start through the successors closure was expanded and tested, so
/// no walk of the successor relation from the start reaches the goal. The
/// verified `successors` returns exactly the `succ_entry` successors, and
/// the relation, like the goal test, depends only on the vertices' field
/// views (the derived `Eq`/`Hash` compare the same views), so the clauses
/// below speak of `is_search_path` over those views. The bound in `requires`
/// keeps the costs the search adds up within `u32`.
#[verifier::external_body]
fn run_astar<const S: usize, const L: usize>(
    solver: &AStarSolver<S, L>,
    puzzle: &LBPuzzle<S, L>,
    dict: &SmartDictionary,
    start: &Vertex,
) -> (r: Option<(Vec<Vertex>, u32)>)
    requires
        is_start_spec(*start, puzzle),
        search_budget_ok(solver, puzzle),
    ensures
        (match r {
            Some(pc) => {
                &&& is_search_path(dict, puzzle, pc.0@)
                &&& at_goal::<S, L>(pc.0@.last())
                &&& pc.1 as int == (pc.0@.len() - 1) * (solver.spec_edge_weight() as int)
            },
            None => forall|path: Seq<Vertex>|
                #[trigger] is_search_path(dict, puzzle, path) ==> !at_goal::<S, L>(path.last()),
        }),
{
    pathfinding::prelude::astar(
        start,
        |v: &Vertex| solver.successors(v, dict, puzzle).unwrap_or(Vec::new()),
        |v: &Vertex| solver.heuristic(v, puzzle),
        |v: &Vertex| solver.is_goal(v, puzzle),
    )
}

/// Along a search path, the vertex at position `a` records exactly `a`
/// words, all of them in-range dictionary indices, and stays within the word
/// budget.
proof fn lemma_path_shape<const S: usize, const L: usize>(
    dict: &SmartDictionary,
    puzzle: &LBPuzzle<S, L>,
    path: Seq<Vertex>,
    a: int,
)
    requires
        dict.inv(),
        is_search_path(dict, puzzle, path),
        0 <= a < path.len(),
    ensures
        path[a].words_path@.len() == a,
        a >= 1 ==> a <= puzzle.spec_max_words(),
        forall|t: int|
            0 <= t < a ==> ((#[trigger] path[a].words_path@[t]) as int) < dict.flat_view().len(),
    decreases a,
{
    if a > 0 {
        lemma_path_shape(dict, puzzle, path, a - 1);
        assert(succ_entry(dict, puzzle, path[a - 1], path[(a - 1) + 1]));
        assert(succ_entry(dict, puzzle, path[a - 1], path[a]));
        let j = choose|j: int|
            0 <= j < cand_count(dict, path[a - 1].letter) && #[trigger] is_succ_at(
                dict,
                puzzle,
                path[a - 1],
                path[a],
                j,
            );
        assert(0 <= cand_idx(dict, path[a - 1].letter, j) < dict.flat_view().len()) by {
            match path[a - 1].letter {
                None => {},
                Some(c) => {
                    assert(dict.letters_view().contains(c));
                    dict.lemma_group_in_range(c);
                },
            }
        }
        assert forall|t: int|
            0 <= t < a implies ((#[trigger] path[a].words_path@[t]) as int)
            < dict.flat_view().len() by {
            if t < a - 1 {
                assert(path[a].words_path@.take(a - 1)[t] == path[a].words_path@[t]);
                assert(path[a - 1].words_path@[t] == path[a].words_path@[t]);
            } else {
                assert(path[a].words_path@[t] == path[a].words_path@.last());
            }
        }
    }
}

impl<const S: usize, const L: usize> AStarSolver<S, L> {
    /// Run the search against an already-built dictionary and resolve the
    /// winning path's word indices. A returned solution is valid, within the
    /// word budget, and spelled entirely from dictionary words. `None` means
    /// the cost budget did not fit in `u32`, no walk of the search graph
    /// reaches full coverage, or the one found by the search does not pass
    /// the validator (possible only on boards that repeat a letter). The
    /// cost accounting is checked against the path length statically: the
    /// proof below shows the two always agree, so the mismatch the original
    /// design treats as fatal cannot occur.
    pub fn _helper(&self, puzzle: &LBPuzzle<S, L>, dict: &SmartDictionary) -> (r: Option<
        Vec<String>,
    >)
        ensures
            r matches Some(s) ==> puzzle.solution_valid(s.deep_view()) && s@.len()
                <= puzzle.spec_max_words() && (forall|k: int|
                0 <= k < s@.len() ==> dict.flat_view().contains(#[trigger] s.deep_view()[k])),
            search_budget_ok(self, puzzle) && r is None ==> (forall|path: Seq<Vertex>|
                #[trigger] is_search_path(dict, puzzle, path) ==> !at_goal::<S, L>(path.last()))
                || (exists|path: Seq<Vertex>|
                #[trigger] is_search_path(dict, puzzle, path) && at_goal::<S, L>(path.last())
                    && !puzzle.solution_valid(resolve_words(dict, path.last().words_path@))),
    {
        proof {
            use_type_invariant(puzzle);
            use_type_invariant(self);
            use_type_invariant(dict);
        }
        let mw = puzzle.max_words();
        let ew = self.edge_weight;
        let n: usize = S * L;
        // Keep the costs the search adds up within u32 (a machine limit).
        let budget: u128 = match (mw as u128).checked_mul(ew as u128) {
            None => {
                return None;
            },
            Some(p) => p,
        };
        let total: u128 = match budget.checked_add(n as u128) {
            None => {
                return None;
            },
            Some(t) => t,
        };
        if total > (u32::MAX as u128) {
            return None;
        }
        let start = start_vertex(puzzle);
        match run_astar(self, puzzle, dict, &start) {
            None => None,
            Some((path, cost)) => {
                proof {
                    lemma_path_shape(dict, puzzle, path@, path@.len() - 1);
                    // The sanity invariant of the search: the number of words
                    // on the path equals the total cost divided by the edge
                    // weight.
                    assert((path@.len() - 1) == cost as int / (self.edge_weight as int))
                        by (nonlinear_arith)
                        requires
                            1 <= self.edge_weight as int,
                            cost as int == (path@.len() - 1) * (self.edge_weight as int),
                            path@.len() >= 1,
                    ;
                }
                let last = &path[path.len() - 1];
                let mut out: Vec<String> = Vec::new();
                let mut i: usize = 0;
                while i < last.words_path.len()
                    invariant
                        dict.inv(),
                        i <= last.words_path@.len(),
                        forall|t: int|
                            0 <= t < last.words_path@.len() ==> ((
                            #[trigger] last.words_path@[t]) as int) < dict.flat_view().len(),
                        out@.len() == i as int,
                        out@.len() == out.deep_view().len(),
                        forall|k: int|
                            0 <= k < out@.len() ==> #[trigger] out.deep_view()[k]
                                == dict.flat_view()[last.words_path@[k] as int],
                    decreases last.words_path@.len() - i,
                {
                    let ghost old_out = out.deep_view();
                    match dict.get_word_by_idx(last.words_path[i]) {
                        Some(w) => {
                            out.push(w);
                            proof {
                                assert(out.deep_view() =~~= old_out.push(
                                    dict.flat_view()[last.words_path@[i as int] as int],
                                ));
                            }
                        },
                        None => {
                            // Unreachable: every recorded index is in range.
                            proof {
                                assert(false);
                            }
                            return None;
                        },
                    }
                    i += 1;
                }
                proof {
                    assert(out.deep_view() =~= resolve_words(dict, last.words_path@));
                    assert forall|k: int|
                        0 <= k < out@.len() implies dict.flat_view().contains(
                        #[trigger] out.deep_view()[k],
                    ) by {
                        assert(dict.flat_view()[last.words_path@[k] as int] == out.deep_view()[k]);
                    }
                }
                match puzzle.validate_solution(&out) {
                    Ok(u) => Some(out),
                    Err(e) => None,
                }
            },
        }
    }
}

impl<const S: usize, const L: usize> SolverStrategy<S, L> for AStarSolver<S, L> {
    fn solve(&self, puzzle: &LBPuzzle<S, L>, words: &Vec<String>) -> (r: Option<Vec<String>>) {
        let dict = SmartDictionary::new(puzzle, words);
        let r = self._helper(puzzle, &dict);
        proof {
            if let Some(s) = &r {
                crate::dictionary::lemma_concat_elems(
                    crate::dictionary::retained_list(puzzle, words.deep_view()),
                    crate::dictionary::first_letters(
                        crate::dictionary::retained_list(puzzle, words.deep_view()),
                    ),
                );
                crate::dictionary::lemma_retained_elements(puzzle, words.deep_view());
                assert forall|k: int|
                    0 <= k < s@.len() implies words.deep_view().contains(
                    #[trigger] s.deep_view()[k],
                ) by {
                    let r0 = crate::dictionary::retained_list(puzzle, words.deep_view());
                    assert(dict.flat_view().contains(s.deep_view()[k]));
                    assert(r0.contains(s.deep_view()[k]));
                    let t = choose|t: int| 0 <= t < r0.len() && r0[t] == s.deep_view()[k];
                    assert(words.deep_view().contains(r0[t]));
                }
            }
        }
        r
    }
}

} // verus!
