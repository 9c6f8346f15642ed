//! Solver that first builds the per-puzzle dictionary, then explores word
//! sequences depth-first, longest candidate words first.

use vstd::prelude::*;

use crate::LBPuzzle;
use crate::all_words_long;
use crate::chars_of;
use crate::words_chain;
use crate::dictionary::SmartDictionary;
use crate::dictionary::clone_words;
use crate::solvers::SolverStrategy;
use crate::solvers::contains_string;
use crate::lemma_word_view;

verus! {

/// No extension of `ws` by at most `budget` further words from `flat`, with
/// no word repeated, is a valid solution — and `ws` itself is not one
/// either (the empty extension).
#[verifier::opaque]
pub open spec fn no_winning_extension<const S: usize, const L: usize>(
    flat: Seq<Seq<char>>,
    puzzle: &LBPuzzle<S, L>,
    ws: Seq<Seq<char>>,
    budget: int,
) -> bool {
    forall|ext: Seq<Seq<char>>|
        #![trigger puzzle.solution_valid(ws + ext)]
        (ext.len() <= budget && (forall|k: int|
            0 <= k < ext.len() ==> flat.contains(#[trigger] ext[k])) && (ws
            + ext).no_duplicates()) ==> !puzzle.solution_valid(ws + ext)
}

/// A sequence with a word under three letters, or two neighbours that do
/// not chain, is not a valid solution.
proof fn lemma_defect_not_valid<const S: usize, const L: usize>(
    puzzle: &LBPuzzle<S, L>,
    ws: Seq<Seq<char>>,
    i: int,
)
    requires
        0 <= i < ws.len(),
        ws[i].len() < 3 || (i >= 1 && ws[i][0] != ws[i - 1].last()),
    ensures
        !puzzle.solution_valid(ws),
{
    if ws[i].len() < 3 {
        assert(!all_words_long(ws));
    } else {
        assert(!words_chain(ws));
    }
}

/// Greedy depth-first search over the pruned dictionary: it commits to the
/// first full-coverage word sequence it finds.
pub struct PreDictSolver<const S: usize, const L: usize> {}

impl<const S: usize, const L: usize> SolverStrategy<S, L> for PreDictSolver<S, L> {
    fn solve(&self, puzzle: &LBPuzzle<S, L>, words: &Vec<String>) -> (r: Option<Vec<String>>) {
        let dict = SmartDictionary::new(puzzle, words);
        let start: Vec<String> = Vec::new();
        let r = _solve_helper(&dict, puzzle, start);
        proof {
            if let Some(s) = &r {
                crate::dictionary::lemma_concat_elems(
                    crate::dictionary::retained_list(puzzle, words.deep_view()),
                    crate::dictionary::first_letters(
                        crate::dictionary::retained_list(puzzle, words.deep_view()),
                    ),
                );
                crate::dictionary::lemma_retained_elements(puzzle, words.deep_view());
                assert forall|k: int|
                    0 <= k < s@.len() implies words.deep_view().contains(
                    #[trigger] s.deep_view()[k],
                ) by {
                    let r0 = crate::dictionary::retained_list(puzzle, words.deep_view());
                    assert(dict.flat_view().contains(s.deep_view()[k]));
                    assert(r0.contains(s.deep_view()[k]));
                    let t = choose|t: int| 0 <= t < r0.len() && r0[t] == s.deep_view()[k];
                    assert(words.deep_view().contains(r0[t]));
                }
            }
        }
        r
    }
}

/// One backtracking step: extend `words` with candidate next words until a
/// valid solution appears or every branch within the word budget fails. A
/// returned solution is valid, within the word budget, repeat-free, spelled
/// entirely from dictionary words, and preserves `words` as a prefix; an
/// already-valid sequence is returned as it is. `None` within the budget
/// means no repeat-free extension by dictionary words wins.
#[verifier::rlimit(100)]
pub fn _solve_helper<const S: usize, const L: usize>(
    dict: &SmartDictionary,
    puzzle: &LBPuzzle<S, L>,
    words: Vec<String>,
) -> (r: Option<Vec<String>>)
    requires
        words@.len() <= puzzle.spec_max_words() + 1,
        forall|k: int|
            0 <= k < words@.len() ==> dict.flat_view().contains(#[trigger] words.deep_view()[k]),
        words.deep_view().no_duplicates(),
    ensures
        r matches Some(s) ==> {
            &&& puzzle.solution_valid(s.deep_view())
            &&& s@.len() <= puzzle.spec_max_words()
            &&& forall|k: int|
                0 <= k < s@.len() ==> dict.flat_view().contains(#[trigger] s.deep_view()[k])
            &&& s@.len() >= words@.len()
            &&& s.deep_view().take(words@.len() as int) == words.deep_view()
            &&& s.deep_view().no_duplicates()
        },
        words@.len() > puzzle.spec_max_words() ==> r is None,
        words@.len() <= puzzle.spec_max_words() && puzzle.solution_valid(words.deep_view()) ==> (
        r matches Some(s) && s@ == words@),
        words@.len() <= puzzle.spec_max_words() && r is None ==> no_winning_extension(
            dict.flat_view(),
            puzzle,
            words.deep_view(),
            puzzle.spec_max_words() - words@.len(),
        ),
    decreases puzzle.spec_max_words() + 1 - words@.len(),
{
    proof {
        use_type_invariant(dict);
        dict.lemma_inv_words();
        assert(words.deep_view().len() == words@.len());
    }
    let ghost ws = words.deep_view();
    let ghost flat = dict.flat_view();
    let ghost budget: int = puzzle.spec_max_words() - words@.len();
    // Out of words: this branch is dead.
    if words.len() > puzzle.max_words() {
        return None;
    }
    // The sequence already covers the whole board: done.
    match puzzle.validate_solution(&words) {
        Ok(u) => {
            proof {
                assert(ws.take(ws.len() as int) =~= ws);
            }
            return Some(words);
        },
        Err(e) => {},
    }
    // Candidate next words: the group keyed by the previous word's last
    // letter, or every word if the sequence is still empty.
    let ghost first_call = words@.len() == 0;
    let mut last_char: char = ' ';
    let matching: Vec<String> = if words.len() == 0 {
        let flat_words = dict.get_flat();
        proof {
            assert(flat_words.deep_view() == flat);
        }
        flat_words
    } else {
        proof {
            lemma_word_view(&words, words@.len() - 1);
        }
        let wc = chars_of(words[words.len() - 1].as_str());
        if wc.len() == 0 {
            // A used word shorter than three letters can never chain into a
            // valid solution.
            proof {
                assert(no_winning_extension(flat, puzzle, ws, budget)) by {
                    reveal(no_winning_extension);
                    assert forall|ext: Seq<Seq<char>>|
                        (ext.len() <= budget && (forall|k: int|
                            0 <= k < ext.len() ==> flat.contains(#[trigger] ext[k])) && (ws
                            + ext).no_duplicates()) implies !#[trigger] puzzle.solution_valid(
                        ws + ext,
                    ) by {
                        assert((ws + ext)[ws.len() - 1] == ws.last());
                        lemma_defect_not_valid(puzzle, ws + ext, ws.len() - 1);
                    }
                }
            }
            return None;
        }
        last_char = wc[wc.len() - 1];
        proof {
            assert(last_char == ws.last().last());
        }
        match dict.get(last_char) {
            None => {
                // No dictionary word starts with the chaining letter, so
                // every nonempty extension breaks the chain at its first new
                // word.
                proof {
                    assert(no_winning_extension(flat, puzzle, ws, budget)) by {
                        reveal(no_winning_extension);
                        assert forall|ext: Seq<Seq<char>>|
                            (ext.len() <= budget && (forall|k: int|
                                0 <= k < ext.len() ==> flat.contains(#[trigger] ext[k])) && (ws
                                + ext).no_duplicates()) implies !#[trigger] puzzle.solution_valid(
                            ws + ext,
                        ) by {
                            if ext.len() == 0 {
                                assert(ws + ext =~= ws);
                            } else {
                                let w = ext[0];
                                assert(flat.contains(w));
                                let jj = choose|jj: int| 0 <= jj < flat.len() && flat[jj] == w;
                                assert(dict.letters_view().contains(flat[jj][0]));
                                assert(w[0] != last_char);
                                assert((ws + ext)[ws.len() as int] == w);
                                assert((ws + ext)[ws.len() - 1] == ws.last());
                                lemma_defect_not_valid(puzzle, ws + ext, ws.len() as int);
                            }
                        }
                    }
                }
                return None;
            },
            Some(g) => {
                proof {
                    assert(g.deep_view() == dict.group_view(last_char));
                }
                g
            },
        }
    };
    let ghost mv = matching.deep_view();
    proof {
        assert(mv.len() == matching@.len());
        assert forall|t: int| 0 <= t < mv.len() implies flat.contains(#[trigger] mv[t]) by {
            if first_call {
            } else {
                dict.lemma_group_in_range(last_char);
                assert(mv[t] == dict.group_view(last_char)[t]);
                assert(mv[t] == flat[dict.group_start_of(last_char) + t]);
            }
        }
    }
    let mut i: usize = 0;
    while i < matching.len()
        invariant
            dict.inv(),
            ws == words.deep_view(),
            ws.len() == words@.len(),
            flat == dict.flat_view(),
            mv == matching.deep_view(),
            mv.len() == matching@.len(),
            budget == puzzle.spec_max_words() - words@.len(),
            words@.len() <= puzzle.spec_max_words(),
            !puzzle.solution_valid(ws),
            ws.no_duplicates(),
            forall|k: int| 0 <= k < ws.len() ==> flat.contains(#[trigger] ws[k]),
            forall|t: int| 0 <= t < mv.len() ==> flat.contains(#[trigger] mv[t]),
            i <= mv.len(),
            forall|t: int|
                0 <= t < i as int && !ws.contains(#[trigger] mv[t]) ==> no_winning_extension(
                    flat,
                    puzzle,
                    ws.push(mv[t]),
                    budget - 1,
                ),
        decreases mv.len() - i,
    {
        proof {
            lemma_word_view(&matching, i as int);
        }
        // Repeated words never add coverage, so skip them.
        let dup = contains_string(&words, &matching[i]);
        proof {
            assert forall|k: int|
                0 <= k < words@.len() implies #[trigger] words.deep_view()[k] == words@[k]@ by {
                lemma_word_view(&words, k);
            }
            assert(dup == ws.contains(mv[i as int])) by {
                if dup {
                    let k = choose|k: int| 0 <= k < words@.len() && words@[k]@ == matching@[i as int]@;
                    assert(ws[k] == mv[i as int]);
                } else {
                    if ws.contains(mv[i as int]) {
                        let k = choose|k: int| 0 <= k < ws.len() && ws[k] == mv[i as int];
                        assert(words@[k]@ == matching@[i as int]@);
                    }
                }
            }
        }
        if !dup {
            let mut new_words = clone_words(&words);
            new_words.push(matching[i].clone());
            proof {
                assert(new_words.deep_view() =~~= ws.push(mv[i as int]));
                assert(new_words.deep_view().no_duplicates()) by {
                    let nv = new_words.deep_view();
                    assert(forall|k: int| 0 <= k < ws.len() ==> nv[k] == ws[k]);
                    assert(nv[ws.len() as int] == mv[i as int]);
                    assert forall|k1: int, k2: int|
                        0 <= k1 < k2 < nv.len() implies nv[k1] != nv[k2] by {
                        if k2 == ws.len() as int {
                            if nv[k1] == nv[k2] {
                                assert(ws.contains(mv[i as int]));
                            }
                        }
                    }
                }
            }
            let soln = _solve_helper(dict, puzzle, new_words);
            match soln {
                Some(s) => {
                    proof {
                        assert(s.deep_view().take(ws.len() as int) =~= s.deep_view().take(
                            ws.len() as int + 1,
                        ).take(ws.len() as int));
                        assert(s.deep_view().take(ws.len() as int) =~= ws);
                    }
                    return Some(s);
                },
                None => {
                    proof {
                        if words@.len() == puzzle.spec_max_words() {
                            // A negative budget admits no extension at all.
                            assert(no_winning_extension(
                                flat,
                                puzzle,
                                ws.push(mv[i as int]),
                                budget - 1,
                            )) by {
                                reveal(no_winning_extension);
                            }
                        }
                    }
                },
            }
        }
        i += 1;
    }
    proof {
        assert(no_winning_extension(flat, puzzle, ws, budget)) by {
            reveal(no_winning_extension);
            assert forall|ext: Seq<Seq<char>>|
                (ext.len() <= budget && (forall|k: int|
                    0 <= k < ext.len() ==> flat.contains(#[trigger] ext[k])) && (ws
                    + ext).no_duplicates()) implies !#[trigger] puzzle.solution_valid(ws + ext) by {
                if ext.len() == 0 {
                    assert(ws + ext =~= ws);
                } else {
                    let w = ext[0];
                    assert(flat.contains(w));
                    assert(!ws.contains(w)) by {
                        if ws.contains(w) {
                            let k1 = choose|k1: int| 0 <= k1 < ws.len() && ws[k1] == w;
                            assert((ws + ext)[k1] == w);
                            assert((ws + ext)[ws.len() as int] == w);
                        }
                    }
                    let wsx = ws.push(w);
                    assert(ws + ext =~= wsx + ext.skip(1));
                    if first_call || w[0] == last_char {
                        // The word was one of the loop's candidates, so its
                        // branch was searched and lost.
                        let jj = choose|jj: int| 0 <= jj < flat.len() && flat[jj] == w;
                        let t: int = if first_call {
                            jj
                        } else {
                            jj - dict.group_start_of(last_char)
                        };
                        assert(mv[t] == w) by {
                            if first_call {
                            } else {
                                dict.lemma_group_in_range(last_char);
                                assert(dict.group_start_of(w[0]) <= jj < dict.group_start_of(w[0])
                                    + dict.group_count_of(w[0]));
                                assert(dict.group_view(last_char)[t] == flat[jj]);
                            }
                        }
                        assert(no_winning_extension(flat, puzzle, wsx, budget - 1));
                        assert(ext.skip(1).len() <= budget - 1);
                        assert(forall|k: int|
                            0 <= k < ext.skip(1).len() ==> flat.contains(
                                #[trigger] ext.skip(1)[k],
                            ));
                        assert((wsx + ext.skip(1)).no_duplicates());
                        assert(!puzzle.solution_valid(wsx + ext.skip(1)));
                    } else {
                        // The word breaks the chain, and the break stays.
                        assert((ws + ext)[ws.len() as int] == w);
                        assert((ws + ext)[ws.len() - 1] == ws.last());
                        lemma_defect_not_valid(puzzle, ws + ext, ws.len() as int);
                    }
                }
            }
        }
    }
    None
}

} // verus!
