// Integration tests for the three solver strategies.

use letterboxed_solver::LBPuzzle;
use letterboxed_solver::NYTBoxPuzzle;
use letterboxed_solver::solvers::SolverStrategy;
use letterboxed_solver::solvers::a_star::AStarSolver;
use letterboxed_solver::solvers::brute_force::BruteForceSolver;
use letterboxed_solver::solvers::pre_dict::PreDictSolver;

fn strings(words: &[&str]) -> Vec<String> {
    words.iter().map(|w| w.to_string()).collect()
}

fn test_cases() -> Vec<(NYTBoxPuzzle, Vec<String>)> {
    vec![
        (
            NYTBoxPuzzle::from_str(6, "erb uln imk jav").unwrap(), // nov 6, 2024
            strings(&["juvenile", "embark", "murk", "kanji", "inviable", "poop", "ju"]),
        ),
        (
            NYTBoxPuzzle::from_str(5, "lei xys vuc tok").unwrap(), // dec 31, 2024
            strings(&["lxvteyuoisck"]),
        ),
        (
            NYTBoxPuzzle::from_str(5, "ZMC NTI SRO GHA").unwrap(), // dec 30, 2024
            strings(&["ZNSGMTRHCIOA"]),
        ),
    ]
}

#[test]
fn test_a_star() {
    for (puzzle, words) in test_cases() {
        let solver = AStarSolver::with_edge_weight(12);
        let solution = solver.solve(&puzzle, &words);

        assert!(solution.is_some());
        let solution = solution.unwrap();
        assert!(puzzle.validate_solution(&solution).is_ok());
    }
}

#[test]
fn test_pre_dict() {
    for (puzzle, words) in test_cases() {
        let solver = PreDictSolver {};
        let solution = solver.solve(&puzzle, &words);

        assert!(solution.is_some());
        let solution = solution.unwrap();
        assert!(puzzle.validate_solution(&solution).is_ok());
    }
}

#[test]
fn test_brute_force() {
    let cases = vec![
        (
            NYTBoxPuzzle::from_str(6, "erb uln imk jav").unwrap(),
            strings(&["juvenile", "embark"]),
        ),
        (
            NYTBoxPuzzle::from_str(5, "lei xys vuc tok").unwrap(),
            strings(&["lxvteyuoisck"]),
        ),
    ];
    for (puzzle, words) in cases {
        let solver = BruteForceSolver {};
        let solution = solver.solve(&puzzle, &words);

        assert!(solution.is_some());
        let solution = solution.unwrap();
        assert!(puzzle.validate_solution(&solution).is_ok());
    }
}

#[test]
fn test_a_star_never_longer_than_pre_dict() {
    // With the edge weight at the board size the heuristic is admissible, so
    // the informed search never needs more words than the greedy one.
    for (puzzle, words) in test_cases() {
        let a_star = AStarSolver::with_edge_weight(12);
        let greedy = PreDictSolver {};
        let a = a_star.solve(&puzzle, &words).expect("informed search finds a solution");
        let g = greedy.solve(&puzzle, &words).expect("greedy search finds a solution");
        assert!(a.len() <= g.len());
    }
}

#[test]
fn test_a_star_respects_word_budget() {
    // A one-word budget cannot fit the two-word-only list.
    let puzzle = NYTBoxPuzzle::from_str(1, "erb uln imk jav").unwrap();
    let words = strings(&["juvenile", "embark"]);
    let solver = AStarSolver::with_edge_weight(12);
    assert!(solver.solve(&puzzle, &words).is_none());

    // A two-word budget fits it.
    let puzzle = NYTBoxPuzzle::from_str(2, "erb uln imk jav").unwrap();
    let solution = solver.solve(&puzzle, &words);
    assert!(solution.is_some());
    assert!(solution.unwrap().len() <= 2);
}

#[test]
fn test_solvers_agree_on_unsolvable_input() {
    // No letter 'e' word list: nothing can cover side one.
    let puzzle = NYTBoxPuzzle::from_str(6, "erb uln imk jav").unwrap();
    let words = strings(&["murk", "kanji"]);
    assert!(AStarSolver::with_edge_weight(12).solve(&puzzle, &words).is_none());
    assert!((PreDictSolver {}).solve(&puzzle, &words).is_none());
    assert!((BruteForceSolver {}).solve(&puzzle, &words).is_none());
}

#[test]
fn test_solvers_on_small_board() {
    let puzzle = LBPuzzle::<2, 2>::from_str(3, "ab cd").unwrap();
    let words = vec!["acbd".to_string(), "cab".to_string()];
    let a = AStarSolver::with_edge_weight(4).solve(&puzzle, &words);
    assert!(a.is_some());
    assert!(puzzle.validate_solution(&a.unwrap()).is_ok());
    let g = (PreDictSolver {}).solve(&puzzle, &words);
    assert!(g.is_some());
    assert!(puzzle.validate_solution(&g.unwrap()).is_ok());
}
