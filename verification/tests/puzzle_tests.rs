// Tests for the puzzle model: construction, indexing, and the validator.

use letterboxed_solver::LBPuzzle;
use letterboxed_solver::LBPuzzleError;
use letterboxed_solver::NYTBoxPuzzle;

fn strings(words: &[&str]) -> Vec<String> {
    words.iter().map(|w| w.to_string()).collect()
}

#[test]
fn test_validate_solution() {
    // known solution & puzzle from the NYT puzzle of november 6, 2024
    let nov_6_2024 = NYTBoxPuzzle::from_str(6, "erb uln imk jav");
    let nov_6_2024 = nov_6_2024.unwrap();
    let valids = [
        strings(&["juvenile", "embark"]),
        strings(&["murk", "kanji", "inviable"]),
    ];
    let invalids = [
        strings(&["poop"]),
        strings(&["ju", "uv"]),
        strings(&["juvenile"]),
    ];

    for example in valids {
        assert!(nov_6_2024.validate_solution(&example).is_ok());
    }
    for example in invalids {
        let result = nov_6_2024.validate_solution(&example);
        assert!(result.is_err());
    }
}

#[test]
fn test_from_str() {
    let sides_a = vec![
        vec!['e', 'r', 'b'],
        vec!['u', 'l', 'n'],
        vec!['i', 'm', 'k'],
        vec!['j', 'a', 'v'],
    ];
    let string_a = String::from("erb uln imk jav");

    let puzzle = LBPuzzle::<4, 3>::from_str(5, &string_a);

    assert!(puzzle.is_ok());
    let puzzle = puzzle.unwrap();
    assert_eq!(puzzle.max_words(), 5);
    assert_eq!(puzzle.sides(), sides_a);
}

#[test]
fn test_index_side() {
    let puzzle = LBPuzzle::<4, 3>::from_str(4, &"erb uln imk jav".to_string()).unwrap();
    assert!(puzzle.is_idx_on_side(0, 0));
    assert!(puzzle.is_idx_on_side(3, 1));
    assert!(puzzle.is_idx_on_side(2, 0));
    assert!(puzzle.is_idx_on_side(11, 3));

    assert_eq!(puzzle.idx_to_side(0).unwrap(), 0);
}

#[test]
fn test_from_str_wrong_side_count() {
    // 3 groups for a 4-side board must fail with an input error, not panic.
    let puzzle = NYTBoxPuzzle::from_str(4, "erb uln imk");
    match puzzle {
        Err(LBPuzzleError::InputError(m)) => assert_eq!(m, "Wrong number of sides."),
        _ => panic!("expected an input error"),
    }
}

#[test]
fn test_from_str_wrong_letter_count() {
    let puzzle = NYTBoxPuzzle::from_str(4, "erb uln imk javx");
    match puzzle {
        Err(LBPuzzleError::InputError(m)) => assert_eq!(m, "wrong letters"),
        _ => panic!("expected an input error"),
    }
}

#[test]
fn test_all_letters_and_count() {
    let puzzle = NYTBoxPuzzle::from_str(6, "erb uln imk jav").unwrap();
    assert_eq!(puzzle.all_letters(), "erbulnimkjav");
    assert_eq!(NYTBoxPuzzle::n_letters(), 12);
}

#[test]
fn test_valid_letters_skips_own_side() {
    let puzzle = NYTBoxPuzzle::from_str(6, "erb uln imk jav").unwrap();
    // After position 0 ('e', side 0) the letters of side 0 are off limits.
    let after_e = puzzle.valid_letters(0);
    for c in ['e', 'r', 'b'] {
        assert!(!after_e.contains(&c));
    }
    for c in ['u', 'l', 'n', 'i', 'm', 'k', 'j', 'a', 'v'] {
        assert!(after_e.contains(&c));
    }
    // Out of range means the start of a word: everything is allowed.
    let start = puzzle.valid_letters(-1);
    for c in "erbulnimkjav".chars() {
        assert!(start.contains(&c));
    }
}

#[test]
fn test_validate_solution_reasons() {
    let puzzle = NYTBoxPuzzle::from_str(6, "erb uln imk jav").unwrap();

    match puzzle.validate_solution(&strings(&["ju", "uv"])) {
        Err(LBPuzzleError::BadSolutionError(m)) => {
            assert_eq!(m, "ju is <3 letters long");
        },
        _ => panic!("expected a short-word error"),
    }

    match puzzle.validate_solution(&strings(&["juvenile", "bark"])) {
        Err(LBPuzzleError::BadSolutionError(m)) => {
            assert_eq!(m, "Start & end letters don't match");
        },
        _ => panic!("expected a chaining error"),
    }

    match puzzle.validate_solution(&strings(&["qqq"])) {
        Err(LBPuzzleError::BadSolutionError(m)) => {
            assert_eq!(m, "Failed to find letter q");
        },
        _ => panic!("expected a walk error"),
    }

    // 'e' and 'r' share a side, so 'r' cannot follow 'e'.
    match puzzle.validate_solution(&strings(&["erber"])) {
        Err(LBPuzzleError::BadSolutionError(m)) => {
            assert_eq!(m, "Failed to find letter r");
        },
        _ => panic!("expected a walk error"),
    }

    match puzzle.validate_solution(&strings(&["juvenile"])) {
        Err(LBPuzzleError::BadSolutionError(m)) => {
            assert_eq!(m, "Not all letters were used.");
        },
        _ => panic!("expected a coverage error"),
    }
}

#[test]
fn test_degenerate_dimensions_rejected() {
    // Boards with no sides or no letters are refused up front.
    let p = LBPuzzle::<0, 3>::from_str(1, "");
    assert!(matches!(p, Err(LBPuzzleError::InputError(_))));
    let p = LBPuzzle::<4, 0>::from_str(1, "");
    assert!(matches!(p, Err(LBPuzzleError::InputError(_))));
}

#[test]
fn test_small_board() {
    // The board shape is generic: a 2-side, 2-letter board works the same.
    let puzzle = LBPuzzle::<2, 2>::from_str(3, "ab cd").unwrap();
    assert_eq!(puzzle.all_letters(), "abcd");
    let solution = vec!["acbd".to_string()];
    assert!(puzzle.validate_solution(&solution).is_ok());
    let short = vec!["acb".to_string()];
    assert!(puzzle.validate_solution(&short).is_err());
}
