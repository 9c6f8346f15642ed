// Tests for the per-puzzle dictionary: filtering, grouping, ordering, and
// the stable index.

use letterboxed_solver::NYTBoxPuzzle;
use letterboxed_solver::dictionary::SmartDictionary;

fn strings(words: &[&str]) -> Vec<String> {
    words.iter().map(|w| w.to_string()).collect()
}

fn word_list() -> Vec<String> {
    strings(&[
        "juvenile", "embark", "murk", "kanji", "inviable", "poop", "ju", "bell", "xyz", "rain",
        "jib", "mar",
    ])
}

#[test]
fn test_precompute_dictionary() {
    let nov_6_2024 = NYTBoxPuzzle::from_str(6, "erb uln imk jav").unwrap();
    let dict = SmartDictionary::new(&nov_6_2024, &word_list());

    assert!(dict.len() < 370104);
}

#[test]
fn test_order_letters() {
    // Within a letter group, words are ordered by descending length.
    let puzzle = NYTBoxPuzzle::from_str(6, "erb uln imk jav").unwrap();
    let dict = SmartDictionary::new(&puzzle, &word_list());
    let j_words = dict.get('j').expect("there are words starting with j");
    assert_eq!(j_words, strings(&["juvenile", "jib"]));
    for ws in j_words.windows(2) {
        assert!(ws[0].chars().count() >= ws[1].chars().count());
    }
}

#[test]
fn test_dictionary_filters() {
    let puzzle = NYTBoxPuzzle::from_str(6, "erb uln imk jav").unwrap();
    let dict = SmartDictionary::new(&puzzle, &word_list());
    let flat = dict.get_flat();

    // A strict filter: never more words than went in, and here strictly
    // fewer, since some words break the length or adjacency rules.
    assert!(dict.len() <= word_list().len());
    assert!(dict.len() < word_list().len());

    // "poop" (letters off the board), "ju" (too short), "bell" (double
    // letter on one side) and "xyz" (letters off the board) are
    // gone; the legal words stay.
    for kept in ["juvenile", "embark", "murk", "kanji", "inviable", "jib", "mar", "rain"] {
        assert!(flat.iter().any(|w| w == kept));
    }
    for dropped in ["poop", "ju", "bell", "xyz"] {
        assert!(!flat.iter().any(|w| w == dropped));
    }
}

#[test]
fn test_retained_words_cross_sides() {
    // Every consecutive letter pair of a retained word lies on different
    // board sides.
    let puzzle = NYTBoxPuzzle::from_str(6, "erb uln imk jav").unwrap();
    let sides = puzzle.sides();
    let side_of = |c: char| -> Option<usize> {
        sides.iter().position(|row| row.contains(&c))
    };
    let dict = SmartDictionary::new(&puzzle, &word_list());
    for w in dict.get_flat() {
        let cs: Vec<char> = w.chars().collect();
        for pair in cs.windows(2) {
            let s0 = side_of(pair[0]).expect("letter on the board");
            let s1 = side_of(pair[1]).expect("letter on the board");
            assert_ne!(s0, s1, "adjacent letters of {} share a side", w);
        }
    }
}

#[test]
fn test_flat_index_round_trip() {
    // getWordByIndex composed with the index from getFlatIndexed is the
    // identity.
    let puzzle = NYTBoxPuzzle::from_str(6, "erb uln imk jav").unwrap();
    let dict = SmartDictionary::new(&puzzle, &word_list());
    let indexed = dict.get_flat_indexed();
    assert_eq!(indexed.len(), dict.len());
    for (i, w) in indexed {
        assert_eq!(dict.get_word_by_idx(i), Some(w));
    }
    assert_eq!(dict.get_word_by_idx(dict.len()), None);
}

#[test]
fn test_get_indexed_matches_global_index() {
    let puzzle = NYTBoxPuzzle::from_str(6, "erb uln imk jav").unwrap();
    let dict = SmartDictionary::new(&puzzle, &word_list());
    for (_, w) in dict.get_flat_indexed() {
        let first = w.chars().next().unwrap();
        let group = dict.get_indexed(first).expect("group of a retained word");
        for (i, gw) in group {
            assert_eq!(dict.get_word_by_idx(i), Some(gw));
        }
    }
    assert!(dict.get_indexed('q').is_none());
    assert!(dict.get('q').is_none());
}

#[test]
fn test_rebuild_is_identical() {
    // Building twice from the same puzzle and word list yields the same
    // count and the same indexed contents.
    let puzzle = NYTBoxPuzzle::from_str(6, "erb uln imk jav").unwrap();
    let d1 = SmartDictionary::new(&puzzle, &word_list());
    let d2 = SmartDictionary::new(&puzzle, &word_list());
    assert_eq!(d1.len(), d2.len());
    assert_eq!(d1.get_flat_indexed(), d2.get_flat_indexed());
}
