use crossword_filler::crossword::{Crossword, Direction, EntryIterator, EntryLocation};
use crossword_filler::fill::{Fill, EntryLocationToFill, Filler};
use crossword_filler::index::Index;
use crossword_filler::{Solver, WeightedWord};

fn grid_text(c: &Crossword) -> String {
    c.contents.iter().collect()
}

#[test]
fn from_string() {
    let result = Crossword::from_string(String::from("ABCDEFGHI"), 3, 3);

    assert!(result.is_ok());
    let c = result.unwrap();
    assert_eq!(String::from("ABCDEFGHI"), grid_text(&c));
}

#[test]
fn from_string_wrong_length() {
    let result = Crossword::from_string(String::from("ABCD"), 3, 3);
    assert!(result.is_err());
    assert_eq!(result.unwrap_err(), String::from("Input dimensions do not match."));
}

#[test]
fn from_string_strips_newlines() {
    let result = Crossword::from_string(String::from("\nAB\nCD\n"), 2, 2);
    assert!(result.is_ok());
    assert_eq!(String::from("ABCD"), grid_text(&result.unwrap()));
}

#[test]
fn get_entries() {
    let result = Crossword::from_string(String::from("ABCDEFGHIJK*MNOPQRSTUVWX "), 5, 5);

    assert!(result.is_ok());

    let c = result.unwrap();
    let entries = c.get_entries();

    assert_eq!(entries.len(), 12);
    assert_eq!(entries.last().unwrap().prefilled, false);
}

#[test]
fn get_entries_idempotent() {
    let c = Crossword::from_string(String::from("ABCDEFGHIJK*MNOPQRSTUVWX "), 5, 5).unwrap();
    let first = c.get_entries();
    let second = c.get_entries();
    assert_eq!(first, second);
}

#[test]
fn get_entry_iterator() {
    let result = Crossword::from_string(String::from("ABCDEFGHIJK*MNOPQRSTUVWX "), 5, 5);

    assert!(result.is_ok());

    let c = result.unwrap();
    let entries = c.get_entries();

    let entry_location = entries.first().unwrap();

    let mut iter = EntryIterator::new(&c, entry_location);
    let mut collected = String::new();
    while let Some(ch) = iter.next() {
        collected.push(ch);
    }
    assert_eq!(String::from("ABCDE"), collected);
}

#[test]
fn entry_iterator_yields_length_chars() {
    let c = Crossword::from_string(String::from("ABCDEFGHIJK*MNOPQRSTUVWX "), 5, 5).unwrap();
    for entry in c.get_entries() {
        let mut iter = EntryIterator::new(&c, &entry);
        let mut count = 0;
        while let Some(_) = iter.next() {
            count += 1;
        }
        assert_eq!(count, entry.length);
    }
}

#[test]
fn entry_location_new_keeps_fields() {
    let e = EntryLocation::new(2, 3, 4, Direction::Down, true);
    assert_eq!(e.start_row, 2);
    assert_eq!(e.start_col, 3);
    assert_eq!(e.length, 4);
    assert_eq!(e.direction, Direction::Down);
    assert!(e.prefilled);
}

fn dict(entries: &[(&str, i32)]) -> Vec<(String, i32)> {
    entries.iter().map(|(w, x)| (String::from(*w), *x)).collect()
}

#[test]
fn words_ranked_by_weight() {
    let index = Index::build(dict(&[("CAT", 1), ("COT", 5), ("CUT", 3)]));
    let pattern: Vec<char> = "C T".chars().collect();
    let words = index.words(&pattern);
    assert_eq!(words, vec![
        String::from("COT"),
        String::from("CUT"),
        String::from("CAT"),
    ]);
}

#[test]
fn words_match_pattern_length_and_dictionary() {
    let index = Index::build(dict(&[("CAT", 1), ("CATS", 2), ("COT", 5), ("DOG", 0)]));
    let pattern: Vec<char> = "   ".chars().collect();
    let words = index.words(&pattern);
    assert_eq!(words.len(), 3);
    for w in &words {
        assert_eq!(w.chars().count(), 3);
        assert!(["CAT", "COT", "DOG"].contains(&w.as_str()));
    }
}

#[test]
fn is_valid_iff_words_nonempty() {
    let index = Index::build(dict(&[("CAT", 1), ("COT", 5), ("DOG", 0)]));
    for pattern_text in ["C T", "   ", "D G", "X  ", "    ", "CAT", "CAR"] {
        let pattern: Vec<char> = pattern_text.chars().collect();
        assert_eq!(index.is_valid(&pattern), !index.words(&pattern).is_empty());
    }
}

#[test]
fn fill_one_word_overwrites_only_the_entry() {
    let c = Crossword::from_string(String::from("   *   * "), 3, 3).unwrap();
    let entries = c.get_entries();
    let first = entries.first().unwrap();
    assert_eq!(first.direction, Direction::Across);
    assert_eq!(first.length, 3);
    let iter = EntryIterator::new(&c, first);
    let filled = crossword_filler::fill::fill_one_word(&c, &iter, "CAT");
    assert_eq!(grid_text(&filled), "CAT*   * ");
}

#[test]
fn prefilled_grid_returns_unchanged() {
    let index = Index::build(dict(&[("CAT", 1)]));
    let mut filler = Filler::new(&index);
    let grid = Crossword::from_string(String::from("ABCDEFGHI"), 3, 3).unwrap();
    let filled = filler.fill(&grid, None).unwrap();
    assert_eq!(grid_text(&filled), "ABCDEFGHI");
}

#[test]
fn unsolvable_prefilled_grid() {
    let grid = Crossword::from_string(String::from("  B  \n     \nRENAI"), 5, 3).unwrap();
    let index = Index::build(dict(&[("AAAAA", 1), ("AAA", 1), ("RENAI", 1)]));
    let mut filler = Filler::new(&index);
    let result = filler.fill(&grid, None);
    assert!(result.is_err());
    assert_eq!(result.unwrap_err(), String::from("Failed to fill."));
}

#[test]
fn test_weighted_simple() {
    let grid = Crossword::from_string(String::from("\n     \n     \n     \n"), 5, 3).unwrap();

    let words = vec![
        (String::from("BBBBB"), 2),
        (String::from("AAAAA"), 1),
        (String::from("BBB"), 0),
        (String::from("AAA"), 2),
    ];

    let index = Index::build(words);
    let mut filler = Filler::new(&index);

    let entry_locations_to_fill = vec![EntryLocationToFill {
        start_row: 0,
        start_col: 0,
        direction: Direction::Across,
    }];
    let filled_puz = filler.fill(&grid, Some(&entry_locations_to_fill)).unwrap();
    let text = grid_text(&filled_puz);
    // The heavier of the two candidate words wins the restricted slot; the
    // rest of the grid is outside the subset and stays blank.
    assert_eq!(&text[0..5], "BBBBB");
    assert_eq!(&text[5..], "          ");
}

#[test]
fn weighted_backtracks_to_lighter_word() {
    // The weight-5 word fails crossing validation (no 3-letter word starts
    // with 'C'), so the filler must fall back to the weight-1 word.
    let grid = Crossword::from_string(String::from("     \n     \n     "), 5, 3).unwrap();
    let index = Index::build(dict(&[("CCCCC", 5), ("AAAAA", 1), ("AAA", 2)]));
    let mut filler = Filler::new(&index);
    let scope = vec![EntryLocationToFill {
        start_row: 0,
        start_col: 0,
        direction: Direction::Across,
    }];
    let filled = filler.fill(&grid, Some(&scope)).unwrap();
    assert_eq!(&grid_text(&filled)[0..5], "AAAAA");
}

const SQUARE_WORDS: [(&str, i32); 6] =
    [("CAT", 1), ("ORE", 1), ("WED", 1), ("COW", 1), ("ARE", 1), ("TED", 1)];

fn assert_is_word_square(text: &str) {
    // Every row and every column of the filled 3x3 grid is a dictionary
    // word; equal-weight ties make the exact square nondeterministic.
    let cells: Vec<char> = text.chars().collect();
    assert_eq!(cells.len(), 9);
    let dict_words: Vec<String> = SQUARE_WORDS.iter().map(|(w, _)| String::from(*w)).collect();
    for i in 0..3 {
        let row: String = (0..3).map(|j| cells[3 * i + j]).collect();
        let col: String = (0..3).map(|j| cells[3 * j + i]).collect();
        assert!(dict_words.contains(&row));
        assert!(dict_words.contains(&col));
    }
}

#[test]
fn fill_completes_crossing_entries() {
    // A full 3x3 fill over a dictionary admitting a word square with six
    // distinct answers (repeated answers are rejected).
    let grid = Crossword::from_string(String::from("         "), 3, 3).unwrap();
    let index = Index::build(dict(&SQUARE_WORDS));
    let mut filler = Filler::new(&index);
    let filled = filler.fill(&grid, None).unwrap();
    assert_is_word_square(&grid_text(&filled));
}

#[test]
fn fill_via_trait_interface() {
    let index = Index::build(dict(&SQUARE_WORDS));
    let mut filler = Filler::new(&index);
    let grid = Crossword::from_string(String::from("         "), 3, 3).unwrap();
    let filled = Fill::fill(&mut filler, &grid, None).unwrap();
    assert_is_word_square(&grid_text(&filled));
}

#[test]
fn fill_rejects_repeated_answers() {
    // A dictionary with a single 3-letter word can only tile the square by
    // repeating it, which the uniqueness rule forbids.
    let grid = Crossword::from_string(String::from("         "), 3, 3).unwrap();
    let index = Index::build(dict(&[("AAA", 1)]));
    let mut filler = Filler::new(&index);
    assert!(filler.fill(&grid, None).is_err());
}

fn weighted(entries: &[(&str, i32)]) -> Vec<WeightedWord> {
    entries
        .iter()
        .map(|(w, x)| WeightedWord { word: String::from(*w), weight: *x })
        .collect()
}

#[test]
fn solver_solves_plain_grid() {
    let solver = Solver::new(weighted(&SQUARE_WORDS));
    let out = solver.solve(String::from("   \n   \n   "), 3, 3, None).unwrap();
    assert_is_word_square(&out);
}

#[test]
fn solver_rejects_bad_dimensions() {
    let solver = Solver::new(weighted(&[("AAA", 1)]));
    let err = solver.solve(String::from("AAAA"), 3, 3, None).unwrap_err();
    assert_eq!(err, "Input dimensions do not match.");
}

#[test]
fn solver_reports_exhausted_search() {
    let solver = Solver::new(weighted(&[("ZZZ", 1)]));
    let err = solver.solve(String::from("A  \n   \n   "), 3, 3, None).unwrap_err();
    assert_eq!(err, "Failed to fill.");
}

#[test]
fn solver_subset_solve() {
    let solver = Solver::new(weighted(&[
        ("BBBBB", 2),
        ("AAAAA", 1),
        ("BBB", 0),
        ("AAA", 2),
    ]));
    let scope = vec![EntryLocationToFill {
        start_row: 0,
        start_col: 0,
        direction: Direction::Across,
    }];
    let out = solver.solve(String::from("     \n     \n     "), 3, 5, Some(scope)).unwrap();
    assert_eq!(&out[0..5], "BBBBB");
}

#[test]
fn cache_pins_word_queries() {
    // Two queries for the same pattern through one filler hit the memo and
    // must agree; equal-weight words make the uncached order random.
    let index = Index::build(dict(&[("CAT", 1), ("COT", 1), ("CUT", 1)]));
    let mut cache = crossword_filler::cache::CachedWords::default();
    let pattern: Vec<char> = "C T".chars().collect();
    let first = cache.words(&pattern, &index);
    for _ in 0..32 {
        let again = cache.words(&pattern, &index);
        assert_eq!(first, again);
    }
}

#[test]
fn empty_grid_parses_and_fills() {
    let c = Crossword::from_string(String::from(""), 0, 0).unwrap();
    assert_eq!(c.get_entries().len(), 0);
    let index = Index::build(dict(&[("CAT", 1)]));
    let mut filler = Filler::new(&index);
    let filled = filler.fill(&c, None).unwrap();
    assert_eq!(grid_text(&filled), "");
}

#[test]
fn given_letters_survive_fill() {
    // A prefilled corner letter must appear unchanged in the solution.
    let grid = Crossword::from_string(String::from("C        "), 3, 3).unwrap();
    let index = Index::build(dict(&SQUARE_WORDS));
    let mut filler = Filler::new(&index);
    let filled = filler.fill(&grid, None).unwrap();
    let text = grid_text(&filled);
    assert_eq!(text.chars().next().unwrap(), 'C');
    assert_is_word_square(&text);
}

#[test]
fn full_pattern_matches_exactly_itself() {
    let index = Index::build(dict(&[("CAT", 1), ("COT", 5), ("CAT", 7)]));
    let pattern: Vec<char> = "CAT".chars().collect();
    assert_eq!(index.words(&pattern), vec![String::from("CAT")]);
    let absent: Vec<char> = "CUT".chars().collect();
    assert!(index.words(&absent).is_empty());
}
