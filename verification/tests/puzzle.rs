//! Grid-level behaviour: slot reads and writes, slot derivation, cross
//! requirements, and the full/solved predicates.

use xrosslexiord::puzzle::{CrossRequirement, Orientation, Puzzle, WordspanAddress};
use xrosslexiord::lexicon::Lexicon;

fn test_puzzle_i() -> Puzzle {
    Puzzle::new(
        5,
        5,
        vec![
            'W', 'R', 'I', 'T', 'E', //
            'A', 'A', 'R', 'O', 'N', //
            'G', 'I', 'A', 'N', 'T', //
            'E', 'S', 'T', 'E', 'R', //
            'R', 'E', 'E', 'D', 'Y',
        ],
    )
}

fn test_puzzle_ii() -> Puzzle {
    Puzzle::new(
        7,
        11,
        vec![
            'S', 'W', 'I', 'F', 'T', '█', 'S', 'T', 'A', 'C', 'K', //
            'L', 'A', 'M', 'A', 'S', '█', 'L', 'A', 'M', 'A', 'R', //
            'A', 'L', 'A', 'N', '█', 'L', 'E', 'G', 'A', 'T', 'O', //
            'B', 'E', 'G', '█', 'L', 'A', 'D', '█', 'D', 'E', 'C', //
            '█', 'S', 'E', 'L', 'I', 'M', '█', 'F', 'E', 'R', '█', //
            '█', 'A', 'R', 'E', 'S', '█', 'P', 'I', 'U', 'S', '█', //
            '█', '█', 'Y', 'I', 'P', '█', 'L', 'E', 'S', '█', '█',
        ],
    )
}

fn test_puzzle_iii() -> Puzzle {
    Puzzle::new(
        5,
        4,
        vec![
            'Q', 'U', 'I', 'Z', //
            'U', 'N', 'D', 'O', //
            'A', 'I', 'L', 'S', //
            ' ', ' ', ' ', ' ', //
            ' ', ' ', ' ', ' ',
        ],
    )
}

fn puzzle_words() -> Vec<String> {
    [
        // puzzle i, across and down
        "WRITE", "AARON", "GIANT", "ESTER", "REEDY", "WAGER", "RAISE", "IRATE", "TONED", "ENTRY",
        // puzzle ii, across
        "SWIFT", "STACK", "LAMAS", "LAMAR", "ALAN", "LEGATO", "BEG", "LAD", "DEC", "SELIM", "FER",
        "ARES", "PIUS", "YIP", "LES", // puzzle ii, down
        "SLAB", "WALESA", "IMAGERY", "FAN", "LEI", "TS", "LISP", "LAM", "SLED", "PL", "TAG",
        "FIE", "AMADEUS", "CATERS", "KROC",
    ]
    .iter()
    .map(|w| w.to_string())
    .collect()
}

#[test]
fn concerning_read_wordspan_across() {
    let write_address = WordspanAddress::new(0, 0, Orientation::Across, 5);
    assert_eq!(
        test_puzzle_i().read_wordspan(write_address),
        vec!['W', 'R', 'I', 'T', 'E']
    );
}

#[test]
fn concerning_read_wordspan_down() {
    let raise_address = WordspanAddress::new(0, 1, Orientation::Down, 5);
    assert_eq!(
        test_puzzle_i().read_wordspan(raise_address),
        vec!['R', 'A', 'I', 'S', 'E']
    );
}

#[test]
fn concerning_write_wordspan_across() {
    let mut puzzle = test_puzzle_i();
    // in more ways than one
    let write_address = WordspanAddress::new(0, 0, Orientation::Across, 5);
    puzzle.write_wordspan(write_address, vec!['P', 'L', 'A', 'T', 'E']);
    assert_eq!(
        puzzle.read_wordspan(write_address),
        vec!['P', 'L', 'A', 'T', 'E']
    );
}

#[test]
fn concerning_write_wordspan_down() {
    let mut puzzle = test_puzzle_i();
    let entry_address = WordspanAddress::new(0, 4, Orientation::Down, 5);
    puzzle.write_wordspan(entry_address, vec!['F', 'A', 'I', 'T', 'H']);
    assert_eq!(
        puzzle.read_wordspan(entry_address),
        vec!['F', 'A', 'I', 'T', 'H']
    );
}

#[test]
fn concerning_wordspan_addresses_across() {
    let puzzle = test_puzzle_ii();
    assert_eq!(
        &[
            WordspanAddress::new(0, 0, Orientation::Across, 5),
            WordspanAddress::new(0, 6, Orientation::Across, 5),
            WordspanAddress::new(1, 0, Orientation::Across, 5),
            WordspanAddress::new(1, 6, Orientation::Across, 5),
            WordspanAddress::new(2, 0, Orientation::Across, 4),
            WordspanAddress::new(2, 5, Orientation::Across, 6)
        ],
        &puzzle.oriented_wordspan_addresses(Orientation::Across)[..6]
    );
}

#[test]
fn concerning_wordspan_addresses_down() {
    let puzzle = test_puzzle_ii();
    assert_eq!(
        &[
            WordspanAddress::new(0, 0, Orientation::Down, 4),
            WordspanAddress::new(0, 1, Orientation::Down, 6),
            WordspanAddress::new(0, 2, Orientation::Down, 7),
            WordspanAddress::new(0, 3, Orientation::Down, 3),
            WordspanAddress::new(4, 3, Orientation::Down, 3),
            WordspanAddress::new(0, 4, Orientation::Down, 2)
        ],
        &puzzle.oriented_wordspan_addresses(Orientation::Down)[..6]
    );
}

#[test]
fn concerning_is_solved() {
    let lexicon = Lexicon::build(&puzzle_words(), 7);
    let puzzles = vec![test_puzzle_i(), test_puzzle_ii()];
    for mut puzzle in puzzles {
        assert!(puzzle.is_solved(&lexicon));
        puzzle.write(0, 0, 'Q');
        assert!(!puzzle.is_solved(&lexicon));
    }
}

#[test]
fn concerning_gathering_cross_requirements() {
    assert_eq!(
        vec![
            CrossRequirement::new(5, vec!['Q', 'U', 'A']),
            CrossRequirement::new(5, vec!['U', 'N', 'I']),
            CrossRequirement::new(5, vec!['I', 'D', 'L']),
            CrossRequirement::new(5, vec!['Z', 'O', 'S'])
        ],
        test_puzzle_iii()
            .gather_cross_requirements(WordspanAddress::new(3, 0, Orientation::Across, 4))
    );
}

#[test]
fn concerning_is_full() {
    assert!(test_puzzle_i().is_full());
    assert!(test_puzzle_ii().is_full());
    assert!(!test_puzzle_iii().is_full());
}

#[test]
fn derivation_is_stable_across_repeated_calls() {
    let puzzle = test_puzzle_ii();
    assert_eq!(puzzle.wordspan_addresses(), puzzle.wordspan_addresses());
}

#[test]
fn across_addresses_precede_down_addresses_in_reading_order() {
    let puzzle = test_puzzle_ii();
    let all = puzzle.wordspan_addresses();
    let across = puzzle.oriented_wordspan_addresses(Orientation::Across);
    let down = puzzle.oriented_wordspan_addresses(Orientation::Down);
    assert_eq!(all.len(), across.len() + down.len());
    assert_eq!(&all[..across.len()], &across[..]);
    assert_eq!(&all[across.len()..], &down[..]);
    let mut seen_down = false;
    for address in &all {
        if address.orientation == Orientation::Down {
            seen_down = true;
        }
        if seen_down {
            assert_eq!(Orientation::Down, address.orientation);
        }
    }
}

#[test]
fn oriented_addresses_partition_the_open_cells() {
    let puzzle = test_puzzle_ii();
    for orientation in [Orientation::Across, Orientation::Down] {
        let mut cover_counts = vec![0usize; 7 * 11];
        for address in puzzle.oriented_wordspan_addresses(orientation) {
            for locale in address.encompassed_locales() {
                cover_counts[11 * locale.row + locale.col] += 1;
            }
        }
        for row in 0..7 {
            for col in 0..11 {
                let expected: usize = if puzzle.read(row, col) == '█' { 0 } else { 1 };
                assert_eq!(expected, cover_counts[11 * row + col]);
            }
        }
    }
}

#[test]
fn cross_requirement_count_matches_address_length() {
    let puzzle = test_puzzle_iii();
    for (address, expected) in [
        (WordspanAddress::new(3, 0, Orientation::Across, 4), 4),
        (WordspanAddress::new(4, 0, Orientation::Across, 4), 4),
        (WordspanAddress::new(0, 2, Orientation::Down, 5), 5),
    ] {
        assert_eq!(expected, puzzle.gather_cross_requirements(address).len());
    }
}

#[test]
fn a_solved_puzzle_is_completely_filled() {
    let lexicon = Lexicon::build(&puzzle_words(), 7);
    let puzzle = test_puzzle_i();
    assert!(puzzle.is_solved(&lexicon));
    assert!(puzzle.is_full());
}

#[test]
fn single_cell_and_barrier_only_grids() {
    let lone = Puzzle::new(1, 1, vec!['A']);
    assert_eq!(
        vec![
            WordspanAddress::new(0, 0, Orientation::Across, 1),
            WordspanAddress::new(0, 0, Orientation::Down, 1)
        ],
        lone.wordspan_addresses()
    );
    let walled = Puzzle::new(1, 1, vec!['█']);
    assert!(walled.wordspan_addresses().is_empty());
    assert!(walled.is_full());
}

#[test]
fn orientation_reverse_swaps_the_directions() {
    assert_eq!(Orientation::Down, Orientation::Across.reverse());
    assert_eq!(Orientation::Across, Orientation::Down.reverse());
}

#[test]
fn cross_requirements_of_a_filled_grid_carry_whole_words() {
    let puzzle = test_puzzle_ii();
    assert_eq!(
        vec![
            CrossRequirement::new(4, vec!['S', 'L', 'A', 'B']),
            CrossRequirement::new(6, vec!['W', 'A', 'L', 'E', 'S', 'A']),
            CrossRequirement::new(7, vec!['I', 'M', 'A', 'G', 'E', 'R', 'Y']),
            CrossRequirement::new(3, vec!['F', 'A', 'N']),
            CrossRequirement::new(2, vec!['T', 'S'])
        ],
        puzzle.gather_cross_requirements(WordspanAddress::new(0, 0, Orientation::Across, 5))
    );
}

#[test]
fn cross_requirement_prefix_stops_at_the_first_blank() {
    let puzzle = Puzzle::new(3, 1, vec!['A', ' ', 'B']);
    let requirements =
        puzzle.gather_cross_requirements(WordspanAddress::new(0, 0, Orientation::Across, 1));
    assert_eq!(vec![CrossRequirement::new(3, vec!['A'])], requirements);
}
