use rainbow_stacking::parse::{convert_char, parse_square, parse_squares};
use rainbow_stacking::square::SIZE;

// The symbol mapping is the fixed offset from 'a'.
#[test]
fn test_convert_char_bounds() {
    assert_eq!(convert_char('a'), 0);
    assert_eq!(convert_char('z'), 25);
}

#[test]
fn test_convert_char_middle() {
    assert_eq!(convert_char('b'), 1);
    assert_eq!(convert_char('g'), 6);
}

fn record(rows: &[&str]) -> String {
    rows.join("\n")
}

const GOOD_ROWS: [&str; 7] = [
    "abcdefg", "bcdefga", "cdefgab", "defgabc", "efgabcd", "fgabcde", "gabcdef",
];

#[test]
fn test_parse_square_good() {
    let text = record(&GOOD_ROWS);
    let sq = parse_square(&text).expect("well-formed record");
    for i in 0..SIZE {
        for j in 0..SIZE {
            assert_eq!(sq[i][j], ((i + j) % SIZE) as i32);
        }
    }
}

#[test]
fn test_parse_square_trailing_newline() {
    let mut text = record(&GOOD_ROWS);
    text.push('\n');
    assert!(parse_square(&text).is_some());
}

#[test]
fn test_parse_square_wrong_line_count() {
    let text = record(&GOOD_ROWS[..6]);
    assert!(parse_square(&text).is_none());
    let mut eight = GOOD_ROWS.to_vec();
    eight.push("abcdefg");
    assert!(parse_square(&record(&eight)).is_none());
}

#[test]
fn test_parse_square_wrong_line_length() {
    let mut rows = GOOD_ROWS.to_vec();
    rows[3] = "defgab";
    assert!(parse_square(&record(&rows)).is_none());
    rows[3] = "defgabca";
    assert!(parse_square(&record(&rows)).is_none());
}

#[test]
fn test_parse_square_empty() {
    assert!(parse_square("").is_none());
}

#[test]
fn test_parse_squares_keeps_good_records() {
    let good = record(&GOOD_ROWS);
    let mut bad_rows = GOOD_ROWS.to_vec();
    bad_rows[0] = "abc";
    let bad = record(&bad_rows);
    let corpus = format!("{}\n\n{}\n\n{}", good, bad, good);
    let squares = parse_squares(&corpus);
    assert_eq!(squares.len(), 2);
    for sq in squares {
        for i in 0..SIZE {
            for j in 0..SIZE {
                assert_eq!(sq[i][j], ((i + j) % SIZE) as i32);
            }
        }
    }
}

#[test]
fn test_parse_squares_empty_input() {
    assert_eq!(parse_squares("").len(), 0);
}

// The whole pipeline: load a corpus of two squares and search the pair
// for a rainbow stacking.
#[test]
fn test_corpus_pair_stacking() {
    let first = record(&GOOD_ROWS);
    let shifted: Vec<String> = (0..SIZE)
        .map(|i| {
            (0..SIZE)
                .map(|j| (b'a' + (((i + j + 1) % SIZE) as u8)) as char)
                .collect()
        })
        .collect();
    let shifted_rows: Vec<&str> = shifted.iter().map(|r| r.as_str()).collect();
    let second = record(&shifted_rows);
    let corpus = format!("{}\n\n{}", first, second);
    let squares = parse_squares(&corpus);
    assert_eq!(squares.len(), 2);

    let swaps = rainbow_stacking::swaps::generate_swaps(SIZE);
    let fixed = squares[0];
    let mut movable = squares[1];
    assert!(rainbow_stacking::search::find_stacking(&swaps, &fixed, &mut movable));
    for i in 0..SIZE {
        for j in (i + 1)..SIZE {
            assert_ne!(fixed[i][j], movable[i][j]);
        }
    }
}
