use star_rating::average::calculate_average_rating;
use star_rating::input::{process_ratings_input, read_ratings_from_text, warning_for, InputError};
use star_rating::rating::Rating;
use star_rating::report::report;
use std::io::BufRead;

fn tenths(list: &[i32]) -> Vec<Rating> {
    list.iter().map(|t| Rating::from_tenths(*t)).collect()
}

#[test]
fn list_of_valid_ratings() {
    assert_eq!(process_ratings_input("1,2,3", false), Ok(tenths(&[10, 20, 30])));
    assert_eq!(process_ratings_input("4.5", false), Ok(tenths(&[45])));
    assert_eq!(process_ratings_input("5,0.5,5", false), Ok(tenths(&[50, 5, 50])));
}

#[test]
fn list_with_white_space_around_the_pieces() {
    assert_eq!(
        process_ratings_input(" 1 ,\t2.5,3\n, \u{a0}4\u{3000} ", false),
        Ok(tenths(&[10, 25, 30, 40]))
    );
}

#[test]
fn list_with_a_rating_out_of_range_fails_as_a_whole() {
    assert_eq!(
        process_ratings_input("1,2,6", false),
        Err(InputError::InvalidRating { position: 2, token: "6".to_string() })
    );
    assert_eq!(
        process_ratings_input("1,2,6", true),
        Err(InputError::InvalidRating { position: 2, token: "6".to_string() })
    );
    assert_eq!(
        process_ratings_input("6,1,2", false),
        Err(InputError::InvalidRating { position: 0, token: "6".to_string() })
    );
}

#[test]
fn list_with_a_rating_off_the_step() {
    assert_eq!(
        process_ratings_input("1, 0.6 ,2", false),
        Err(InputError::InvalidRating { position: 1, token: "0.6".to_string() })
    );
    assert_eq!(
        process_ratings_input("1, 0.6 ,2", true),
        Ok(vec![
            Rating { units: 1_000_000_000 },
            Rating { units: 600_000_000 },
            Rating { units: 2_000_000_000 }
        ])
    );
}

#[test]
fn list_with_a_piece_that_is_no_number() {
    assert_eq!(
        process_ratings_input("1, abc ,6", false),
        Err(InputError::MalformedPiece { position: 1, piece: " abc ".to_string() })
    );
    assert_eq!(
        process_ratings_input("1,,2", false),
        Err(InputError::MalformedPiece { position: 1, piece: "".to_string() })
    );
    assert_eq!(
        process_ratings_input("1,2,", false),
        Err(InputError::MalformedPiece { position: 2, piece: "".to_string() })
    );
    assert_eq!(
        process_ratings_input("", false),
        Err(InputError::MalformedPiece { position: 0, piece: "".to_string() })
    );
    assert_eq!(
        process_ratings_input("1 2", true),
        Err(InputError::MalformedPiece { position: 0, piece: "1 2".to_string() })
    );
}

#[test]
fn list_fails_on_its_first_bad_piece() {
    assert_eq!(
        process_ratings_input("1,6,abc", false),
        Err(InputError::InvalidRating { position: 1, token: "6".to_string() })
    );
    assert_eq!(
        process_ratings_input("1,abc,6", false),
        Err(InputError::MalformedPiece { position: 1, piece: "abc".to_string() })
    );
}

#[test]
fn list_with_numbers_that_have_no_place_on_the_scale() {
    assert_eq!(
        process_ratings_input("nan", true),
        Err(InputError::InvalidRating { position: 0, token: "nan".to_string() })
    );
    assert_eq!(
        process_ratings_input("1, -inf", true),
        Err(InputError::InvalidRating { position: 1, token: "-inf".to_string() })
    );
    assert_eq!(
        process_ratings_input("1e400", false),
        Err(InputError::InvalidRating { position: 0, token: "1e400".to_string() })
    );
}

#[test]
fn list_in_other_spellings() {
    assert_eq!(
        process_ratings_input("5e-1,+1.5,.5e1,2.", false),
        Ok(tenths(&[5, 15, 50, 20]))
    );
}

#[test]
fn file_with_a_rating_out_of_range_passes_it_over() {
    let mut skipped = Vec::new();
    let ratings = read_ratings_from_text("1.0\n6.0\n2.0", false, &mut skipped).unwrap();
    assert_eq!(ratings, tenths(&[10, 20]));
    assert_eq!(skipped, vec!["6.0".to_string()]);
    let average = calculate_average_rating(&ratings);
    assert_eq!(average, Some(Rating { units: 1_500_000_000 }));
    assert_eq!(report(average).line, "⌀: ★½ (1.50)");
}

#[test]
fn file_keeps_what_was_skipped_before() {
    let mut skipped = vec!["earlier".to_string()];
    let ratings = read_ratings_from_text(" 0.6 \n3\nnan\n-2\n4.5\n", false, &mut skipped);
    assert_eq!(ratings, Ok(tenths(&[30, 45])));
    assert_eq!(
        skipped,
        vec!["earlier".to_string(), "0.6".to_string(), "nan".to_string(), "-2".to_string()]
    );
}

#[test]
fn file_in_flexible_mode() {
    let mut skipped = Vec::new();
    let ratings = read_ratings_from_text("0.6\n5.1\n3.14\n", true, &mut skipped);
    assert_eq!(
        ratings,
        Ok(vec![Rating { units: 600_000_000 }, Rating { units: 3_140_000_000 }])
    );
    assert_eq!(skipped, vec!["5.1".to_string()]);
}

#[test]
fn file_with_only_invalid_ratings_is_empty_but_read() {
    let mut skipped = Vec::new();
    let ratings = read_ratings_from_text("6\n7\n", false, &mut skipped).unwrap();
    assert!(ratings.is_empty());
    assert_eq!(skipped.len(), 2);
    let average = calculate_average_rating(&ratings);
    assert_eq!(average, None);
    assert!(report(average).usage);
}

#[test]
fn empty_file_has_no_lines() {
    let mut skipped = Vec::new();
    assert_eq!(read_ratings_from_text("", false, &mut skipped), Ok(vec![]));
    assert!(skipped.is_empty());
}

#[test]
fn file_may_end_with_or_without_a_line_feed() {
    let mut skipped = Vec::new();
    assert_eq!(read_ratings_from_text("1\n2", false, &mut skipped), Ok(tenths(&[10, 20])));
    assert_eq!(read_ratings_from_text("1\n2\n", false, &mut skipped), Ok(tenths(&[10, 20])));
    assert_eq!(
        read_ratings_from_text("1\r\n2\r\n", false, &mut skipped),
        Ok(tenths(&[10, 20]))
    );
}

#[test]
fn blank_line_fails_the_file() {
    let mut skipped = Vec::new();
    assert_eq!(
        read_ratings_from_text("1.0\n\n", false, &mut skipped),
        Err(InputError::MalformedLine { position: 1, line: "".to_string() })
    );
    assert_eq!(
        read_ratings_from_text("\n", false, &mut skipped),
        Err(InputError::MalformedLine { position: 0, line: "".to_string() })
    );
    assert_eq!(
        read_ratings_from_text("1.0\n   \n2.0\n", false, &mut skipped),
        Err(InputError::MalformedLine { position: 1, line: "   ".to_string() })
    );
    assert_eq!(
        read_ratings_from_text("1.0\r\n\r\n", false, &mut skipped),
        Err(InputError::MalformedLine { position: 1, line: "".to_string() })
    );
}

#[test]
fn malformed_line_fails_the_file_after_the_lines_before_it() {
    let mut skipped = Vec::new();
    assert_eq!(
        read_ratings_from_text("6\n1\n x1 \r\n7\n", false, &mut skipped),
        Err(InputError::MalformedLine { position: 2, line: " x1 ".to_string() })
    );
    assert_eq!(skipped, vec!["6".to_string()]);
}

#[test]
fn lines_are_cut_as_a_buffered_reader_cuts_them() {
    for content in ["", "1", "1\n", "1\n\n", "\n", "1\r\n2", "1\r", "1\r\r\n2\n", "\r\n", "a\nb\r\nc"] {
        let expected: Vec<String> =
            std::io::Cursor::new(content).lines().map(|l| l.unwrap()).collect();
        let chars: Vec<char> = content.chars().collect();
        let rows: Vec<String> = star_rating::text::lines_of(&chars)
            .iter()
            .map(|r| r.iter().collect())
            .collect();
        assert_eq!(rows, expected, "{:?}", content);
    }
}

#[test]
fn messages_name_the_text_at_fault() {
    let error = InputError::MalformedPiece { position: 1, piece: " abc".to_string() };
    assert_eq!(error.message(), "Failed to parse rating:  abc");
    let error = InputError::MalformedLine { position: 0, line: "x".to_string() };
    assert_eq!(error.message(), "Failed to parse line as a number: x");
    let error = InputError::InvalidRating { position: 2, token: "6".to_string() };
    assert_eq!(
        error.message(),
        "Invalid rating: 6. Ratings must be in the range (0.5, 5) and steps must match"
    );
}

#[test]
fn warning_names_the_number_and_the_range() {
    assert_eq!(
        warning_for("6.0"),
        "Warning: Rating 6.0 outside of valid range (0.5-5) or invalid step"
    );
}
