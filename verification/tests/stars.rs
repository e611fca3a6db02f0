use star_rating::number::{parse_number, Reading};
use star_rating::rating::Rating;
use star_rating::input::InputError;
use star_rating::report::{
    report, report_error, report_missing_file, resolve_source, Report, Source,
};
use star_rating::stars::{
    convert_to_star_rating, format_two_decimals, FULL_STAR, HALF_STAR, HALF_STAR_UP_TO,
    NO_GLYPH_UP_TO, UNITS_PER_HUNDREDTH,
};

fn score(text: &str) -> Rating {
    match parse_number(text) {
        Reading::Value(rating) => rating,
        other => panic!("{} is read as {:?}", text, other),
    }
}

#[test]
fn glyphs_and_bounds() {
    assert_eq!(FULL_STAR, '★');
    assert_eq!(HALF_STAR, '½');
    assert_eq!(NO_GLYPH_UP_TO, 390_000_000);
    assert_eq!(HALF_STAR_UP_TO, 740_000_000);
    assert_eq!(UNITS_PER_HUNDREDTH, 10_000_000);
}

#[test]
fn whole_average() {
    assert_eq!(convert_to_star_rating(score("3.0")), "★★★");
}

#[test]
fn small_part_earns_no_glyph() {
    assert_eq!(convert_to_star_rating(score("3.2")), "★★★");
}

#[test]
fn middle_part_earns_half_a_star() {
    assert_eq!(convert_to_star_rating(score("3.5")), "★★★½");
}

#[test]
fn large_part_earns_a_full_star() {
    assert_eq!(convert_to_star_rating(score("3.9")), "★★★★");
}

#[test]
fn lower_bound_of_the_half_star() {
    assert_eq!(convert_to_star_rating(score("3.39")), "★★★");
    assert_eq!(convert_to_star_rating(score("3.390000001")), "★★★½");
    assert_eq!(convert_to_star_rating(score("3.389999999")), "★★★");
}

#[test]
fn upper_bound_of_the_half_star() {
    assert_eq!(convert_to_star_rating(score("3.74")), "★★★½");
    assert_eq!(convert_to_star_rating(score("3.740000001")), "★★★★");
    assert_eq!(convert_to_star_rating(score("3.745")), "★★★★");
    assert_eq!(convert_to_star_rating(score("3.75")), "★★★★");
    assert_eq!(convert_to_star_rating(score("3.999999999")), "★★★★");
}

#[test]
fn ends_of_the_scale() {
    assert_eq!(convert_to_star_rating(score("0.5")), "½");
    assert_eq!(convert_to_star_rating(score("1")), "★");
    assert_eq!(convert_to_star_rating(score("5.0")), "★★★★★");
}

#[test]
fn zero_gives_the_empty_row() {
    assert_eq!(convert_to_star_rating(Rating { units: 0 }), "");
    assert_eq!(convert_to_star_rating(score("0.2")), "");
    assert_eq!(convert_to_star_rating(score("0.39")), "");
}

#[test]
fn averages_off_the_scale_do_not_fail() {
    assert_eq!(convert_to_star_rating(score("12")), "★".repeat(12));
    assert_eq!(convert_to_star_rating(score("100.8")), "★".repeat(101));
    // Below zero there are no whole stars; the part above the whole points
    // below still earns its glyph: -0.5 is -1 and a half.
    assert_eq!(convert_to_star_rating(score("-0.5")), "½");
    assert_eq!(convert_to_star_rating(score("-1")), "");
    assert_eq!(convert_to_star_rating(score("-1.2")), "★");
    assert_eq!(convert_to_star_rating(score("-1.7")), "");
    assert_eq!(convert_to_star_rating(Rating { units: i64::MIN }), "");
}

#[test]
fn rendering_twice_gives_the_same_row() {
    for text in ["0.5", "1.25", "3.39", "3.5", "4.75", "5"] {
        let average = score(text);
        assert_eq!(
            convert_to_star_rating(average),
            convert_to_star_rating(average)
        );
        assert_eq!(format_two_decimals(average), format_two_decimals(average));
    }
}

#[test]
fn rows_on_the_scale_have_one_to_five_glyphs() {
    let mut units: i64 = 500_000_000;
    while units <= 5_000_000_000 {
        let row = convert_to_star_rating(Rating { units });
        let glyphs = row.chars().count();
        assert!(1 <= glyphs && glyphs <= 5, "{}", units);
        units += 1_234_567;
    }
}

#[test]
fn two_decimals_of_plain_values() {
    assert_eq!(format_two_decimals(score("3.5")), "3.50");
    assert_eq!(format_two_decimals(score("2")), "2.00");
    assert_eq!(format_two_decimals(score("0")), "0.00");
    assert_eq!(format_two_decimals(score("0.05")), "0.05");
    assert_eq!(format_two_decimals(score("12.34")), "12.34");
    assert_eq!(format_two_decimals(score("1.666666667")), "1.67");
    assert_eq!(format_two_decimals(score("1.664999999")), "1.66");
    assert_eq!(format_two_decimals(score("9.999")), "10.00");
    assert_eq!(format_two_decimals(score("1234567.891")), "1234567.89");
}

#[test]
fn two_decimals_round_a_tie_to_the_even_digit() {
    assert_eq!(format_two_decimals(score("3.125")), "3.12");
    assert_eq!(format_two_decimals(score("3.375")), "3.38");
    assert_eq!(format_two_decimals(score("3.135")), "3.14");
    assert_eq!(format_two_decimals(score("0.005")), "0.00");
    assert_eq!(format_two_decimals(score("0.015")), "0.02");
    assert_eq!(format_two_decimals(score("3.125000001")), "3.13");
    assert_eq!(format_two_decimals(score("3.124999999")), "3.12");
}

#[test]
fn two_decimals_agree_with_floating_point_on_eighths() {
    let mut eighths: i64 = 0;
    while eighths <= 80 {
        let float = eighths as f64 / 8.0;
        let rating = Rating { units: eighths * 125_000_000 };
        assert_eq!(format_two_decimals(rating), format!("{:.2}", float));
        eighths += 1;
    }
}

#[test]
fn two_decimals_below_zero_and_at_the_ends() {
    assert_eq!(format_two_decimals(score("-1.5")), "-1.50");
    assert_eq!(format_two_decimals(score("-0.001")), "-0.00");
    assert_eq!(format_two_decimals(Rating { units: i64::MAX }), "9223372036.85");
    assert_eq!(format_two_decimals(Rating { units: i64::MIN }), "-9223372036.85");
}

#[test]
fn report_of_an_average() {
    let said = report(Some(score("3.5")));
    assert_eq!(
        said,
        Report { line: "⌀: ★★★½ (3.50)".to_string(), usage: false, failed: false }
    );
    let said = report(Some(score("1.5")));
    assert_eq!(said.line, "⌀: ★½ (1.50)");
    let said = report(Some(Rating { units: 0 }));
    assert_eq!(said.line, "⌀:  (0.00)");
}

#[test]
fn report_without_an_average() {
    let said = report(None);
    assert_eq!(said.line, "No valid ratings found.");
    assert!(said.usage);
    assert!(!said.failed);
}

#[test]
fn report_of_a_missing_file_names_the_path() {
    let said = report_missing_file("/tmp/none/ratings.txt");
    assert_eq!(said.line, "Error: File '/tmp/none/ratings.txt' not found!");
    assert!(said.usage);
    assert!(said.failed);
}

#[test]
fn report_of_an_error_carries_its_message() {
    let error = InputError::InvalidRating { position: 2, token: "6".to_string() };
    let said = report_error(&error);
    assert_eq!(
        said.line,
        "Error: Invalid rating: 6. Ratings must be in the range (0.5, 5) and steps must match"
    );
    assert!(!said.usage);
    assert!(said.failed);
    let error = InputError::MalformedLine { position: 0, line: "".to_string() };
    assert_eq!(report_error(&error).line, "Error: Failed to parse line as a number: ");
}

#[test]
fn a_list_comes_before_a_file() {
    let source = resolve_source(Some("1,2".to_string()), Some("a.txt".to_string()), "/home");
    assert_eq!(source, Source::List("1,2".to_string()));
    let source = resolve_source(Some("".to_string()), None, "/home");
    assert_eq!(source, Source::List("".to_string()));
}

#[test]
fn a_named_file_comes_before_the_default() {
    let source = resolve_source(None, Some("a.txt".to_string()), "/home");
    assert_eq!(source, Source::File("a.txt".to_string()));
}

#[test]
fn the_default_file_lies_in_the_working_directory() {
    let source = resolve_source(None, None, "/home/me");
    assert_eq!(source, Source::File("/home/me/ratings.txt".to_string()));
    let source = resolve_source(None, None, "");
    assert_eq!(source, Source::File("/ratings.txt".to_string()));
}

fn stars_in_floating_point(average: f64) -> String {
    let whole = average.floor();
    let part = average - whole;
    let glyph = if part <= 0.39 {
        ""
    } else if part <= 0.74 {
        "½"
    } else {
        "★"
    };
    let mut row = "★".repeat(whole as usize);
    row.push_str(glyph);
    row
}

#[test]
fn rows_agree_with_floating_point_on_tenths_and_eighths() {
    let mut tenths: i64 = 0;
    while tenths <= 60 {
        let rating = Rating { units: tenths * 100_000_000 };
        assert_eq!(
            convert_to_star_rating(rating),
            stars_in_floating_point(tenths as f64 / 10.0),
            "{}",
            tenths
        );
        tenths += 1;
    }
    let mut eighths: i64 = 0;
    while eighths <= 48 {
        let rating = Rating { units: eighths * 125_000_000 };
        assert_eq!(
            convert_to_star_rating(rating),
            stars_in_floating_point(eighths as f64 / 8.0),
            "{}",
            eighths
        );
        eighths += 1;
    }
}
