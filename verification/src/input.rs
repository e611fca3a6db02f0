//! Reading scores from a list on one line, or from the lines of a file.
//!
//! The two readers differ on purpose. A list is strict: its first piece that
//! is no acceptable rating fails the whole list. A file is lenient: a line
//! that is a number but no acceptable rating is passed over and reported, and
//! only a line that is no number at all fails the file.

use crate::number::{read_number, reading_of, Reading};
use crate::rating::{is_valid_rating, valid_rating, Rating};
use crate::text::{chars_of, holds_rows, lines, lines_of, pieces, split_on, string_of, trim, trimmed};
use vstd::prelude::*;
use vstd::string::StringExecFns;

verus! {

/// Why a list or a file could not be read.
#[derive(Debug, PartialEq, Eq)]
pub enum InputError {
    /// The piece at `position` of a list, counted from zero, is no number.
    MalformedPiece { position: usize, piece: String },
    /// The line at `position` of a file, counted from zero, is no number.
    MalformedLine { position: usize, line: String },
    /// The piece at `position` of a list, counted from zero, is the number
    /// `token`, which is no acceptable rating.
    InvalidRating { position: usize, token: String },
}

/// `entry`, a piece or a line, is a number once trimmed.
pub open spec fn is_number(entry: Seq<char>) -> bool {
    reading_of(trimmed(entry)) != Reading::Malformed
}

/// `entry`, a piece or a line, is an acceptable rating once trimmed.
pub open spec fn accepted(entry: Seq<char>, flexible: bool) -> bool {
    reading_of(trimmed(entry)) matches Reading::Value(r) && valid_rating(r.units as int, flexible)
}

/// The score that `entry` is read as, where it is a number with a value.
pub open spec fn rating_of(entry: Seq<char>) -> Rating {
    reading_of(trimmed(entry))->Value_0
}

/// The scores of the entries that are acceptable ratings, in order.
pub open spec fn kept(entries: Seq<Seq<char>>, flexible: bool) -> Seq<Rating>
    decreases entries.len(),
{
    if entries.len() == 0 {
        Seq::empty()
    } else if accepted(entries.last(), flexible) {
        kept(entries.drop_last(), flexible).push(rating_of(entries.last()))
    } else {
        kept(entries.drop_last(), flexible)
    }
}

/// The entries that are no acceptable ratings, trimmed, in order.
pub open spec fn passed_over(entries: Seq<Seq<char>>, flexible: bool) -> Seq<Seq<char>>
    decreases entries.len(),
{
    if entries.len() == 0 {
        Seq::empty()
    } else if accepted(entries.last(), flexible) {
        passed_over(entries.drop_last(), flexible)
    } else {
        passed_over(entries.drop_last(), flexible).push(trimmed(entries.last()))
    }
}

/// The texts that `rows` hold, in order.
pub open spec fn texts(rows: Seq<String>) -> Seq<Seq<char>> {
    Seq::new(rows.len(), |i: int| rows[i]@)
}

/// `error` is the failure of a list whose first unacceptable piece is `piece`,
/// at `position`.
pub open spec fn fails_list_at(
    error: InputError,
    position: int,
    piece: Seq<char>,
) -> bool {
    if is_number(piece) {
        error matches InputError::InvalidRating { position: p, token } && p == position && token@
            == trimmed(piece)
    } else {
        error matches InputError::MalformedPiece { position: p, piece: text } && p == position
            && text@ == piece
    }
}

/// Reads a list of scores separated by commas, with white space allowed
/// around each.
///
/// The list is read in full or not at all: it succeeds exactly when every
/// piece is an acceptable rating, and then gives the score of each piece in
/// order. Otherwise the error tells of the first piece that is not.
pub fn process_ratings_input(ratings_input: &str, flexible: bool) -> (result: Result<
    Vec<Rating>,
    InputError,
>)
    ensures
        match result {
            Ok(ratings) => {
                let parts = pieces(ratings_input@, ',');
                &&& ratings@.len() == parts.len()
                &&& forall|i: int|
                    0 <= i < parts.len() ==> accepted(#[trigger] parts[i], flexible) && ratings@[i]
                        == rating_of(parts[i])
            },
            Err(error) => {
                let parts = pieces(ratings_input@, ',');
                exists|at: int|
                    {
                        &&& 0 <= at < parts.len()
                        &&& forall|i: int| 0 <= i < at ==> accepted(#[trigger] parts[i], flexible)
                        &&& !accepted(parts[at], flexible)
                        &&& #[trigger] fails_list_at(error, at, parts[at])
                    }
            },
        },
{
    let chars = chars_of(ratings_input);
    let parts = split_on(&chars, ',');
    let ghost wanted = pieces(ratings_input@, ',');
    let mut ratings: Vec<Rating> = Vec::new();
    let mut i: usize = 0;
    while i < parts.len()
        invariant
            i <= parts.len(),
            wanted == pieces(ratings_input@, ','),
            holds_rows(parts@, wanted),
            ratings@.len() == i,
            forall|j: int|
                0 <= j < i ==> accepted(#[trigger] wanted[j], flexible) && ratings@[j] == rating_of(
                    wanted[j],
                ),
        decreases parts.len() - i,
    {
        let token = trim(&parts[i]);
        assert(parts@[i as int]@ == wanted[i as int]);
        let rating = match read_number(&token) {
            Reading::Malformed => {
                let error = InputError::MalformedPiece { position: i, piece: string_of(&parts[i]) };
                assert(fails_list_at(error, i as int, wanted[i as int]));
                return Err(error);
            },
            Reading::NotANumber => {
                let error = InputError::InvalidRating { position: i, token: string_of(&token) };
                assert(fails_list_at(error, i as int, wanted[i as int]));
                return Err(error);
            },
            Reading::Value(rating) => rating,
        };
        if !is_valid_rating(rating, flexible) {
            let error = InputError::InvalidRating { position: i, token: string_of(&token) };
            assert(fails_list_at(error, i as int, wanted[i as int]));
            return Err(error);
        }
        ratings.push(rating);
        i += 1;
    }
    Ok(ratings)
}

/// Reads the scores of a file from its content, one number on each line, with
/// white space allowed around each.
///
/// A line that is a number but no acceptable rating is passed over, and its
/// trimmed text is appended to `skipped`. The first line that is no number
/// fails the file, and the error tells which; the lines before it have been
/// read, so `skipped` holds what was passed over among them.
pub fn read_ratings_from_text(content: &str, flexible: bool, skipped: &mut Vec<String>) -> (result:
    Result<Vec<Rating>, InputError>)
    ensures
        match result {
            Ok(ratings) => {
                let rows = lines(content@);
                &&& forall|i: int| 0 <= i < rows.len() ==> is_number(#[trigger] rows[i])
                &&& ratings@ == kept(rows, flexible)
                &&& texts(final(skipped)@) == texts(old(skipped)@) + passed_over(rows, flexible)
            },
            Err(error) => {
                let rows = lines(content@);
                &&& error matches InputError::MalformedLine { position, line }
                &&& position < rows.len()
                &&& forall|i: int| 0 <= i < position ==> is_number(#[trigger] rows[i])
                &&& !is_number(rows[position as int])
                &&& line@ == rows[position as int]
                &&& texts(final(skipped)@) == texts(old(skipped)@) + passed_over(
                    rows.take(position as int),
                    flexible,
                )
            },
        },
{
    let chars = chars_of(content);
    let rows = lines_of(&chars);
    let ghost wanted = lines(content@);
    let ghost before = texts(skipped@);
    let mut ratings: Vec<Rating> = Vec::new();
    let mut i: usize = 0;
    assert(wanted.take(0).len() == 0);
    assert(texts(skipped@) == before + passed_over(wanted.take(0), flexible));
    while i < rows.len()
        invariant
            i <= rows.len(),
            wanted == lines(content@),
            before == texts(old(skipped)@),
            holds_rows(rows@, wanted),
            forall|j: int| 0 <= j < i ==> is_number(#[trigger] wanted[j]),
            ratings@ == kept(wanted.take(i as int), flexible),
            texts(skipped@) == before + passed_over(wanted.take(i as int), flexible),
        decreases rows.len() - i,
    {
        let token = trim(&rows[i]);
        assert(rows@[i as int]@ == wanted[i as int]);
        proof {
            assert(wanted.take(i + 1).drop_last() == wanted.take(i as int));
            assert(wanted.take(i + 1).last() == wanted[i as int]);
        }
        let reading = read_number(&token);
        let valid = match reading {
            Reading::Malformed => {
                return Err(InputError::MalformedLine { position: i, line: string_of(&rows[i]) });
            },
            Reading::NotANumber => false,
            Reading::Value(rating) => is_valid_rating(rating, flexible),
        };
        if valid {
            if let Reading::Value(rating) = reading {
                ratings.push(rating);
            }
        } else {
            let ghost earlier = texts(skipped@);
            skipped.push(string_of(&token));
            assert(texts(skipped@) == earlier.push(token@));
        }
        i += 1;
    }
    assert(wanted.take(rows.len() as int) == wanted);
    Ok(ratings)
}


/// What an error says, in words.
pub open spec fn message_of(error: InputError) -> Seq<char> {
    match error {
        InputError::MalformedPiece { position, piece } => "Failed to parse rating: "@ + piece@,
        InputError::MalformedLine { position, line } => "Failed to parse line as a number: "@
            + line@,
        InputError::InvalidRating { position, token } => "Invalid rating: "@ + token@
            + ". Ratings must be in the range (0.5, 5) and steps must match"@,
    }
}

/// What is said of a number, written `token`, that a file holds and that is
/// no acceptable rating.
pub open spec fn warning_of(token: Seq<char>) -> Seq<char> {
    "Warning: Rating "@ + token + " outside of valid range (0.5-5) or invalid step"@
}

impl InputError {
    /// Says in words what went wrong, naming the text at fault.
    pub fn message(&self) -> (text: String)
        ensures
            text@ == message_of(*self),
    {
        let mut text = String::new();
        match self {
            InputError::MalformedPiece { position, piece } => {
                text.append("Failed to parse rating: ");
                text.append(piece.as_str());
            },
            InputError::MalformedLine { position, line } => {
                text.append("Failed to parse line as a number: ");
                text.append(line.as_str());
            },
            InputError::InvalidRating { position, token } => {
                text.append("Invalid rating: ");
                text.append(token.as_str());
                text.append(". Ratings must be in the range (0.5, 5) and steps must match");
            },
        }
        assert(text@ == message_of(*self));
        text
    }
}

/// The warning for a number, written `token`, that was passed over.
pub fn warning_for(token: &str) -> (text: String)
    ensures
        text@ == warning_of(token@),
{
    let mut text = String::new();
    text.append("Warning: Rating ");
    text.append(token);
    text.append(" outside of valid range (0.5-5) or invalid step");
    assert(text@ == warning_of(token@));
    text
}

} // verus!
