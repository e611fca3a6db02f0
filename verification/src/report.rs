//! The decisions around a run: where the scores come from, and what is said
//! of their average.

use crate::input::{message_of, InputError};
use crate::rating::Rating;
use crate::stars::{convert_to_star_rating, format_two_decimals, star_row, two_decimals};
use vstd::prelude::*;
use vstd::string::StringExecFns;

verus! {

/// Where the scores of a run come from.
#[derive(Debug, PartialEq, Eq)]
pub enum Source {
    /// A list given on the command line.
    List(String),
    /// The file at this path.
    File(String),
}

/// What a run says at its end.
#[derive(Debug, PartialEq, Eq)]
pub struct Report {
    /// The line to print: to the diagnostic stream if the run failed, else to
    /// the standard output.
    pub line: String,
    /// Whether the guidance on usage follows the line.
    pub usage: bool,
    /// Whether the run failed, so that it ends with a status other than zero.
    pub failed: bool,
}

/// The path of the file that is read when none is named: `ratings.txt` in
/// the working directory.
pub open spec fn default_path(working_dir: Seq<char>) -> Seq<char> {
    working_dir + "/ratings.txt"@
}

/// The line that reports an average: the sign of the average, its row of
/// stars, and in brackets the average with two decimals.
pub open spec fn average_line(units: int) -> Seq<char> {
    "\u{2300}: "@ + star_row(units) + " ("@ + two_decimals(units) + ")"@
}

/// Decides where the scores come from. A list, where one is given, comes
/// before any file; without a list the named file is read, and without a
/// name the default file of the working directory.
pub fn resolve_source(ratings: Option<String>, file: Option<String>, working_dir: &str) -> (source:
    Source)
    ensures
        match (ratings, file) {
            (Some(list), _) => source == Source::List(list),
            (None, Some(path)) => source == Source::File(path),
            (None, None) => source matches Source::File(path) && path@ == default_path(
                working_dir@,
            ),
        },
{
    match ratings {
        Some(list) => Source::List(list),
        None => match file {
            Some(path) => Source::File(path),
            None => {
                let mut path = String::new();
                path.append(working_dir);
                path.append("/ratings.txt");
                assert(path@ == default_path(working_dir@));
                Source::File(path)
            },
        },
    }
}

/// Says what a run reports once the scores were read: the line for the
/// average where there is one, else that no valid ratings were found, with the
/// guidance on usage after it. Neither is a failure.
pub fn report(average: Option<Rating>) -> (said: Report)
    ensures
        !said.failed,
        match average {
            Some(mean) => said.line@ == average_line(mean.units as int) && !said.usage,
            None => said.line@ == "No valid ratings found."@ && said.usage,
        },
{
    match average {
        Some(mean) => {
            let stars = convert_to_star_rating(mean);
            let number = format_two_decimals(mean);
            let mut line = String::new();
            line.append("\u{2300}: ");
            line.append(stars.as_str());
            line.append(" (");
            line.append(number.as_str());
            line.append(")");
            assert(line@ == average_line(mean.units as int));
            Report { line, usage: false, failed: false }
        },
        None => {
            let mut line = String::new();
            line.append("No valid ratings found.");
            assert(line@ == "No valid ratings found."@);
            Report { line, usage: true, failed: false }
        },
    }
}


/// Says what a run reports when the file at `path` is to be read and is not
/// there: a failure that names the path, with the guidance on usage after it.
pub fn report_missing_file(path: &str) -> (said: Report)
    ensures
        said.line@ == "Error: File '"@ + path@ + "' not found!"@,
        said.usage,
        said.failed,
{
    let mut line = String::new();
    line.append("Error: File '");
    line.append(path);
    line.append("' not found!");
    Report { line, usage: true, failed: true }
}

/// Says what a run reports when its scores could not be read: a failure
/// with the message of the error.
pub fn report_error(error: &InputError) -> (said: Report)
    ensures
        said.line@ == "Error: "@ + message_of(*error),
        !said.usage,
        said.failed,
{
    let message = error.message();
    let mut line = String::new();
    line.append("Error: ");
    line.append(message.as_str());
    Report { line, usage: false, failed: true }
}

} // verus!
