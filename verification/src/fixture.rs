//! Checking a conversion against a stored expectation.
//!
//! A fixture is a pair of files with one name: the Markdown source and the HTML
//! that is expected of it. Reading and writing the files, showing a difference
//! and asking the user are left to the caller; what is decided is here.

use vstd::prelude::*;
use crate::document::{conversion, Document};
use crate::dom::markup_lines;
use crate::error::Error;

verus! {

/// What is to be done once the actual HTML of a fixture is known.
#[derive(Clone, Copy, Debug, PartialEq, Eq, Structural)]
pub enum Step {
    /// The HTML is what was expected: the fixture passes.
    Pass,
    /// The HTML differs and the run is interactive: the user is asked whether
    /// the new HTML is to be accepted.
    Ask,
    /// The HTML differs and nobody is there to ask: the fixture fails.
    Fail,
}

/// What is to be done once the user has answered.
#[derive(Clone, Copy, Debug, PartialEq, Eq, Structural)]
pub enum Verdict {
    /// The actual HTML replaces the expected one.
    Accept,
    /// The fixture fails.
    Reject,
}

/// The HTML that a source gave, and what follows from it.
#[derive(Debug, PartialEq, Eq)]
pub struct Report {
    pub actual: String,
    pub step: Step,
}

/// The step that follows from an expected and an actual HTML.
pub open spec fn step_for(expected: Seq<char>, actual: Seq<char>, interactive: bool) -> Step {
    if expected == actual {
        Step::Pass
    } else if interactive {
        Step::Ask
    } else {
        Step::Fail
    }
}

/// The path of a fixture file: `tests/`, the name, a dot and the extension.
pub open spec fn path_of(name: Seq<char>, extension: Seq<char>) -> Seq<char> {
    "tests/"@ + name + "."@ + extension
}

/// The path of the Markdown source of the fixture `name`.
pub fn source_path(name: &str) -> (r: String)
    ensures
        r@ == path_of(name@, "md"@),
{
    let mut path = String::from_str("tests/");
    path.append(name);
    path.append(".");
    path.append("md");
    path
}

/// The path of the expected HTML of the fixture `name`.
pub fn expected_path(name: &str) -> (r: String)
    ensures
        r@ == path_of(name@, "html"@),
{
    let mut path = String::from_str("tests/");
    path.append(name);
    path.append(".");
    path.append("html");
    path
}

/// Whether the run is interactive: the setting is there and is `1`.
pub fn is_interactive(setting: Option<&str>) -> (r: bool)
    ensures
        r == (setting matches Some(value) && value@ == "1"@),
{
    match setting {
        Some(value) => String::from_str(value) == String::from_str("1"),
        None => false,
    }
}

/// Decides what follows from an expected and an actual HTML.
pub fn compare(expected: &str, actual: &str, interactive: bool) -> (r: Step)
    ensures
        r == step_for(expected@, actual@, interactive),
{
    if String::from_str(expected) == String::from_str(actual) {
        Step::Pass
    } else if interactive {
        Step::Ask
    } else {
        Step::Fail
    }
}

/// Decides what follows from the user's answer: only a yes accepts.
pub fn settle(confirmed: bool) -> (r: Verdict)
    ensures
        r == if confirmed {
            Verdict::Accept
        } else {
            Verdict::Reject
        },
{
    if confirmed {
        Verdict::Accept
    } else {
        Verdict::Reject
    }
}

/// Converts the source `input` of a fixture and compares the HTML with
/// `expected`, which is empty where no expectation is stored.
///
/// It fails where the conversion fails. Otherwise the report holds the HTML of
/// the document and the step that follows.
pub fn test(input: &str, expected: &str, interactive: bool) -> (r: Result<Report, Error>)
    ensures
        match conversion(input@, true) {
            Ok(nodes) => r is Ok && r->Ok_0.actual@ == markup_lines(nodes),
            Err(e) => r == Err::<Report, Error>(e),
        },
        r matches Ok(report) ==> report.step == step_for(expected@, report.actual@, interactive),
{
    let document = match Document::parse(input) {
        Ok(document) => document,
        Err(e) => {
            return Err(e);
        },
    };
    let actual = document.to_html();
    let step = compare(expected, actual.as_str(), interactive);
    Ok(Report { actual, step })
}

} // verus!
