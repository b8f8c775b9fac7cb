//! Custom errors
use vstd::prelude::*;
use crate::text::{decimal, push_decimal, push_text};

verus! {

/// The errors of puzzle building, solving and editing.
#[derive(Debug, PartialEq)]
pub enum SudError {
    InputParse,
    InputLengthError(usize),
    OutputParse,
    NoSolution,
    MultipleSolution(usize),
    ExcessiveSolutions(usize),
    HumanSolveError,
    HasNotBeenSolved,
    InvalidPuzzle,
    ValueNotPossible(String),
    InvalidLocation((usize, usize)),
    IllegalOperation(&'static str),
    ConflictingValues(usize, usize),
    IndexOutOfRange(usize),
    NotSolved(usize, usize),
}

/// The message of an error, as shown to a reader.
pub open spec fn error_text(e: SudError) -> Seq<char> {
    match e {
        SudError::InputParse => "Parse error when attempting puzzle input"@,
        SudError::InputLengthError(s) => "Input length different than expected.  Actual: "@
            + decimal(s as nat) + ", expected: 81"@,
        SudError::OutputParse => "Parse error when attempting output"@,
        SudError::NoSolution => "There is no solution for the given input"@,
        SudError::MultipleSolution(s) => "There is not a unique solution. There are "@ + decimal(s as nat)
            + " solutions."@,
        SudError::ExcessiveSolutions(s) => "There are more than "@ + decimal(s as nat)
            + " solutions and solution calculation was halted"@,
        SudError::HumanSolveError => "There was an issue with the human solve calculation"@,
        SudError::InvalidPuzzle => "The provided puzzle input is invalid. There are conflicts with the provided numbers"@,
        SudError::ValueNotPossible(i) => "The value entered is not a valid possibility at index "@ + i@,
        SudError::InvalidLocation(coord) => "The location of : ("@ + decimal(coord.0 as nat) + ", "@
            + decimal(coord.1 as nat) + ") exceeds puzzle parameters"@,
        SudError::IllegalOperation(s) => "Illegal operation: "@ + s@,
        SudError::HasNotBeenSolved => "The puzzle has not been solved yet."@,
        SudError::ConflictingValues(first, second) => "There is at least one conflicting value at index: "@
            + decimal(first as nat) + " with index: "@ + decimal(second as nat),
        SudError::IndexOutOfRange(index) => "Index: "@ + decimal(index as nat) + " out of range"@,
        SudError::NotSolved(missing, conflicts) => "Not yet solved. "@ + decimal(missing as nat)
            + " missing values and "@ + decimal(conflicts as nat) + " conflicting values"@,
    }
}

/// A new text holding `t`.
fn text(t: &str) -> (r: String)
    ensures
        r@ == t@,
{
    let mut s = String::new();
    push_text(&mut s, t);
    proof { assert(seq![] + t@ =~= t@); }
    s
}

impl SudError {
    /// The message of the error, as shown to a reader.
    pub fn to_string(&self) -> (r: String)
        ensures
            r@ == error_text(*self),
    {
        match self {
            SudError::InputParse => text("Parse error when attempting puzzle input"),
            SudError::InputLengthError(s) => {
                let mut r = text("Input length different than expected.  Actual: ");
                push_decimal(&mut r, *s as u128);
                push_text(&mut r, ", expected: 81");
                r
            },
            SudError::OutputParse => text("Parse error when attempting output"),
            SudError::NoSolution => text("There is no solution for the given input"),
            SudError::MultipleSolution(s) => {
                let mut r = text("There is not a unique solution. There are ");
                push_decimal(&mut r, *s as u128);
                push_text(&mut r, " solutions.");
                r
            },
            SudError::ExcessiveSolutions(s) => {
                let mut r = text("There are more than ");
                push_decimal(&mut r, *s as u128);
                push_text(&mut r, " solutions and solution calculation was halted");
                r
            },
            SudError::HumanSolveError => text("There was an issue with the human solve calculation"),
            SudError::HasNotBeenSolved => text("The puzzle has not been solved yet."),
            SudError::InvalidPuzzle => text("The provided puzzle input is invalid. There are conflicts with the provided numbers"),
            SudError::ValueNotPossible(i) => {
                let mut r = text("The value entered is not a valid possibility at index ");
                push_text(&mut r, i.as_str());
                r
            },
            SudError::InvalidLocation(coord) => {
                let mut r = text("The location of : (");
                push_decimal(&mut r, coord.0 as u128);
                push_text(&mut r, ", ");
                push_decimal(&mut r, coord.1 as u128);
                push_text(&mut r, ") exceeds puzzle parameters");
                r
            },
            SudError::IllegalOperation(s) => {
                let mut r = text("Illegal operation: ");
                push_text(&mut r, s);
                r
            },
            SudError::ConflictingValues(first, second) => {
                let mut r = text("There is at least one conflicting value at index: ");
                push_decimal(&mut r, *first as u128);
                push_text(&mut r, " with index: ");
                push_decimal(&mut r, *second as u128);
                r
            },
            SudError::IndexOutOfRange(index) => {
                let mut r = text("Index: ");
                push_decimal(&mut r, *index as u128);
                push_text(&mut r, " out of range");
                r
            },
            SudError::NotSolved(missing, conflicts) => {
                let mut r = text("Not yet solved. ");
                push_decimal(&mut r, *missing as u128);
                push_text(&mut r, " missing values and ");
                push_decimal(&mut r, *conflicts as u128);
                push_text(&mut r, " conflicting values");
                r
            },
        }
    }
}

} // verus!
