use vstd::prelude::*;

use crate::parser::line::LineReader;

verus! {

/// The standard library's error for a malformed integer; it is carried along unchanged.
#[verifier::external_type_specification]
#[verifier::external_body]
pub struct ExParseIntError(std::num::ParseIntError);

/// Cloning the standard library's integer error; nothing is claimed of the copy.
pub assume_specification[ <std::num::ParseIntError as Clone>::clone ](
    e: &std::num::ParseIntError,
) -> std::num::ParseIntError;

/// Errors that occur during parsing of iCalendar objects.
#[derive(Clone, Debug, PartialEq, Eq)]
pub struct ParseError {
    pub line: usize,
    pub ty: ParseErrorType,
}

/// The type of error that occurred during parsing.
#[derive(Clone, Debug, PartialEq, Eq)]
pub enum ParseErrorType {
    MissingNameEnd,
    MissingParamEnd,
    MissingParamValue,
    UnexpectedProp(String),
    UnexpectedEnd(String),
    UnexpectedBegin(String),
    DuplicateProp(String),
    UnexpectedWDayEnd,
    UnexpectedRRule(String),
    UnexpectedEOF,
    InvalidPercent(u8),
    InvalidPriority(u8),
    InvalidSequence(i64),
    MalformedDate(String),
    InvalidDate(String),
    InvalidNumber(std::num::ParseIntError),
    InvalidStatus(String),
    InvalidRole(String),
    InvalidFrequency(String),
    InvalidSide(String),
    InvalidWeekday(String),
    InvalidAction(String),
    InvalidDuration(String),
    InvalidUtcOffset(String),
    MissingRequiredProp(String),
    NonExistentTime(String),
    AmbiguousTime(String),
}

impl ParseError {
    /// Creates an error of the given type in the given line.
    pub fn new(line: usize, ty: ParseErrorType) -> (r: Self)
        ensures
            r == (ParseError { line, ty }),
    {
        Self { line, ty }
    }

    /// An error of the given type without a line number (line 0).
    pub fn from_type(ty: ParseErrorType) -> (r: Self)
        ensures
            r == (ParseError { line: 0, ty }),
    {
        Self { line: 0, ty }
    }

    /// Returns the error type.
    pub fn ty(&self) -> (r: &ParseErrorType)
        ensures
            *r == self.ty,
    {
        &self.ty
    }

    /// Returns the line number where the error occurred.
    pub fn line_num(&self) -> (r: usize)
        ensures
            r == self.line,
    {
        self.line
    }

    /// Sets the line number of this error.
    pub fn with_line(self, line: usize) -> (r: Self)
        ensures
            r == (ParseError { line, ty: self.ty }),
    {
        let mut s = self;
        s.line = line;
        s
    }
}

/// Attaches the current line number of a [`LineReader`] to the error of a result.
pub trait LineResultExt<T>: Sized {
    /// Maps the error to include the current line number of the given [`LineReader`].
    fn with_line(self, reader: &LineReader) -> Result<T, ParseError>;
}

impl<T> LineResultExt<T> for Result<T, ParseError> {
    fn with_line(self, reader: &LineReader) -> (r: Result<T, ParseError>)
        ensures
            r == (match self {
                Ok(v) => Ok(v),
                Err(e) => Err(ParseError { line: reader.lines_read() as usize, ty: e.ty }),
            }),
    {
        match self {
            Ok(v) => Ok(v),
            Err(e) => Err(e.with_line(reader.line_num())),
        }
    }
}

impl<T> LineResultExt<T> for Result<T, ParseErrorType> {
    fn with_line(self, reader: &LineReader) -> (r: Result<T, ParseError>)
        ensures
            r == (match self {
                Ok(v) => Ok(v),
                Err(ty) => Err(ParseError { line: reader.lines_read() as usize, ty }),
            }),
    {
        match self {
            Ok(v) => Ok(v),
            Err(ty) => Err(ParseError::new(reader.line_num(), ty)),
        }
    }
}

impl From<ParseErrorType> for ParseError {
    /// An error of the given type without a line number (line 0).
    fn from(ty: ParseErrorType) -> (r: Self) {
        ParseError { line: 0, ty }
    }
}

impl vstd::std_specs::convert::FromSpecImpl<ParseErrorType> for ParseError {
    open spec fn obeys_from_spec() -> bool {
        true
    }

    open spec fn from_spec(v: ParseErrorType) -> ParseError {
        ParseError { line: 0, ty: v }
    }
}

impl From<std::num::ParseIntError> for ParseError {
    /// A malformed number, without a line number (line 0).
    fn from(e: std::num::ParseIntError) -> (r: Self) {
        ParseError { line: 0, ty: ParseErrorType::InvalidNumber(e) }
    }
}

impl vstd::std_specs::convert::FromSpecImpl<std::num::ParseIntError> for ParseError {
    open spec fn obeys_from_spec() -> bool {
        true
    }

    open spec fn from_spec(v: std::num::ParseIntError) -> ParseError {
        ParseError { line: 0, ty: ParseErrorType::InvalidNumber(v) }
    }
}

} // verus!
