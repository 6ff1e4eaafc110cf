//! Errors of the current language, and how they are reported.
use vstd::prelude::*;
use crate::text::{decimal_text, line_col, spec_line_col, usize_text};

verus! {

/// An error: a message and, where known, the byte offset in the source it refers to.
#[derive(Debug)]
pub struct Error {
    pos: Option<usize>,
    msg: String,
}

/// What an error is.
pub struct ErrorV {
    pub pos: Option<usize>,
    pub msg: Seq<char>,
}

impl View for Error {
    type V = ErrorV;

    closed spec fn view(&self) -> ErrorV {
        ErrorV { pos: self.pos, msg: self.msg@ }
    }
}

/// The text of an error report for a file named `filename` whose source is `src`.
pub open spec fn report_text(e: ErrorV, filename: Seq<char>, src: Seq<char>) -> Seq<char> {
    match e.pos {
        Some(pos) => {
            let (line, col) = spec_line_col(src, pos as int);
            filename + ":"@ + decimal_text(line) + ":"@ + decimal_text(col) + ": error: "@ + e.msg
        },
        None => filename + ": error: "@ + e.msg,
    }
}

/// The message of an error met at the end of the input.
pub open spec fn eof_message(msg: Seq<char>) -> Seq<char> {
    msg + " (unexpected end of input)"@
}

impl Error {
    /// An error at byte offset `pos`.
    pub fn at(pos: usize, msg: &str) -> (r: Error)
        ensures
            r@ == (ErrorV { pos: Some(pos), msg: msg@ }),
    {
        Error { pos: Some(pos), msg: String::from_str(msg) }
    }

    /// An error met at the end of the input.
    pub fn eof(msg: &str) -> (r: Error)
        ensures
            r@ == (ErrorV { pos: None, msg: eof_message(msg@) }),
    {
        let mut m = String::from_str(msg);
        m.append(" (unexpected end of input)");
        Error { pos: None, msg: m }
    }

    /// An error that belongs to no place in the source.
    pub fn global(msg: &str) -> (r: Error)
        ensures
            r@ == (ErrorV { pos: None, msg: msg@ }),
    {
        Error { pos: None, msg: String::from_str(msg) }
    }

    /// The report of the error for the file `filename` whose text is `src`.
    pub fn report(&self, filename: &str, src: &str) -> (r: String)
        ensures
            r@ == report_text(self@, filename@, src@),
    {
        match self.pos {
            Some(pos) => {
                let (line, col) = Self::line_col(src, pos);
                let mut out = String::from_str(filename);
                out.append(":");
                out.append(usize_text(line).as_str());
                out.append(":");
                out.append(usize_text(col).as_str());
                out.append(": error: ");
                out.append(self.msg.as_str());
                out
            },
            None => {
                let mut out = String::from_str(filename);
                out.append(": error: ");
                out.append(self.msg.as_str());
                out
            },
        }
    }

    /// The line and column of byte offset `pos` in `src`.
    fn line_col(src: &str, pos: usize) -> (r: (usize, usize))
        ensures
            (r.0 as nat, r.1 as nat) == spec_line_col(src@, pos as int),
    {
        line_col(src, pos)
    }
}

} // verus!
