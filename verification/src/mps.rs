//! MPS: the standard text format for linear programs.
//!
//! Parsing turns an MPS text into an [`MpsModel`]: the rows, columns, bounds
//! and coefficients it states, each number kept as the literal that spells
//! it. Every literal is one that `str::parse::<f64>` accepts.
pub mod lexer;
pub mod literal;
pub mod grammar;
pub mod parser;
pub mod model;

use std::io::Read;
use vstd::prelude::*;
use vstd::utf8::{valid_utf8, decode_utf8};
use crate::text::{chars_of, string_of};
use crate::mps::grammar::{Parsed, parse_state};
use crate::mps::parser::parse_text;
pub use crate::mps::model::{MpsModel, RowSpec, ColumnSpec, Bound, RowBound, ColBound, model_of};
pub use crate::mps::grammar::RowKind;

verus! {

/// Why an MPS input was rejected.
#[derive(Debug, Clone)]
pub enum MpsError {
    /// A syntax error, at this 1-based line (0 when the text as a whole is
    /// at fault).
    Parse { line: usize, msg: String },
    /// The bytes could not be decompressed or are not UTF-8.
    Gzip(String),
    /// The stated problem is inconsistent (reported when it is built).
    Problem(String),
}

impl MpsError {
    /// The error as a sentence: `line N: msg`, `gzip: msg` or
    /// `problem construction: msg`.
    pub fn message(&self) -> (r: String)
        ensures
            r@ == self.spec_message(),
    {
        let mut out: Vec<char> = Vec::new();
        match self {
            MpsError::Parse { line, msg } => {
                let head = chars_of("line ");
                crate::text::push_all(&mut out, head.as_slice());
                crate::text::push_decimal(&mut out, *line as u64);
                out.push(':');
                out.push(' ');
                let body = chars_of(msg.as_str());
                crate::text::push_all(&mut out, body.as_slice());
            },
            MpsError::Gzip(msg) => {
                let head = chars_of("gzip: ");
                crate::text::push_all(&mut out, head.as_slice());
                let body = chars_of(msg.as_str());
                crate::text::push_all(&mut out, body.as_slice());
            },
            MpsError::Problem(msg) => {
                let head = chars_of("problem construction: ");
                crate::text::push_all(&mut out, head.as_slice());
                let body = chars_of(msg.as_str());
                crate::text::push_all(&mut out, body.as_slice());
            },
        }
        string_of(out.as_slice())
    }

    pub open spec fn spec_message(&self) -> Seq<char> {
        match self {
            MpsError::Parse { line, msg } => "line "@ + crate::text::decimal(*line as nat) + seq![':', ' '] + msg@,
            MpsError::Gzip(msg) => "gzip: "@ + msg@,
            MpsError::Problem(msg) => "problem construction: "@ + msg@,
        }
    }
}

/// A syntax error at `line` with message `msg`.
pub fn err(line: usize, msg: String) -> (e: MpsError)
    ensures
        e == (MpsError::Parse { line, msg }),
{
    MpsError::Parse { line, msg }
}

/// What parsing the text `t` yields: its model, or the first error in it.
pub open spec fn parses_to(t: Seq<char>, r: Result<MpsModel, MpsError>) -> bool {
    match parse_state(t) {
        Ok(p) => r matches Ok(m) && model_of(m, t, p),
        Err(e) => r matches Err(MpsError::Parse { line, msg }) && line == e.0 && msg@ == e.1,
    }
}

/// Parses an MPS text.
pub fn parse_str(text: &str) -> (r: Result<MpsModel, MpsError>)
    ensures
        parses_to(text@, r),
{
    let t = chars_of(text);
    match parse_text(&t) {
        Ok(st) => {
            let ghost p = parse_state(t@)->Ok_0;
            Ok(crate::mps::model::build_model(&t, &st, Ghost(p)))
        },
        Err((line, msg)) => Err(err(line, string_of(msg.as_slice()))),
    }
}

/// What decompressing the gzip stream `b` gives: the text, or the error's
/// message.
pub uninterp spec fn gunzip(b: Seq<u8>) -> Result<Seq<char>, Seq<char>>;

/// Decompresses a gzip stream into text.
///
/// Trusted: calls `flate2::read::GzDecoder::new(b).read_to_string`. The
/// contract only names the result as `gunzip(b)`: the decoded text, or the
/// message of the I/O error (corrupt stream or non-UTF-8 output).
#[verifier::external_body]
fn gunzip_text(b: &[u8]) -> (r: Result<String, String>)
    ensures
        match r {
            Ok(s) => gunzip(b@) == Ok::<Seq<char>, Seq<char>>(s@),
            Err(m) => gunzip(b@) == Err::<Seq<char>, Seq<char>>(m@),
        },
{
    let mut s = String::new();
    match flate2::read::GzDecoder::new(b).read_to_string(&mut s) {
        Ok(_) => Ok(s),
        Err(e) => Err(e.to_string()),
    }
}

/// The message of the error `std::str::from_utf8` reports for `b`.
pub uninterp spec fn utf8_error(b: Seq<u8>) -> Seq<char>;

/// Reads bytes as UTF-8 text.
///
/// Trusted: calls `std::str::from_utf8`. The contract claims what its
/// documentation states: it succeeds exactly on valid UTF-8, and the text is
/// the decoding of the bytes; the error's message is only named.
#[verifier::external_body]
fn utf8_text(b: &[u8]) -> (r: Result<&str, String>)
    ensures
        r is Ok <==> valid_utf8(b@),
        (r matches Ok(s) ==> s@ == decode_utf8(b@)),
        (r matches Err(m) ==> m@ == utf8_error(b@)),
{
    std::str::from_utf8(b).map_err(|e| e.to_string())
}

/// The bytes start with the gzip magic number.
pub open spec fn is_gzip(b: Seq<u8>) -> bool {
    b.len() >= 2 && b[0] == 0x1f && b[1] == 0x8b
}

/// Parses MPS bytes: a gzip stream (detected by its magic number) is
/// decompressed first; otherwise the bytes must be UTF-8.
pub fn parse_bytes(bytes: &[u8]) -> (r: Result<MpsModel, MpsError>)
    ensures
        is_gzip(bytes@) ==> match gunzip(bytes@) {
            Ok(s) => parses_to(s, r),
            Err(m) => r matches Err(MpsError::Gzip(x)) && x@ == m,
        },
        !is_gzip(bytes@) && valid_utf8(bytes@) ==> parses_to(decode_utf8(bytes@), r),
        !is_gzip(bytes@) && !valid_utf8(bytes@) ==> (r matches Err(MpsError::Gzip(x)) && x@ == utf8_error(bytes@)),
{
    if bytes.len() >= 2 && bytes[0] == 0x1f && bytes[1] == 0x8b {
        match gunzip_text(bytes) {
            Ok(s) => parse_str(s.as_str()),
            Err(m) => Err(MpsError::Gzip(m)),
        }
    } else {
        match utf8_text(bytes) {
            Ok(s) => parse_str(s),
            Err(m) => Err(MpsError::Gzip(m)),
        }
    }
}

} // verus!
