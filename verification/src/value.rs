//! Decoding lines as JSON. A line that does not decode gives an error of its
//! own and leaves the lines around it alone.

use crate::jsonl_reader::Jsonl;
use crate::take_n::{TakeNLines, TakeNLinesReverse};
use crate::text::texts;
use vstd::prelude::*;
use vstd::string::StringExecFns;

verus! {

/// `serde_json::Value`, carried through as it is: nothing is read from it.
#[verifier::external_type_specification]
#[verifier::external_body]
pub struct ExValue(serde_json::Value);

/// `serde_json::Error`, of which only the `Display` text is taken.
#[verifier::external_type_specification]
#[verifier::external_body]
pub struct ExJsonError(serde_json::Error);

/// Whether `text` is exactly one JSON value, as the JSON decoder judges it.
pub uninterp spec fn is_json(text: Seq<char>) -> bool;

/// `serde_json::from_str` at `serde_json::Value`: whether it succeeds is
/// settled by the text alone.
#[verifier::external_body]
fn parse_value(line: &str) -> (r: Result<serde_json::Value, serde_json::Error>)
    ensures
        r is Ok == is_json(line@),
{
    serde_json::from_str::<serde_json::Value>(line)
}

/// The `Display` text of a `serde_json::Error`. Nothing is claimed of it.
#[verifier::external_body]
fn error_text(e: &serde_json::Error) -> (text: String) {
    e.to_string()
}

/// Why one line did not decode.
#[derive(Debug)]
pub struct DecodeError {
    line: String,
    detail: String,
}

impl DecodeError {
    /// The line that did not decode.
    pub closed spec fn line_text(&self) -> Seq<char> {
        self.line@
    }

    /// What the decoder said of it.
    pub closed spec fn detail_text(&self) -> Seq<char> {
        self.detail@
    }

    /// An error for `line`, with the decoder's own words as `detail`.
    pub fn new(line: &str, detail: &str) -> (e: Self)
        ensures
            e.line_text() == line@,
            e.detail_text() == detail@,
    {
        DecodeError { line: String::from_str(line), detail: String::from_str(detail) }
    }

    /// The line that did not decode.
    pub fn line(&self) -> (r: &str)
        ensures
            r@ == self.line_text(),
    {
        self.line.as_str()
    }

    /// What the decoder said of it.
    pub fn detail(&self) -> (r: &str)
        ensures
            r@ == self.detail_text(),
    {
        self.detail.as_str()
    }

    /// The error as one sentence.
    pub fn message(&self) -> (r: String)
        ensures
            r@ == "Failed to parse JSON line: "@ + self.detail_text(),
    {
        let mut r = String::from_str("Failed to parse JSON line: ");
        r.append(self.detail.as_str());
        r
    }
}

/// `out` is what the decoder's `parsed` comes to for `line`: a value passes
/// through, a failure becomes an error that carries the line and the
/// decoder's words.
pub open spec fn settled<T>(
    line: Seq<char>,
    parsed: Result<T, String>,
    out: Result<T, DecodeError>,
) -> bool {
    match (parsed, out) {
        (Ok(v), Ok(w)) => v == w,
        (Err(d), Err(e)) => e.line_text() == line && e.detail_text() == d@,
        _ => false,
    }
}

/// Settles what the decoder returned for `line`: a value passes through, a
/// failure becomes an error that carries the line.
pub fn settle<T>(line: &str, parsed: Result<T, String>) -> (r: Result<T, DecodeError>)
    ensures
        settled(line@, parsed, r),
{
    match parsed {
        Ok(v) => Ok(v),
        Err(d) => Err(DecodeError::new(line, d.as_str())),
    }
}

/// `out` is what `decode` made of `line`, settled: some result that the
/// decoder may return for the line comes to `out`.
pub open spec fn decoded_by<T, F: Fn(&String) -> Result<T, String>>(
    decode: F,
    line: String,
    out: Result<T, DecodeError>,
) -> bool {
    exists|parsed: Result<T, String>|
        call_ensures(decode, (&line,), parsed) && settled(line@, parsed, out)
}

/// Decodes every line with the decoder that the caller brings. The results
/// stand where their lines stood: a line that fails gives its error there and
/// stops nothing.
pub fn decode_with<T, F>(lines: &Vec<String>, decode: F) -> (out: Vec<Result<T, DecodeError>>)
    where F: Fn(&String) -> Result<T, String>
    requires
        forall|i: int| 0 <= i < lines@.len() ==> call_requires(decode, (&#[trigger] lines@[i],)),
    ensures
        out@.len() == lines@.len(),
        forall|i: int| 0 <= i < lines@.len() ==> decoded_by(decode, lines@[i], #[trigger] out@[i]),
{
    let mut out: Vec<Result<T, DecodeError>> = Vec::new();
    let mut i: usize = 0;
    while i < lines.len()
        invariant
            i <= lines@.len(),
            out@.len() == i,
            forall|k: int|
                0 <= k < lines@.len() ==> call_requires(decode, (&#[trigger] lines@[k],)),
            forall|k: int| 0 <= k < i ==> decoded_by(decode, lines@[k], #[trigger] out@[k]),
        decreases lines@.len() - i,
    {
        let line = &lines[i];
        let parsed = decode(line);
        let ghost given = parsed;
        let r = settle(line.as_str(), parsed);
        assert(decoded_by(decode, lines@[i as int], r)) by {
            assert(call_ensures(decode, (&lines@[i as int],), given));
            assert(settled(lines@[i as int]@, given, r));
        }
        out.push(r);
        i += 1;
    }
    out
}

/// Decodes one line as a JSON value.
pub fn decode_value(line: &str) -> (r: Result<serde_json::Value, DecodeError>)
    ensures
        r is Ok == is_json(line@),
        match r {
            Ok(_) => true,
            Err(e) => e.line_text() == line@,
        },
{
    match parse_value(line) {
        Ok(v) => Ok(v),
        Err(e) => {
            let detail = error_text(&e);
            Err(DecodeError::new(line, detail.as_str()))
        },
    }
}

/// `out` holds, place by place, what decoding each of `lines` gives: a value
/// where the line is JSON, and where not, an error that carries the line.
pub open spec fn decoded_from(
    out: Seq<Result<serde_json::Value, DecodeError>>,
    lines: Seq<Seq<char>>,
) -> bool {
    &&& out.len() == lines.len()
    &&& forall|i: int|
        0 <= i < lines.len() ==> (#[trigger] out[i] is Ok) == is_json(lines[i]) && (match out[i] {
            Ok(_) => true,
            Err(e) => e.line_text() == lines[i],
        })
}

/// Decodes every line as a JSON value. The results stand where their lines
/// stood: a line that fails gives its error there and stops nothing.
pub fn decode_values(lines: &Vec<String>) -> (out: Vec<Result<serde_json::Value, DecodeError>>)
    ensures
        decoded_from(out@, texts(lines@)),
{
    let mut out: Vec<Result<serde_json::Value, DecodeError>> = Vec::new();
    let mut i: usize = 0;
    while i < lines.len()
        invariant
            i <= lines@.len(),
            decoded_from(out@, texts(lines@).take(i as int)),
        decreases lines@.len() - i,
    {
        let r = decode_value(lines[i].as_str());
        out.push(r);
        i += 1;
    }
    assert(texts(lines@).take(i as int) =~= texts(lines@));
    out
}

/// Decoding the lines of a reader into JSON values.
pub trait JsonlValueDeserialize: Sized {
    /// The reader is fit to be read.
    spec fn ready(&self) -> bool;

    /// The lines that the reader has still to yield, next line first.
    spec fn lines_to_come(&self) -> Seq<Seq<char>>;

    /// Decodes the lines still to come, each as a JSON value. A line that
    /// fails gives its error in its place and stops nothing.
    fn deserialize_values(self) -> (out: Vec<Result<serde_json::Value, DecodeError>>)
        requires
            self.ready(),
        ensures
            decoded_from(out@, self.lines_to_come()),
    ;
}

impl<'a> JsonlValueDeserialize for Jsonl<&'a [u8]> {
    open spec fn ready(&self) -> bool {
        self.wf()
    }

    open spec fn lines_to_come(&self) -> Seq<Seq<char>> {
        self.remaining()
    }

    fn deserialize_values(self) -> (out: Vec<Result<serde_json::Value, DecodeError>>) {
        let mut reader = self;
        let lines = reader.read_to_end();
        decode_values(&lines)
    }
}

impl<'a> JsonlValueDeserialize for TakeNLines<&'a [u8]> {
    open spec fn ready(&self) -> bool {
        self.wf()
    }

    open spec fn lines_to_come(&self) -> Seq<Seq<char>> {
        self.remaining()
    }

    fn deserialize_values(self) -> (out: Vec<Result<serde_json::Value, DecodeError>>) {
        let mut window = self;
        let lines = window.read_to_end();
        decode_values(&lines)
    }
}

impl JsonlValueDeserialize for TakeNLinesReverse {
    open spec fn ready(&self) -> bool {
        self.wf()
    }

    open spec fn lines_to_come(&self) -> Seq<Seq<char>> {
        self.remaining()
    }

    fn deserialize_values(self) -> (out: Vec<Result<serde_json::Value, DecodeError>>) {
        let lines = self.into_vec();
        decode_values(&lines)
    }
}

} // verus!
