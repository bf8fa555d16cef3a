//! A TOML parser whose lexer, tokenizer, statement parser, error positions,
//! tables and datetime parser carry verified contracts.
pub mod datetime;
pub mod error;
pub mod lexer;
pub mod parser;
pub mod playground;
pub mod text;
pub mod tokenizer;
pub mod value;

pub use datetime::{Date, Datetime, Offset, Time};
pub use error::TomlError;
pub use value::{Table, Value};

use vstd::prelude::*;
use vstd::string::*;
use vstd::utf8::*;
use crate::error::{decimal, lemma_line_col_bounds, line_col};
use crate::parser::{
    doc_result, error_at, holds_table, lemma_doc_error_bounds, lemma_holds_unique, DocState, Tree,
};

verus! {

broadcast use vstd::string::group_string_axioms, vstd::utf8::group_utf8_lib;

/// The state in which a document is read: nothing built, nothing declared,
/// no header.
pub open spec fn start_state() -> DocState {
    DocState {
        root: Map::<Seq<char>, Tree>::empty(),
        declared: Set::<Seq<Seq<char>>>::empty(),
        pending: Set::<Seq<Seq<char>>>::empty(),
        header: Seq::<Seq<char>>::empty(),
    }
}

/// What parsing the characters `c` gives: on success the table that the tree
/// `doc_result` builds describes, on failure the first error, at its position.
pub open spec fn parse_outcome(c: Seq<char>, res: Result<Table, TomlError>) -> bool {
    match doc_result(c, 0, start_state()) {
        Ok(m) => res matches Ok(t) && holds_table(t, m),
        Err((msg, j)) => res matches Err(e) && error_at(e, c, msg, j),
    }
}

/// Parses a TOML document from a string.
///
/// # Errors
/// Returns a `TomlError` if the string contains invalid TOML syntax.
pub fn parse(src: &str) -> (res: Result<Table, TomlError>)
    requires
        src.spec_bytes().len() < usize::MAX,
    ensures
        parse_outcome(src@, res),
{
    let parser = parser::Parser::new(src);
    proof {
        assert(parser.doc_state(Seq::empty()) == start_state());
    }
    parser.parse()
}

/// Parses a TOML document from a byte slice.
/// The bytes must be valid UTF-8; they are then parsed as text.
///
/// # Errors
/// Returns a `TomlError` if the bytes are not valid UTF-8 or contain invalid TOML syntax.
pub fn parse_bytes(src: &[u8]) -> (res: Result<Table, TomlError>)
    requires
        src@.len() < usize::MAX,
    ensures
        valid_utf8(src@) ==> parse_outcome(decode_utf8(src@), res),
        !valid_utf8(src@) ==> (res matches Err(e) && e.spec_message()
            == "Input must be valid UTF-8"@ && e.spec_pos() is None && e.spec_line() is None
            && e.spec_col() is None),
{
    let s = match str_from_utf8(src) {
        Some(s) => s,
        None => {
            return Err(TomlError::new("Input must be valid UTF-8"));
        },
    };
    proof {
        assert(decode_utf8(encode_utf8(s@)) == s@);
    }
    parse(s)
}

/// Every error that parsing reports names its line and column: its text is
/// the message followed by ` (at line L, column C)`, where `L` and `C`, both at
/// least 1, are the line and column of the character where the error was found.
pub proof fn law_parse_error_names_line(c: Seq<char>, res: Result<Table, TomlError>)
    requires
        c.len() < usize::MAX,
        parse_outcome(c, res),
        res is Err,
    ensures
        ({
            let e = res->Err_0;
            let j = doc_result(c, 0, start_state())->Err_0.1;
            let (l, col) = line_col(c.take(j));
            &&& 0 <= j <= c.len()
            &&& 1 <= l && 1 <= col
            &&& e.spec_line() == Some(l as usize)
            &&& e.spec_col() == Some(col as usize)
            &&& e.display() == e.spec_message() + " (at line "@ + decimal(l as nat) + ", column "@
                + decimal(col as nat) + ")"@
        }),
{
    lemma_doc_error_bounds(c, 0, start_state());
    let j = doc_result(c, 0, start_state())->Err_0.1;
    lemma_line_col_bounds(c.take(j));
}

/// Two results describe the same document: both are tables that the same
/// trees describe, or both are errors with the same message, position, line
/// and column.
pub open spec fn same_outcome(r1: Result<Table, TomlError>, r2: Result<Table, TomlError>) -> bool {
    match (r1, r2) {
        (Ok(t1), Ok(t2)) => forall|m: Map<Seq<char>, Tree>| holds_table(t1, m) <==> holds_table(
            t2,
            m,
        ),
        (Err(e1), Err(e2)) => {
            &&& e1.spec_message() == e2.spec_message()
            &&& e1.spec_pos() == e2.spec_pos()
            &&& e1.spec_line() == e2.spec_line()
            &&& e1.spec_col() == e2.spec_col()
        },
        _ => false,
    }
}

/// Parsing the bytes of a document that are valid UTF-8 gives what parsing
/// the text they encode gives.
pub proof fn law_parse_bytes_agrees_with_parse(
    b: Seq<u8>,
    from_bytes: Result<Table, TomlError>,
    from_text: Result<Table, TomlError>,
)
    requires
        valid_utf8(b),
        parse_outcome(decode_utf8(b), from_bytes),
        parse_outcome(decode_utf8(b), from_text),
    ensures
        same_outcome(from_bytes, from_text),
{
    let c = decode_utf8(b);
    if let Ok(m0) = doc_result(c, 0, start_state()) {
        let t1 = from_bytes->Ok_0;
        let t2 = from_text->Ok_0;
        assert forall|m: Map<Seq<char>, Tree>| holds_table(t1, m) <==> holds_table(t2, m) by {
            if holds_table(t1, m) {
                lemma_holds_unique(Value::Table(t1), Tree::Tab(m), Tree::Tab(m0));
            }
            if holds_table(t2, m) {
                lemma_holds_unique(Value::Table(t2), Tree::Tab(m), Tree::Tab(m0));
            }
        }
    }
}

/// Parsing the bytes of a string promises what parsing the string promises:
/// the bytes of every `str` are valid UTF-8 and decode to its characters.
pub proof fn law_bytes_agree_with_str(s: &str)
    ensures
        valid_utf8(s.spec_bytes()),
        decode_utf8(s.spec_bytes()) == s@,
{
}

/// Calls `std::str::from_utf8`, which accepts exactly the byte strings that
/// are valid UTF-8 and then views them as a `str` without copying; the error
/// that it gives otherwise is dropped.
#[verifier::external_body]
fn str_from_utf8(v: &[u8]) -> (s: Option<&str>)
    ensures
        s is Some <==> valid_utf8(v@),
        s matches Some(t) ==> t.spec_bytes() == v@,
{
    std::str::from_utf8(v).ok()
}

} // verus!
