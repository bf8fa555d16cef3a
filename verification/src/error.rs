//! The error type of the parser, with the line and column of each error.
use vstd::prelude::*;
use vstd::string::*;
use vstd::utf8::*;
use crate::lexer::Lexer;
use crate::text::{byte_offset, lemma_boundary_is_offset, lemma_encode_split, lemma_offset_end};

verus! {

broadcast use vstd::string::group_string_axioms, vstd::utf8::group_utf8_lib;

/// 1-indexed (line, column) of the position just after the characters `s`:
/// the line is one more than the number of newlines in `s`, the column one
/// more than the number of characters after the last newline.
pub open spec fn line_col(s: Seq<char>) -> (int, int)
    decreases s.len(),
{
    if s.len() == 0 {
        (1, 1)
    } else {
        let (l, c) = line_col(s.drop_last());
        if s.last() == '\n' {
            (l + 1, 1)
        } else {
            (l, c + 1)
        }
    }
}

/// The characters of `src` that come before byte `pos` (all of them when
/// `pos` is past the end).
pub open spec fn chars_before(src: &str, pos: int) -> Seq<char> {
    let bytes = src.spec_bytes();
    let p = if pos < bytes.len() {
        pos
    } else {
        bytes.len() as int
    };
    decode_utf8(bytes.subrange(0, p))
}

/// The decimal digit character for `d` (which is below 10).
pub open spec fn digit_char(d: int) -> char {
    (48 + d) as char
}

/// Decimal representation of `n`, without leading zeros.
pub open spec fn decimal(n: nat) -> Seq<char>
    decreases n,
{
    if n < 10 {
        seq![digit_char(n as int)]
    } else {
        decimal(n / 10).push(digit_char((n % 10) as int))
    }
}

/// Line and column by counting: the line is one more than the number of
/// newlines before the position, and the column is the distance from the
/// last newline before it (`pos - doc.rfind("\n", 0, pos)`, where a missing
/// newline counts as index -1).
pub proof fn law_line_col_by_newlines(s: Seq<char>)
    ensures
        line_col(s).0 == 1 + s.filter(|ch: char| ch == '\n').len(),
        (forall|i: int| 0 <= i < s.len() ==> s[i] != '\n') ==> line_col(s).1 == s.len() + 1,
        forall|i: int|
            0 <= i < s.len() && s[i] == '\n' && (forall|k: int| i < k < s.len() ==> s[k] != '\n')
                ==> line_col(s).1 == s.len() - i,
    decreases s.len(),
{
    reveal_with_fuel(Seq::filter, 1);
    if s.len() > 0 {
        let p = s.drop_last();
        law_line_col_by_newlines(p);
        assert forall|i: int|
            0 <= i < s.len() && s[i] == '\n' && (forall|k: int| i < k < s.len() ==> s[k] != '\n')
                implies line_col(s).1 == s.len() - i by {
            if i < s.len() - 1 {
                assert(s[s.len() - 1] != '\n');
                assert(p[i] == '\n');
                assert forall|k: int| i < k < p.len() implies p[k] != '\n' by {
                    assert(p[k] == s[k]);
                }
            }
        }
        if forall|i: int| 0 <= i < s.len() ==> s[i] != '\n' {
            assert(s.last() != '\n');
            assert forall|i: int| 0 <= i < p.len() implies p[i] != '\n' by {
                assert(p[i] == s[i]);
            }
        }
    } else {
        assert(s.filter(|ch: char| ch == '\n') =~= Seq::<char>::empty());
    }
}

/// A line and a column are at least 1, and at most one more than the
/// number of characters before the position.
pub proof fn lemma_line_col_bounds(s: Seq<char>)
    ensures
        1 <= line_col(s).0 <= s.len() + 1,
        1 <= line_col(s).1 <= s.len() + 1,
    decreases s.len(),
{
    if s.len() > 0 {
        lemma_line_col_bounds(s.drop_last());
    }
}

/// An error that occurred while parsing a TOML document: a message, and where
/// it was found (a byte position, with its 1-indexed line and column).
#[derive(Debug, PartialEq, Clone)]
pub struct TomlError {
    message: String,
    pos: Option<usize>,
    line: Option<usize>,
    col: Option<usize>,
}

impl TomlError {
    /// The error message.
    pub closed spec fn spec_message(&self) -> Seq<char> {
        self.message@
    }

    /// The byte position of the error, if it has one.
    pub closed spec fn spec_pos(&self) -> Option<usize> {
        self.pos
    }

    /// The 1-indexed line of the error, if it has one.
    pub closed spec fn spec_line(&self) -> Option<usize> {
        self.line
    }

    /// The 1-indexed column of the error, if it has one.
    pub closed spec fn spec_col(&self) -> Option<usize> {
        self.col
    }

    /// The text that the error displays.
    pub open spec fn display(&self) -> Seq<char> {
        match (self.spec_line(), self.spec_col()) {
            (Some(line), Some(col)) => self.spec_message() + " (at line "@ + decimal(line as nat)
                + ", column "@ + decimal(col as nat) + ")"@,
            _ => match self.spec_pos() {
                Some(pos) => self.spec_message() + " (at byte offset "@ + decimal(pos as nat)
                    + ")"@,
                None => self.spec_message(),
            },
        }
    }

    /// Creates a generic error without specific positional information.
    pub fn new(message: &str) -> (e: Self)
        ensures
            e.spec_message() == message@,
            e.spec_pos() is None,
            e.spec_line() is None,
            e.spec_col() is None,
    {
        Self { message: message.to_string(), pos: None, line: None, col: None }
    }

    /// Creates an error at a specific byte position, with the line and column
    /// of that position.
    pub fn at_pos(message: &str, pos: usize, src: &str) -> (e: Self)
        requires
            is_char_boundary(
                src.spec_bytes(),
                if pos < src.spec_bytes().len() {
                    pos as int
                } else {
                    src.spec_bytes().len() as int
                },
            ),
            src.spec_bytes().len() < usize::MAX,
        ensures
            e.spec_message() == message@,
            e.spec_pos() == Some(pos),
            e.spec_line() == Some(line_col(chars_before(src, pos as int)).0 as usize),
            e.spec_col() == Some(line_col(chars_before(src, pos as int)).1 as usize),
            line_col(chars_before(src, pos as int)).0 <= usize::MAX,
            line_col(chars_before(src, pos as int)).1 <= usize::MAX,
    {
        let (line, col) = Self::calculate_line_col(src, pos);
        Self { message: message.to_string(), pos: Some(pos), line: Some(line), col: Some(col) }
    }

    /// Calculates 1-indexed line and column numbers.
    fn calculate_line_col(src: &str, pos: usize) -> (lc: (usize, usize))
        requires
            is_char_boundary(
                src.spec_bytes(),
                if pos < src.spec_bytes().len() {
                    pos as int
                } else {
                    src.spec_bytes().len() as int
                },
            ),
            src.spec_bytes().len() < usize::MAX,
        ensures
            lc.0 == line_col(chars_before(src, pos as int)).0,
            lc.1 == line_col(chars_before(src, pos as int)).1,
    {
        let len = src.len();
        let safe_pos = if pos < len {
            pos
        } else {
            len
        };
        let (prefix, _) = src.split_at(safe_pos);
        proof {
            assert(decode_utf8(encode_utf8(prefix@)) == prefix@);
            assert(prefix@ == chars_before(src, pos as int));
            assert(prefix@.take(0) =~= Seq::<char>::empty());
        }
        let mut lexer = Lexer::new(prefix);
        let mut line: usize = 1;
        let mut col: usize = 1;
        proof {
            lexer.lemma_wf();
        }
        loop
            invariant
                lexer.wf(),
                lexer.spec_src() == prefix,
                prefix@.len() < usize::MAX,
                0 <= lexer.index() <= prefix@.len(),
                line as int == line_col(prefix@.take(lexer.index())).0,
                col as int == line_col(prefix@.take(lexer.index())).1,
                line <= lexer.index() + 1,
                col <= lexer.index() + 1,
            ensures
                line as int == line_col(prefix@).0,
                col as int == line_col(prefix@).1,
            decreases prefix@.len() - lexer.index(),
        {
            let ghost k = lexer.index();
            match lexer.next_char() {
                Some(c) => {
                    proof {
                        assert(prefix@.take(k + 1).drop_last() =~= prefix@.take(k));
                        assert(prefix@.take(k + 1).last() == c);
                    }
                    if c == '\n' {
                        line = line + 1;
                        col = 1;
                    } else {
                        col = col + 1;
                    }
                },
                None => {
                    proof {
                        assert(prefix@.take(k) =~= prefix@);
                    }
                    break ;
                },
            }
        }
        (line, col)
    }

    pub fn message(&self) -> (m: &str)
        ensures
            m@ == self.spec_message(),
    {
        self.message.as_str()
    }

    /// Formats the error as its message followed by where it occurred.
    pub fn to_string(&self) -> (s: String)
        ensures
            s@ == self.display(),
    {
        let mut s = self.message.clone();
        match (self.line, self.col) {
            (Some(line), Some(col)) => {
                s.append(" (at line ");
                let l = decimal_string(line);
                s.append(l.as_str());
                s.append(", column ");
                let c = decimal_string(col);
                s.append(c.as_str());
                s.append(")");
            },
            _ => {
                if let Some(pos) = self.pos {
                    s.append(" (at byte offset ");
                    let p = decimal_string(pos);
                    s.append(p.as_str());
                    s.append(")");
                }
            },
        }
        s
    }
}

/// The decimal representation of `n`.
pub fn decimal_string(n: usize) -> (s: String)
    ensures
        s@ == decimal(n as nat),
    decreases n,
{
    if n < 10 {
        String::from_str(digit_str(n))
    } else {
        let mut s = decimal_string(n / 10);
        s.append(digit_str(n % 10));
        s
    }
}

/// The one-character string of the decimal digit `d`.
fn digit_str(d: usize) -> (s: &'static str)
    requires
        d < 10,
    ensures
        s@ == seq![digit_char(d as int)],
{
    proof {
        reveal_strlit("0");
        reveal_strlit("1");
        reveal_strlit("2");
        reveal_strlit("3");
        reveal_strlit("4");
        reveal_strlit("5");
        reveal_strlit("6");
        reveal_strlit("7");
        reveal_strlit("8");
        reveal_strlit("9");
    }
    if d == 0 {
        "0"
    } else if d == 1 {
        "1"
    } else if d == 2 {
        "2"
    } else if d == 3 {
        "3"
    } else if d == 4 {
        "4"
    } else if d == 5 {
        "5"
    } else if d == 6 {
        "6"
    } else if d == 7 {
        "7"
    } else if d == 8 {
        "8"
    } else {
        "9"
    }
}

} // verus!
