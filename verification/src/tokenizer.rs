//! Reads the basic TOML tokens (keys, strings, punctuation) from a lexer.
use vstd::prelude::*;
use crate::lexer::Lexer;
use crate::text::{
    basic_stop, blank_len, byte_offset, ends_literal, is_bare_key_char, is_forbidden_control, key_len, lemma_basic_stop,
    lemma_offset_strict, lemma_span_bound, literal_stop,
};

verus! {

#[derive(Debug, PartialEq)]
pub enum Token<'a> {
    Equals,
    LBracket,
    RBracket,
    DoubleLBracket,
    DoubleRBracket,
    LBrace,
    RBrace,
    Comma,
    Dot,
    BareKey(&'a str),
    BasicString(&'a str),
    LiteralString(&'a str),
}

pub struct Tokenizer<'a> {
    lexer: Lexer<'a>,
}

/// The characters after an opening quote: everything but the first character.
pub open spec fn after_open(s: Seq<char>) -> Seq<char> {
    if s.len() > 0 {
        s.drop_first()
    } else {
        s
    }
}

/// Number of characters an opening quote takes (none at the end of input).
pub open spec fn open_len(s: Seq<char>) -> int {
    if s.len() > 0 {
        1
    } else {
        0
    }
}

/// Whether `c` is a control character that a one-line string may not hold.
pub fn is_control(c: char) -> (b: bool)
    ensures
        b == is_forbidden_control(c),
{
    ((c as u32) < 0x20 && c != '\t') || (c as u32) == 0x7f
}

/// Whether `c` may appear in a bare key: `[A-Za-z0-9_-]`.
pub fn is_key_char(c: char) -> (b: bool)
    ensures
        b == is_bare_key_char(c),
{
    (c >= 'a' && c <= 'z') || (c >= 'A' && c <= 'Z') || (c >= '0' && c <= '9') || c == '-' || c
        == '_'
}

impl<'a> Tokenizer<'a> {
    /// The lexer that the tokenizer reads from.
    pub closed spec fn spec_lexer(&self) -> Lexer<'a> {
        self.lexer
    }

    pub open spec fn wf(&self) -> bool {
        self.spec_lexer().wf()
    }

    /// The characters not yet read.
    pub open spec fn rest(&self) -> Seq<char> {
        self.spec_lexer().rest()
    }

    /// The number of characters already read.
    pub open spec fn index(&self) -> int {
        self.spec_lexer().index()
    }

    /// Both tokenizers read the same source.
    pub open spec fn same_src(&self, other: &Self) -> bool {
        self.spec_lexer().same_src(&other.spec_lexer())
    }

    pub fn new(lexer: Lexer<'a>) -> (t: Self)
        ensures
            t.spec_lexer() == lexer,
    {
        Self { lexer }
    }

    pub fn lexer_mut(&mut self) -> (l: &mut Lexer<'a>)
        ensures
            *l == old(self).spec_lexer(),
            final(self).spec_lexer() == *final(l),
    {
        &mut self.lexer
    }

    /// Peeks the next punctuation character.
    pub fn peek_punct(&mut self) -> (c: Option<char>)
        requires
            old(self).wf(),
        ensures
            final(self).wf(),
            final(self).same_src(old(self)),
            final(self).index() == old(self).index() + blank_len(old(self).rest()),
            c == final(self).spec_lexer().peek_spec(),
    {
        self.lexer.skip_ws();
        self.lexer.peek()
    }

    /// Parses a bare key part according to BARE_KEY_CHARS: [A-Za-z0-9_-]
    pub fn parse_bare_key(&mut self) -> (t: Option<Token<'a>>)
        requires
            old(self).wf(),
        ensures
            final(self).wf(),
            final(self).same_src(old(self)),
            final(self).index() == old(self).index() + key_len(old(self).rest()),
            key_len(old(self).rest()) == 0 ==> t is None,
            key_len(old(self).rest()) > 0 ==> (t matches Some(Token::BareKey(k)) && k@ == old(
                self,
            ).rest().take(key_len(old(self).rest()) as int)),
    {
        let start = self.lexer.pos();
        let ghost r0 = self.rest();
        let ghost i0 = self.index();
        let ghost src0 = self.spec_lexer().spec_src();
        loop
            invariant
                self.wf(),
                self.spec_lexer().spec_src() == src0,
                i0 <= self.index(),
                r0 == self.spec_lexer().chars().skip(i0),
                key_len(r0) == (self.index() - i0) + key_len(self.rest()),
            ensures
                self.wf(),
                self.spec_lexer().spec_src() == src0,
                key_len(r0) == self.index() - i0,
            decreases self.spec_lexer().chars().len() - self.index(),
        {
            match self.lexer.peek() {
                Some(c) => {
                    if is_key_char(c) {
                        self.lexer.next_char();
                        proof {
                            assert(self.rest() =~= self.spec_lexer().chars().skip(
                                self.index() - 1,
                            ).drop_first());
                        }
                    } else {
                        break ;
                    }
                },
                None => break ,
            }
        }
        let pos = self.lexer.pos();
        let ghost chars = self.spec_lexer().chars();
        proof {
            assert(byte_offset(chars, i0) == start);
            if i0 < self.index() {
                lemma_offset_strict(chars, i0, self.index());
            }
        }
        if pos > start {
            let k = self.lexer.slice_from(start);
            proof {
                assert(chars.subrange(i0, self.index()) =~= r0.take(key_len(r0) as int));
            }
            Some(Token::BareKey(k))
        } else {
            None
        }
    }

    /// Consumes an expected token or returns false.
    pub fn consume_char(&mut self, expected: char) -> (b: bool)
        requires
            old(self).wf(),
        ensures
            final(self).wf(),
            final(self).same_src(old(self)),
            b == (old(self).spec_lexer().peek_spec() == Some(expected)),
            final(self).index() == old(self).index() + (if b {
                1int
            } else {
                0int
            }),
    {
        if self.lexer.peek() == Some(expected) {
            self.lexer.next_char();
            true
        } else {
            false
        }
    }

    /// Parses a literal string (single quotes).
    pub fn parse_literal_string(&mut self) -> (res: Result<Token<'a>, &'static str>)
        requires
            old(self).wf(),
        ensures
            final(self).wf(),
            final(self).same_src(old(self)),
            ({
                let body = after_open(old(self).rest());
                let i1 = old(self).index() + open_len(old(self).rest());
                let m = literal_stop(body) as int;
                if m == body.len() {
                    &&& res matches Err(e) && e@ == "Unterminated literal string"@
                    &&& final(self).index() == i1 + m
                } else if body[m] == '\'' {
                    &&& res matches Ok(Token::LiteralString(s)) && s@ == body.take(m)
                    &&& final(self).index() == i1 + m + 1
                } else {
                    &&& res matches Err(e) && e@ == "Invalid character in literal string"@
                    &&& final(self).index() == i1 + m
                }
            }),
    {
        self.lexer.next_char();  // skip '
        proof {
            assert(self.rest() =~= after_open(old(self).rest()));
        }
        let start = self.lexer.pos();
        let ghost body = self.rest();
        let ghost i1 = self.index();
        let ghost src0 = self.spec_lexer().spec_src();
        proof {
            lemma_span_bound(body, |c: char| !ends_literal(c));
        }
        loop
            invariant
                self.wf(),
                self.spec_lexer().spec_src() == src0,
                src0 == old(self).spec_lexer().spec_src(),
                body == after_open(old(self).rest()),
                i1 == old(self).index() + open_len(old(self).rest()),
                0 <= i1 <= self.index(),
                body == self.spec_lexer().chars().skip(i1),
                byte_offset(self.spec_lexer().chars(), i1) == start,
                literal_stop(body) == (self.index() - i1) + literal_stop(self.rest()),
                literal_stop(body) <= body.len(),
                literal_stop(body) < body.len() ==> ends_literal(
                    body[literal_stop(body) as int],
                ),
            decreases self.spec_lexer().chars().len() - self.index(),
        {
            match self.lexer.peek() {
                Some(c) => {
                    if c == '\'' {
                        let s = self.lexer.slice_from(start);
                        proof {
                            assert(self.spec_lexer().chars().subrange(i1, self.index())
                                =~= body.take(literal_stop(body) as int));
                        }
                        self.lexer.next_char();  // skip closing '
                        return Ok(Token::LiteralString(s));
                    }
                    if is_control(c) {
                        // Control characters (newlines among them) may not appear in the string
                        return Err("Invalid character in literal string");
                    }
                    self.lexer.next_char();
                    proof {
                        assert(self.rest() =~= self.spec_lexer().chars().skip(
                            self.index() - 1,
                        ).drop_first());
                    }
                },
                None => {
                    return Err("Unterminated literal string");
                },
            }
        }
    }

    /// Parses a basic string (double quotes).
    /// Note: Full unescaping is usually handled during AST generation,
    /// but the tokenizer groups the span.
    pub fn parse_basic_string(&mut self) -> (res: Result<Token<'a>, &'static str>)
        requires
            old(self).wf(),
        ensures
            final(self).wf(),
            final(self).same_src(old(self)),
            ({
                let body = after_open(old(self).rest());
                let i1 = old(self).index() + open_len(old(self).rest());
                let m = basic_stop(body) as int;
                if m == body.len() {
                    &&& res matches Err(e) && e@ == "Unterminated basic string"@
                    &&& final(self).index() == i1 + m
                } else if body[m] == '"' {
                    &&& res matches Ok(Token::BasicString(s)) && s@ == body.take(m)
                    &&& final(self).index() == i1 + m + 1
                } else {
                    &&& res matches Err(e) && e@ == "Invalid character in basic string"@
                    &&& final(self).index() == i1 + m
                }
            }),
    {
        self.lexer.next_char();  // skip "
        proof {
            assert(self.rest() =~= after_open(old(self).rest()));
        }
        let start = self.lexer.pos();
        let mut escaped = false;
        let ghost body = self.rest();
        let ghost i1 = self.index();
        let ghost src0 = self.spec_lexer().spec_src();
        proof {
            lemma_basic_stop(body);
        }
        loop
            invariant
                self.wf(),
                self.spec_lexer().spec_src() == src0,
                src0 == old(self).spec_lexer().spec_src(),
                body == after_open(old(self).rest()),
                i1 == old(self).index() + open_len(old(self).rest()),
                0 <= i1 <= self.index(),
                body == self.spec_lexer().chars().skip(i1),
                byte_offset(self.spec_lexer().chars(), i1) == start,
                basic_stop(body) <= body.len(),
                basic_stop(body) < body.len() ==> (body[basic_stop(body) as int] == '"'
                    || is_forbidden_control(body[basic_stop(body) as int])),
                !escaped ==> basic_stop(body) == (self.index() - i1) + basic_stop(self.rest()),
                escaped ==> self.index() > i1 && (if self.rest().len() == 0 {
                    basic_stop(body) == self.index() - i1
                } else {
                    basic_stop(body) == (self.index() - i1) + 1 + basic_stop(
                        self.rest().drop_first(),
                    )
                }),
            decreases self.spec_lexer().chars().len() - self.index(),
        {
            match self.lexer.peek() {
                Some(c) => {
                    if escaped {
                        escaped = false;
                        self.lexer.next_char();
                        proof {
                            assert(self.rest() =~= self.spec_lexer().chars().skip(
                                self.index() - 1,
                            ).drop_first());
                        }
                        continue ;
                    }
                    if c == '\\' {
                        escaped = true;
                        self.lexer.next_char();
                        proof {
                            let prev = self.spec_lexer().chars().skip(self.index() - 1);
                            assert(self.rest() =~= prev.drop_first());
                            if self.rest().len() > 0 {
                                assert(prev.skip(2) =~= self.rest().drop_first());
                            }
                        }
                        continue ;
                    }
                    if c == '"' {
                        let s = self.lexer.slice_from(start);
                        proof {
                            assert(self.spec_lexer().chars().subrange(i1, self.index())
                                =~= body.take(basic_stop(body) as int));
                        }
                        self.lexer.next_char();  // skip closing "
                        return Ok(Token::BasicString(s));
                    }
                    if is_control(c) {
                        return Err("Invalid character in basic string");
                    }
                    self.lexer.next_char();
                    proof {
                        assert(self.rest() =~= self.spec_lexer().chars().skip(
                            self.index() - 1,
                        ).drop_first());
                    }
                },
                None => {
                    return Err("Unterminated basic string");
                },
            }
        }
    }
}

} // verus!
