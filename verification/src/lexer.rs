//! A cursor over the characters of a TOML document.
//!
//! The cursor keeps a byte position into the source, and (in ghost state) the
//! number of characters before that position, so that every method can be
//! specified over the source's characters while the positions it reports stay
//! byte offsets.
use vstd::prelude::*;
use vstd::string::*;
use vstd::utf8::*;
use crate::text::{
    blank_len, byte_offset, is_blank, lemma_span_bound, comment_len, lemma_ascii_run, lemma_boundary_is_offset,
    lemma_encode_prefix, lemma_encode_split, lemma_line_len_bound, lemma_offset_end,
    lemma_offset_injective, lemma_offset_is_boundary, lemma_offset_mono, lemma_offset_step,
    lemma_offset_strict, lemma_scalar_width, line_len, trivia_len, ws_nl_len,
};

verus! {

broadcast use vstd::string::group_string_axioms, vstd::utf8::group_utf8_lib;

pub struct Lexer<'a> {
    src: &'a str,
    pos: usize,
    consumed: Ghost<int>,
}

impl<'a> Lexer<'a> {
    /// The source string.
    pub closed spec fn spec_src(&self) -> &'a str {
        self.src
    }

    /// The current byte position.
    pub closed spec fn spec_pos(&self) -> usize {
        self.pos
    }

    /// The number of characters before the current position.
    pub closed spec fn index(&self) -> int {
        self.consumed@
    }

    /// The characters of the source.
    pub open spec fn chars(&self) -> Seq<char> {
        self.spec_src()@
    }

    /// The UTF-8 bytes of the source.
    pub open spec fn bytes(&self) -> Seq<u8> {
        self.spec_src().spec_bytes()
    }

    /// The characters from the current position to the end.
    pub open spec fn rest(&self) -> Seq<char> {
        self.chars().skip(self.index())
    }

    /// The position is the byte offset of a character boundary of the source.
    pub open spec fn wf(&self) -> bool {
        &&& 0 <= self.index() <= self.chars().len()
        &&& self.spec_pos() == byte_offset(self.chars(), self.index())
        &&& self.bytes().len() <= usize::MAX
    }

    /// The character at the current position, if any.
    pub open spec fn peek_spec(&self) -> Option<char> {
        if self.rest().len() > 0 {
            Some(self.rest()[0])
        } else {
            None
        }
    }

    /// A byte position `p` that ends some prefix of characters at or after the cursor.
    pub open spec fn reaches(&self, p: int) -> bool {
        exists|j: int|
            self.index() <= j <= self.chars().len() && #[trigger] byte_offset(self.chars(), j) == p
    }

    /// A byte position `p` that ends some prefix of characters at or before the cursor.
    pub open spec fn passed(&self, p: int) -> bool {
        exists|j: int| 0 <= j <= self.index() && #[trigger] byte_offset(self.chars(), j) == p
    }

    /// Both cursors move over the same source.
    pub open spec fn same_src(&self, other: &Self) -> bool {
        self.spec_src() == other.spec_src()
    }

    /// Facts that follow from well-formedness.
    pub proof fn lemma_wf(&self)
        requires
            self.wf(),
        ensures
            self.bytes() == encode_utf8(self.chars()),
            self.bytes().subrange(self.spec_pos() as int, self.bytes().len() as int) == encode_utf8(
                self.rest(),
            ),
            self.spec_pos() <= self.bytes().len(),
            self.spec_pos() == self.bytes().len() <==> self.rest().len() == 0,
            is_char_boundary(self.bytes(), self.spec_pos() as int),
            self.chars().len() <= self.bytes().len(),
    {
        lemma_encode_split(self.chars(), self.index());
        lemma_offset_end(self.chars(), self.index());
        lemma_offset_is_boundary(self.chars(), self.index());
    }

    /// Creates a new lexer from a TOML string.
    pub fn new(src: &'a str) -> (l: Self)
        ensures
            l.wf(),
            l.spec_src() == src,
            l.index() == 0,
            l.spec_pos() == 0,
    {
        let n = src.as_bytes().len();
        proof {
            assert(n == src.spec_bytes().len());
            assert(src@.take(0) =~= Seq::<char>::empty());
        }
        Self { src, pos: 0, consumed: Ghost(0) }
    }

    /// Returns the source string.
    #[verifier::when_used_as_spec(spec_src)]
    pub fn src(&self) -> (s: &'a str)
        ensures
            s == self.spec_src(),
    {
        self.src
    }

    /// Returns the current byte position.
    #[verifier::when_used_as_spec(spec_pos)]
    pub fn pos(&self) -> (p: usize)
        ensures
            p == self.spec_pos(),
    {
        self.pos
    }

    /// Returns true if the lexer has reached the end of the input.
    pub fn is_eof(&self) -> (b: bool)
        requires
            self.wf(),
        ensures
            b == (self.rest().len() == 0),
    {
        proof {
            self.lemma_wf();
        }
        self.pos >= self.src.len()
    }

    /// Peeks at the next character without consuming it.
    pub fn peek(&self) -> (c: Option<char>)
        requires
            self.wf(),
        ensures
            c == self.peek_spec(),
    {
        proof {
            self.lemma_wf();
        }
        let (_, tail) = self.src.split_at(self.pos);
        proof {
            assert(encode_utf8(tail@) == encode_utf8(self.rest()));
            assert(decode_utf8(encode_utf8(tail@)) == tail@);
            assert(decode_utf8(encode_utf8(self.rest())) == self.rest());
            assert(tail@ == self.rest());
        }
        let mut it = tail.chars();
        it.next()
    }

    /// Consumes and returns the next character.
    pub fn next_char(&mut self) -> (c: Option<char>)
        requires
            old(self).wf(),
        ensures
            final(self).wf(),
            final(self).same_src(old(self)),
            c == old(self).peek_spec(),
            c is Some ==> final(self).index() == old(self).index() + 1,
            c is Some ==> final(self).spec_pos() == old(self).spec_pos() + encode_scalar(
                c->0 as u32,
            ).len(),
            c is None ==> *final(self) == *old(self),
    {
        match self.peek() {
            Some(c) => {
                let w = char_width(c);
                proof {
                    lemma_offset_step(self.chars(), self.index());
                    lemma_offset_mono(self.chars(), self.index() + 1, self.chars().len() as int);
                    lemma_offset_end(self.chars(), self.index());
                }
                self.pos = self.pos + w;
                self.consumed = Ghost(self.consumed@ + 1);
                Some(c)
            },
            None => None,
        }
    }

    /// Peeks at the next `n` bytes as a string slice.
    pub fn peek_str(&self, n: usize) -> (s: Option<&'a str>)
        requires
            self.wf(),
            self.spec_pos() + n <= usize::MAX,
        ensures
            s is Some <==> self.spec_pos() + n <= self.bytes().len() && is_char_boundary(
                self.bytes(),
                self.spec_pos() + n,
            ),
            s matches Some(t) ==> t.spec_bytes() == self.bytes().subrange(
                self.spec_pos() as int,
                self.spec_pos() + n,
            ),
    {
        proof {
            self.lemma_wf();
        }
        let end = self.pos + n;
        if end <= self.src.len() && self.src.is_char_boundary(end) {
            let ghost chars = self.chars();
            proof {
                lemma_boundary_is_offset(chars, end as int);
            }
            let ghost j = choose|j: int|
                0 <= j <= chars.len() && #[trigger] byte_offset(chars, j) == end;
            proof {
                if j < self.index() {
                    lemma_offset_strict(chars, j, self.index());
                }
                lemma_encode_split(chars, j);
                assert(chars.take(j).take(self.index()) =~= chars.take(self.index()));
                lemma_offset_is_boundary(chars.take(j), self.index());
            }
            let (head, _) = self.src.split_at(end);
            let (_, mid) = head.split_at(self.pos);
            proof {
                assert(mid.spec_bytes() =~= self.bytes().subrange(self.spec_pos() as int, end as int));
            }
            Some(mid)
        } else {
            None
        }
    }

    /// Checks if the remaining source starts with a specific prefix.
    pub fn starts_with(&self, prefix: &str) -> (b: bool)
        requires
            self.wf(),
        ensures
            b == prefix@.is_prefix_of(self.rest()),
    {
        proof {
            self.lemma_wf();
            lemma_encode_prefix(prefix@, self.rest());
        }
        let bytes = self.src.as_bytes();
        let pre = prefix.as_bytes();
        let n = pre.len();
        let len = bytes.len();
        let ghost tail = self.bytes().subrange(self.spec_pos() as int, self.bytes().len() as int);
        proof {
            assert(pre@.is_prefix_of(tail) == prefix@.is_prefix_of(self.rest()));
        }
        if n > len - self.pos {
            proof {
                assert(tail.len() == len - self.spec_pos());
            }
            return false;
        }
        let mut i: usize = 0;
        while i < n
            invariant
                0 <= i <= n,
                n == pre@.len(),
                len == bytes@.len(),
                bytes@ == self.bytes(),
                pre@ == prefix.spec_bytes(),
                self.spec_pos() + n <= len,
                tail == bytes@.subrange(self.spec_pos() as int, len as int),
                forall|k: int| 0 <= k < i ==> pre@[k] == #[trigger] tail[k],
                pre@.is_prefix_of(tail) == prefix@.is_prefix_of(self.rest()),
            decreases n - i,
        {
            if bytes[self.pos + i] != pre[i] {
                proof {
                    assert(tail[i as int] == bytes@[self.spec_pos() + i]);
                    if pre@.is_prefix_of(tail) {
                        assert(tail.subrange(0, n as int)[i as int] == tail[i as int]);
                    }
                }
                return false;
            }
            i = i + 1;
        }
        proof {
            assert(pre@ =~= tail.subrange(0, n as int));
        }
        true
    }

    /// Advances the lexer by `n` bytes, to the end of a later character.
    pub fn advance(&mut self, n: usize)
        requires
            old(self).wf(),
            old(self).reaches(old(self).spec_pos() + n),
        ensures
            final(self).wf(),
            final(self).same_src(old(self)),
            final(self).spec_pos() == old(self).spec_pos() + n,
            forall|j: int|
                0 <= j <= old(self).chars().len() && #[trigger] byte_offset(old(self).chars(), j)
                    == old(self).spec_pos() + n ==> final(self).index() == j,
    {
        let ghost chars = self.chars();
        let ghost target = self.spec_pos() + n;
        let ghost j = choose|j: int|
            self.index() <= j <= chars.len() && #[trigger] byte_offset(chars, j) == target;
        proof {
            lemma_offset_mono(chars, j, chars.len() as int);
            lemma_offset_end(chars, j);
            self.lemma_wf();
        }
        self.pos = self.pos + n;
        self.consumed = Ghost(j);
        proof {
            assert forall|k: int|
                0 <= k <= chars.len() && #[trigger] byte_offset(chars, k) == target implies k
                == j by {
                lemma_offset_injective(chars, k, j);
            }
        }
    }

    /// Skips spaces and tabs (`\t`, ` `).
    pub fn skip_ws(&mut self)
        requires
            old(self).wf(),
        ensures
            final(self).wf(),
            final(self).same_src(old(self)),
            final(self).index() == old(self).index() + blank_len(old(self).rest()),
    {
        let ghost r0 = self.rest();
        let ghost i0 = self.index();
        let ghost src0 = self.spec_src();
        loop
            invariant
                self.wf(),
                self.spec_src() == src0,
                i0 <= self.index(),
                r0 == self.chars().skip(i0),
                blank_len(r0) == (self.index() - i0) + blank_len(self.rest()),
            ensures
                self.wf(),
                self.spec_src() == src0,
                blank_len(r0) == self.index() - i0,
            decreases self.chars().len() - self.index(),
        {
            match self.peek() {
                Some(c) => {
                    if c == ' ' || c == '\t' {
                        proof {
                            self.lemma_step_ascii();
                        }
                        self.advance(1);
                        proof {
                            assert(self.rest() =~= old_rest_drop(self.chars(), self.index()));
                        }
                    } else {
                        break ;
                    }
                },
                None => break ,
            }
        }
    }

    /// The position just after a one-byte character at the cursor is reachable.
    proof fn lemma_step_ascii(&self)
        requires
            self.wf(),
            self.rest().len() > 0,
            (self.rest()[0] as u32) < 0x80,
        ensures
            self.reaches(self.spec_pos() + 1),
            byte_offset(self.chars(), self.index() + 1) == self.spec_pos() + 1,
    {
        lemma_offset_step(self.chars(), self.index());
        lemma_scalar_width(self.rest()[0]);
        assert(byte_offset(self.chars(), self.index() + 1) == self.spec_pos() + 1);
    }

    /// Skips spaces, tabs, and newlines.
    pub fn skip_ws_and_newline(&mut self)
        requires
            old(self).wf(),
        ensures
            final(self).wf(),
            final(self).same_src(old(self)),
            final(self).index() == old(self).index() + ws_nl_len(old(self).rest()),
    {
        let ghost r0 = self.rest();
        let ghost i0 = self.index();
        let ghost src0 = self.spec_src();
        loop
            invariant
                self.wf(),
                self.spec_src() == src0,
                i0 <= self.index(),
                r0 == self.chars().skip(i0),
                ws_nl_len(r0) == (self.index() - i0) + ws_nl_len(self.rest()),
            ensures
                self.wf(),
                self.spec_src() == src0,
                ws_nl_len(r0) == self.index() - i0,
            decreases self.chars().len() - self.index(),
        {
            match self.peek() {
                Some(c) => {
                    if c == ' ' || c == '\t' || c == '\n' {
                        proof {
                            self.lemma_step_ascii();
                        }
                        self.advance(1);
                        proof {
                            assert(self.rest() =~= old_rest_drop(self.chars(), self.index()));
                        }
                    } else if c == '\r' && self.starts_with("\r\n") {
                        proof {
                            reveal_strlit("\r\n");
                            let chars = self.chars();
                            let i = self.index();
                            assert(self.rest().len() >= 2);
                            assert(self.rest().subrange(0, 2) =~= "\r\n"@);
                            assert(self.rest().subrange(0, 2)[1] == self.rest()[1]);
                            assert(self.rest()[1] == chars[i + 1]);
                            assert(chars[i] == '\r');
                            assert(chars[i + 1] == '\n');
                            lemma_ascii_run(chars, i, 2);
                        }
                        self.advance(2);
                        proof {
                            assert(self.chars().skip(self.index() - 2).skip(2) =~= self.rest());
                        }
                    } else {
                        proof {
                            reveal_strlit("\r\n");
                        }
                        break ;
                    }
                },
                None => break ,
            }
        }
    }

    /// Skips a TOML comment starting with `#`.
    pub fn skip_comment(&mut self) -> (skipped: bool)
        requires
            old(self).wf(),
        ensures
            final(self).wf(),
            final(self).same_src(old(self)),
            skipped == (old(self).peek_spec() == Some('#')),
            final(self).index() == old(self).index() + comment_len(old(self).rest()),
    {
        if self.peek() == Some('#') {
            let ghost r0 = self.rest();
            let ghost i0 = self.index();
            let ghost src0 = self.spec_src();
            loop
                invariant
                    self.wf(),
                    self.spec_src() == src0,
                    i0 <= self.index(),
                    r0 == self.chars().skip(i0),
                    line_len(r0) == (self.index() - i0) + line_len(self.rest()),
                ensures
                    self.wf(),
                    self.spec_src() == src0,
                    line_len(r0) == self.index() - i0,
                decreases self.chars().len() - self.index(),
            {
                match self.peek() {
                    Some(c) => {
                        if c == '\n' {
                            break ;
                        }
                        self.next_char();
                        proof {
                            assert(self.rest() =~= old_rest_drop(self.chars(), self.index()));
                        }
                    },
                    None => break ,
                }
            }
            true
        } else {
            false
        }
    }

    /// Consumes all consecutive whitespace and comments.
    pub fn skip_comments_and_ws(&mut self)
        requires
            old(self).wf(),
        ensures
            final(self).wf(),
            final(self).same_src(old(self)),
            final(self).index() == old(self).index() + trivia_len(old(self).rest()),
    {
        let ghost r0 = self.rest();
        let ghost i0 = self.index();
        let ghost src0 = self.spec_src();
        loop
            invariant
                self.wf(),
                self.spec_src() == src0,
                i0 <= self.index(),
                r0 == self.chars().skip(i0),
                trivia_len(r0) == (self.index() - i0) + trivia_len(self.rest()),
            ensures
                self.wf(),
                self.spec_src() == src0,
                trivia_len(r0) == self.index() - i0,
            decreases self.chars().len() - self.index(),
        {
            let start = self.pos;
            let ghost s0 = self.rest();
            let ghost k0 = self.index();
            self.skip_ws_and_newline();
            let ghost s1 = self.rest();
            self.skip_comment();
            proof {
                lemma_trivia_ws_nl(s0);
                assert(s1 =~= s0.skip(ws_nl_len(s0) as int));
                lemma_trivia_comment(s1);
                assert(self.rest() =~= s1.skip(comment_len(s1) as int));
            }
            if self.pos == start {
                proof {
                    lemma_offset_injective(self.chars(), self.index(), k0);
                    lemma_trivia_stop(s0);
                }
                break ;
            }
        }
    }

    /// Returns a slice of the source from `start` to the current position.
    pub fn slice_from(&self, start: usize) -> (s: &'a str)
        requires
            self.wf(),
            self.passed(start as int),
        ensures
            s.spec_bytes() == self.bytes().subrange(start as int, self.spec_pos() as int),
            forall|j: int|
                0 <= j <= self.index() && #[trigger] byte_offset(self.chars(), j) == start ==> s@
                    == self.chars().subrange(j, self.index()),
    {
        let ghost chars = self.chars();
        let ghost j = choose|j: int| 0 <= j <= self.index() && #[trigger] byte_offset(chars, j) == start;
        let ghost pre = chars.take(self.index());
        proof {
            self.lemma_wf();
            lemma_encode_split(chars, self.index());
            assert(pre.take(j) =~= chars.take(j));
            lemma_offset_is_boundary(pre, j);
            lemma_encode_split(pre, j);
        }
        let (head, _) = self.src.split_at(self.pos);
        let (_, s) = head.split_at(start);
        proof {
            assert(s.spec_bytes() =~= self.bytes().subrange(start as int, self.spec_pos() as int));
            assert(pre.skip(j) =~= chars.subrange(j, self.index()));
            assert(encode_utf8(s@) == encode_utf8(pre.skip(j)));
            assert(decode_utf8(encode_utf8(s@)) == s@);
            assert(decode_utf8(encode_utf8(pre.skip(j))) == pre.skip(j));
            assert forall|k: int|
                0 <= k <= self.index() && #[trigger] byte_offset(chars, k) == start implies s@
                == chars.subrange(k, self.index()) by {
                lemma_offset_injective(chars, k, j);
            }
        }
        s
    }
}

/// The characters after index `i` are the ones after index `i - 1` but the first.
pub open spec fn old_rest_drop(chars: Seq<char>, i: int) -> Seq<char> {
    chars.skip(i - 1).drop_first()
}

/// Number of bytes that `c` takes in UTF-8.
pub fn char_width(c: char) -> (n: usize)
    ensures
        n == encode_scalar(c as u32).len(),
{
    let u = c as u32;
    if u < 0x80 {
        1
    } else if u < 0x800 {
        2
    } else if u < 0x10000 {
        3
    } else {
        4
    }
}

/// Skipping blanks a second time moves no further: after `skip_ws` the
/// lexer is not at a space or tab.
pub proof fn law_skip_ws_idempotent(s: Seq<char>)
    ensures
        blank_len(s.skip(blank_len(s) as int)) == 0,
{
    lemma_span_bound(s, |c: char| is_blank(c));
    if blank_len(s) < s.len() {
        assert(s.skip(blank_len(s) as int)[0] == s[blank_len(s) as int]);
    }
}

/// Skipping blanks and newlines a second time moves no further.
pub proof fn law_skip_ws_and_newline_idempotent(s: Seq<char>)
    ensures
        ws_nl_len(s.skip(ws_nl_len(s) as int)) == 0,
    decreases s.len(),
{
    if s.len() > 0 && (s[0] == ' ' || s[0] == '\t' || s[0] == '\n') {
        law_skip_ws_and_newline_idempotent(s.drop_first());
        lemma_trivia_ws_nl(s.drop_first());
        assert(s.drop_first().skip(ws_nl_len(s.drop_first()) as int) =~= s.skip(
            ws_nl_len(s) as int,
        ));
    } else if s.len() > 1 && s[0] == '\r' && s[1] == '\n' {
        law_skip_ws_and_newline_idempotent(s.skip(2));
        lemma_trivia_ws_nl(s.skip(2));
        assert(s.skip(2).skip(ws_nl_len(s.skip(2)) as int) =~= s.skip(ws_nl_len(s) as int));
    } else {
        assert(s.skip(0) =~= s);
    }
}

/// Skipping comments and whitespace a second time moves no further.
pub proof fn law_skip_comments_and_ws_idempotent(s: Seq<char>)
    ensures
        trivia_len(s.skip(trivia_len(s) as int)) == 0,
    decreases s.len(),
{
    if s.len() > 0 && (s[0] == ' ' || s[0] == '\t' || s[0] == '\n') {
        law_skip_comments_and_ws_idempotent(s.drop_first());
        lemma_trivia_bound(s.drop_first());
        assert(s.drop_first().skip(trivia_len(s.drop_first()) as int) =~= s.skip(
            trivia_len(s) as int,
        ));
    } else if s.len() > 1 && s[0] == '\r' && s[1] == '\n' {
        law_skip_comments_and_ws_idempotent(s.skip(2));
        lemma_trivia_bound(s.skip(2));
        assert(s.skip(2).skip(trivia_len(s.skip(2)) as int) =~= s.skip(trivia_len(s) as int));
    } else if s.len() > 0 && s[0] == '#' {
        lemma_line_len_bound(s);
        let n = line_len(s) as int;
        law_skip_comments_and_ws_idempotent(s.skip(n));
        lemma_trivia_bound(s.skip(n));
        assert(s.skip(n).skip(trivia_len(s.skip(n)) as int) =~= s.skip(trivia_len(s) as int));
    } else {
        assert(s.skip(0) =~= s);
    }
}

/// Trivia never runs past the end.
proof fn lemma_trivia_bound(s: Seq<char>)
    ensures
        trivia_len(s) <= s.len(),
    decreases s.len(),
{
    if s.len() > 0 && (s[0] == ' ' || s[0] == '\t' || s[0] == '\n') {
        lemma_trivia_bound(s.drop_first());
    } else if s.len() > 1 && s[0] == '\r' && s[1] == '\n' {
        lemma_trivia_bound(s.skip(2));
    } else if s.len() > 0 && s[0] == '#' {
        lemma_line_len_bound(s);
        lemma_trivia_bound(s.skip(line_len(s) as int));
    }
}

/// Blanks, newlines and CRLF pairs are trivia.
proof fn lemma_trivia_ws_nl(s: Seq<char>)
    ensures
        ws_nl_len(s) <= s.len(),
        trivia_len(s) == ws_nl_len(s) + trivia_len(s.skip(ws_nl_len(s) as int)),
    decreases s.len(),
{
    if s.len() > 0 && (s[0] == ' ' || s[0] == '\t' || s[0] == '\n') {
        lemma_trivia_ws_nl(s.drop_first());
        assert(s.drop_first().skip(ws_nl_len(s.drop_first()) as int) =~= s.skip(
            ws_nl_len(s) as int,
        ));
    } else if s.len() > 1 && s[0] == '\r' && s[1] == '\n' {
        lemma_trivia_ws_nl(s.skip(2));
        assert(s.skip(2).skip(ws_nl_len(s.skip(2)) as int) =~= s.skip(ws_nl_len(s) as int));
    } else {
        assert(s.skip(0) =~= s);
    }
}

/// A comment is trivia.
proof fn lemma_trivia_comment(s: Seq<char>)
    ensures
        comment_len(s) <= s.len(),
        trivia_len(s) == comment_len(s) + trivia_len(s.skip(comment_len(s) as int)),
{
    lemma_line_len_bound(s);
    if !(s.len() > 0 && s[0] == '#') {
        assert(s.skip(0) =~= s);
    }
}

/// Where no blank, newline or comment starts, there is no trivia.
proof fn lemma_trivia_stop(s: Seq<char>)
    requires
        ws_nl_len(s) == 0,
        comment_len(s) == 0,
    ensures
        trivia_len(s) == 0,
{
    if s.len() > 0 && s[0] == '#' {
        lemma_line_len_bound(s);
    }
}

} // verus!
