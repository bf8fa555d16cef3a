//! Facts about the UTF-8 encoding of character sequences that the lexer,
//! the error positions and the table keys rest on.
use vstd::prelude::*;
use vstd::utf8::*;

verus! {

broadcast use vstd::utf8::group_utf8_lib;

/// Length of the longest prefix of `s` whose characters all satisfy `p`.
pub open spec fn span(s: Seq<char>, p: spec_fn(char) -> bool) -> nat
    decreases s.len(),
{
    if s.len() > 0 && p(s[0]) {
        1 + span(s.drop_first(), p)
    } else {
        0
    }
}

/// Spaces and tabs, the blanks of a TOML line.
pub open spec fn is_blank(c: char) -> bool {
    c == ' ' || c == '\t'
}

/// Number of leading spaces and tabs.
pub open spec fn blank_len(s: Seq<char>) -> nat {
    span(s, |c: char| is_blank(c))
}

/// Number of characters before the first newline (all of `s` when it has none).
pub open spec fn line_len(s: Seq<char>) -> nat {
    span(s, |c: char| c != '\n')
}

/// Number of leading characters taken by blanks, newlines and CRLF pairs.
pub open spec fn ws_nl_len(s: Seq<char>) -> nat
    decreases s.len(),
{
    if s.len() > 0 && (s[0] == ' ' || s[0] == '\t' || s[0] == '\n') {
        1 + ws_nl_len(s.drop_first())
    } else if s.len() > 1 && s[0] == '\r' && s[1] == '\n' {
        2 + ws_nl_len(s.skip(2))
    } else {
        0
    }
}

/// Number of characters of a comment at the start of `s`: from `#` up to,
/// not including, the next newline.
pub open spec fn comment_len(s: Seq<char>) -> nat {
    if s.len() > 0 && s[0] == '#' {
        line_len(s)
    } else {
        0
    }
}

/// Number of leading characters taken by blanks, newlines, CRLF pairs and comments.
pub open spec fn trivia_len(s: Seq<char>) -> nat
    decreases s.len(),
{
    if s.len() > 0 && (s[0] == ' ' || s[0] == '\t' || s[0] == '\n') {
        1 + trivia_len(s.drop_first())
    } else if s.len() > 1 && s[0] == '\r' && s[1] == '\n' {
        2 + trivia_len(s.skip(2))
    } else if s.len() > 0 && s[0] == '#' {
        proof {
            lemma_line_len_bound(s);
        }
        line_len(s) + trivia_len(s.skip(line_len(s) as int))
    } else {
        0
    }
}

/// The characters of a bare key: ASCII letters, digits, `-` and `_`.
pub open spec fn is_bare_key_char(c: char) -> bool {
    ('a' <= c <= 'z') || ('A' <= c <= 'Z') || ('0' <= c <= '9') || c == '-' || c == '_'
}

/// Number of leading bare-key characters.
pub open spec fn key_len(s: Seq<char>) -> nat {
    span(s, |c: char| is_bare_key_char(c))
}

/// Control characters that may not appear in a one-line string: those below
/// U+0020 other than tab (the newline among them), and DEL.
pub open spec fn is_forbidden_control(c: char) -> bool {
    ((c as u32) < 0x20 && c != '\t') || (c as u32) == 0x7f
}

/// Characters that end the body of a literal string: the closing quote, or a
/// forbidden control character.
pub open spec fn ends_literal(c: char) -> bool {
    c == '\'' || is_forbidden_control(c)
}

/// Index of the first character that ends a literal string body (or the length).
pub open spec fn literal_stop(s: Seq<char>) -> nat {
    span(s, |c: char| !ends_literal(c))
}

/// Index of the first unescaped character that ends a basic string body: the
/// closing quote or a forbidden control character. A
/// backslash escapes the character after it, whatever it is. The length
/// when there is none.
pub open spec fn basic_stop(s: Seq<char>) -> nat
    decreases s.len(),
{
    if s.len() == 0 {
        0
    } else if s[0] == '\\' {
        if s.len() == 1 {
            1
        } else {
            2 + basic_stop(s.skip(2))
        }
    } else if s[0] == '"' || is_forbidden_control(s[0]) {
        0
    } else {
        1 + basic_stop(s.drop_first())
    }
}

/// The stop of a basic string lies within it, and is not a backslash.
pub proof fn lemma_basic_stop(s: Seq<char>)
    ensures
        basic_stop(s) <= s.len(),
        basic_stop(s) < s.len() ==> (s[basic_stop(s) as int] == '"' || is_forbidden_control(
            s[basic_stop(s) as int],
        )),
    decreases s.len(),
{
    if s.len() > 0 {
        if s[0] == '\\' {
            if s.len() > 1 {
                lemma_basic_stop(s.skip(2));
                if basic_stop(s) < s.len() {
                    assert(s[basic_stop(s) as int] == s.skip(2)[basic_stop(s.skip(2)) as int]);
                }
            }
        } else if !(s[0] == '"' || is_forbidden_control(s[0])) {
            lemma_basic_stop(s.drop_first());
            if basic_stop(s) < s.len() {
                assert(s[basic_stop(s) as int] == s.drop_first()[basic_stop(s.drop_first()) as int]);
            }
        }
    }
}

/// A line never exceeds the sequence, and a comment has at least its `#`.
pub proof fn lemma_line_len_bound(s: Seq<char>)
    ensures
        line_len(s) <= s.len(),
        s.len() > 0 && s[0] != '\n' ==> line_len(s) > 0,
{
    lemma_span_bound(s, |c: char| c != '\n');
}

/// A span never exceeds the sequence.
pub proof fn lemma_span_bound(s: Seq<char>, p: spec_fn(char) -> bool)
    ensures
        span(s, p) <= s.len(),
        forall|k: int| 0 <= k < span(s, p) ==> p(#[trigger] s[k]),
        span(s, p) < s.len() ==> !p(s[span(s, p) as int]),
    decreases s.len(),
{
    if s.len() > 0 && p(s[0]) {
        lemma_span_bound(s.drop_first(), p);
        assert forall|k: int| 0 <= k < span(s, p) implies p(#[trigger] s[k]) by {
            if k > 0 {
                assert(s[k] == s.drop_first()[k - 1]);
            }
        }
        if span(s, p) < s.len() {
            assert(s[span(s, p) as int] == s.drop_first()[span(s.drop_first(), p) as int]);
        }
    }
}

/// Number of bytes that the first `i` characters of `chars` take in UTF-8.
pub open spec fn byte_offset(chars: Seq<char>, i: int) -> int {
    encode_utf8(chars.take(i)).len() as int
}

/// Encoding distributes over concatenation.
pub proof fn lemma_encode_concat(a: Seq<char>, b: Seq<char>)
    ensures
        encode_utf8(a + b) == encode_utf8(a) + encode_utf8(b),
    decreases a.len(),
{
    if a.len() == 0 {
        assert(a + b =~= b);
        assert(encode_utf8(a) =~= Seq::<u8>::empty());
        assert(encode_utf8(a) + encode_utf8(b) =~= encode_utf8(b));
    } else {
        lemma_encode_concat(a.drop_first(), b);
        assert((a + b).drop_first() =~= a.drop_first() + b);
        assert((a + b)[0] == a[0]);
        assert(encode_utf8(a + b) =~= encode_scalar(a[0] as u32) + encode_utf8(a.drop_first() + b));
        assert(encode_utf8(a) + encode_utf8(b) =~= encode_scalar(a[0] as u32) + (encode_utf8(a.drop_first()) + encode_utf8(b)));
    }
}

/// The bytes of `chars` split at the end of its `i`-th character are the
/// encodings of the two halves.
pub proof fn lemma_encode_split(chars: Seq<char>, i: int)
    requires
        0 <= i <= chars.len(),
    ensures
        encode_utf8(chars) == encode_utf8(chars.take(i)) + encode_utf8(chars.skip(i)),
        encode_utf8(chars).subrange(0, byte_offset(chars, i)) == encode_utf8(chars.take(i)),
        encode_utf8(chars).subrange(byte_offset(chars, i), encode_utf8(chars).len() as int)
            == encode_utf8(chars.skip(i)),
        0 <= byte_offset(chars, i) <= encode_utf8(chars).len(),
{
    assert(chars =~= chars.take(i) + chars.skip(i));
    lemma_encode_concat(chars.take(i), chars.skip(i));
    let e = encode_utf8(chars);
    let n = byte_offset(chars, i);
    assert(e.subrange(0, n) =~= encode_utf8(chars.take(i)));
    assert(e.subrange(n, e.len() as int) =~= encode_utf8(chars.skip(i)));
}

/// The encoding of one character, as the encoding of a one-element sequence.
pub proof fn lemma_encode_single(c: char)
    ensures
        encode_utf8(seq![c]) == encode_scalar(c as u32),
{
    assert(seq![c].drop_first() =~= Seq::<char>::empty());
    assert(encode_utf8(Seq::<char>::empty()) =~= Seq::<u8>::empty());
    assert(encode_utf8(seq![c]) == encode_scalar(seq![c][0] as u32) + encode_utf8(seq![c].drop_first()));
    assert(encode_scalar(c as u32) + Seq::<u8>::empty() =~= encode_scalar(c as u32));
}

/// Offsets grow by the width of each character.
pub proof fn lemma_offset_step(chars: Seq<char>, i: int)
    requires
        0 <= i < chars.len(),
    ensures
        byte_offset(chars, i + 1) == byte_offset(chars, i) + encode_scalar(chars[i] as u32).len(),
{
    assert(chars.take(i + 1) =~= chars.take(i) + seq![chars[i]]);
    lemma_encode_concat(chars.take(i), seq![chars[i]]);
    lemma_encode_single(chars[i]);
}

/// Offsets are monotonic in the character index.
pub proof fn lemma_offset_mono(chars: Seq<char>, i: int, j: int)
    requires
        0 <= i <= j <= chars.len(),
    ensures
        byte_offset(chars, i) <= byte_offset(chars, j),
    decreases j - i,
{
    if i < j {
        lemma_offset_mono(chars, i, j - 1);
        lemma_offset_step(chars, j - 1);
    }
}

/// The end of each character's encoding is a character boundary.
pub proof fn lemma_offset_is_boundary(chars: Seq<char>, i: int)
    requires
        0 <= i <= chars.len(),
    ensures
        is_char_boundary(encode_utf8(chars), byte_offset(chars, i)),
{
    let e = encode_utf8(chars);
    let n = byte_offset(chars, i);
    lemma_encode_split(chars, i);
    is_char_boundary_start_end_of_seq(e);
    if n < e.len() {
        let rest = chars.skip(i);
        assert(rest.len() > 0) by {
            if rest.len() == 0 {
                assert(encode_utf8(rest) =~= Seq::<u8>::empty());
            }
        }
        encode_utf8_first_scalar(rest);
        assert(e[n] == encode_utf8(rest)[0]);
        is_char_boundary_iff_not_is_continuation_byte(e, n);
    }
}

/// Every character boundary is the end of some prefix of characters.
pub proof fn lemma_boundary_is_offset(chars: Seq<char>, p: int)
    requires
        is_char_boundary(encode_utf8(chars), p),
    ensures
        exists|j: int| 0 <= j <= chars.len() && #[trigger] byte_offset(chars, j) == p,
    decreases chars.len(),
{
    let e = encode_utf8(chars);
    if p == 0 {
        assert(chars.take(0) =~= Seq::<char>::empty());
        assert(byte_offset(chars, 0) == 0);
    } else {
        assert(chars.len() > 0) by {
            if chars.len() == 0 {
                assert(e =~= Seq::<u8>::empty());
            }
        }
        encode_utf8_first_scalar(chars);
        let w = encode_scalar(chars[0] as u32).len() as int;
        assert(pop_first_scalar(e) =~= encode_utf8(chars.drop_first()));
        lemma_boundary_is_offset(chars.drop_first(), p - w);
        let j = choose|j: int|
            0 <= j <= chars.drop_first().len() && #[trigger] byte_offset(chars.drop_first(), j)
                == p - w;
        assert(chars.take(j + 1) =~= seq![chars[0]] + chars.drop_first().take(j));
        lemma_encode_concat(seq![chars[0]], chars.drop_first().take(j));
        lemma_encode_single(chars[0]);
        assert(byte_offset(chars, j + 1) == p);
    }
}

/// Each character takes at least one byte.
pub proof fn lemma_scalar_width(c: char)
    ensures
        1 <= encode_scalar(c as u32).len() <= 4,
        (c as u32) < 0x80 ==> encode_scalar(c as u32).len() == 1,
{
}

/// Offsets strictly grow with the character index.
pub proof fn lemma_offset_strict(chars: Seq<char>, i: int, j: int)
    requires
        0 <= i < j <= chars.len(),
    ensures
        byte_offset(chars, i) < byte_offset(chars, j),
{
    lemma_offset_step(chars, i);
    lemma_scalar_width(chars[i]);
    lemma_offset_mono(chars, i + 1, j);
}

/// Distinct character indices have distinct offsets.
pub proof fn lemma_offset_injective(chars: Seq<char>, i: int, j: int)
    requires
        0 <= i <= chars.len(),
        0 <= j <= chars.len(),
        byte_offset(chars, i) == byte_offset(chars, j),
    ensures
        i == j,
{
    if i < j {
        lemma_offset_strict(chars, i, j);
    } else if j < i {
        lemma_offset_strict(chars, j, i);
    }
}

/// The offset after all characters is the length of the encoding, and no
/// earlier offset reaches it.
pub proof fn lemma_offset_end(chars: Seq<char>, i: int)
    requires
        0 <= i <= chars.len(),
    ensures
        byte_offset(chars, chars.len() as int) == encode_utf8(chars).len(),
        byte_offset(chars, i) == encode_utf8(chars).len() <==> i == chars.len(),
        chars.len() <= encode_utf8(chars).len(),
{
    assert(chars.take(chars.len() as int) =~= chars);
    if i < chars.len() {
        lemma_offset_strict(chars, i, chars.len() as int);
    }
    lemma_offset_at_least(chars, chars.len() as int);
}

/// The first `i` characters take at least `i` bytes.
pub proof fn lemma_offset_at_least(chars: Seq<char>, i: int)
    requires
        0 <= i <= chars.len(),
    ensures
        i <= byte_offset(chars, i),
    decreases i,
{
    if i > 0 {
        lemma_offset_at_least(chars, i - 1);
        lemma_offset_step(chars, i - 1);
        lemma_scalar_width(chars[i - 1]);
    } else {
        assert(chars.take(0) =~= Seq::<char>::empty());
    }
}

/// A run of ASCII characters takes one byte each.
pub proof fn lemma_ascii_run(chars: Seq<char>, i: int, k: int)
    requires
        0 <= i,
        0 <= k,
        i + k <= chars.len(),
        forall|m: int| i <= m < i + k ==> (#[trigger] chars[m] as u32) < 0x80,
    ensures
        byte_offset(chars, i + k) == byte_offset(chars, i) + k,
    decreases k,
{
    if k > 0 {
        lemma_ascii_run(chars, i, k - 1);
        lemma_offset_step(chars, i + k - 1);
        lemma_scalar_width(chars[i + k - 1]);
    }
}

/// Byte prefixes of encodings are exactly the encodings of character prefixes.
pub proof fn lemma_encode_prefix(p: Seq<char>, r: Seq<char>)
    ensures
        encode_utf8(p).is_prefix_of(encode_utf8(r)) <==> p.is_prefix_of(r),
    decreases p.len(),
{
    let ep = encode_utf8(p);
    let er = encode_utf8(r);
    if p.len() == 0 {
        assert(ep =~= Seq::<u8>::empty());
        assert(ep =~= er.subrange(0, 0));
        assert(p =~= r.subrange(0, 0));
    } else {
        if p.is_prefix_of(r) {
            assert(r =~= p + r.skip(p.len() as int));
            lemma_encode_concat(p, r.skip(p.len() as int));
            assert(ep =~= er.subrange(0, ep.len() as int));
        }
        if ep.is_prefix_of(er) {
            lemma_scalar_width(p[0]);
            assert(ep.len() > 0);
            assert(r.len() > 0) by {
                if r.len() == 0 {
                    assert(er =~= Seq::<u8>::empty());
                }
            }
            encode_utf8_first_scalar(p);
            encode_utf8_first_scalar(r);
            let w = encode_scalar(p[0] as u32).len() as int;
            assert(forall|k: int| 0 <= k < ep.len() ==> ep[k] == #[trigger] er[k]) by {
                assert forall|k: int| 0 <= k < ep.len() implies ep[k] == #[trigger] er[k] by {
                    assert(er.subrange(0, ep.len() as int)[k] == er[k]);
                }
            }
            assert(ep[0] == er[0]);
            assert(w <= ep.len());
            if w >= 2 {
                assert(ep[1] == er[1]);
            }
            if w >= 3 {
                assert(ep[2] == er[2]);
            }
            if w >= 4 {
                assert(ep[3] == er[3]);
            }
            assert(decode_first_scalar(ep) == decode_first_scalar(er));
            assert(p[0] as u32 == r[0] as u32);
            char_u32_cast(p[0], p[0] as u32);
            char_u32_cast(r[0], r[0] as u32);
            assert(p[0] == r[0]);
            assert(ep.skip(w) =~= encode_utf8(p.drop_first()));
            assert(er.skip(w) =~= encode_utf8(r.drop_first()));
            assert(encode_utf8(p.drop_first()).is_prefix_of(encode_utf8(r.drop_first()))) by {
                assert(encode_utf8(p.drop_first()) =~= encode_utf8(r.drop_first()).subrange(
                    0,
                    encode_utf8(p.drop_first()).len() as int,
                ));
            }
            lemma_encode_prefix(p.drop_first(), r.drop_first());
            assert(p =~= r.subrange(0, p.len() as int)) by {
                assert forall|k: int| 0 <= k < p.len() implies p[k] == r.subrange(0, p.len() as int)[k] by {
                    if k > 0 {
                        assert(p[k] == p.drop_first()[k - 1]);
                        assert(r[k] == r.drop_first()[k - 1]);
                        assert(r.drop_first().subrange(0, p.drop_first().len() as int)[k - 1] == r.drop_first()[k - 1]);
                    }
                }
            }
        }
    }
}

/// Lexicographic order on byte strings: the order in which Rust compares
/// `String`s.
pub open spec fn bytes_lt(a: Seq<u8>, b: Seq<u8>) -> bool
    decreases a.len(),
{
    if a.len() == 0 {
        b.len() > 0
    } else if b.len() == 0 {
        false
    } else if a[0] != b[0] {
        a[0] < b[0]
    } else {
        bytes_lt(a.drop_first(), b.drop_first())
    }
}

/// Order on keys: lexicographic on their UTF-8 bytes.
pub open spec fn key_lt(a: Seq<char>, b: Seq<char>) -> bool {
    bytes_lt(encode_utf8(a), encode_utf8(b))
}

proof fn lemma_bytes_lt_irrefl_asym_total(a: Seq<u8>, b: Seq<u8>)
    ensures
        !bytes_lt(a, a),
        bytes_lt(a, b) ==> !bytes_lt(b, a),
        a != b ==> bytes_lt(a, b) || bytes_lt(b, a),
    decreases a.len(),
{
    if a.len() > 0 {
        lemma_bytes_lt_irrefl_asym_total(a.drop_first(), a.drop_first());
    }
    if a.len() > 0 && b.len() > 0 {
        lemma_bytes_lt_irrefl_asym_total(a.drop_first(), b.drop_first());
        if a != b && a[0] == b[0] {
            assert(a.drop_first() != b.drop_first()) by {
                if a.drop_first() == b.drop_first() {
                    assert(a =~= seq![a[0]] + a.drop_first());
                    assert(b =~= seq![b[0]] + b.drop_first());
                }
            }
        }
    }
    if a.len() == 0 && b.len() == 0 {
        assert(a =~= b);
    }
}

proof fn lemma_bytes_lt_trans(a: Seq<u8>, b: Seq<u8>, c: Seq<u8>)
    ensures
        bytes_lt(a, b) && bytes_lt(b, c) ==> bytes_lt(a, c),
    decreases a.len(),
{
    if a.len() > 0 && b.len() > 0 && c.len() > 0 {
        lemma_bytes_lt_trans(a.drop_first(), b.drop_first(), c.drop_first());
    }
}

/// `bytes_lt` is a strict total order.
pub proof fn lemma_bytes_lt_order(a: Seq<u8>, b: Seq<u8>, c: Seq<u8>)
    ensures
        !bytes_lt(a, a),
        bytes_lt(a, b) ==> !bytes_lt(b, a),
        bytes_lt(a, b) && bytes_lt(b, c) ==> bytes_lt(a, c),
        a != b ==> bytes_lt(a, b) || bytes_lt(b, a),
{
    lemma_bytes_lt_irrefl_asym_total(a, b);
    lemma_bytes_lt_trans(a, b, c);
}

/// Keys with the same encoding are the same key.
pub proof fn lemma_key_injective(a: Seq<char>, b: Seq<char>)
    requires
        encode_utf8(a) == encode_utf8(b),
    ensures
        a == b,
{
    assert(decode_utf8(encode_utf8(a)) == a);
    assert(decode_utf8(encode_utf8(b)) == b);
}

/// `key_lt` is a strict total order on keys.
pub proof fn lemma_key_lt_order(a: Seq<char>, b: Seq<char>, c: Seq<char>)
    ensures
        !key_lt(a, a),
        key_lt(a, b) ==> !key_lt(b, a),
        key_lt(a, b) && key_lt(b, c) ==> key_lt(a, c),
        a != b ==> key_lt(a, b) || key_lt(b, a),
{
    lemma_bytes_lt_order(encode_utf8(a), encode_utf8(b), encode_utf8(c));
    if a != b && encode_utf8(a) == encode_utf8(b) {
        lemma_key_injective(a, b);
    }
}

/// A bare key is the longest run of ASCII letters of either case, ASCII
/// digits, `-` and `_` at the start of `s`: every character of it is one of
/// them, and the character after it (if any) is not.
pub proof fn law_bare_key_characters(s: Seq<char>)
    ensures
        key_len(s) <= s.len(),
        forall|i: int|
            0 <= i < key_len(s) ==> ('a' <= #[trigger] s[i] <= 'z') || ('A' <= s[i] <= 'Z') || (
            '0' <= s[i] <= '9') || s[i] == '-' || s[i] == '_',
        key_len(s) < s.len() ==> !(('a' <= s[key_len(s) as int] <= 'z') || ('A' <= s[key_len(
            s,
        ) as int] <= 'Z') || ('0' <= s[key_len(s) as int] <= '9') || s[key_len(s) as int] == '-'
            || s[key_len(s) as int] == '_'),
{
    lemma_span_bound(s, |c: char| is_bare_key_char(c));
}

/// One-line strings refuse control characters only: the body of a literal
/// string runs to its closing quote or to a control character (U+0000 to
/// U+001F but tab, or U+007F), and a basic string's body stops only at an
/// unescaped quote or such a control character. Every other character, `#`
/// among them, stands in a string.
pub proof fn law_strings_refuse_controls_only(s: Seq<char>)
    ensures
        literal_stop(s) <= s.len(),
        forall|i: int|
            0 <= i < literal_stop(s) ==> #[trigger] s[i] != '\'' && !(((s[i] as u32) < 0x20 && s[i]
                != '\t') || (s[i] as u32) == 0x7f),
        literal_stop(s) < s.len() ==> s[literal_stop(s) as int] == '\'' || ((s[literal_stop(
            s,
        ) as int] as u32) < 0x20 && s[literal_stop(s) as int] != '\t') || (s[literal_stop(
            s,
        ) as int] as u32) == 0x7f,
        basic_stop(s) <= s.len(),
        basic_stop(s) < s.len() ==> s[basic_stop(s) as int] == '"' || ((s[basic_stop(
            s,
        ) as int] as u32) < 0x20 && s[basic_stop(s) as int] != '\t') || (s[basic_stop(
            s,
        ) as int] as u32) == 0x7f,
        (forall|i: int|
            0 <= i < s.len() ==> #[trigger] s[i] != '"' && s[i] != '\\' && !(((s[i] as u32) < 0x20
                && s[i] != '\t') || (s[i] as u32) == 0x7f)) ==> basic_stop(s) == s.len(),
    decreases s.len(),
{
    lemma_span_bound(s, |c: char| !ends_literal(c));
    lemma_basic_stop(s);
    if s.len() > 0 && s[0] != '"' && s[0] != '\\' && !is_forbidden_control(s[0]) {
        law_strings_refuse_controls_only(s.drop_first());
    }
}

} // verus!
