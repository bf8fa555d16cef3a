//! The statement-level parser: table headers and `key = value` lines.
use vstd::prelude::*;
use vstd::string::*;
use vstd::utf8::*;
use crate::error::{line_col, TomlError};
use crate::lexer::Lexer;
use crate::text::{
    blank_len, byte_offset, comment_len, is_bare_key_char, is_blank, key_len, lemma_ascii_run,
    lemma_encode_split, lemma_line_len_bound, lemma_offset_is_boundary, lemma_span_bound,
    line_len, literal_stop, basic_stop, span, ends_literal, lemma_basic_stop,
};
use crate::tokenizer::{Token, Tokenizer};
use crate::value::{Table, Value};
use crate::datetime::{datetime_spec, Datetime};

verus! {

broadcast use vstd::string::group_string_axioms, vstd::utf8::group_utf8_lib;

/// The key of a header or of a `key = value` line, as the sequence of its parts.
pub open spec fn key_path(key: Seq<String>) -> Seq<Seq<char>> {
    key.map_values(|s: String| s@)
}

/// Whether some key in `keys` has the path `k`.
pub open spec fn has_path(keys: Seq<Vec<String>>, k: Seq<Seq<char>>) -> bool {
    exists|i: int| 0 <= i < keys.len() && #[trigger] key_path(keys[i]@) == k
}

/// The set of paths of `keys`.
pub open spec fn path_set(keys: Seq<Vec<String>>) -> Set<Seq<Seq<char>>> {
    Set::new(|k: Seq<Seq<char>>| has_path(keys, k))
}

/// Tracks which table namespaces are frozen, which were declared explicitly,
/// and which dotted keys made since the last header (declared at the next).
pub struct Flags {
    frozen: Vec<Vec<String>>,
    explicit_nests: Vec<Vec<String>>,
    pending: Vec<Vec<String>>,
}

impl Flags {
    /// The key paths that may no longer be changed.
    pub closed spec fn frozen_set(&self) -> Set<Seq<Seq<char>>> {
        path_set(self.frozen@)
    }

    /// The key paths that a table header has defined.
    pub closed spec fn explicit_set(&self) -> Set<Seq<Seq<char>>> {
        path_set(self.explicit_nests@)
    }

    /// The key paths that dotted keys have made since the last header.
    pub closed spec fn pending_set(&self) -> Set<Seq<Seq<char>>> {
        path_set(self.pending@)
    }

    pub fn new() -> (f: Self)
        ensures
            f.frozen_set() == Set::<Seq<Seq<char>>>::empty(),
            f.explicit_set() == Set::<Seq<Seq<char>>>::empty(),
            f.pending_set() == Set::<Seq<Seq<char>>>::empty(),
    {
        Self::default()
    }

    pub fn is_frozen(&self, key: &[String]) -> (b: bool)
        ensures
            b == self.frozen_set().contains(key_path(key@)),
    {
        contains_path(&self.frozen, key)
    }

    /// Whether a header has declared the table `key`.
    pub fn is_explicit(&self, key: &[String]) -> (b: bool)
        ensures
            b == self.explicit_set().contains(key_path(key@)),
    {
        contains_path(&self.explicit_nests, key)
    }

    pub fn set_explicit_nest(&mut self, key: Vec<String>)
        ensures
            final(self).explicit_set() == old(self).explicit_set().insert(key_path(key@)),
            final(self).frozen_set() == old(self).frozen_set(),
            final(self).pending_set() == old(self).pending_set(),
    {
        add_path(&mut self.explicit_nests, key);
    }

    /// Notes a table that a dotted key made; it is declared at the next header.
    pub fn add_pending(&mut self, key: Vec<String>)
        ensures
            final(self).pending_set() == old(self).pending_set().insert(key_path(key@)),
            final(self).frozen_set() == old(self).frozen_set(),
            final(self).explicit_set() == old(self).explicit_set(),
    {
        add_path(&mut self.pending, key);
    }

    /// Declares the tables that dotted keys made.
    pub fn finalize_pending(&mut self)
        ensures
            final(self).explicit_set() == old(self).explicit_set().union(old(self).pending_set()),
            final(self).pending_set() == Set::<Seq<Seq<char>>>::empty(),
            final(self).frozen_set() == old(self).frozen_set(),
    {
        let ghost e0 = path_set(self.explicit_nests@);
        let ghost p = self.pending@;
        let n = self.pending.len();
        let mut i: usize = 0;
        while i < n
            invariant
                0 <= i <= n,
                n == p.len(),
                self.pending@ == p,
                path_set(self.explicit_nests@) == e0.union(path_set(p.take(i as int))),
                self.frozen == old(self).frozen,
                e0 == old(self).explicit_set(),
                p == old(self).pending@,
            decreases n - i,
        {
            let k = self.pending[i].clone();
            proof {
                assert(key_path(k@) == key_path(p[i as int]@)) by {
                    assert(key_path(k@) =~= key_path(p[i as int]@));
                }
                lemma_path_set_push(p.take(i as int), p[i as int]);
                assert(p.take(i + 1) =~= p.take(i as int).push(p[i as int]));
            }
            add_path(&mut self.explicit_nests, k);
            i = i + 1;
        }
        self.pending = Vec::new();
        proof {
            assert(p.take(n as int) =~= p);
            assert(path_set(self.pending@) =~= Set::<Seq<Seq<char>>>::empty());
        }
    }

    /// Drops every flag of `key` and of the paths below it.
    pub fn unset_all(&mut self, key: &[String])
        ensures
            final(self).explicit_set() == without_prefix(old(self).explicit_set(), key_path(key@)),
            final(self).frozen_set() == without_prefix(old(self).frozen_set(), key_path(key@)),
            final(self).pending_set() == old(self).pending_set(),
    {
        self.explicit_nests = drop_prefixed(&self.explicit_nests, key);
        self.frozen = drop_prefixed(&self.frozen, key);
    }
}

impl Default for Flags {
    fn default() -> (f: Self)
        ensures
            f.frozen_set() == Set::<Seq<Seq<char>>>::empty(),
            f.explicit_set() == Set::<Seq<Seq<char>>>::empty(),
            f.pending_set() == Set::<Seq<Seq<char>>>::empty(),
    {
        let f = Self { frozen: Vec::new(), explicit_nests: Vec::new(), pending: Vec::new() };
        proof {
            assert(f.frozen_set() =~= Set::<Seq<Seq<char>>>::empty());
            assert(f.explicit_set() =~= Set::<Seq<Seq<char>>>::empty());
            assert(f.pending_set() =~= Set::<Seq<Seq<char>>>::empty());
        }
        f
    }
}

/// Adding a key adds its path.
proof fn lemma_path_set_push(keys: Seq<Vec<String>>, key: Vec<String>)
    ensures
        path_set(keys.push(key)) == path_set(keys).insert(key_path(key@)),
{
    let after = keys.push(key);
    assert forall|k: Seq<Seq<char>>| has_path(after, k) == (has_path(keys, k) || k == key_path(
        key@,
    )) by {
        if has_path(keys, k) {
            let i = choose|i: int| 0 <= i < keys.len() && #[trigger] key_path(keys[i]@) == k;
            assert(after[i] == keys[i]);
        }
        if k == key_path(key@) {
            assert(key_path(after[keys.len() as int]@) == k);
        }
        if has_path(after, k) {
            let i = choose|i: int| 0 <= i < after.len() && #[trigger] key_path(after[i]@) == k;
            if i < keys.len() {
                assert(after[i] == keys[i]);
            }
        }
    }
    assert(path_set(after) =~= path_set(keys).insert(key_path(key@)));
}

/// Adds the path of `key` to `keys`.
fn add_path(keys: &mut Vec<Vec<String>>, key: Vec<String>)
    ensures
        path_set(final(keys)@) == path_set(old(keys)@).insert(key_path(key@)),
{
    if !contains_path(keys, key.as_slice()) {
        proof {
            lemma_path_set_push(keys@, key);
        }
        keys.push(key);
    } else {
        proof {
            assert(path_set(keys@) =~= path_set(keys@).insert(key_path(key@)));
        }
    }
}

/// Whether the parts of `p` begin with the parts of `key`.
fn starts_with_parts(p: &[String], key: &[String]) -> (b: bool)
    ensures
        b == key_path(key@).is_prefix_of(key_path(p@)),
{
    if key.len() > p.len() {
        return false;
    }
    let mut i: usize = 0;
    while i < key.len()
        invariant
            key@.len() <= p@.len(),
            0 <= i <= key@.len(),
            forall|k: int| 0 <= k < i ==> (#[trigger] key@[k])@ == p@[k]@,
        decreases key@.len() - i,
    {
        if key[i] != p[i] {
            proof {
                assert(key_path(key@)[i as int] == key@[i as int]@);
                assert(key_path(p@)[i as int] == p@[i as int]@);
            }
            return false;
        }
        i = i + 1;
    }
    proof {
        assert(key_path(key@) =~= key_path(p@).subrange(0, key@.len() as int));
    }
    true
}

/// The keys of `keys` whose paths do not begin with the path of `key`.
fn drop_prefixed(keys: &Vec<Vec<String>>, key: &[String]) -> (r: Vec<Vec<String>>)
    ensures
        path_set(r@) == without_prefix(path_set(keys@), key_path(key@)),
{
    let ghost kp = key_path(key@);
    let mut r: Vec<Vec<String>> = Vec::new();
    let n = keys.len();
    let mut i: usize = 0;
    proof {
        assert(path_set(r@) =~= without_prefix(path_set(keys@.take(0)), kp));
    }
    while i < n
        invariant
            0 <= i <= n,
            n == keys@.len(),
            path_set(r@) == without_prefix(path_set(keys@.take(i as int)), kp),
            kp == key_path(key@),
        decreases n - i,
    {
        proof {
            lemma_path_set_push(keys@.take(i as int), keys@[i as int]);
            assert(keys@.take(i + 1) =~= keys@.take(i as int).push(keys@[i as int]));
        }
        let ghost x = key_path(keys@[i as int]@);
        let ghost s0 = path_set(keys@.take(i as int));
        proof {
            assert(path_set(keys@.take(i + 1)) == s0.insert(x));
        }
        let skip = starts_with_parts(keys[i].as_slice(), key);
        proof {
            assert(skip == kp.is_prefix_of(x));
        }
        if !skip {
            let k = keys[i].clone();
            let ghost r0 = r@;
            proof {
                assert forall|t: int| 0 <= t < k@.len() implies k@[t] == keys@[i as int]@[t] by {
                    assert(cloned::<String>(keys@[i as int]@[t], k@[t]));
                }
                assert(key_path(k@) =~= x);
                lemma_path_set_push(r0, k);
            }
            r.push(k);
            proof {
                assert(path_set(r@) == path_set(r0).insert(x));
                assert forall|q: Seq<Seq<char>>| #[trigger] without_prefix(s0.insert(x), kp).contains(q)
                    == without_prefix(s0, kp).insert(x).contains(q) by {}
                assert(without_prefix(s0.insert(x), kp) =~= without_prefix(s0, kp).insert(x));
            }
        } else {
            proof {
                assert forall|q: Seq<Seq<char>>| #[trigger] without_prefix(s0.insert(x), kp).contains(q)
                    == without_prefix(s0, kp).contains(q) by {}
                assert(without_prefix(s0.insert(x), kp) =~= without_prefix(s0, kp));
            }
        }
        i = i + 1;
    }
    proof {
        assert(keys@.take(n as int) =~= keys@);
    }
    r
}

/// Whether one of `keys` has the same parts as `key`.
fn contains_path(keys: &Vec<Vec<String>>, key: &[String]) -> (b: bool)
    ensures
        b == path_set(keys@).contains(key_path(key@)),
{
    let n = keys.len();
    let mut i: usize = 0;
    while i < n
        invariant
            0 <= i <= n,
            n == keys@.len(),
            forall|j: int| 0 <= j < i ==> key_path(#[trigger] keys@[j]@) != key_path(key@),
        decreases n - i,
    {
        if same_parts(keys[i].as_slice(), key) {
            return true;
        }
        i = i + 1;
    }
    false
}

/// Whether two keys have the same parts.
fn same_parts(a: &[String], b: &[String]) -> (eq: bool)
    ensures
        eq == (key_path(a@) == key_path(b@)),
{
    if a.len() != b.len() {
        proof {
            assert(key_path(a@).len() != key_path(b@).len());
        }
        return false;
    }
    let mut i: usize = 0;
    while i < a.len()
        invariant
            a@.len() == b@.len(),
            0 <= i <= a@.len(),
            forall|k: int| 0 <= k < i ==> (#[trigger] a@[k])@ == b@[k]@,
        decreases a@.len() - i,
    {
        if a[i] != b[i] {
            proof {
                assert(key_path(a@)[i as int] == a@[i as int]@);
                assert(key_path(b@)[i as int] == b@[i as int]@);
            }
            return false;
        }
        i = i + 1;
    }
    proof {
        assert(key_path(a@) =~= key_path(b@));
    }
    true
}

/// Characters that may begin a statement that is not a header: the first
/// character of a bare or quoted key.
pub open spec fn starts_key_value(c: char) -> bool {
    ('a' <= c <= 'z') || ('A' <= c <= 'Z') || ('0' <= c <= '9') || c == '"' || c == '\'' || c
        == '_' || c == '-'
}

/// Number of characters up to and including the first newline (all of `s` when it has none).
pub open spec fn past_line(s: Seq<char>) -> nat
    decreases s.len(),
{
    if s.len() == 0 {
        0
    } else if s[0] == '\n' {
        1
    } else {
        1 + past_line(s.drop_first())
    }
}

/// The end of a statement from index `k` of `c` on: blanks, an optional
/// comment, then a newline, a carriage return or the end of the document.
/// Gives the index of that newline (or of the end), or the error and where
/// it occurs.
pub open spec fn statement_end(c: Seq<char>, k: int) -> Result<int, (Seq<char>, int)> {
    let k1 = k + blank_len(c.skip(k));
    let k2 = k1 + comment_len(c.skip(k1));
    if k2 >= c.len() || c[k2] == '\n' || c[k2] == '\r' {
        Ok(k2)
    } else {
        Err(("Expected newline or end of document after a statement"@, k2))
    }
}

/// The character that a one-letter escape `\e` stands for, if `e` is one.
pub open spec fn simple_escape(e: char) -> Option<char> {
    if e == 'b' {
        Some('\x08')
    } else if e == 't' {
        Some('\t')
    } else if e == 'n' {
        Some('\n')
    } else if e == 'f' {
        Some('\x0c')
    } else if e == 'r' {
        Some('\r')
    } else if e == '"' {
        Some('"')
    } else if e == '\\' {
        Some('\\')
    } else {
        None
    }
}

/// The value of a hexadecimal digit.
pub open spec fn hex_digit(ch: char) -> Option<int> {
    if '0' <= ch <= '9' {
        Some(ch as int - 48)
    } else if 'a' <= ch <= 'f' {
        Some(ch as int - 87)
    } else if 'A' <= ch <= 'F' {
        Some(ch as int - 55)
    } else {
        None
    }
}

/// The number that hexadecimal digits spell.
pub open spec fn hex_value(s: Seq<char>) -> Option<int>
    decreases s.len(),
{
    if s.len() == 0 {
        Some(0)
    } else {
        match (hex_value(s.drop_last()), hex_digit(s.last())) {
            (Some(a), Some(d)) => Some(16 * a + d),
            _ => None,
        }
    }
}

/// A Unicode scalar value: a code point that is not a surrogate.
pub open spec fn is_scalar_value(u: int) -> bool {
    0 <= u <= 0x10FFFF && !(0xD800 <= u <= 0xDFFF)
}

/// The number of characters after the backslash that a `\u` or `\U`
/// escape takes.
pub open spec fn unicode_escape_len(e: char) -> int {
    if e == 'u' {
        4
    } else {
        8
    }
}

/// The text of a basic string body with its escape sequences (`\b`, `\t`,
/// `\n`, `\f`, `\r`, `\"`, `\\`, `\uXXXX`, `\UXXXXXXXX`) replaced by the
/// characters they stand for; or the index of the first backslash that
/// starts no valid escape.
pub open spec fn unescape(b: Seq<char>) -> Result<Seq<char>, int>
    decreases b.len(),
{
    if b.len() == 0 {
        Ok(Seq::empty())
    } else if b[0] != '\\' {
        match unescape(b.drop_first()) {
            Ok(r) => Ok(seq![b[0]] + r),
            Err(i) => Err(i + 1),
        }
    } else if b.len() < 2 {
        Err(0)
    } else if simple_escape(b[1]) is Some {
        match unescape(b.skip(2)) {
            Ok(r) => Ok(seq![simple_escape(b[1])->0] + r),
            Err(i) => Err(i + 2),
        }
    } else if b[1] == 'u' || b[1] == 'U' {
        let w = unicode_escape_len(b[1]);
        if b.len() < 2 + w {
            Err(0)
        } else {
            match hex_value(b.subrange(2, 2 + w)) {
                Some(u) => if is_scalar_value(u) {
                    match unescape(b.skip(2 + w)) {
                        Ok(r) => Ok(seq![u as char] + r),
                        Err(i) => Err(i + 2 + w),
                    }
                } else {
                    Err(0)
                },
                None => Err(0),
            }
        }
    } else {
        Err(0)
    }
}

/// The one-letter escapes stand for the characters that TOML names:
/// `\b` backspace (U+0008), `\t` tab (U+0009), `\n` line feed (U+000A), `\f`
/// form feed (U+000C), `\r` carriage return (U+000D), `\"` a quote and `\\` a
/// backslash; the body after the escape is read as it would be alone. Any
/// other letter after a backslash, but `u` and `U`, is refused.
pub proof fn law_one_letter_escapes(b: Seq<char>, e: char)
    ensures
        match unescape(b) {
            Ok(r) => {
                &&& unescape(seq!['\\', 'b'] + b) == Ok::<Seq<char>, int>(seq!['\u{8}'] + r)
                &&& unescape(seq!['\\', 't'] + b) == Ok::<Seq<char>, int>(seq!['\u{9}'] + r)
                &&& unescape(seq!['\\', 'n'] + b) == Ok::<Seq<char>, int>(seq!['\u{a}'] + r)
                &&& unescape(seq!['\\', 'f'] + b) == Ok::<Seq<char>, int>(seq!['\u{c}'] + r)
                &&& unescape(seq!['\\', 'r'] + b) == Ok::<Seq<char>, int>(seq!['\u{d}'] + r)
                &&& unescape(seq!['\\', '"'] + b) == Ok::<Seq<char>, int>(seq!['\u{22}'] + r)
                &&& unescape(seq!['\\', '\\'] + b) == Ok::<Seq<char>, int>(seq!['\u{5c}'] + r)
            },
            Err(i) => unescape(seq!['\\', 'r'] + b) == Err::<Seq<char>, int>(i + 2),
        },
        !(e == 'b' || e == 't' || e == 'n' || e == 'f' || e == 'r' || e == '"' || e == '\\' || e
            == 'u' || e == 'U') ==> unescape(seq!['\\', e] + b) == Err::<Seq<char>, int>(0),
{
    assert((seq!['\\', 'b'] + b).skip(2) =~= b);
    assert((seq!['\\', 't'] + b).skip(2) =~= b);
    assert((seq!['\\', 'n'] + b).skip(2) =~= b);
    assert((seq!['\\', 'f'] + b).skip(2) =~= b);
    assert((seq!['\\', 'r'] + b).skip(2) =~= b);
    assert((seq!['\\', '"'] + b).skip(2) =~= b);
    assert((seq!['\\', '\\'] + b).skip(2) =~= b);
    assert((seq!['\\', e] + b)[1] == e);
}

/// Decimal numerals read as the integers they name, within 64 bits: each
/// digit alone (`0` among them) is its value; one more digit `d` after a
/// numeral that does not start with `0` multiplies its value by ten and adds
/// `d`; a leading `-` negates and a leading `+` changes nothing; a numeral of
/// two digits or more that starts with `0` is refused.
pub proof fn law_decimal_numerals(u: Seq<char>, d: char)
    requires
        '0' <= d <= '9',
        forall|i: int| 0 <= i < u.len() ==> '0' <= #[trigger] u[i] <= '9',
    ensures
        dec_int(seq![d]) == Some(d as int - 48),
        u.len() > 0 && u[0] != '0' ==> match dec_int(u) {
            Some(x) => i64::MIN <= 10 * x + (d as int - 48) <= i64::MAX ==> dec_int(u.push(d))
                == Some(10 * x + (d as int - 48)),
            None => true,
        },
        u.len() > 0 && 0 <= uvalue(u) ==> match dec_int(u) {
            Some(x) => dec_int(seq!['+'] + u) == Some(x) && (x > 0 ==> dec_int(seq!['-'] + u)
                == Some(-x)),
            None => true,
        },
        u.len() >= 1 ==> dec_int(seq!['0'] + u) is None,
{
    let one = seq![d];
    assert(one.drop_last() =~= Seq::<char>::empty());
    assert(unsigned_ok(one));
    assert(uvalue(one) == 10 * uvalue(one.drop_last()) + (d as int - 48));
    if u.len() > 0 {
        let v = u.push(d);
        assert(v.drop_last() =~= u);
        if u[0] != '0' && dec_int(u) is Some {
            assert(!(u[0] == '-' || u[0] == '+'));
            assert(unsigned_ok(v)) by {
                assert forall|i: int| 0 <= i < v.len() implies is_dchar(#[trigger] v[i]) by {
                    if i < u.len() {
                        assert(v[i] == u[i]);
                    }
                }
            }
        }
        let plus = seq!['+'] + u;
        let minus = seq!['-'] + u;
        assert(plus.drop_first() =~= u);
        assert(minus.drop_first() =~= u);
        let z = seq!['0'] + u;
        assert(z[0] == '0' && z.len() >= 2);
    }
}

/// The value of a hexadecimal digit character: `0`-`9`, `a`-`f` or `A`-`F`
/// (any other character counts as -1).
pub open spec fn hex_worth(c: char) -> int {
    if '0' <= c <= '9' {
        c as int - 48
    } else if 'a' <= c <= 'f' {
        c as int - 87
    } else if 'A' <= c <= 'F' {
        c as int - 55
    } else {
        -1
    }
}

/// A `\uXXXX` escape stands for the character whose code the four
/// hexadecimal digits spell, most significant first, when that code is no
/// surrogate; the body after it is read as it would be alone. A surrogate
/// code is refused.
pub proof fn law_unicode_escape(h: Seq<char>, b: Seq<char>)
    requires
        h.len() == 4,
        forall|i: int| 0 <= i < 4 ==> hex_worth(#[trigger] h[i]) >= 0,
    ensures
        ({
            let v = 4096 * hex_worth(h[0]) + 256 * hex_worth(h[1]) + 16 * hex_worth(h[2])
                + hex_worth(h[3]);
            let s = seq!['\\', 'u'] + h + b;
            &&& !(0xD800 <= v <= 0xDFFF) ==> match unescape(b) {
                Ok(r) => unescape(s) == Ok::<Seq<char>, int>(seq![v as char] + r),
                Err(i) => unescape(s) == Err::<Seq<char>, int>(i + 6),
            }
            &&& 0xD800 <= v <= 0xDFFF ==> unescape(s) == Err::<Seq<char>, int>(0)
        }),
{
    let s = seq!['\\', 'u'] + h + b;
    assert(s.subrange(2, 6) =~= h);
    assert(s.skip(6) =~= b);
    assert(s[0] == '\\' && s[1] == 'u');
    assert(h.drop_last() =~= h.take(3));
    assert(h.take(3).drop_last() =~= h.take(2));
    assert(h.take(2).drop_last() =~= h.take(1));
    assert(h.take(1).drop_last() =~= Seq::<char>::empty());
    assert(h.take(1).last() == h[0]);
    assert(h.take(2).last() == h[1]);
    assert(h.take(3).last() == h[2]);
    assert(hex_worth(h[0]) >= 0 && hex_worth(h[1]) >= 0 && hex_worth(h[2]) >= 0 && hex_worth(h[3])
        >= 0);
    assert forall|i: int| 0 <= i < 4 implies hex_digit(#[trigger] h[i]) == Some(hex_worth(h[i])) by {
        assert(hex_worth(h[i]) >= 0);
    }
    assert(hex_digit(h[0]) == Some(hex_worth(h[0])));
    assert(hex_digit(h[1]) == Some(hex_worth(h[1])));
    assert(hex_digit(h[2]) == Some(hex_worth(h[2])));
    assert(hex_digit(h[3]) == Some(hex_worth(h[3])));
    assert(hex_value(Seq::<char>::empty()) == Some(0int));
    assert(hex_value(h.take(1)) == Some(hex_worth(h[0])));
    assert(hex_value(h.take(2)) == Some(16 * hex_worth(h[0]) + hex_worth(h[1])));
    assert(hex_value(h.take(3)) == Some(256 * hex_worth(h[0]) + 16 * hex_worth(h[1]) + hex_worth(h[2])));
    assert(h.last() == h[3]);
    assert(hex_value(h) == Some(
        4096 * hex_worth(h[0]) + 256 * hex_worth(h[1]) + 16 * hex_worth(h[2]) + hex_worth(h[3]),
    ));
}

/// Numerals with a base prefix (`0x` hexadecimal, `0o` octal, `0b`
/// binary) read as the integers they name, within 64 bits: a prefix and one
/// digit of its base is that digit's value, a digit outside the base is
/// refused, and one more digit `d` after such a numeral multiplies its value
/// by the base and adds `d`.
pub proof fn law_prefixed_numerals(l: char, u: Seq<char>, d: char)
    requires
        l == 'x' || l == 'o' || l == 'b',
    ensures
        ({
            let base: int = if l == 'x' {
                16
            } else if l == 'o' {
                8
            } else {
                2
            };
            let w = hex_worth(d);
            let t = seq!['0', l] + u;
            &&& 0 <= w < base ==> based_int(seq!['0', l, d]) == Some(w)
            &&& !(0 <= w < base) && d != '_' ==> based_int(seq!['0', l, d]) is None
            &&& (0 <= w < base && based_int(t) is Some && base * based_int(t)->0 + w <= i64::MAX)
                ==> based_int(t.push(d)) == Some(base * based_int(t)->0 + w)
        }),
{
    let base: int = if l == 'x' {
        16
    } else if l == 'o' {
        8
    } else {
        2
    };
    let one = seq!['0', l, d];
    assert(prefix_base(one) == base);
    let g = one.skip(2);
    assert(g =~= seq![d]);
    assert(g.drop_last() =~= Seq::<char>::empty());
    if 0 <= hex_worth(d) {
        assert(hex_digit(d) == Some(hex_worth(d)));
    } else {
        assert(hex_digit(d) is None);
    }
    if 0 <= hex_worth(d) < base {
        assert(base_digit(d, base) == Some(hex_worth(d)));
        assert(g[0] == d && g.last() == d);
        assert forall|i: int| 0 <= i < g.len() implies #[trigger] digit_or_sep(g, base, i) by {
            assert(i == 0);
        }
        assert(based_digits_ok(g, base));
        assert(based_value(g, base) == base * based_value(g.drop_last(), base) + hex_worth(d));
    } else {
        assert(base_digit(d, base) is None);
        assert(!based_digits_ok(g, base));
    }
    let t = seq!['0', l] + u;
    assert(prefix_base(t) == base);
    if based_int(t) is Some && 0 <= hex_worth(d) < base {
        let v = t.push(d);
        assert(prefix_base(v) == base);
        let tu = t.skip(2);
        let vu = v.skip(2);
        assert(tu =~= u);
        assert(vu =~= u.push(d));
        assert(vu.drop_last() =~= u);
        assert(based_digits_ok(vu, base)) by {
            assert forall|i: int| 0 <= i < vu.len() implies #[trigger] digit_or_sep(vu, base, i) by {
                if i < u.len() {
                    assert(vu[i] == u[i]);
                    assert(digit_or_sep(u, base, i));
                    if i + 1 < u.len() {
                        assert(vu[i + 1] == u[i + 1]);
                    }
                    if i > 0 {
                        assert(vu[i - 1] == u[i - 1]);
                    }
                    if u[i] == '_' {
                        assert(i + 1 < u.len());
                    }
                }
            }
            assert(vu[0] == u[0]);
        }
    }
}

/// Calls `char::from_u32`, which gives the character whose code is `u` when
/// `u` is a Unicode scalar value, and nothing otherwise.
#[verifier::external_body]
fn char_from_u32(u: u32) -> (c: Option<char>)
    ensures
        c is Some <==> is_scalar_value(u as int),
        c matches Some(ch) ==> ch as u32 == u,
{
    char::from_u32(u)
}

/// Calls `<char as ToString>::to_string`, which gives the one-character
/// string of `c`.
#[verifier::external_body]
fn char_to_string(c: char) -> (s: String)
    ensures
        s@ == seq![c],
{
    c.to_string()
}

/// The value of the hexadecimal digits `b[i..i + w]`, if they are such.
fn read_hex(b: &str, i: usize, w: usize) -> (r: Option<u32>)
    requires
        i + w <= b@.len() <= usize::MAX,
        w <= 8,
    ensures
        match r {
            Some(u) => hex_value(b@.subrange(i as int, i + w)) == Some(u as int),
            None => hex_value(b@.subrange(i as int, i + w)) is None,
        },
{
    let mut acc: u32 = 0;
    let mut k: usize = 0;
    while k < w
        invariant
            k <= w <= 8,
            i + w <= b@.len() <= usize::MAX,
            hex_value(b@.subrange(i as int, i + k)) == Some(acc as int),
            acc < pow16(k as nat),
        decreases w - k,
    {
        let ch = b.get_char(i + k);
        proof {
            assert(b@.subrange(i as int, i + k + 1).drop_last() =~= b@.subrange(i as int, i + k));
            assert(b@.subrange(i as int, i + k + 1).last() == ch);
            lemma_pow16(k as nat);
        }
        let d: u32 = if ch >= '0' && ch <= '9' {
            (ch as u32) - 48
        } else if ch >= 'a' && ch <= 'f' {
            (ch as u32) - 87
        } else if ch >= 'A' && ch <= 'F' {
            (ch as u32) - 55
        } else {
            proof {
                assert(b@.subrange(i as int, i + w)[k as int] == ch);
                lemma_hex_none(b@.subrange(i as int, i + w), k as int);
            }
            return None;
        };
        proof {
            assert(acc * 16 + d < 16 * pow16(k as nat)) by (nonlinear_arith)
                requires
                    acc < pow16(k as nat),
                    d < 16,
            ;
        }
        acc = acc * 16 + d;
        k += 1;
    }
    Some(acc)
}

/// Hexadecimal digits with a non-digit among them spell nothing.
proof fn lemma_hex_none(s: Seq<char>, k: int)
    requires
        0 <= k < s.len(),
        hex_digit(s[k]) is None,
    ensures
        hex_value(s) is None,
    decreases s.len(),
{
    if k < s.len() - 1 {
        assert(s.drop_last()[k] == s[k]);
        lemma_hex_none(s.drop_last(), k);
    }
}

/// 16 to the power `k`.
pub open spec fn pow16(k: nat) -> int
    decreases k,
{
    if k == 0 {
        1
    } else {
        16 * pow16((k - 1) as nat)
    }
}

proof fn lemma_pow16(k: nat)
    requires
        k < 8,
    ensures
        16 * pow16(k) <= 0x1_0000_0000,
        pow16(k + 1) == 16 * pow16(k),
{
    reveal_with_fuel(pow16, 9);
    assert(k == 0 || k == 1 || k == 2 || k == 3 || k == 4 || k == 5 || k == 6 || k == 7);
}

/// Replaces the escape sequences of a basic string body (see `unescape`).
fn unescape_str(b: &str) -> (r: Result<String, usize>)
    ensures
        match unescape(b@) {
            Ok(d) => r matches Ok(s) && s@ == d,
            Err(i) => r == Err::<String, usize>(i as usize),
        },
{
    let n = b.unicode_len();
    let mut out = String::new();
    let mut i: usize = 0;
    proof {
        reveal_strlit("\x08");
        reveal_strlit("\t");
        reveal_strlit("\n");
        reveal_strlit("\x0c");
        reveal_strlit("\r");
        reveal_strlit("\"");
        reveal_strlit("\\");
        reveal_strlit("");
        assert(b@.skip(0) =~= b@);
    }
    while i < n
        invariant
            n == b@.len(),
            i <= n,
            unescape(b@) == match unescape(b@.skip(i as int)) {
                Ok(r) => Ok(out@ + r),
                Err(k) => Err(k + i),
            },
        decreases n - i,
    {
        let ghost s = b@.skip(i as int);
        let ch = b.get_char(i);
        proof {
            assert(s[0] == ch);
        }
        let ghost before = out@;
        if ch != '\\' {
            let one = b.substring_char(i, i + 1);
            out.append(one);
            proof {
                assert(s.drop_first() =~= b@.skip(i + 1));
                assert(one@ =~= seq![ch]);
                match unescape(b@.skip(i + 1)) {
                    Ok(r) => {
                        assert(out@ + r =~= before + (seq![ch] + r));
                    },
                    Err(_) => {},
                }
            }
            i += 1;
        } else {
            if i + 1 >= n {
                return Err(i);
            }
            let e = b.get_char(i + 1);
            proof {
                reveal_strlit("\x08");
                reveal_strlit("\t");
                reveal_strlit("\n");
                reveal_strlit("\x0c");
                reveal_strlit("\r");
                reveal_strlit("\"");
                reveal_strlit("\\");
                reveal_strlit("");
                assert(s[1] == e);
                assert(s.skip(2) =~= b@.skip(i + 2));
            }
            let lit: &str = if e == 'b' {
                "\x08"
            } else if e == 't' {
                "\t"
            } else if e == 'n' {
                "\n"
            } else if e == 'f' {
                "\x0c"
            } else if e == 'r' {
                "\r"
            } else if e == '"' {
                "\""
            } else if e == '\\' {
                "\\"
            } else {
                ""
            };
            if lit.unicode_len() == 1 {
                proof {
                    assert(simple_escape(e) is Some);
                    assert(lit@ == seq![simple_escape(e)->0]);
                }
                out.append(lit);
                proof {
                    match unescape(b@.skip(i + 2)) {
                        Ok(r) => {
                            assert(out@ + r =~= before + (seq![simple_escape(e)->0] + r));
                        },
                        Err(_) => {},
                    }
                }
                i += 2;
            } else if e == 'u' || e == 'U' {
                let w: usize = if e == 'u' {
                    4
                } else {
                    8
                };
                if w > n - i - 2 {
                    return Err(i);
                }
                proof {
                    assert(s.subrange(2, 2 + w as int) =~= b@.subrange(i + 2, i + 2 + w));
                    assert(s.skip(2 + w as int) =~= b@.skip(i + 2 + w));
                }
                let code = match read_hex(b, i + 2, w) {
                    Some(u) => u,
                    None => {
                        return Err(i);
                    },
                };
                let c = match char_from_u32(code) {
                    Some(c) => c,
                    None => {
                        return Err(i);
                    },
                };
                proof {
                    vstd::utf8::char_u32_cast(c, code);
                    assert(code as char == c);
                    assert((code as int) as char == c);
                }
                let one = char_to_string(c);
                out.append(one.as_str());
                proof {
                    match unescape(b@.skip(i + 2 + w)) {
                        Ok(r) => {
                            assert(out@ + r =~= before + (seq![c] + r));
                        },
                        Err(_) => {},
                    }
                }
                i += 2 + w;
            } else {
                proof {
                    assert(simple_escape(e) is None);
                }
                return Err(i);
            }
        }
    }
    proof {
        assert(b@.skip(i as int) =~= Seq::<char>::empty());
        assert(out@ + Seq::<char>::empty() =~= out@);
    }
    Ok(out)
}

/// What reading a key at an index gives.
pub enum KeyRead {
    /// No key starts there.
    Missing,
    /// The key, and the index where it ends.
    Got(Seq<char>, int),
    /// A malformed quoted key: the message and the index of the fault.
    Bad(Seq<char>, int),
}

/// The key at index `p` of `c`: a bare key, a literal key in single quotes,
/// or a basic key in double quotes, whose escape sequences are replaced.
pub open spec fn key_token(c: Seq<char>, p: int) -> KeyRead {
    let s = c.skip(p);
    let n = key_len(s) as int;
    if n > 0 {
        KeyRead::Got(s.take(n), p + n)
    } else if s.len() > 0 && s[0] == '\'' {
        let body = s.drop_first();
        let m = literal_stop(body) as int;
        if m == body.len() {
            KeyRead::Bad("Unterminated literal string"@, p + 1 + m)
        } else if body[m] == '\'' {
            KeyRead::Got(body.take(m), p + 2 + m)
        } else {
            KeyRead::Bad("Invalid character in literal string"@, p + 1 + m)
        }
    } else if s.len() > 0 && s[0] == '"' {
        let body = s.drop_first();
        let m = basic_stop(body) as int;
        if m == body.len() {
            KeyRead::Bad("Unterminated basic string"@, p + 1 + m)
        } else if body[m] == '"' {
            match unescape(body.take(m)) {
                Ok(d) => KeyRead::Got(d, p + 2 + m),
                Err(_) => KeyRead::Bad("Unescaped '\\' in a string"@, p + 1),
            }
        } else {
            KeyRead::Bad("Invalid character in basic string"@, p + 1 + m)
        }
    } else {
        KeyRead::Missing
    }
}

/// A key ends after it starts, within the document; a fault lies within it.
pub proof fn lemma_key_token_bounds(c: Seq<char>, p: int)
    requires
        0 <= p <= c.len(),
    ensures
        key_token(c, p) matches KeyRead::Got(_, e) ==> p < e <= c.len(),
        key_token(c, p) matches KeyRead::Bad(_, q) ==> p <= q <= c.len(),
{
    let s = c.skip(p);
    lemma_span_bound(s, |ch: char| is_bare_key_char(ch));
    if s.len() > 0 && (s[0] == '\'' || s[0] == '"') {
        let body = s.drop_first();
        lemma_span_bound(body, |ch: char| !ends_literal(ch));
        lemma_basic_stop(body);
    }
}

/// What a single (non-table, non-array) value is.
pub enum ValueModel {
    Str(Seq<char>),
    Int(int),
    /// A float, by the bits of its binary64 value.
    Float(u64),
    Bool(bool),
    Dt(Datetime),
}

/// What a single value `v` is (see `is_leaf`); a table or an array has no
/// such model and is described by a `Tree` instead.
pub open spec fn value_model(v: Value) -> ValueModel {
    match v {
        Value::Integer(i) => ValueModel::Int(i as int),
        Value::Float(b) => ValueModel::Float(b),
        Value::Boolean(b) => ValueModel::Bool(b),
        Value::String(s) => ValueModel::Str(s@),
        Value::Datetime(d) => ValueModel::Dt(d),
        Value::Array(_) => ValueModel::Str(Seq::empty()),
        Value::Table(_) => ValueModel::Str(Seq::empty()),
    }
}

pub open spec fn is_dchar(ch: char) -> bool {
    '0' <= ch <= '9'
}

/// The digits of a decimal integer without its sign: no leading zero, and
/// underscores only between digits.
pub open spec fn unsigned_ok(u: Seq<char>) -> bool {
    &&& u.len() >= 1
    &&& is_dchar(u[0])
    &&& is_dchar(u.last())
    &&& (u[0] == '0' ==> u.len() == 1)
    &&& forall|i: int|
        0 <= i < u.len() ==> is_dchar(#[trigger] u[i]) || (u[i] == '_' && 0 < i < u.len() - 1
            && is_dchar(u[i - 1]) && is_dchar(u[i + 1]))
}

/// The number that digits (and underscores, which count for nothing) spell.
pub open spec fn uvalue(u: Seq<char>) -> int
    decreases u.len(),
{
    if u.len() == 0 {
        0
    } else if u.last() == '_' {
        uvalue(u.drop_last())
    } else {
        10 * uvalue(u.drop_last()) + (u.last() as int - 48)
    }
}

/// The decimal integer that `t` is, all of it, when it fits 64 signed bits.
pub open spec fn dec_int(t: Seq<char>) -> Option<int> {
    let signed = t.len() > 0 && (t[0] == '-' || t[0] == '+');
    let u = if signed {
        t.drop_first()
    } else {
        t
    };
    if !unsigned_ok(u) {
        None
    } else {
        let x = if t.len() > 0 && t[0] == '-' {
            -uvalue(u)
        } else {
            uvalue(u)
        };
        if i64::MIN <= x <= i64::MAX {
            Some(x)
        } else {
            None
        }
    }
}

/// The value of `ch` as a digit of base `b` (2, 8 or 16), if it is one.
pub open spec fn base_digit(ch: char, b: int) -> Option<int> {
    match hex_digit(ch) {
        Some(d) => if d < b {
            Some(d)
        } else {
            None
        },
        None => None,
    }
}

/// Character `i` of `u` is a digit of base `b`, or an underscore between two.
pub open spec fn digit_or_sep(u: Seq<char>, b: int, i: int) -> bool {
    base_digit(u[i], b) is Some || (u[i] == '_' && 0 < i < u.len() - 1 && base_digit(u[i - 1], b)
        is Some && base_digit(u[i + 1], b) is Some)
}

/// Digits of base `b`, with underscores only between digits.
pub open spec fn based_digits_ok(u: Seq<char>, b: int) -> bool {
    &&& u.len() >= 1
    &&& base_digit(u[0], b) is Some
    &&& base_digit(u.last(), b) is Some
    &&& forall|i: int| 0 <= i < u.len() ==> #[trigger] digit_or_sep(u, b, i)
}

/// The number that digits of base `b` (and underscores, which count for
/// nothing) spell.
pub open spec fn based_value(u: Seq<char>, b: int) -> int
    decreases u.len(),
{
    if u.len() == 0 {
        0
    } else if u.last() == '_' {
        based_value(u.drop_last(), b)
    } else {
        b * based_value(u.drop_last(), b) + base_digit(u.last(), b).unwrap_or(0)
    }
}

/// The base that the prefix `0x`, `0o` or `0b` of `t` names (0 for none).
pub open spec fn prefix_base(t: Seq<char>) -> int {
    if t.len() >= 2 && t[0] == '0' && t[1] == 'x' {
        16
    } else if t.len() >= 2 && t[0] == '0' && t[1] == 'o' {
        8
    } else if t.len() >= 2 && t[0] == '0' && t[1] == 'b' {
        2
    } else {
        0
    }
}

/// The hexadecimal (`0x`), octal (`0o`) or binary (`0b`) integer that `t`
/// is, all of it, when it fits 64 signed bits.
pub open spec fn based_int(t: Seq<char>) -> Option<int> {
    let b = prefix_base(t);
    if b == 0 || !based_digits_ok(t.skip(2), b) || based_value(t.skip(2), b) > i64::MAX {
        None
    } else {
        Some(based_value(t.skip(2), b))
    }
}

/// Digits of base `b` spell at least as much as any of their prefixes.
proof fn lemma_based_mono(u: Seq<char>, b: int, i: int)
    requires
        0 <= i <= u.len(),
        2 <= b,
        forall|k: int| 0 <= k < u.len() ==> base_digit(#[trigger] u[k], b) is Some || u[k] == '_',
    ensures
        0 <= based_value(u.take(i), b) <= based_value(u, b),
    decreases u.len(),
{
    if u.len() > 0 {
        let p = u.drop_last();
        assert forall|k: int| 0 <= k < p.len() implies base_digit(#[trigger] p[k], b) is Some
            || p[k] == '_' by {
            assert(p[k] == u[k]);
        }
        if i < u.len() {
            assert(p.take(i) =~= u.take(i));
            lemma_based_mono(p, b, i);
        } else {
            lemma_based_mono(p, b, p.len() as int);
            assert(p.take(p.len() as int) =~= p);
        }
        let x = based_value(p, b);
        if u.last() != '_' {
            let d = base_digit(u.last(), b).unwrap_or(0);
            assert(d >= 0) by {
                assert(base_digit(u[u.len() - 1], b) is Some || u[u.len() - 1] == '_');
            }
            assert(b * x >= x) by (nonlinear_arith)
                requires
                    b >= 2,
                    x >= 0,
            ;
        }
        if i == u.len() {
            assert(u.take(i) =~= u);
        }
    } else {
        assert(u.take(i) =~= u);
    }
}

/// One more character of digits of base `b`.
proof fn lemma_based_step(u: Seq<char>, b: int, m: int)
    requires
        0 <= m < u.len(),
    ensures
        based_value(u.take(m + 1), b) == if u[m] == '_' {
            based_value(u.take(m), b)
        } else {
            b * based_value(u.take(m), b) + base_digit(u[m], b).unwrap_or(0)
        },
{
    assert(u.take(m + 1).drop_last() =~= u.take(m));
    assert(u.take(m + 1).last() == u[m]);
}

/// The digit value of `ch` in base `b`, as `base_digit` says.
fn digit_in_base(ch: char, b: u32) -> (r: Option<u32>)
    ensures
        match base_digit(ch, b as int) {
            Some(d) => r == Some(d as u32),
            None => r is None,
        },
{
    let d: u32 = if ch >= '0' && ch <= '9' {
        ch as u32 - 48
    } else if ch >= 'a' && ch <= 'f' {
        ch as u32 - 87
    } else if ch >= 'A' && ch <= 'F' {
        ch as u32 - 55
    } else {
        return None;
    };
    if d < b {
        Some(d)
    } else {
        None
    }
}

/// Reads all of `tok` as a hexadecimal, octal or binary integer (see `based_int`).
#[verifier::rlimit(30)]
fn parse_based_int(tok: &str) -> (r: Option<i64>)
    ensures
        match r {
            Some(i) => based_int(tok@) == Some(i as int),
            None => based_int(tok@) is None,
        },
{
    let ghost t = tok@;
    let n = tok.unicode_len();
    if n < 2 {
        return None;
    }
    let z = tok.get_char(0);
    if z != '0' {
        proof {
            assert(t[0] == z);
        }
        return None;
    }
    let p = tok.get_char(1);
    proof {
        assert(t[0] == '0' && t[1] == p);
    }
    let b: u32 = if p == 'x' {
        16
    } else if p == 'o' {
        8
    } else if p == 'b' {
        2
    } else {
        return None;
    };
    let ghost u = t.skip(2);
    proof {
        assert(prefix_base(t) == b as int);
    }
    if n == 2 {
        proof {
            assert(u.len() == 0);
        }
        return None;
    }
    let mut acc: u128 = 0;
    let mut i: usize = 2;
    while i < n
        invariant
            n == t.len(),
            t == tok@,
            2 < n,
            2 <= i <= n,
            b == 2 || b == 8 || b == 16,
            prefix_base(t) == b as int,
            u == t.skip(2),
            acc == based_value(u.take(i - 2), b as int),
            acc <= 0x7fff_ffff_ffff_ffffu128,
            forall|k: int| 0 <= k < i - 2 ==> #[trigger] digit_or_sep(u, b as int, k),
        decreases n - i,
    {
        let ch = tok.get_char(i);
        let ghost m = i - 2;
        proof {
            assert(u[m] == ch);
            lemma_based_step(u, b as int, m);
        }
        match digit_in_base(ch, b) {
            Some(d) => {
                proof {
                    assert((b as u128) * acc <= 16 * 0x7fff_ffff_ffff_ffffu128) by (nonlinear_arith)
                        requires
                            acc <= 0x7fff_ffff_ffff_ffffu128,
                            b <= 16,
                    ;
                }
                acc = (b as u128) * acc + (d as u128);
                proof {
                    assert(acc == based_value(u.take(m + 1), b as int));
                    assert(digit_or_sep(u, b as int, m));
                }
                if acc > 0x7fff_ffff_ffff_ffffu128 {
                    proof {
                        if based_digits_ok(u, b as int) {
                            assert forall|k: int| 0 <= k < u.len() implies base_digit(
                                #[trigger] u[k],
                                b as int,
                            ) is Some || u[k] == '_' by {
                                assert(digit_or_sep(u, b as int, k));
                            }
                            lemma_based_mono(u, b as int, m + 1);
                        }
                    }
                    return None;
                }
            },
            None => {
                if ch != '_' || i == 2 || i + 1 >= n {
                    proof {
                        if based_digits_ok(u, b as int) {
                            assert(digit_or_sep(u, b as int, m));
                        }
                    }
                    return None;
                }
                let prev = tok.get_char(i - 1);
                let next = tok.get_char(i + 1);
                proof {
                    assert(u[m - 1] == prev);
                    assert(u[m + 1] == next);
                }
                if digit_in_base(prev, b).is_none() || digit_in_base(next, b).is_none() {
                    proof {
                        if based_digits_ok(u, b as int) {
                            assert(digit_or_sep(u, b as int, m));
                        }
                    }
                    return None;
                }
                proof {
                    assert(acc == based_value(u.take(m + 1), b as int));
                    assert(digit_or_sep(u, b as int, m));
                }
            },
        }
        i += 1;
    }
    proof {
        assert(u.take(i - 2) =~= u);
        assert(based_digits_ok(u, b as int)) by {
            assert(digit_or_sep(u, b as int, 0));
            assert(digit_or_sep(u, b as int, u.len() - 1));
            assert(base_digit(u[0], b as int) is Some);
            assert(base_digit(u.last(), b as int) is Some);
        }
    }
    Some(acc as i64)
}

/// The integer that the token `t` is: decimal, or hexadecimal, octal or
/// binary with its prefix.
pub open spec fn int_token(t: Seq<char>) -> Option<int> {
    match dec_int(t) {
        Some(i) => Some(i),
        None => based_int(t),
    }
}

/// Reads all of `tok` as an integer (see `int_token`).
fn parse_integer(tok: &str) -> (r: Option<i64>)
    ensures
        match r {
            Some(i) => int_token(tok@) == Some(i as int),
            None => int_token(tok@) is None,
        },
{
    match parse_dec_int(tok) {
        Some(i) => Some(i),
        None => parse_based_int(tok),
    }
}

/// Characters that end a bare value token.
pub open spec fn ends_token(ch: char) -> bool {
    is_blank(ch) || ch == '\n' || ch == '\r' || ch == '#'
}

/// The number of leading characters of a bare value token.
pub open spec fn token_len(s: Seq<char>) -> nat {
    span(s, |ch: char| !ends_token(ch))
}

/// Control characters that may not stand in a multi-line literal string:
/// all but tab, newline and carriage return.
pub open spec fn ml_illegal(ch: char) -> bool {
    ((ch as u32) < 0x20 && ch != '\t' && ch != '\n' && ch != '\r') || (ch as u32) == 0x7f
}

/// Three single quotes.
pub open spec fn three_quotes() -> Seq<char> {
    seq!['\'', '\'', '\'']
}

/// The number of characters of a multi-line literal string's body before its
/// closing quotes or its first illegal character (all of `s` if neither comes).
pub open spec fn ml_literal_stop(s: Seq<char>) -> nat
    decreases s.len(),
{
    if s.len() == 0 || three_quotes().is_prefix_of(s) || ml_illegal(s[0]) {
        0
    } else {
        1 + ml_literal_stop(s.drop_first())
    }
}

/// The length of the newline that may follow the opening quotes.
pub open spec fn leading_newline(s: Seq<char>) -> int {
    if seq!['\r', '\n'].is_prefix_of(s) {
        2
    } else if seq!['\n'].is_prefix_of(s) {
        1
    } else {
        0
    }
}

/// The quotes (two at most) right after the closing quotes, which belong to
/// the string.
pub open spec fn extra_quotes(s: Seq<char>) -> int {
    if seq!['\'', '\''].is_prefix_of(s) {
        2
    } else if seq!['\''].is_prefix_of(s) {
        1
    } else {
        0
    }
}

/// The multi-line literal string at index `v` of `c`, which starts with three
/// single quotes: a newline right after them is dropped, the body runs to the
/// next three single quotes (one or two more quotes after those end the
/// body), and holds no control character but tab, newline and carriage
/// return. Gives the text and the index after it, or the error message and
/// the index of the fault.
pub open spec fn ml_literal_result(c: Seq<char>, v: int) -> Result<
    (Seq<char>, int),
    (Seq<char>, int),
> {
    let b0 = v + 3 + leading_newline(c.skip(v + 3));
    let body = c.skip(b0);
    let m = ml_literal_stop(body) as int;
    if m == body.len() {
        Err(("Unterminated literal string"@, b0 + m))
    } else if ml_illegal(body[m]) {
        Err(("Invalid character in literal string"@, b0 + m))
    } else {
        let e = b0 + m + 3;
        let x = extra_quotes(c.skip(e));
        Ok((body.take(m) + c.subrange(e, e + x), e + x))
    }
}

/// Where a multi-line literal string's body stops: within it, at an illegal
/// character or at three quotes.
proof fn lemma_ml_literal_stop(s: Seq<char>)
    ensures
        ml_literal_stop(s) <= s.len(),
        ml_literal_stop(s) < s.len() ==> ml_illegal(s[ml_literal_stop(s) as int])
            || three_quotes().is_prefix_of(s.skip(ml_literal_stop(s) as int)),
    decreases s.len(),
{
    if s.len() > 0 && !three_quotes().is_prefix_of(s) && !ml_illegal(s[0]) {
        lemma_ml_literal_stop(s.drop_first());
        let k = ml_literal_stop(s.drop_first()) as int;
        assert(s.drop_first().skip(k) =~= s.skip(k + 1));
    } else {
        assert(s.skip(0) =~= s);
    }
}

/// A multi-line literal string ends after it starts, within the document; a
/// fault lies within it.
proof fn lemma_ml_literal_bounds(c: Seq<char>, v: int)
    requires
        0 <= v,
        v + 3 <= c.len(),
    ensures
        ml_literal_result(c, v) matches Ok((_, e)) ==> v < e <= c.len(),
        ml_literal_result(c, v) matches Err((_, q)) ==> v <= q <= c.len(),
{
    let b0 = v + 3 + leading_newline(c.skip(v + 3));
    assert(b0 <= c.len()) by {
        if seq!['\r', '\n'].is_prefix_of(c.skip(v + 3)) {
        } else if seq!['\n'].is_prefix_of(c.skip(v + 3)) {
        }
    }
    let body = c.skip(b0);
    lemma_ml_literal_stop(body);
    let m = ml_literal_stop(body) as int;
    if m < body.len() && !ml_illegal(body[m]) {
        assert(b0 + m + 3 <= c.len());
        let e = b0 + m + 3;
        if seq!['\'', '\''].is_prefix_of(c.skip(e)) {
        } else if seq!['\''].is_prefix_of(c.skip(e)) {
        }
    }
}

/// The value at index `v` of `c`. `Ok((Some(m), e))`: the value (a boolean,
/// a one-line or multi-line literal string, a one-line basic string, a
/// decimal, hexadecimal, octal or binary integer, or an RFC 3339 datetime) is
/// read, stands for `m`, and ends at `e`; a date followed by a space and a
/// digit is read together with the time after the space. `Ok((None, p))`: the
/// value is of a kind that the parser does not read (floats, arrays, inline
/// tables, multi-line basic strings), or a date and a time that do not make a
/// datetime, and reading it stopped at `p`. `Err`: a string in it is malformed, with the
/// message and the index of the fault.
#[verifier::opaque]
pub open spec fn value_result(c: Seq<char>, v: int) -> Result<
    (Option<ValueModel>, int),
    (Seq<char>, int),
> {
    let s = c.skip(v);
    if seq!['t', 'r', 'u', 'e'].is_prefix_of(s) {
        Ok((Some(ValueModel::Bool(true)), v + 4))
    } else if seq!['f', 'a', 'l', 's', 'e'].is_prefix_of(s) {
        Ok((Some(ValueModel::Bool(false)), v + 5))
    } else if s.len() > 0 && s[0] == '\'' {
        if three_quotes().is_prefix_of(s) {
            match ml_literal_result(c, v) {
                Ok((t, e)) => Ok((Some(ValueModel::Str(t)), e)),
                Err(x) => Err(x),
            }
        } else {
            let body = s.drop_first();
            let m = literal_stop(body) as int;
            if m == body.len() {
                Err(("Unterminated literal string"@, v + 1 + m))
            } else if body[m] == '\'' {
                Ok((Some(ValueModel::Str(body.take(m))), v + 2 + m))
            } else {
                Err(("Invalid character in literal string"@, v + 1 + m))
            }
        }
    } else if s.len() > 0 && s[0] == '"' {
        if seq!['"', '"', '"'].is_prefix_of(s) {
            Ok((None, v))
        } else {
            let body = s.drop_first();
            let m = basic_stop(body) as int;
            if m == body.len() {
                Err(("Unterminated basic string"@, v + 1 + m))
            } else if body[m] == '"' {
                match unescape(body.take(m)) {
                    Ok(d) => Ok((Some(ValueModel::Str(d)), v + 2 + m)),
                    Err(_) => Err(("Unescaped '\\' in a string"@, v + 1)),
                }
            } else {
                Err(("Invalid character in basic string"@, v + 1 + m))
            }
        }
    } else {
        Ok(bare_value_result(c, v))
    }
}

/// The bare value (no quotes) at index `v` of `c`: a token up to a blank,
/// a newline, a carriage return or a comment, read as an integer or an RFC
/// 3339 datetime; a date followed by a space and a digit is read together
/// with the time after the space. Gives what it stands for (nothing when it
/// is neither) and the index where reading stopped.
pub open spec fn bare_value_result(c: Seq<char>, v: int) -> (Option<ValueModel>, int) {
    let s = c.skip(v);
    let n = token_len(s) as int;
    match int_token(s.take(n)) {
        Some(i) => (Some(ValueModel::Int(i)), v + n),
        None => match datetime_spec(encode_utf8(s.take(n))) {
            Some(d) => if d is LocalDate && space_then_digit(s.skip(n)) {
                let n2 = n + 1 + token_len(s.skip(n + 1)) as int;
                match datetime_spec(encode_utf8(s.take(n2))) {
                    Some(d2) => (Some(ValueModel::Dt(d2)), v + n2),
                    None => (None, v + n2),
                }
            } else {
                (Some(ValueModel::Dt(d)), v + n)
            },
            None => (None, v + n),
        },
    }
}

/// A space followed by a digit: the date of a date-time whose time follows
/// after a space.
pub open spec fn space_then_digit(s: Seq<char>) -> bool {
    s.len() >= 2 && s[0] == ' ' && is_dchar(s[1])
}

/// Digits spell at least as much as any of their prefixes.
proof fn lemma_uvalue_mono(u: Seq<char>, i: int)
    requires
        0 <= i <= u.len(),
        forall|k: int| 0 <= k < u.len() ==> is_dchar(#[trigger] u[k]) || u[k] == '_',
    ensures
        0 <= uvalue(u.take(i)) <= uvalue(u),
    decreases u.len(),
{
    if i < u.len() {
        assert(u.drop_last().take(i) =~= u.take(i));
        lemma_uvalue_mono(u.drop_last(), i);
    } else {
        assert(u.take(i) =~= u);
        if u.len() > 0 {
            lemma_uvalue_mono(u.drop_last(), (u.len() - 1) as int);
            assert(u.drop_last().take(u.len() - 1) =~= u.drop_last());
        }
    }
}

/// A token whose digits are malformed, or spell too large a number, is no
/// 64-bit integer.
proof fn lemma_dec_int_none(t: Seq<char>, start: int)
    requires
        t.len() > 0,
        start == (if t[0] == '-' || t[0] == '+' {
            1int
        } else {
            0int
        }),
        !unsigned_ok(t.skip(start)) || uvalue(t.skip(start)) > 0x8000_0000_0000_0000,
    ensures
        dec_int(t) is None,
{
    if start == 1 {
        assert(t.skip(start) =~= t.drop_first());
    } else {
        assert(t.skip(start) =~= t);
    }
}

/// Reads all of `tok` as a decimal integer (see `dec_int`).
fn parse_dec_int(tok: &str) -> (r: Option<i64>)
    ensures
        match r {
            Some(i) => dec_int(tok@) == Some(i as int),
            None => dec_int(tok@) is None,
        },
{
    let n = tok.unicode_len();
    if n == 0 {
        return None;
    }
    let first = tok.get_char(0);
    let neg = first == '-';
    let start: usize = if neg || first == '+' {
        1
    } else {
        0
    };
    let ghost t = tok@;
    let ghost u = t.skip(start as int);
    assert(first == t[0]);
    proof {
        if start == 1 {
            assert(u =~= t.drop_first());
        } else {
            assert(u =~= t);
        }
    }
    if start >= n {
        return None;
    }
    if n - start >= 2 && tok.get_char(start) == '0' {
        proof {
            assert(u[0] == '0');
        }
        return None;
    }
    let mut acc: u128 = 0;
    let mut i: usize = start;
    while i < n
        invariant
            n == t.len(),
            t.len() > 0,
            start == (if t[0] == '-' || t[0] == '+' {
                1int
            } else {
                0int
            }),
            start <= i <= n,
            start < n,
            t == tok@,
            u == t.skip(start as int),
            acc == uvalue(u.take(i - start)),
            acc <= 0x8000_0000_0000_0000u128,
            n - start >= 2 ==> u[0] != '0',
            forall|k: int|
                0 <= k < i - start ==> is_dchar(#[trigger] u[k]) || (u[k] == '_' && 0 < k < u.len()
                    - 1 && is_dchar(u[k - 1]) && is_dchar(u[k + 1])),
        decreases n - i,
    {
        let ch = tok.get_char(i);
        let ghost m = i - start;
        proof {
            assert(u[m] == ch);
            assert(u.take(m + 1).drop_last() =~= u.take(m));
            assert(u.take(m + 1).last() == ch);
        }
        if ch >= '0' && ch <= '9' {
            let d = (ch as u32 - 48) as u128;
            acc = acc * 10 + d;
            proof {
                assert(uvalue(u.take(m + 1)) == 10 * uvalue(u.take(m)) + (ch as int - 48));
                assert(acc == uvalue(u.take(m + 1)));
            }
            if acc > 0x8000_0000_0000_0000u128 {
                proof {
                    if unsigned_ok(u) {
                        lemma_uvalue_mono(u, m + 1);
                    }
                    lemma_dec_int_none(t, start as int);
                }
                return None;
            }
        } else if ch == '_' {
            if i == start || i + 1 >= n {
                return None;
            }
            let prev = tok.get_char(i - 1);
            let next = tok.get_char(i + 1);
            proof {
                assert(u[m - 1] == prev);
                assert(u[m + 1] == next);
            }
            if !(prev >= '0' && prev <= '9' && next >= '0' && next <= '9') {
                return None;
            }
        } else {
            proof {
                assert(!is_dchar(u[m]) && u[m] != '_');
                lemma_dec_int_none(t, start as int);
            }
            return None;
        }
        i += 1;
    }
    proof {
        assert(u.take(i - start) =~= u);
        assert(unsigned_ok(u)) by {
            assert(is_dchar(u[0]));
            assert(is_dchar(u.last()));
        }
    }
    if neg {
        if acc == 0x8000_0000_0000_0000u128 {
            Some(i64::MIN)
        } else {
            Some(-(acc as i64))
        }
    } else if acc <= 0x7fff_ffff_ffff_ffffu128 {
        Some(acc as i64)
    } else {
        None
    }
}

/// Whether `ch` ends a bare value token.
fn is_token_end(ch: char) -> (b: bool)
    ensures
        b == ends_token(ch),
{
    ch == ' ' || ch == '\t' || ch == '\n' || ch == '\r' || ch == '#'
}

/// ASCII characters that `c` holds at index `v` take one byte each.
proof fn lemma_ascii_lit(c: Seq<char>, v: int, lit: Seq<char>)
    requires
        0 <= v <= c.len(),
        lit.is_prefix_of(c.skip(v)),
        forall|m: int| 0 <= m < lit.len() ==> (#[trigger] lit[m] as u32) < 0x80,
    ensures
        v + lit.len() <= c.len(),
        byte_offset(c, v + lit.len()) == byte_offset(c, v) + lit.len(),
{
    assert forall|m: int| v <= m < v + lit.len() implies (#[trigger] c[m] as u32) < 0x80 by {
        assert(c.skip(v).subrange(0, lit.len() as int)[m - v] == c[m]);
        assert(lit[m - v] == c[m]);
    }
    lemma_ascii_run(c, v, lit.len() as int);
}

/// Whether the header at index `j` of `c` is an array-of-tables header.
pub open spec fn header_is_array(c: Seq<char>, j: int) -> bool {
    seq!['[', '['].is_prefix_of(c.skip(j))
}

/// What the parser builds, as a tree: a value, a table, or an array of tables.
pub enum Tree {
    Leaf(ValueModel),
    Tab(Map<Seq<char>, Tree>),
    Arr(Seq<Tree>),
}

/// A single value: neither a table nor an array.
pub open spec fn is_leaf(v: Value) -> bool {
    !(v is Table) && !(v is Array)
}

/// `v` is what `tr` describes: a leaf with that model, a table whose entries
/// are what the tree's entries describe, or an array of as many elements,
/// each what the tree's element describes.
pub open spec fn holds(v: Value, tr: Tree) -> bool
    decreases tr,
{
    match tr {
        Tree::Leaf(m) => is_leaf(v) && value_model(v) == m,
        Tree::Tab(m) => v is Table && v->Table_0@.dom() == m.dom() && forall|k: Seq<char>|
            #[trigger] m.contains_key(k) ==> holds(v->Table_0@[k], m[k]),
        Tree::Arr(s) => v is Array && v->Array_0@.len() == s.len() && forall|i: int|
            0 <= i < s.len() ==> holds(#[trigger] v->Array_0@[i], s[i]),
    }
}

/// A value is what one tree at most describes.
pub proof fn lemma_holds_unique(v: Value, t1: Tree, t2: Tree)
    requires
        holds(v, t1),
        holds(v, t2),
    ensures
        t1 == t2,
    decreases t1,
{
    match t1 {
        Tree::Leaf(_) => {},
        Tree::Tab(m1) => {
            if let Tree::Tab(m2) = t2 {
                assert forall|k: Seq<char>| #[trigger] m1.contains_key(k) implies m1[k] == m2[k] by {
                    lemma_holds_unique(v->Table_0@[k], m1[k], m2[k]);
                }
                assert(m1 =~= m2);
            }
        },
        Tree::Arr(s1) => {
            if let Tree::Arr(s2) = t2 {
                assert forall|i: int| 0 <= i < s1.len() implies #[trigger] s1[i] == s2[i] by {
                    lemma_holds_unique(v->Array_0@[i], s1[i], s2[i]);
                }
                assert(s1 =~= s2);
            }
        },
    }
}

/// The table `t` is what the map of trees `m` describes.
pub open spec fn holds_table(t: Table, m: Map<Seq<char>, Tree>) -> bool {
    holds(Value::Table(t), Tree::Tab(m))
}

/// What a statement does at the table that its path leads to.
pub enum NestOp {
    /// A `[path]` header: only the table is made.
    Open,
    /// A `[[path.key]]` header: one more empty table at the end of the array
    /// of tables under `key` (a new array if there is none).
    Append(Seq<char>),
    /// A `path.key = value` statement: `key` gets the value, which it may
    /// not have had.
    Assign(Seq<char>, ValueModel),
}

/// The table after `op`; nothing when `op` meets a value it may not change.
pub open spec fn apply_op(m: Map<Seq<char>, Tree>, op: NestOp) -> Option<Map<Seq<char>, Tree>> {
    match op {
        NestOp::Open => Some(m),
        NestOp::Append(k) => if !m.contains_key(k) {
            Some(m.insert(k, Tree::Arr(seq![Tree::Tab(Map::empty())])))
        } else if m[k] is Arr {
            Some(m.insert(k, Tree::Arr(m[k]->Arr_0.push(Tree::Tab(Map::empty())))))
        } else {
            None
        },
        NestOp::Assign(k, v) => if !m.contains_key(k) {
            Some(m.insert(k, Tree::Leaf(v)))
        } else {
            None
        },
    }
}

/// `op` done at the table that `path` leads to from the table `m`: a missing
/// table on the way is made, and an array of tables on the way leads to its
/// last table. Nothing when the way meets a value that is no table, or `op`
/// fails.
pub open spec fn update_nest(m: Map<Seq<char>, Tree>, path: Seq<Seq<char>>, op: NestOp) -> Option<
    Map<Seq<char>, Tree>,
>
    decreases path.len(),
{
    if path.len() == 0 {
        apply_op(m, op)
    } else {
        let k = path[0];
        let child = if m.contains_key(k) {
            m[k]
        } else {
            Tree::Tab(Map::empty())
        };
        match child {
            Tree::Tab(cm) => match update_nest(cm, path.drop_first(), op) {
                Some(m2) => Some(m.insert(k, Tree::Tab(m2))),
                None => None,
            },
            Tree::Arr(s) => if s.len() > 0 && s.last() is Tab {
                match update_nest(s.last()->Tab_0, path.drop_first(), op) {
                    Some(m2) => Some(m.insert(k, Tree::Arr(s.update(s.len() - 1, Tree::Tab(m2))))),
                    None => None,
                }
            } else {
                None
            },
            Tree::Leaf(_) => None,
        }
    }
}

/// What `op` is, told by a kind (0 open, 1 append, 2 assign) and its key.
pub open spec fn op_kind(op: NestOp, kind: u8, last: Seq<char>) -> bool {
    match op {
        NestOp::Open => kind == 0,
        NestOp::Append(k) => kind == 1 && k == last,
        NestOp::Assign(k, _) => kind == 2 && k == last,
    }
}

/// A table that holds nothing is what the empty map describes.
proof fn lemma_holds_empty(t: Table)
    requires
        t@ == Map::<Seq<char>, Value>::empty(),
    ensures
        holds_table(t, Map::empty()),
{
    assert(t@.dom() =~= Map::<Seq<char>, Tree>::empty().dom());
}

/// Whether `update_nest` succeeds on the table `t`, which `m0` describes.
fn nest_check(
    t: &Table,
    Ghost(m0): Ghost<Map<Seq<char>, Tree>>,
    path: &Vec<String>,
    i: usize,
    last: &str,
    kind: u8,
    Ghost(op): Ghost<NestOp>,
) -> (b: bool)
    requires
        holds_table(*t, m0),
        i <= path@.len(),
        op_kind(op, kind, last@),
    ensures
        b == update_nest(m0, key_path(path@).skip(i as int), op) is Some,
    decreases path@.len() - i,
{
    let ghost ps = key_path(path@).skip(i as int);
    if i == path.len() {
        proof {
            assert(ps =~= Seq::<Seq<char>>::empty());
        }
        if kind == 0 {
            true
        } else if kind == 1 {
            match t.get(last) {
                None => true,
                Some(Value::Array(_)) => {
                    proof {
                        let tr = m0[last@];
                        assert(holds(t@[last@], tr));
                        assert(tr is Arr);
                    }
                    true
                },
                Some(_) => {
                    proof {
                        let tr = m0[last@];
                        assert(holds(t@[last@], tr));
                        assert(!(tr is Arr));
                    }
                    false
                },
            }
        } else {
            !t.contains_key(last)
        }
    } else {
        let k = path[i].as_str();
        proof {
            assert(ps[0] == path@[i as int]@);
            assert(ps.drop_first() =~= key_path(path@).skip(i + 1));
        }
        match t.get(k) {
            None => {
                let e = Table::new();
                proof {
                    lemma_holds_empty(e);
                }
                nest_check(&e, Ghost(Map::empty()), path, i + 1, last, kind, Ghost(op))
            },
            Some(Value::Table(ct)) => {
                let ghost tr = m0[k@];
                proof {
                    assert(holds(t@[k@], tr));
                    assert(tr is Tab);
                }
                nest_check(ct, Ghost(tr->Tab_0), path, i + 1, last, kind, Ghost(op))
            },
            Some(Value::Array(a)) => {
                let ghost tr = m0[k@];
                proof {
                    assert(holds(t@[k@], tr));
                    assert(tr is Arr);
                }
                let n = a.len();
                if n == 0 {
                    false
                } else {
                    match &a[n - 1] {
                        Value::Table(ct) => {
                            let ghost s = tr->Arr_0;
                            proof {
                                assert(holds(a@[n - 1], s[n - 1]));
                                assert(s.last() is Tab);
                            }
                            nest_check(ct, Ghost(s.last()->Tab_0), path, i + 1, last, kind, Ghost(op))
                        },
                        _ => {
                            proof {
                                let s = tr->Arr_0;
                                assert(holds(a@[n - 1], s[n - 1]));
                                assert(!(s.last() is Tab));
                            }
                            false
                        },
                    }
                }
            },
            Some(_) => {
                proof {
                    let tr = m0[k@];
                    assert(holds(t@[k@], tr));
                    assert(tr is Leaf);
                }
                false
            },
        }
    }
}

/// What a statement does at the end of its path, with the value it stores.
pub enum ExecOp {
    Open,
    Append(String),
    Assign(String, Value),
}

/// The spec operation that `e` carries out.
pub open spec fn exec_op_is(e: ExecOp, op: NestOp) -> bool {
    match e {
        ExecOp::Open => op == NestOp::Open,
        ExecOp::Append(k) => op == NestOp::Append(k@),
        ExecOp::Assign(k, v) => is_leaf(v) && op == NestOp::Assign(k@, value_model(v)),
    }
}

/// Carries out `update_nest` on the table `t`, which `m0` describes, where
/// it succeeds.
fn nest_update(
    t: &mut Table,
    Ghost(m0): Ghost<Map<Seq<char>, Tree>>,
    path: &Vec<String>,
    i: usize,
    e: ExecOp,
    Ghost(op): Ghost<NestOp>,
)
    requires
        holds_table(*old(t), m0),
        i <= path@.len(),
        exec_op_is(e, op),
        update_nest(m0, key_path(path@).skip(i as int), op) is Some,
    ensures
        holds_table(*final(t), update_nest(m0, key_path(path@).skip(i as int), op)->0),
    decreases path@.len() - i,
{
    let ghost ps = key_path(path@).skip(i as int);
    let ghost old_t = t@;
    if i == path.len() {
        proof {
            assert(ps =~= Seq::<Seq<char>>::empty());
        }
        match e {
            ExecOp::Open => {},
            ExecOp::Append(k) => {
                let fresh = Table::new();
                proof {
                    lemma_holds_empty(fresh);
                }
                if t.contains_key(k.as_str()) {
                    let prev = t.insert(k.clone(), Value::Boolean(false));
                    match prev {
                        Some(Value::Array(mut a)) => {
                            let ghost s = m0[k@]->Arr_0;
                            let ghost old_a = a@;
                            proof {
                                assert(holds(old_t[k@], m0[k@]));
                            }
                            a.push(Value::Table(fresh));
                            let ghost new_a = a@;
                            t.insert(k, Value::Array(a));
                            proof {
                                let m2 = m0.insert(k@, Tree::Arr(s.push(Tree::Tab(Map::empty()))));
                                assert(t@ =~= old_t.insert(k@, Value::Array(a)));
                                assert forall|j: int| 0 <= j < new_a.len() implies holds(
                                    #[trigger] new_a[j],
                                    s.push(Tree::Tab(Map::empty()))[j],
                                ) by {
                                    if j < old_a.len() {
                                        assert(new_a[j] == old_a[j]);
                                    }
                                }
                                assert(holds(Value::Array(a), Tree::Arr(s.push(Tree::Tab(Map::empty())))));
                                assert(t@.dom() =~= m2.dom());
                                assert forall|q: Seq<char>| #[trigger] m2.contains_key(q) implies holds(
                                    t@[q],
                                    m2[q],
                                ) by {
                                    if q != k@ {
                                        assert(old_t[q] == t@[q]);
                                    }
                                }
                            }
                        },
                        _ => {
                            proof {
                                assert(holds(old_t[k@], m0[k@]));
                                assert(false);
                            }
                        },
                    }
                } else {
                    let ghost kk = k@;
                    t.insert(k, Value::Array(vec![Value::Table(fresh)]));
                    proof {
                        let m2 = m0.insert(kk, Tree::Arr(seq![Tree::Tab(Map::empty())]));
                        assert(t@.dom() =~= m2.dom());
                        assert forall|q: Seq<char>| #[trigger] m2.contains_key(q) implies holds(
                            t@[q],
                            m2[q],
                        ) by {
                            if q != kk {
                                assert(old_t[q] == t@[q]);
                            } else {
                                let a = t@[q]->Array_0;
                                assert(a@.len() == 1);
                                assert(holds(a@[0], Tree::Tab(Map::empty())));
                            }
                        }
                    }
                }
            },
            ExecOp::Assign(k, v) => {
                let ghost kk = k@;
                let ghost vm = value_model(v);
                proof {
                    assert(holds(v, Tree::Leaf(vm)));
                }
                t.insert(k, v);
                proof {
                    let m2 = m0.insert(kk, Tree::Leaf(vm));
                    assert(t@.dom() =~= m2.dom());
                    assert forall|q: Seq<char>| #[trigger] m2.contains_key(q) implies holds(
                        t@[q],
                        m2[q],
                    ) by {
                        if q != kk {
                            assert(old_t[q] == t@[q]);
                        }
                    }
                }
            },
        }
    } else {
        let k = path[i].clone();
        proof {
            assert(ps[0] == path@[i as int]@);
            assert(ps.drop_first() =~= key_path(path@).skip(i + 1));
        }
        let ghost kk = k@;
        let prev = t.insert(k.clone(), Value::Boolean(false));
        match prev {
            None => {
                let mut ct = Table::new();
                proof {
                    lemma_holds_empty(ct);
                }
                nest_update(&mut ct, Ghost(Map::empty()), path, i + 1, e, Ghost(op));
                t.insert(k, Value::Table(ct));
                proof {
                    let m2 = update_nest(m0, ps, op)->0;
                    assert(t@ =~= old_t.insert(kk, Value::Table(ct)));
                    assert(t@.dom() =~= m2.dom());
                    assert forall|q: Seq<char>| #[trigger] m2.contains_key(q) implies holds(
                        t@[q],
                        m2[q],
                    ) by {
                        if q != kk {
                            assert(old_t[q] == t@[q]);
                        }
                    }
                }
            },
            Some(Value::Table(mut ct)) => {
                let ghost tr = m0[kk];
                proof {
                    assert(holds(old_t[kk], tr));
                }
                nest_update(&mut ct, Ghost(tr->Tab_0), path, i + 1, e, Ghost(op));
                t.insert(k, Value::Table(ct));
                proof {
                    let m2 = update_nest(m0, ps, op)->0;
                    assert(t@ =~= old_t.insert(kk, Value::Table(ct)));
                    assert(t@.dom() =~= m2.dom());
                    assert forall|q: Seq<char>| #[trigger] m2.contains_key(q) implies holds(
                        t@[q],
                        m2[q],
                    ) by {
                        if q != kk {
                            assert(old_t[q] == t@[q]);
                        }
                    }
                }
            },
            Some(Value::Array(mut a)) => {
                let ghost tr = m0[kk];
                let ghost s = tr->Arr_0;
                let ghost old_a = a@;
                proof {
                    assert(holds(old_t[kk], tr));
                    assert(s.len() > 0);
                    assert(holds(old_a[old_a.len() - 1], s[s.len() - 1]));
                }
                let last = a.pop();
                match last {
                    Some(Value::Table(mut ct)) => {
                        nest_update(&mut ct, Ghost(s.last()->Tab_0), path, i + 1, e, Ghost(op));
                        let ghost m3 = update_nest(s.last()->Tab_0, ps.drop_first(), op)->0;
                        a.push(Value::Table(ct));
                        let ghost new_a = a@;
                        t.insert(k, Value::Array(a));
                        proof {
                            let s2 = s.update(s.len() - 1, Tree::Tab(m3));
                            assert forall|j: int| 0 <= j < new_a.len() implies holds(
                                #[trigger] new_a[j],
                                s2[j],
                            ) by {
                                if j < old_a.len() - 1 {
                                    assert(new_a[j] == old_a[j]);
                                }
                            }
                            assert(holds(Value::Array(a), Tree::Arr(s2)));
                            let m2 = update_nest(m0, ps, op)->0;
                            assert(t@ =~= old_t.insert(kk, Value::Array(a)));
                            assert(t@.dom() =~= m2.dom());
                            assert forall|q: Seq<char>| #[trigger] m2.contains_key(q) implies holds(
                                t@[q],
                                m2[q],
                            ) by {
                                if q != kk {
                                    assert(old_t[q] == t@[q]);
                                }
                            }
                        }
                    },
                    _ => {
                        proof {
                            assert(false);
                        }
                    },
                }
            },
            Some(_) => {
                proof {
                    assert(holds(old_t[kk], m0[kk]));
                    assert(false);
                }
            },
        }
    }
}

/// What reading a dotted key gives.
pub enum PathRead {
    Missing,
    /// The parts of the key, and the index after it and the blanks that follow.
    Got(Seq<Seq<char>>, int),
    Bad(Seq<char>, int),
}

/// A dotted key that starts after a dot: a missing part is a fault there.
pub open spec fn after_dot(k: Seq<char>, r: PathRead, q: int) -> PathRead {
    match r {
        PathRead::Missing => PathRead::Bad("Invalid initial character for a key part"@, q),
        PathRead::Bad(m, p) => PathRead::Bad(m, p),
        PathRead::Got(ks, e) => PathRead::Got(seq![k] + ks, e),
    }
}

/// The dotted key at index `p` of `c`: keys (see `key_token`) joined by dots,
/// with blanks allowed around each dot; the blanks after it are read too.
pub open spec fn key_path_result(c: Seq<char>, p: int) -> PathRead
    decreases c.len() - p,
{
    if p < 0 || p > c.len() {
        PathRead::Missing
    } else {
        match key_token(c, p) {
            KeyRead::Missing => PathRead::Missing,
            KeyRead::Bad(m, q) => PathRead::Bad(m, q),
            KeyRead::Got(k, e) => {
                proof {
                    lemma_key_token_bounds(c, p);
                }
                if e < p || e > c.len() {
                    PathRead::Missing
                } else {
                    let e1 = e + blank_len(c.skip(e));
                    if e1 < c.len() && c[e1] == '.' {
                        let e2 = e1 + 1 + blank_len(c.skip(e1 + 1));
                        proof {
                            lemma_skip_bounds(c, e);
                            lemma_skip_bounds(c, e1 + 1);
                        }
                        after_dot(k, key_path_result(c, e2), e2)
                    } else {
                        PathRead::Got(seq![k], e1)
                    }
                }
            },
        }
    }
}

/// A dotted key ends after it starts, within the document; a fault lies
/// within it.
proof fn lemma_key_path_bounds(c: Seq<char>, p: int)
    requires
        0 <= p <= c.len(),
    ensures
        key_path_result(c, p) matches PathRead::Got(ks, e) ==> p < e <= c.len() && ks.len() > 0,
        key_path_result(c, p) matches PathRead::Bad(_, q) ==> p <= q <= c.len(),
    decreases c.len() - p,
{
    lemma_key_token_bounds(c, p);
    if let KeyRead::Got(k, e) = key_token(c, p) {
        lemma_skip_bounds(c, e);
        let e1 = e + blank_len(c.skip(e));
        if e1 < c.len() && c[e1] == '.' {
            lemma_skip_bounds(c, e1 + 1);
            let e2 = e1 + 1 + blank_len(c.skip(e1 + 1));
            lemma_key_path_bounds(c, e2);
        }
    }
}

/// The parts of a key, each in single quotes, separated by `, `.
pub open spec fn quoted_parts(ks: Seq<Seq<char>>) -> Seq<char>
    decreases ks.len(),
{
    if ks.len() == 0 {
        Seq::empty()
    } else if ks.len() == 1 {
        "'"@ + ks[0] + "'"@
    } else {
        quoted_parts(ks.drop_last()) + ", '"@ + ks.last() + "'"@
    }
}

/// A key written as a tuple of its parts: `('a',)` or `('a', 'b')`.
pub open spec fn key_repr(ks: Seq<Seq<char>>) -> Seq<char> {
    if ks.len() == 1 {
        "("@ + quoted_parts(ks) + ",)"@
    } else {
        "("@ + quoted_parts(ks) + ")"@
    }
}

/// The message for a table declared twice, such as `Cannot declare ('a',) twice`.
pub open spec fn declared_twice(ks: Seq<Seq<char>>) -> Seq<char> {
    "Cannot declare "@ + key_repr(ks) + " twice"@
}

/// The message for a dotted key that reaches into a table declared by a header.
pub open spec fn redefined(ks: Seq<Seq<char>>) -> Seq<char> {
    "Cannot redefine namespace "@ + key_repr(ks)
}

/// What the parser knows between statements: the document built so far, the
/// tables that headers have declared, the tables that dotted keys have made
/// since the last header (declared at the next header), and the current header.
pub struct DocState {
    pub root: Map<Seq<char>, Tree>,
    pub declared: Set<Seq<Seq<char>>>,
    pub pending: Set<Seq<Seq<char>>>,
    pub header: Seq<Seq<char>>,
}

/// The paths of `s` that do not start with `p`.
pub open spec fn without_prefix(s: Set<Seq<Seq<char>>>, p: Seq<Seq<char>>) -> Set<Seq<Seq<char>>> {
    Set::new(|q: Seq<Seq<char>>| s.contains(q) && !p.is_prefix_of(q))
}

/// The table header that starts at index `j` of `c` (where `c[j]` is `[`):
/// `[` or `[[`, blanks, a dotted key (see `key_path_result`), then `]` or
/// `]]` respectively, and the end of the statement. The tables that dotted
/// keys made are declared first. A `[key]` header may not name a declared
/// table, and makes the table (and the tables on its way) unless a value
/// that is no table stands in the way; a `[[key]]` header adds an empty
/// table to the array of tables `key` (a new one if there is none), undoes
/// the declarations below `key`, and declares `key`. Gives the state after
/// the header and the index where its line ends, or the error message and
/// the index where it occurs.
pub open spec fn header_result(c: Seq<char>, j: int, st: DocState) -> Result<
    (DocState, int),
    (Seq<char>, int),
> {
    let is_array = header_is_array(c, j);
    let k0 = j + if is_array {
        2int
    } else {
        1int
    };
    let k1 = k0 + blank_len(c.skip(k0));
    let declared = st.declared.union(st.pending);
    match key_path_result(c, k1) {
        PathRead::Missing => Err(("Expected valid table key"@, k1)),
        PathRead::Bad(msg, q) => Err((msg, q)),
        PathRead::Got(ks, k3) => {
            let close = if is_array {
                seq![']', ']']
            } else {
                seq![']']
            };
            let nest = if is_array {
                update_nest(st.root, ks.drop_last(), NestOp::Append(ks.last()))
            } else {
                update_nest(st.root, ks, NestOp::Open)
            };
            if !is_array && declared.contains(ks) {
                Err((declared_twice(ks), k3))
            } else if nest is None {
                Err(("Cannot overwrite a value"@, k3))
            } else if !close.is_prefix_of(c.skip(k3)) {
                Err(("Expected closing bracket for table header"@, k3))
            } else {
                match statement_end(c, k3 + close.len()) {
                    Ok(e) => Ok(
                        (
                            DocState {
                                root: nest->0,
                                declared: if is_array {
                                    without_prefix(declared, ks).insert(ks)
                                } else {
                                    declared.insert(ks)
                                },
                                pending: Set::empty(),
                                header: ks,
                            },
                            e,
                        ),
                    ),
                    Err(x) => Err(x),
                }
            }
        },
    }
}

/// The first of the tables `header + ks.take(i)`, `header + ks.take(i + 1)`,
/// ... (short of the whole key) that a header declared.
pub open spec fn first_redefined(
    declared: Set<Seq<Seq<char>>>,
    header: Seq<Seq<char>>,
    ks: Seq<Seq<char>>,
    i: int,
) -> Option<Seq<Seq<char>>>
    decreases ks.len() - i,
{
    if i < 1 || i >= ks.len() {
        None
    } else if declared.contains(header + ks.take(i)) {
        Some(header + ks.take(i))
    } else {
        first_redefined(declared, header, ks, i + 1)
    }
}

/// The tables that the dotted key `ks` under `header` passes through.
pub open spec fn dotted_tables(header: Seq<Seq<char>>, ks: Seq<Seq<char>>) -> Set<Seq<Seq<char>>> {
    Set::new(|q: Seq<Seq<char>>| exists|i: int| 1 <= i < ks.len() && q == header + ks.take(i))
}

/// The `key = value` statement that starts at index `j` of `c`: a dotted
/// key, `=`, blanks, and a value, which must be there (not the end of the
/// line, of the document, or a comment) and be one that `value_result`
/// reads (others are refused). The key, under the current header, may not
/// pass through a table that a header declared, nor reach a key that is
/// already there or pass a value that is no table. The statement must then
/// end. Gives the state after the statement (the value stored, the tables on
/// the key's way made) and the index where its line ends, or the error
/// message and the index where it occurs.
pub open spec fn key_value_result(c: Seq<char>, j: int, st: DocState) -> Result<
    (DocState, int),
    (Seq<char>, int),
> {
    match key_path_result(c, j) {
        PathRead::Missing => Err(("Expected valid key"@, j)),
        PathRead::Bad(msg, q) => Err((msg, q)),
        PathRead::Got(ks, k) => {
            if k < c.len() && c[k] == '=' {
                let v = (k + 1) + blank_len(c.skip(k + 1));
                if v >= c.len() || c[v] == '\n' || c[v] == '\r' || c[v] == '#' {
                    Err(("Invalid value"@, v))
                } else {
                    match value_result(c, v) {
                        Err(x) => Err(x),
                        Ok((None, _)) => Err(("Invalid or unsupported value"@, v)),
                        Ok((Some(m), e)) => {
                            let nest = update_nest(
                                st.root,
                                st.header + ks.drop_last(),
                                NestOp::Assign(ks.last(), m),
                            );
                            match first_redefined(st.declared, st.header, ks, 1) {
                                Some(p) => Err((redefined(p), e)),
                                None => if nest is None {
                                    Err(("Cannot overwrite a value"@, e))
                                } else {
                                    match statement_end(c, e) {
                                        Ok(e2) => Ok(
                                            (
                                                DocState {
                                                    root: nest->0,
                                                    pending: st.pending.union(
                                                        dotted_tables(st.header, ks),
                                                    ),
                                                    ..st
                                                },
                                                e2,
                                            ),
                                        ),
                                        Err(x) => Err(x),
                                    }
                                },
                            }
                        },
                    }
                }
            } else {
                Err(("Expected '=' after key"@, k))
            }
        },
    }
}

/// Reading the document `c` from index `i` on, in the state `st`: each
/// statement starts after blanks; a newline or carriage return is skipped, a
/// comment runs to the end of its line, `[` starts a table header, a key
/// character starts a `key = value` statement, and anything else is an
/// invalid statement. Gives the document that was built, or the first
/// error's message and character index.
pub open spec fn doc_result(c: Seq<char>, i: int, st: DocState) -> Result<
    Map<Seq<char>, Tree>,
    (Seq<char>, int),
>
    decreases c.len() - i,
{
    if i < 0 || i >= c.len() {
        Ok(st.root)
    } else {
        let j = i + blank_len(c.skip(i));
        if j >= c.len() {
            Ok(st.root)
        } else if c[j] == '\n' || c[j] == '\r' {
            doc_result(c, j + 1, st)
        } else if c[j] == '#' {
            proof {
                lemma_line_len_bound(c.skip(j));
            }
            doc_result(c, j + line_len(c.skip(j)), st)
        } else if c[j] == '[' {
            match header_result(c, j, st) {
                Ok((st2, e)) => {
                    proof {
                        lemma_header_bounds(c, j, st);
                    }
                    doc_result(c, e, st2)
                },
                Err(x) => Err(x),
            }
        } else if starts_key_value(c[j]) {
            match key_value_result(c, j, st) {
                Ok((st2, e)) => {
                    proof {
                        lemma_key_value_bounds(c, j, st);
                    }
                    doc_result(c, e, st2)
                },
                Err(x) => Err(x),
            }
        } else {
            Err(("Invalid statement"@, j))
        }
    }
}

/// An error of the document lies within it.
pub proof fn lemma_doc_error_bounds(c: Seq<char>, i: int, st: DocState)
    ensures
        doc_result(c, i, st) matches Err((_, p)) ==> 0 <= p <= c.len(),
    decreases c.len() - i,
{
    if 0 <= i < c.len() {
        lemma_skip_bounds(c, i);
        let j = i + blank_len(c.skip(i));
        if j < c.len() {
            if c[j] == '\n' || c[j] == '\r' {
                lemma_doc_error_bounds(c, j + 1, st);
            } else if c[j] == '#' {
                lemma_line_len_bound(c.skip(j));
                lemma_doc_error_bounds(c, j + line_len(c.skip(j)), st);
            } else if c[j] == '[' {
                lemma_header_bounds(c, j, st);
                if let Ok((st2, e)) = header_result(c, j, st) {
                    lemma_doc_error_bounds(c, e, st2);
                }
            } else if starts_key_value(c[j]) {
                lemma_key_value_bounds(c, j, st);
                if let Ok((st2, e)) = key_value_result(c, j, st) {
                    lemma_doc_error_bounds(c, e, st2);
                }
            }
        }
    }
}

/// Reports `msg` at byte `pos`, the offset of character `j` of `src`.
fn error_at_char(msg: &str, pos: usize, src: &str, Ghost(j): Ghost<int>) -> (e: TomlError)
    requires
        src.spec_bytes().len() < usize::MAX,
        0 <= j <= src@.len(),
        pos == byte_offset(src@, j),
    ensures
        error_at(e, src@, msg@, j),
{
    proof {
        let c = src@;
        lemma_encode_split(c, j);
        lemma_offset_is_boundary(c, j);
        assert(decode_utf8(encode_utf8(c.take(j))) == c.take(j));
    }
    TomlError::at_pos(msg, pos, src)
}

/// What `e` reports: the message `msg` at the byte offset of character `j`
/// of `c`, with that position's line and column.
pub open spec fn error_at(e: TomlError, c: Seq<char>, msg: Seq<char>, j: int) -> bool {
    &&& e.spec_message() == msg
    &&& e.spec_pos() == Some(byte_offset(c, j) as usize)
    &&& e.spec_line() == Some(line_col(c.take(j)).0 as usize)
    &&& e.spec_col() == Some(line_col(c.take(j)).1 as usize)
}

/// Skipping blanks does not change where the line ends.
proof fn lemma_past_line_blank(s: Seq<char>)
    ensures
        blank_len(s) <= s.len(),
        past_line(s) == blank_len(s) + past_line(s.skip(blank_len(s) as int)),
    decreases s.len(),
{
    if s.len() > 0 && is_blank(s[0]) {
        lemma_past_line_blank(s.drop_first());
        assert(s.drop_first().skip(blank_len(s.drop_first()) as int) =~= s.skip(
            blank_len(s) as int,
        ));
    } else {
        assert(s.skip(0) =~= s);
    }
}

pub proof fn lemma_skip_bounds(c: Seq<char>, k: int)
    requires
        0 <= k <= c.len(),
    ensures
        k + blank_len(c.skip(k)) <= c.len(),
        k + key_len(c.skip(k)) <= c.len(),
{
    lemma_span_bound(c.skip(k), |ch: char| is_blank(ch));
    lemma_span_bound(c.skip(k), |ch: char| is_bare_key_char(ch));
}

pub proof fn lemma_header_bounds(c: Seq<char>, j: int, st: DocState)
    requires
        0 <= j < c.len(),
        c[j] == '[',
    ensures
        header_result(c, j, st) matches Ok((_, e)) ==> j < e <= c.len(),
        header_result(c, j, st) matches Err((_, p)) ==> 0 <= p <= c.len(),
{
    let is_array = header_is_array(c, j);
    let k0 = j + if is_array {
        2int
    } else {
        1int
    };
    assert(k0 <= c.len());
    lemma_skip_bounds(c, k0);
    let k1 = k0 + blank_len(c.skip(k0));
    lemma_key_path_bounds(c, k1);
    if let PathRead::Got(_, k3) = key_path_result(c, k1) {
        let close = if is_array {
            seq![']', ']']
        } else {
            seq![']']
        };
        if close.is_prefix_of(c.skip(k3)) {
            lemma_statement_end_bounds(c, k3 + close.len());
        }
    }
}

proof fn lemma_statement_end_bounds(c: Seq<char>, k: int)
    requires
        0 <= k <= c.len(),
    ensures
        statement_end(c, k) matches Ok(e) ==> k <= e <= c.len(),
        statement_end(c, k) matches Err((_, p)) ==> k <= p <= c.len(),
{
    lemma_skip_bounds(c, k);
    let k1 = k + blank_len(c.skip(k));
    lemma_line_len_bound(c.skip(k1));
}

pub proof fn lemma_key_value_bounds(c: Seq<char>, j: int, st: DocState)
    requires
        0 <= j < c.len(),
    ensures
        key_value_result(c, j, st) matches Ok((_, e)) ==> j < e <= c.len(),
        key_value_result(c, j, st) matches Err((_, p)) ==> 0 <= p <= c.len(),
{
    lemma_key_path_bounds(c, j);
    if let PathRead::Got(_, k) = key_path_result(c, j) {
        if k < c.len() {
            lemma_skip_bounds(c, k + 1);
            let v = (k + 1) + blank_len(c.skip(k + 1));
            if v < c.len() {
                lemma_value_bounds(c, v);
                if let Ok((Some(_), e)) = value_result(c, v) {
                    lemma_statement_end_bounds(c, e);
                }
            }
        }
    }
}

proof fn lemma_value_bounds(c: Seq<char>, v: int)
    requires
        0 <= v < c.len(),
    ensures
        value_result(c, v) matches Ok((_, e)) ==> v <= e <= c.len(),
        value_result(c, v) matches Ok((Some(_), e)) ==> v < e <= c.len(),
        value_result(c, v) matches Err((_, p)) ==> v <= p <= c.len(),
{
    reveal(value_result);
    let s = c.skip(v);
    lemma_span_bound(s, |ch: char| !ends_token(ch));
    let n = token_len(s) as int;
    if space_then_digit(s.skip(n)) {
        lemma_span_bound(s.skip(n + 1), |ch: char| !ends_token(ch));
    }
    if three_quotes().is_prefix_of(s) {
        lemma_ml_literal_bounds(c, v);
    }
    if s.len() > 0 && (s[0] == '\'' || s[0] == '"') {
        let body = s.drop_first();
        lemma_span_bound(body, |ch: char| !ends_literal(ch));
        lemma_basic_stop(body);
    }
}

pub struct Parser<'a> {
    tokenizer: Tokenizer<'a>,
    flags: Flags,
    out: Table,
    /// What `out` holds, as a tree.
    root: Ghost<Map<Seq<char>, Tree>>,
}

/// The parts of `header` followed by the first `i` parts of `ks`.
fn joined(header: &[String], ks: &Vec<String>, i: usize) -> (v: Vec<String>)
    requires
        i <= ks@.len(),
    ensures
        key_path(v@) == key_path(header@) + key_path(ks@).take(i as int),
{
    let mut v: Vec<String> = Vec::new();
    let mut k: usize = 0;
    while k < header.len()
        invariant
            0 <= k <= header@.len(),
            key_path(v@) == key_path(header@).take(k as int),
        decreases header@.len() - k,
    {
        let ghost v0 = v@;
        let part = header[k].clone();
        v.push(part);
        proof {
            assert(v@ == v0.push(header@[k as int]));
            assert(key_path(v@) =~= key_path(v0).push(header@[k as int]@));
            assert(key_path(v@) =~= key_path(header@).take(k + 1));
        }
        k = k + 1;
    }
    proof {
        assert(key_path(header@).take(header@.len() as int) =~= key_path(header@));
    }
    let mut m: usize = 0;
    while m < i
        invariant
            0 <= m <= i,
            i <= ks@.len(),
            key_path(v@) == key_path(header@) + key_path(ks@).take(m as int),
        decreases i - m,
    {
        let ghost v0 = v@;
        let part = ks[m].clone();
        v.push(part);
        proof {
            assert(v@ == v0.push(ks@[m as int]));
            assert(key_path(v@) =~= key_path(v0).push(ks@[m as int]@));
            assert(key_path(v@) =~= key_path(header@) + key_path(ks@).take(m + 1));
        }
        m = m + 1;
    }
    v
}

/// The first table on the way of the dotted key `key` under `header` that a
/// header declared, as `first_redefined` says.
fn first_declared(flags: &Flags, header: &[String], key: &Vec<String>) -> (r: Option<Vec<String>>)
    ensures
        match first_redefined(flags.explicit_set(), key_path(header@), key_path(key@), 1) {
            Some(p) => r matches Some(v) && key_path(v@) == p && v@.len() > 0,
            None => r is None,
        },
{
    let ghost hp = key_path(header@);
    let ghost ks = key_path(key@);
    let n = key.len();
    let mut i: usize = 1;
    while i < n
        invariant
            1 <= i,
            n == key@.len(),
            hp == key_path(header@),
            ks == key_path(key@),
            first_redefined(flags.explicit_set(), hp, ks, 1) == first_redefined(
                flags.explicit_set(),
                hp,
                ks,
                i as int,
            ),
        decreases n - i,
    {
        let cont = joined(header, key, i);
        if flags.is_explicit(cont.as_slice()) {
            proof {
                assert(key_path(cont@).len() == hp.len() + i);
            }
            return Some(cont);
        }
        i = i + 1;
    }
    None
}

/// The tables that a dotted key passes through, up to its `i`-th part.
pub open spec fn dotted_upto(header: Seq<Seq<char>>, ks: Seq<Seq<char>>, i: int) -> Set<
    Seq<Seq<char>>,
> {
    Set::new(
        |q: Seq<Seq<char>>| exists|t: int| 1 <= t < i && t < ks.len() && q == header + #[trigger] ks.take(t),
    )
}

/// Notes the tables that the dotted key `key` under `header` passes through.
fn add_dotted_tables(flags: &mut Flags, header: &[String], key: &Vec<String>)
    ensures
        final(flags).pending_set() == old(flags).pending_set().union(
            dotted_tables(key_path(header@), key_path(key@)),
        ),
        final(flags).explicit_set() == old(flags).explicit_set(),
        final(flags).frozen_set() == old(flags).frozen_set(),
{
    let ghost hp = key_path(header@);
    let ghost ks = key_path(key@);
    let ghost p0 = flags.pending_set();
    let n = key.len();
    let mut i: usize = 1;
    proof {
        assert(dotted_upto(hp, ks, 1) =~= Set::<Seq<Seq<char>>>::empty());
        assert(flags.pending_set() =~= p0.union(dotted_upto(hp, ks, 1)));
    }
    while i < n
        invariant
            1 <= i,
            n == key@.len(),
            hp == key_path(header@),
            ks == key_path(key@),
            flags.pending_set() == p0.union(dotted_upto(hp, ks, i as int)),
            flags.explicit_set() == old(flags).explicit_set(),
            flags.frozen_set() == old(flags).frozen_set(),
            p0 == old(flags).pending_set(),
        decreases n - i,
    {
        let cont = joined(header, key, i);
        flags.add_pending(cont);
        proof {
            let x = hp + ks.take(i as int);
            assert forall|q: Seq<Seq<char>>| #[trigger] dotted_upto(hp, ks, i + 1).contains(q) == (
            dotted_upto(hp, ks, i as int).contains(q) || q == x) by {
                if q == x {
                    assert(1 <= i < i + 1 && i < ks.len() && q == hp + ks.take(i as int));
                }
            }
            assert(flags.pending_set() =~= p0.union(dotted_upto(hp, ks, i + 1)));
        }
        i = i + 1;
    }
    proof {
        assert(dotted_upto(hp, ks, i as int) =~= dotted_tables(hp, ks));
    }
}

/// The key `ks` written as a tuple of its parts, as `key_repr` says.
fn key_repr_of(ks: &Vec<String>) -> (r: String)
    requires
        ks@.len() > 0,
    ensures
        r@ == key_repr(key_path(ks@)),
{
    let ghost kp = key_path(ks@);
    let mut r = String::from_str("(");
    let mut i: usize = 0;
    proof {
        reveal_strlit("(");
        assert(kp.take(0) =~= Seq::<Seq<char>>::empty());
    }
    while i < ks.len()
        invariant
            0 <= i <= ks@.len(),
            kp == key_path(ks@),
            r@ == "("@ + quoted_parts(kp.take(i as int)),
        decreases ks@.len() - i,
    {
        proof {
            reveal_strlit("'");
            reveal_strlit(", '");
            assert(kp.take(i + 1).drop_last() =~= kp.take(i as int));
            assert(kp.take(i + 1).last() == ks@[i as int]@);
        }
        if i == 0 {
            r.append("'");
        } else {
            r.append(", '");
        }
        r.append(ks[i].as_str());
        r.append("'");
        proof {
            if i == 0 {
                assert(kp.take(1) =~= seq![ks@[0]@]);
            }
            assert(r@ =~= "("@ + quoted_parts(kp.take(i + 1)));
        }
        i = i + 1;
    }
    proof {
        assert(kp.take(ks@.len() as int) =~= kp);
        reveal_strlit(",)");
        reveal_strlit(")");
    }
    if ks.len() == 1 {
        r.append(",)");
    } else {
        r.append(")");
    }
    proof {
        if ks@.len() == 1 {
            assert(r@ =~= key_repr(kp));
        } else {
            assert(r@ =~= key_repr(kp));
        }
    }
    r
}

/// Whether `ch` may not stand in a multi-line literal string.
fn is_ml_illegal(ch: char) -> (b: bool)
    ensures
        b == ml_illegal(ch),
{
    ((ch as u32) < 0x20 && ch != '\t' && ch != '\n' && ch != '\r') || (ch as u32) == 0x7f
}

/// Whether `c` may begin a `key = value` statement.
fn is_key_value_start(c: char) -> (b: bool)
    ensures
        b == starts_key_value(c),
{
    (c >= 'a' && c <= 'z') || (c >= 'A' && c <= 'Z') || (c >= '0' && c <= '9') || c == '"' || c
        == '\'' || c == '_' || c == '-'
}

impl<'a> Parser<'a> {
    pub closed spec fn spec_tokenizer(&self) -> Tokenizer<'a> {
        self.tokenizer
    }

    pub closed spec fn spec_flags(&self) -> Flags {
        self.flags
    }

    /// The table built so far.
    pub closed spec fn spec_out(&self) -> Table {
        self.out
    }

    /// What the table built so far holds, as a tree.
    pub closed spec fn spec_root(&self) -> Map<Seq<char>, Tree> {
        self.root@
    }

    /// The state of the document under the header `header`.
    pub open spec fn doc_state(&self, header: Seq<Seq<char>>) -> DocState {
        DocState {
            root: self.spec_root(),
            declared: self.spec_flags().explicit_set(),
            pending: self.spec_flags().pending_set(),
            header,
        }
    }

    /// The lexer that the parser reads from.
    pub open spec fn lexer(&self) -> Lexer<'a> {
        self.spec_tokenizer().spec_lexer()
    }

    /// The characters of the document.
    pub open spec fn chars(&self) -> Seq<char> {
        self.lexer().chars()
    }

    /// The number of characters already read.
    pub open spec fn index(&self) -> int {
        self.lexer().index()
    }

    /// The reader is well formed, no namespace is frozen, the document's
    /// length leaves room for a line count, and the table built so far is
    /// what its tree describes.
    pub open spec fn wf(&self) -> bool {
        &&& self.lexer().wf()
        &&& self.lexer().bytes().len() < usize::MAX
        &&& self.spec_flags().frozen_set() == Set::<Seq<Seq<char>>>::empty()
        &&& holds_table(self.spec_out(), self.spec_root())
    }

    /// Moving the reader of a well-formed parser keeps it well formed.
    proof fn lemma_keep(&self, before: &Self)
        requires
            before.wf(),
            self.lexer().wf(),
            self.lexer().spec_src() == before.lexer().spec_src(),
            self.spec_flags().frozen_set() == before.spec_flags().frozen_set(),
            self.spec_out() == before.spec_out(),
            self.spec_root() == before.spec_root(),
        ensures
            self.wf(),
    {
    }

    pub fn new(src: &'a str) -> (p: Self)
        ensures
            p.lexer().spec_src() == src,
            p.index() == 0,
            src.spec_bytes().len() < usize::MAX ==> p.wf(),
            p.lexer().wf(),
            p.spec_flags().frozen_set() == Set::<Seq<Seq<char>>>::empty(),
            p.spec_flags().explicit_set() == Set::<Seq<Seq<char>>>::empty(),
            p.spec_flags().pending_set() == Set::<Seq<Seq<char>>>::empty(),
            p.spec_root() == Map::<Seq<char>, Tree>::empty(),
            p.spec_out()@ == Map::<Seq<char>, Value>::empty(),
    {
        let out = Table::new();
        proof {
            lemma_holds_empty(out);
        }
        Self {
            tokenizer: Tokenizer::new(Lexer::new(src)),
            flags: Flags::new(),
            out,
            root: Ghost(Map::empty()),
        }
    }

    /// Parses the whole document: skips blank lines and comments, and reads
    /// table headers and key/value statements until the end.
    #[verifier::rlimit(100)]
    #[verifier::spinoff_prover]
    pub fn parse(self) -> (res: Result<Table, TomlError>)
        requires
            self.wf(),
        ensures
            match doc_result(self.chars(), self.index(), self.doc_state(Seq::empty())) {
                Ok(m) => res matches Ok(t) && holds_table(t, m),
                Err((msg, j)) => res matches Err(e) && error_at(e, self.chars(), msg, j),
            },
    {
        let ghost c = self.chars();
        let ghost goal = doc_result(c, self.index(), self.doc_state(Seq::empty()));
        let mut parser = self;
        let mut current_header: Vec<String> = Vec::new();
        proof {
            assert(key_path(current_header@) =~= Seq::<Seq<char>>::empty());
        }
        loop
            invariant
                parser.wf(),
                parser.chars() == c,
                c == self.chars(),
                goal == doc_result(c, self.index(), self.doc_state(Seq::empty())),
                goal == doc_result(c, parser.index(), parser.doc_state(key_path(current_header@))),
            ensures
                goal == Ok::<Map<Seq<char>, Tree>, (Seq<char>, int)>(parser.spec_root()),
            decreases c.len() - parser.index(),
        {
            let ghost i = parser.index();
            let ghost st = parser.doc_state(key_path(current_header@));
            let ghost before = parser;
            proof {
                lemma_skip_bounds(c, i);
            }
            parser.tokenizer.lexer_mut().skip_ws();
            let ghost j = parser.index();
            proof {
                parser.lemma_keep(&before);
                assert(j == i + blank_len(c.skip(i)));
                assert(parser.lexer().rest() == c.skip(j));
                assert(parser.doc_state(key_path(current_header@)) == st);
            }
            if parser.tokenizer.lexer_mut().is_eof() {
                break ;
            }
            let ch = match parser.tokenizer.lexer_mut().peek() {
                Some(ch) => ch,
                None => break ,
            };
            proof {
                assert(ch == c[j]);
                assert(i < c.len());
            }
            if ch == '\n' || ch == '\r' {
                parser.tokenizer.lexer_mut().next_char();
                proof {
                    parser.lemma_keep(&before);
                }
                continue ;
            }
            if ch == '#' {
                parser.tokenizer.lexer_mut().skip_comment();
                proof {
                    parser.lemma_keep(&before);
                    lemma_line_len_bound(c.skip(j));
                }
                continue ;
            }
            // Dispatch on the first character of the statement

            if ch == '[' {
                let h = match parser.parse_table_header() {
                    Ok(h) => h,
                    Err(e) => {
                        return Err(e);
                    },
                };
                proof {
                    lemma_header_bounds(c, j, st);
                }
                current_header = h;
            } else if is_key_value_start(ch) {
                match parser.parse_key_value_rule(current_header.as_slice()) {
                    Ok(()) => {},
                    Err(e) => {
                        return Err(e);
                    },
                }
                proof {
                    lemma_key_value_bounds(c, j, st);
                }
            } else {
                let pos = parser.tokenizer.lexer_mut().pos();
                let src = parser.tokenizer.lexer_mut().src();
                proof {
                    parser.lexer().lemma_wf();
                }
                return Err(error_at_char("Invalid statement", pos, src, Ghost(j)));
            }
        }
        Ok(parser.out)
    }

    /// Reads a table header `[key]` or an array-of-tables header `[[key]]`,
    /// makes its table and declares it.
    #[verifier::rlimit(40)]
    fn parse_table_header(&mut self) -> (res: Result<Vec<String>, TomlError>)
        requires
            old(self).wf(),
            old(self).lexer().rest().len() > 0,
            old(self).lexer().rest()[0] == '[',
        ensures
            final(self).wf(),
            final(self).chars() == old(self).chars(),
            match header_result(old(self).chars(), old(self).index(), old(self).doc_state(Seq::empty())) {
                Ok((st, e)) => {
                    &&& res matches Ok(key)
                    &&& final(self).doc_state(key_path(key@)) == st
                    &&& final(self).index() == e
                },
                Err((msg, p)) => {
                    &&& res matches Err(err) && error_at(err, old(self).chars(), msg, p)
                    &&& final(self).spec_out() == old(self).spec_out()
                    &&& final(self).spec_root() == old(self).spec_root()
                },
            },
    {
        let ghost c = self.chars();
        let ghost j = self.index();
        let ghost start = *self;
        let ghost st0 = self.doc_state(Seq::empty());
        let ghost closing = if seq!['[', '['].is_prefix_of(c.skip(j)) {
            seq![']', ']']
        } else {
            seq![']']
        };
        let is_array = self.tokenizer.lexer_mut().starts_with("[[");
        let start_pos = self.tokenizer.lexer_mut().pos();
        let src = self.tokenizer.lexer_mut().src();
        let ghost k0 = j + if is_array {
            2int
        } else {
            1int
        };
        proof {
            reveal_strlit("[[");
            assert("[["@ =~= seq!['[', '[']);
            assert(c.skip(j) == self.lexer().rest());
            assert(c[j] == '[');
            assert(is_array == seq!['[', '['].is_prefix_of(c.skip(j)));
            if is_array {
                assert(c.skip(j).subrange(0, 2)[1] == c[j + 1]);
                lemma_ascii_run(c, j, 2);
            } else {
                lemma_ascii_run(c, j, 1);
            }
            assert(byte_offset(c, k0) == start_pos + (k0 - j));
        }
        if is_array {
            self.tokenizer.lexer_mut().advance(2);
        } else {
            self.tokenizer.lexer_mut().advance(1);
        }
        assert(self.index() == k0);
        self.tokenizer.lexer_mut().skip_ws();
        proof {
            lemma_skip_bounds(c, k0);
            assert(self.lexer().rest() == c.skip(self.index()));
            self.lemma_keep(&start);
        }
        let ghost k1 = self.index();
        assert(k1 == k0 + blank_len(c.skip(k0)));
        let key = match self.parse_key_path() {
            Ok(Some(k)) => k,
            Ok(None) => {
                let pos = self.tokenizer.lexer_mut().pos();
                proof {
                    self.lemma_keep(&start);
                    self.lexer().lemma_wf();
                }
                return Err(error_at_char("Expected valid table key", pos, src, Ghost(k1)));
            },
            Err(e) => {
                return Err(e);
            },
        };
        let ghost k3 = self.index();
        let ghost ks = key_path(key@);
        proof {
            lemma_key_path_bounds(c, k1);
            assert(self.lexer().rest() == c.skip(k3));
            assert(key@.len() == ks.len());
        }
        // The tables that dotted keys made are declared from here on
        self.flags.finalize_pending();
        // Validate immutability
        if self.flags.is_frozen(key.as_slice()) {
            proof {
                self.lemma_keep(&start);
            }
            return Err(error_at_char("Cannot mutate immutable namespace", start_pos, src, Ghost(j)));
        }
        // A table may be declared by one `[key]` header only
        if !is_array && self.flags.is_explicit(key.as_slice()) {
            let pos = self.tokenizer.lexer_mut().pos();
            let mut msg = String::from_str("Cannot declare ");
            let r = key_repr_of(&key);
            msg.append(r.as_str());
            msg.append(" twice");
            proof {
                self.lemma_keep(&start);
                reveal_strlit("Cannot declare ");
                reveal_strlit(" twice");
                assert(msg@ =~= declared_twice(ks));
            }
            return Err(error_at_char(msg.as_str(), pos, src, Ghost(k3)));
        }
        // The header's table must be reachable through tables only
        let n = key.len();
        let empty: Vec<String> = Vec::new();
        let parent = joined(empty.as_slice(), &key, n - 1);
        let last = key[n - 1].clone();
        let ghost op = if is_array {
            NestOp::Append(last@)
        } else {
            NestOp::Open
        };
        proof {
            assert(key_path(empty@) =~= Seq::<Seq<char>>::empty());
            assert(key_path(parent@) =~= ks.drop_last());
            assert(key_path(key@).skip(0) =~= ks);
            assert(key_path(parent@).skip(0) =~= ks.drop_last());
        }
        let reachable = if is_array {
            nest_check(&self.out, self.root, &parent, 0, last.as_str(), 1, Ghost(op))
        } else {
            nest_check(&self.out, self.root, &key, 0, "", 0, Ghost(op))
        };
        if !reachable {
            let pos = self.tokenizer.lexer_mut().pos();
            proof {
                self.lemma_keep(&start);
                self.lexer().lemma_wf();
            }
            return Err(error_at_char("Cannot overwrite a value", pos, src, Ghost(k3)));
        }
        let expected_close = if is_array {
            "]]"
        } else {
            "]"
        };
        proof {
            reveal_strlit("]]");
            reveal_strlit("]");
            assert(expected_close@ =~= closing);
        }
        if !self.tokenizer.lexer_mut().starts_with(expected_close) {
            let pos = self.tokenizer.lexer_mut().pos();
            proof {
                self.lemma_keep(&start);
            }
            return Err(
                error_at_char("Expected closing bracket for table header", pos, src, Ghost(k3)),
            );
        }
        proof {
            let close = expected_close@;
            assert(close.is_prefix_of(c.skip(k3)));
            assert forall|m: int| k3 <= m < k3 + close.len() implies (#[trigger] c[m] as u32)
                < 0x80 by {
                assert(c.skip(k3).subrange(0, close.len() as int)[m - k3] == c[m]);
            }
            lemma_ascii_run(c, k3, close.len() as int);
            assert(is_ascii_chars(close));
            assert(encode_utf8(close).len() == close.len());
            assert(byte_offset(c, k3 + close.len()) == self.lexer().spec_pos() + close.len());
        }
        self.tokenizer.lexer_mut().advance(expected_close.len());
        proof {
            self.lemma_keep(&start);
            assert(self.lexer().rest() == c.skip(k3 + closing.len()));
        }
        // Only blanks and a comment may follow the header on its line
        match self.end_statement() {
            Ok(()) => {},
            Err(e) => {
                return Err(e);
            },
        }
        // Declare the table and make it
        if is_array {
            self.flags.unset_all(key.as_slice());
            proof {
                assert(without_prefix(Set::<Seq<Seq<char>>>::empty(), ks) =~= Set::<
                    Seq<Seq<char>>,
                >::empty());
            }
        }
        let kc = key.clone();
        proof {
            assert forall|i: int| 0 <= i < kc@.len() implies kc@[i] == key@[i] by {
                assert(cloned::<String>(key[i], kc[i]));
            }
            assert(key_path(kc@) =~= ks);
        }
        self.flags.set_explicit_nest(kc);
        let ghost root0 = self.root@;
        let ghost new_root = if is_array {
            update_nest(root0, ks.drop_last(), op)->0
        } else {
            update_nest(root0, ks, op)->0
        };
        if is_array {
            nest_update(&mut self.out, self.root, &parent, 0, ExecOp::Append(last), Ghost(op));
        } else {
            nest_update(&mut self.out, self.root, &key, 0, ExecOp::Open, Ghost(op));
        }
        self.root = Ghost(new_root);
        Ok(key)
    }

    /// Reads the end of a statement: blanks and an optional comment, which
    /// must be followed by a newline, a carriage return or the end.
    fn end_statement(&mut self) -> (res: Result<(), TomlError>)
        requires
            old(self).wf(),
        ensures
            final(self).wf(),
            final(self).chars() == old(self).chars(),
            final(self).spec_out() == old(self).spec_out(),
            final(self).spec_root() == old(self).spec_root(),
            final(self).spec_flags() == old(self).spec_flags(),
            match statement_end(old(self).chars(), old(self).index()) {
                Ok(e) => res is Ok && final(self).index() == e,
                Err((msg, p)) => res matches Err(err) && error_at(err, old(self).chars(), msg, p),
            },
    {
        let ghost c = self.chars();
        let ghost k = self.index();
        let ghost start = *self;
        proof {
            lemma_skip_bounds(c, k);
        }
        self.tokenizer.lexer_mut().skip_ws();
        let ghost k1 = self.index();
        proof {
            assert(self.lexer().rest() == c.skip(k1));
        }
        self.tokenizer.lexer_mut().skip_comment();
        let ghost k2 = self.index();
        proof {
            self.lemma_keep(&start);
            lemma_line_len_bound(c.skip(k1));
            assert(k2 == k1 + comment_len(c.skip(k1)));
            assert(self.lexer().rest() == c.skip(k2));
        }
        let next = self.tokenizer.lexer_mut().peek();
        proof {
            self.lemma_keep(&start);
        }
        match next {
            None => Ok(()),
            Some(ch) => {
                proof {
                    assert(ch == c[k2]);
                }
                if ch == '\n' || ch == '\r' {
                    Ok(())
                } else {
                    let pos = self.tokenizer.lexer_mut().pos();
                    let src = self.tokenizer.lexer_mut().src();
                    proof {
                        self.lemma_keep(&start);
                        self.lexer().lemma_wf();
                    }
                    Err(
                        error_at_char(
                            "Expected newline or end of document after a statement",
                            pos,
                            src,
                            Ghost(k2),
                        ),
                    )
                }
            },
        }
    }

    /// Reads the key at the cursor, as `key_token` says.
    fn parse_key(&mut self) -> (res: Result<Option<String>, TomlError>)
        requires
            old(self).wf(),
        ensures
            final(self).wf(),
            final(self).chars() == old(self).chars(),
            final(self).lexer().spec_src() == old(self).lexer().spec_src(),
            final(self).spec_out() == old(self).spec_out(),
            final(self).spec_root() == old(self).spec_root(),
            final(self).spec_flags() == old(self).spec_flags(),
            match key_token(old(self).chars(), old(self).index()) {
                KeyRead::Missing => res matches Ok(None) && final(self).index() == old(
                    self,
                ).index(),
                KeyRead::Got(k, e) => res matches Ok(Some(s)) && s@ == k && final(self).index()
                    == e,
                KeyRead::Bad(msg, q) => res matches Err(err) && error_at(
                    err,
                    old(self).chars(),
                    msg,
                    q,
                ),
            },
    {
        let ghost c = self.chars();
        let ghost p = self.index();
        let ghost start = *self;
        let src = self.tokenizer.lexer_mut().src();
        let start_pos = self.tokenizer.lexer_mut().pos();
        proof {
            self.lemma_keep(&start);
            assert(self.lexer().rest() == c.skip(p));
            lemma_span_bound(c.skip(p), |ch: char| is_bare_key_char(ch));
        }
        match self.tokenizer.parse_bare_key() {
            Some(Token::BareKey(k)) => {
                proof {
                    self.lemma_keep(&start);
                }
                return Ok(Some(k.to_string()));
            },
            _ => {},
        }
        let first = self.tokenizer.lexer_mut().peek();
        proof {
            self.lemma_keep(&start);
            assert(self.index() == p);
        }
        if first == Some('\'') {
            match self.tokenizer.parse_literal_string() {
                Ok(Token::LiteralString(s)) => {
                    proof {
                        self.lemma_keep(&start);
                    }
                    return Ok(Some(s.to_string()));
                },
                Ok(_) => {
                    proof {
                        assert(false);
                    }
                    return Ok(None);
                },
                Err(msg) => {
                    let pos = self.tokenizer.lexer_mut().pos();
                    let ghost q = self.index();
                    proof {
                        self.lemma_keep(&start);
                        self.lexer().lemma_wf();
                    }
                    return Err(error_at_char(msg, pos, src, Ghost(q)));
                },
            }
        }
        if first == Some('"') {
            match self.tokenizer.parse_basic_string() {
                Ok(Token::BasicString(s)) => {
                    proof {
                        self.lemma_keep(&start);
                    }
                    match unescape_str(s) {
                        Ok(text) => {
                            return Ok(Some(text));
                        },
                        Err(_) => {
                            proof {
                                start.lexer().lemma_wf();
                                lemma_ascii_lit(c, p, seq!['"']);
                                crate::text::lemma_offset_end(c, p + 1);
                            }
                            return Err(
                                error_at_char(
                                    "Unescaped '\\' in a string",
                                    start_pos + 1,
                                    src,
                                    Ghost(p + 1),
                                ),
                            );
                        },
                    }
                },
                Ok(_) => {
                    proof {
                        assert(false);
                    }
                    return Ok(None);
                },
                Err(msg) => {
                    let pos = self.tokenizer.lexer_mut().pos();
                    let ghost q = self.index();
                    proof {
                        self.lemma_keep(&start);
                        self.lexer().lemma_wf();
                    }
                    return Err(error_at_char(msg, pos, src, Ghost(q)));
                },
            }
        }
        Ok(None)
    }

    /// Reads the dotted key at the cursor, as `key_path_result` says.
    fn parse_key_path(&mut self) -> (res: Result<Option<Vec<String>>, TomlError>)
        requires
            old(self).wf(),
        ensures
            final(self).wf(),
            final(self).chars() == old(self).chars(),
            final(self).lexer().spec_src() == old(self).lexer().spec_src(),
            final(self).spec_out() == old(self).spec_out(),
            final(self).spec_root() == old(self).spec_root(),
            final(self).spec_flags() == old(self).spec_flags(),
            match key_path_result(old(self).chars(), old(self).index()) {
                PathRead::Missing => res matches Ok(None) && final(self).index() == old(
                    self,
                ).index(),
                PathRead::Got(ks, e) => res matches Ok(Some(v)) && key_path(v@) == ks
                    && final(self).index() == e,
                PathRead::Bad(msg, q) => res matches Err(err) && error_at(
                    err,
                    old(self).chars(),
                    msg,
                    q,
                ),
            },
        decreases old(self).chars().len() - old(self).index(),
    {
        let ghost c = self.chars();
        let ghost p = self.index();
        let ghost start = *self;
        let src = self.tokenizer.lexer_mut().src();
        proof {
            self.lemma_keep(&start);
            lemma_key_token_bounds(c, p);
        }
        let k = match self.parse_key() {
            Ok(Some(k)) => k,
            Ok(None) => {
                return Ok(None);
            },
            Err(e) => {
                return Err(e);
            },
        };
        let ghost e = self.index();
        proof {
            lemma_skip_bounds(c, e);
            assert(self.lexer().rest() == c.skip(e));
        }
        self.tokenizer.lexer_mut().skip_ws();
        let ghost e1 = self.index();
        let next = self.tokenizer.lexer_mut().peek();
        proof {
            self.lemma_keep(&start);
            assert(self.lexer().rest() == c.skip(e1));
        }
        if next == Some('.') {
            self.tokenizer.lexer_mut().next_char();
            proof {
                self.lemma_keep(&start);
                lemma_skip_bounds(c, e1 + 1);
                assert(self.lexer().rest() =~= c.skip(e1 + 1));
            }
            self.tokenizer.lexer_mut().skip_ws();
            let ghost e2 = self.index();
            let q = self.tokenizer.lexer_mut().pos();
            proof {
                self.lemma_keep(&start);
                self.lexer().lemma_wf();
                assert(self.lexer().rest() == c.skip(e2));
            }
            match self.parse_key_path() {
                Ok(Some(mut rest)) => {
                    let ghost rest0 = rest@;
                    let ghost kv = k@;
                    let mut v = vec![k];
                    v.append(&mut rest);
                    proof {
                        assert(key_path(v@) =~= seq![kv] + key_path(rest0));
                    }
                    Ok(Some(v))
                },
                Ok(None) => Err(
                    error_at_char("Invalid initial character for a key part", q, src, Ghost(e2)),
                ),
                Err(err) => Err(err),
            }
        } else {
            let v = vec![k];
            proof {
                assert(key_path(v@) =~= seq![v@[0]@]);
            }
            Ok(Some(v))
        }
    }

    /// Reads a multi-line literal string at the cursor, as
    /// `ml_literal_result` says.
    #[verifier::rlimit(40)]
    fn parse_ml_literal(&mut self) -> (res: Result<String, TomlError>)
        requires
            old(self).wf(),
            three_quotes().is_prefix_of(old(self).lexer().rest()),
        ensures
            final(self).wf(),
            final(self).chars() == old(self).chars(),
            final(self).spec_out() == old(self).spec_out(),
            final(self).spec_root() == old(self).spec_root(),
            final(self).spec_flags() == old(self).spec_flags(),
            match ml_literal_result(old(self).chars(), old(self).index()) {
                Ok((t, e)) => res matches Ok(s) && s@ == t && final(self).index() == e,
                Err((msg, q)) => res matches Err(err) && error_at(err, old(self).chars(), msg, q),
            },
    {
        let ghost c = self.chars();
        let ghost v = self.index();
        let ghost start = *self;
        let src = self.tokenizer.lexer_mut().src();
        proof {
            assert(self.lexer().rest() == c.skip(v));
            lemma_ascii_lit(c, v, three_quotes());
            assert(self.lexer().reaches(self.lexer().spec_pos() + 3));
        }
        self.tokenizer.lexer_mut().advance(3);
        proof {
            self.lemma_keep(&start);
            assert(self.index() == v + 3);
            assert(self.lexer().rest() == c.skip(v + 3));
            reveal_strlit("\r\n");
            reveal_strlit("\n");
            assert("\r\n"@ =~= seq!['\r', '\n']);
            assert("\n"@ =~= seq!['\n']);
        }
        if self.tokenizer.lexer_mut().starts_with("\r\n") {
            proof {
                lemma_ascii_lit(c, v + 3, seq!['\r', '\n']);
                assert(self.lexer().reaches(self.lexer().spec_pos() + 2));
            }
            self.tokenizer.lexer_mut().advance(2);
        } else if self.tokenizer.lexer_mut().starts_with("\n") {
            proof {
                lemma_ascii_lit(c, v + 3, seq!['\n']);
                assert(self.lexer().reaches(self.lexer().spec_pos() + 1));
            }
            self.tokenizer.lexer_mut().advance(1);
        }
        let ghost b0 = self.index();
        let ghost body = c.skip(b0);
        let bstart = self.tokenizer.lexer_mut().pos();
        proof {
            self.lemma_keep(&start);
            assert(b0 == v + 3 + leading_newline(c.skip(v + 3)));
            assert(self.lexer().rest() == body);
            assert(self.lexer().passed(bstart as int)) by {
                assert(byte_offset(c, b0) == bstart);
            }
            reveal_strlit("'''");
            assert("'''"@ =~= three_quotes());
        }
        loop
            invariant
                self.wf(),
                self.chars() == c,
                self.lexer().spec_src() == start.lexer().spec_src(),
                self.spec_out() == start.spec_out(),
                self.spec_root() == start.spec_root(),
                self.spec_flags() == start.spec_flags(),
                0 <= b0 <= self.index() <= c.len(),
                body == c.skip(b0),
                byte_offset(c, b0) == bstart,
                self.lexer().passed(bstart as int),
                ml_literal_stop(body) == (self.index() - b0) + ml_literal_stop(self.lexer().rest()),
                "'''"@ == three_quotes(),
                c == old(self).chars(),
                v == old(self).index(),
                b0 == v + 3 + leading_newline(c.skip(v + 3)),
                src == start.lexer().spec_src(),
                start == *old(self),
            ensures
                self.wf(),
                self.chars() == c,
                self.lexer().spec_src() == start.lexer().spec_src(),
                self.spec_out() == start.spec_out(),
                self.spec_root() == start.spec_root(),
                self.spec_flags() == start.spec_flags(),
                0 <= b0 <= self.index() <= c.len(),
                self.lexer().passed(bstart as int),
                ml_literal_stop(body) == self.index() - b0,
                three_quotes().is_prefix_of(self.lexer().rest()),
            decreases c.len() - self.index(),
        {
            if self.tokenizer.lexer_mut().starts_with("'''") {
                break ;
            }
            let ghost before = *self;
            let ghost r = self.lexer().rest();
            match self.tokenizer.lexer_mut().peek() {
                None => {
                    let pos = self.tokenizer.lexer_mut().pos();
                    proof {
                        self.lexer().lemma_wf();
                        assert(r.len() == 0);
                    }
                    return Err(
                        error_at_char("Unterminated literal string", pos, src, Ghost(self.index())),
                    );
                },
                Some(ch) => {
                    if is_ml_illegal(ch) {
                        let pos = self.tokenizer.lexer_mut().pos();
                        proof {
                            self.lexer().lemma_wf();
                            assert(r[0] == ch);
                            lemma_ml_literal_stop(body);
                        }
                        return Err(
                            error_at_char(
                                "Invalid character in literal string",
                                pos,
                                src,
                                Ghost(self.index()),
                            ),
                        );
                    }
                    self.tokenizer.lexer_mut().next_char();
                    proof {
                        assert(r[0] == ch);
                        assert(self.lexer().rest() =~= r.drop_first());
                        self.lemma_keep(&before);
                        assert(self.lexer().passed(bstart as int)) by {
                            let j = choose|j: int|
                                0 <= j <= before.index() && #[trigger] byte_offset(c, j) == bstart;
                            assert(byte_offset(c, j) == bstart);
                        }
                    }
                },
            }
        }
        let ghost m = self.index() - b0;
        let text = self.tokenizer.lexer_mut().slice_from(bstart);
        let mut out = text.to_string();
        proof {
            assert(out@ == c.subrange(b0, b0 + m));
            assert(c.subrange(b0, b0 + m) =~= body.take(m));
            lemma_ml_literal_stop(body);
            assert(body.skip(m) == self.lexer().rest());
            lemma_ascii_lit(c, b0 + m, three_quotes());
            assert(self.lexer().reaches(self.lexer().spec_pos() + 3));
        }
        self.tokenizer.lexer_mut().advance(3);
        let ghost e = b0 + m + 3;
        proof {
            self.lemma_keep(&start);
            assert(self.index() == e);
            assert(self.lexer().rest() == c.skip(e));
            reveal_strlit("''");
            reveal_strlit("'");
            assert("''"@ =~= seq!['\'', '\'']);
            assert("'"@ =~= seq!['\'']);
        }
        if self.tokenizer.lexer_mut().starts_with("''") {
            proof {
                lemma_ascii_lit(c, e, seq!['\'', '\'']);
                assert(self.lexer().reaches(self.lexer().spec_pos() + 2));
                assert(c.subrange(e, e + 2) =~= seq!['\'', '\'']);
            }
            self.tokenizer.lexer_mut().advance(2);
            out.append("''");
        } else if self.tokenizer.lexer_mut().starts_with("'") {
            proof {
                lemma_ascii_lit(c, e, seq!['\'']);
                assert(self.lexer().reaches(self.lexer().spec_pos() + 1));
                assert(c.subrange(e, e + 1) =~= seq!['\'']);
            }
            self.tokenizer.lexer_mut().advance(1);
            out.append("'");
        } else {
            proof {
                assert(c.subrange(e, e) =~= Seq::<char>::empty());
            }
        }
        proof {
            self.lemma_keep(&start);
        }
        Ok(out)
    }

    /// Moves over the bare token at the cursor: up to a blank, a newline,
    /// a carriage return, a comment or the end.
    fn skip_token(&mut self)
        requires
            old(self).wf(),
        ensures
            final(self).wf(),
            final(self).chars() == old(self).chars(),
            final(self).lexer().spec_src() == old(self).lexer().spec_src(),
            final(self).spec_out() == old(self).spec_out(),
            final(self).spec_root() == old(self).spec_root(),
            final(self).spec_flags() == old(self).spec_flags(),
            final(self).index() == old(self).index() + token_len(old(self).lexer().rest()),
    {
        let ghost c = self.chars();
        let ghost v = self.index();
        proof {
            lemma_span_bound(c.skip(v), |ch: char| !ends_token(ch));
        }
        loop
            invariant
                self.wf(),
                self.chars() == c,
                c == old(self).chars(),
                v == old(self).index(),
                self.lexer().spec_src() == old(self).lexer().spec_src(),
                self.spec_out() == old(self).spec_out(),
                self.spec_flags() == old(self).spec_flags(),
                self.spec_root() == old(self).spec_root(),
                0 <= v <= self.index() <= c.len(),
                token_len(c.skip(v)) == (self.index() - v) + token_len(c.skip(self.index())),
            ensures
                self.wf(),
                self.chars() == c,
                self.lexer().spec_src() == old(self).lexer().spec_src(),
                self.spec_out() == old(self).spec_out(),
                self.spec_flags() == old(self).spec_flags(),
                self.spec_root() == old(self).spec_root(),
                token_len(c.skip(v)) == self.index() - v,
            decreases c.len() - self.index(),
        {
            let ghost before = *self;
            let ghost r = self.lexer().rest();
            let next = self.tokenizer.lexer_mut().peek();
            proof {
                self.lemma_keep(&before);
                assert(r == c.skip(self.index()));
            }
            match next {
                Some(ch) => {
                    if is_token_end(ch) {
                        break ;
                    }
                    self.tokenizer.lexer_mut().next_char();
                    proof {
                        self.lemma_keep(&before);
                        assert(self.lexer().rest() =~= r.drop_first());
                    }
                },
                None => {
                    break ;
                },
            }
        }
    }

    /// Reads the value at the cursor, as far as `value_result` says.
    fn parse_value(&mut self) -> (res: Result<Option<Value>, TomlError>)
        requires
            old(self).wf(),
        ensures
            final(self).wf(),
            final(self).chars() == old(self).chars(),
            final(self).spec_out() == old(self).spec_out(),
            final(self).spec_root() == old(self).spec_root(),
            final(self).spec_flags() == old(self).spec_flags(),
            match value_result(old(self).chars(), old(self).index()) {
                Ok((Some(m), e)) => res matches Ok(Some(val)) && value_model(val) == m
                    && is_leaf(val) && final(self).index() == e,
                Ok((None, p)) => res matches Ok(None) && final(self).index() == p,
                Err((msg, q)) => res matches Err(err) && error_at(err, old(self).chars(), msg, q),
            },
    {
        let ghost c = self.chars();
        let ghost v = self.index();
        let ghost start = *self;
        let src = self.tokenizer.lexer_mut().src();
        let vpos = self.tokenizer.lexer_mut().pos();
        proof {
            reveal(value_result);
            reveal_strlit("true");
            reveal_strlit("false");
            reveal_strlit("'''");
            reveal_strlit("\"\"\"");
            self.lemma_keep(&start);
            assert(self.lexer().rest() == c.skip(v));
            assert("true"@ =~= seq!['t', 'r', 'u', 'e']);
            assert("false"@ =~= seq!['f', 'a', 'l', 's', 'e']);
            assert("'''"@ =~= seq!['\'', '\'', '\'']);
            assert("\"\"\""@ =~= seq!['"', '"', '"']);
        }
        if self.tokenizer.lexer_mut().starts_with("true") {
            proof {
                self.lemma_keep(&start);
                lemma_ascii_lit(c, v, seq!['t', 'r', 'u', 'e']);
                assert(self.lexer().reaches(self.lexer().spec_pos() + 4));
            }
            self.tokenizer.lexer_mut().advance(4);
            proof {
                self.lemma_keep(&start);
            }
            return Ok(Some(Value::Boolean(true)));
        }
        if self.tokenizer.lexer_mut().starts_with("false") {
            proof {
                self.lemma_keep(&start);
                lemma_ascii_lit(c, v, seq!['f', 'a', 'l', 's', 'e']);
                assert(self.lexer().reaches(self.lexer().spec_pos() + 5));
            }
            self.tokenizer.lexer_mut().advance(5);
            proof {
                self.lemma_keep(&start);
            }
            return Ok(Some(Value::Boolean(false)));
        }
        let first = self.tokenizer.lexer_mut().peek();
        proof {
            self.lemma_keep(&start);
        }
        if first == Some('\'') {
            if self.tokenizer.lexer_mut().starts_with("'''") {
                proof {
                    self.lemma_keep(&start);
                    assert(three_quotes() =~= "'''"@);
                }
                return match self.parse_ml_literal() {
                    Ok(t) => Ok(Some(Value::String(t))),
                    Err(e) => Err(e),
                };
            }
            proof {
                self.lemma_keep(&start);
            }
            match self.tokenizer.parse_literal_string() {
                Ok(Token::LiteralString(s)) => {
                    proof {
                        self.lemma_keep(&start);
                    }
                    return Ok(Some(Value::String(s.to_string())));
                },
                Ok(_) => {
                    proof {
                        assert(false);
                    }
                    return Ok(None);
                },
                Err(msg) => {
                    let pos = self.tokenizer.lexer_mut().pos();
                    let ghost q = self.index();
                    proof {
                        self.lemma_keep(&start);
                        self.lexer().lemma_wf();
                    }
                    return Err(error_at_char(msg, pos, src, Ghost(q)));
                },
            }
        }
        if first == Some('"') {
            if self.tokenizer.lexer_mut().starts_with("\"\"\"") {
                proof {
                    self.lemma_keep(&start);
                }
                return Ok(None);
            }
            proof {
                self.lemma_keep(&start);
            }
            match self.tokenizer.parse_basic_string() {
                Ok(Token::BasicString(s)) => {
                    proof {
                        self.lemma_keep(&start);
                    }
                    match unescape_str(s) {
                        Ok(text) => {
                            return Ok(Some(Value::String(text)));
                        },
                        Err(_) => {
                            proof {
                                start.lexer().lemma_wf();
                                lemma_ascii_lit(c, v, seq!['"']);
                                crate::text::lemma_offset_end(c, v + 1);
                            }
                            return Err(
                                error_at_char(
                                    "Unescaped '\\' in a string",
                                    vpos + 1,
                                    src,
                                    Ghost(v + 1),
                                ),
                            );
                        },
                    }
                },
                Ok(_) => {
                    proof {
                        assert(false);
                    }
                    return Ok(None);
                },
                Err(msg) => {
                    let pos = self.tokenizer.lexer_mut().pos();
                    let ghost q = self.index();
                    proof {
                        self.lemma_keep(&start);
                        self.lexer().lemma_wf();
                    }
                    return Err(error_at_char(msg, pos, src, Ghost(q)));
                },
            }
        }
        // A bare token: an integer or a datetime
        proof {
            self.lemma_keep(&start);
        }
        Ok(self.parse_bare_value())
    }

    /// Reads the bare value at the cursor, as `bare_value_result` says.
    #[verifier::rlimit(40)]
    fn parse_bare_value(&mut self) -> (res: Option<Value>)
        requires
            old(self).wf(),
        ensures
            final(self).wf(),
            final(self).chars() == old(self).chars(),
            final(self).spec_out() == old(self).spec_out(),
            final(self).spec_root() == old(self).spec_root(),
            final(self).spec_flags() == old(self).spec_flags(),
            match bare_value_result(old(self).chars(), old(self).index()) {
                (Some(m), e) => res matches Some(val) && value_model(val) == m && is_leaf(val)
                    && final(self).index() == e,
                (None, p) => res is None && final(self).index() == p,
            },
    {
        let ghost c = self.chars();
        let ghost v = self.index();
        let ghost start = *self;
        proof {
            assert(self.lexer().rest() == c.skip(v));
        }
        let tstart = self.tokenizer.lexer_mut().pos();
        proof {
            self.lemma_keep(&start);
            assert(byte_offset(c, v) == tstart);
            assert(self.lexer().passed(tstart as int));
        }
        self.skip_token();
        proof {
            assert(self.lexer().passed(tstart as int)) by {
                assert(0 <= v <= self.index() && byte_offset(c, v) == tstart);
            }
        }
        let tok = self.tokenizer.lexer_mut().slice_from(tstart);
        proof {
            self.lemma_keep(&start);
            assert(tok@ == c.subrange(v, self.index()));
            assert(c.skip(v).take(self.index() - v) =~= c.subrange(v, self.index()));
        }
        match parse_integer(tok) {
            Some(i) => Some(Value::Integer(i)),
            None => match Datetime::parse(tok) {
                Some(d) => {
                    let date_only = match d {
                        Datetime::LocalDate(_) => true,
                        _ => false,
                    };
                    if date_only && self.space_then_digit() {
                        // A date, a space and a time: read them as one datetime
                        let ghost n = self.index() - v;
                        proof {
                            assert(self.lexer().rest() == c.skip(v + n));
                        }
                        self.tokenizer.lexer_mut().next_char();
                        proof {
                            self.lemma_keep(&start);
                            assert(self.lexer().rest() =~= c.skip(v + n + 1));
                        }
                        self.skip_token();
                        proof {
                            assert(self.lexer().passed(tstart as int)) by {
                                assert(0 <= v <= self.index() && byte_offset(c, v) == tstart);
                            }
                        }
                        let whole = self.tokenizer.lexer_mut().slice_from(tstart);
                        proof {
                            self.lemma_keep(&start);
                            assert(whole@ == c.subrange(v, self.index()));
                            assert(c.skip(v).take(self.index() - v) =~= c.subrange(v, self.index()));
                            assert(c.skip(v).skip(n + 1) =~= c.skip(v + n + 1));
                        }
                        match Datetime::parse(whole) {
                            Some(d2) => Some(Value::Datetime(d2)),
                            None => None,
                        }
                    } else {
                        Some(Value::Datetime(d))
                    }
                },
                None => None,
            },
        }
    }

    /// Whether a space and a digit follow the cursor.
    fn space_then_digit(&mut self) -> (b: bool)
        requires
            old(self).wf(),
        ensures
            final(self).wf(),
            final(self).lexer() == old(self).lexer(),
            final(self).spec_out() == old(self).spec_out(),
            final(self).spec_root() == old(self).spec_root(),
            final(self).spec_flags() == old(self).spec_flags(),
            b == space_then_digit(old(self).lexer().rest()),
    {
        let ghost r = self.lexer().rest();
        proof {
            reveal_strlit(" 0");
            reveal_strlit(" 1");
            reveal_strlit(" 2");
            reveal_strlit(" 3");
            reveal_strlit(" 4");
            reveal_strlit(" 5");
            reveal_strlit(" 6");
            reveal_strlit(" 7");
            reveal_strlit(" 8");
            reveal_strlit(" 9");
        }
        let mut found = false;
        if self.tokenizer.lexer_mut().starts_with(" 0") {
            found = true;
        } else if self.tokenizer.lexer_mut().starts_with(" 1") {
            found = true;
        } else if self.tokenizer.lexer_mut().starts_with(" 2") {
            found = true;
        } else if self.tokenizer.lexer_mut().starts_with(" 3") {
            found = true;
        } else if self.tokenizer.lexer_mut().starts_with(" 4") {
            found = true;
        } else if self.tokenizer.lexer_mut().starts_with(" 5") {
            found = true;
        } else if self.tokenizer.lexer_mut().starts_with(" 6") {
            found = true;
        } else if self.tokenizer.lexer_mut().starts_with(" 7") {
            found = true;
        } else if self.tokenizer.lexer_mut().starts_with(" 8") {
            found = true;
        } else if self.tokenizer.lexer_mut().starts_with(" 9") {
            found = true;
        }
        proof {
            if space_then_digit(r) {
                assert(r.subrange(0, 2) =~= seq![' ', r[1]]);
            }
            if found {
                assert(r[0] == r.subrange(0, 2)[0]);
                assert(r[1] == r.subrange(0, 2)[1]);
            }
        }
        found
    }

    /// Reads a `key = value` statement under the header `header`: stores the
    /// value at the end of the dotted key, making the tables on its way.
    #[verifier::rlimit(40)]
    fn parse_key_value_rule(&mut self, header: &[String]) -> (res: Result<(), TomlError>)
        requires
            old(self).wf(),
        ensures
            final(self).wf(),
            final(self).chars() == old(self).chars(),
            final(self).spec_flags().explicit_set() == old(self).spec_flags().explicit_set(),
            match key_value_result(old(self).chars(), old(self).index(), old(self).doc_state(key_path(header@))) {
                Ok((st, e)) => {
                    &&& res is Ok
                    &&& final(self).index() == e
                    &&& final(self).doc_state(key_path(header@)) == st
                },
                Err((msg, p)) => {
                    &&& res matches Err(err) && error_at(err, old(self).chars(), msg, p)
                    &&& final(self).spec_out() == old(self).spec_out()
                    &&& final(self).doc_state(key_path(header@)) == old(self).doc_state(key_path(header@))
                },
            },
    {
        let ghost c = self.chars();
        let ghost j = self.index();
        let ghost start = *self;
        let ghost hp = key_path(header@);
        let ghost st0 = self.doc_state(hp);
        let src = self.tokenizer.lexer_mut().src();
        let start_pos = self.tokenizer.lexer_mut().pos();
        proof {
            lemma_skip_bounds(c, j);
            assert(self.lexer().rest() == c.skip(j));
        }
        let key = match self.parse_key_path() {
            Ok(Some(k)) => k,
            Ok(None) => {
                proof {
                    self.lemma_keep(&start);
                }
                return Err(error_at_char("Expected valid key", start_pos, src, Ghost(j)));
            },
            Err(e) => {
                return Err(e);
            },
        };
        let ghost k = self.index();
        let ghost ks = key_path(key@);
        proof {
            lemma_key_path_bounds(c, j);
            assert(self.lexer().rest() == c.skip(k));
            assert(key@.len() == ks.len());
        }
        if !self.tokenizer.consume_char('=') {
            let pos = self.tokenizer.lexer_mut().pos();
            proof {
                self.lemma_keep(&start);
            }
            return Err(error_at_char("Expected '=' after key", pos, src, Ghost(k)));
        }
        proof {
            assert(k < c.len() && c[k] == '=');
            assert(self.lexer().rest() == c.skip(k + 1));
        }
        self.tokenizer.lexer_mut().skip_ws();
        proof {
            self.lemma_keep(&start);
            lemma_past_line_blank(c.skip(k + 1));
            assert(c.skip(k + 1).skip(blank_len(c.skip(k + 1)) as int) =~= c.skip(self.index()));
            assert(self.lexer().rest() == c.skip(self.index()));
        }
        let ghost v = self.index();
        let vpos = self.tokenizer.lexer_mut().pos();
        proof {
            self.lemma_keep(&start);
            self.lexer().lemma_wf();
        }
        let missing = match self.tokenizer.lexer_mut().peek() {
            None => true,
            Some(ch) => ch == '\n' || ch == '\r' || ch == '#',
        };
        proof {
            self.lemma_keep(&start);
        }
        if missing {
            let pos = self.tokenizer.lexer_mut().pos();
            proof {
                self.lemma_keep(&start);
                self.lexer().lemma_wf();
            }
            return Err(error_at_char("Invalid value", pos, src, Ghost(v)));
        }
        let parsed = match self.parse_value() {
            Ok(p) => p,
            Err(e) => {
                return Err(e);
            },
        };
        let value = match parsed {
            Some(val) => val,
            None => {
                // A value of a kind that is not read is refused
                return Err(error_at_char("Invalid or unsupported value", vpos, src, Ghost(v)));
            },
        };
        let ghost e = self.index();
        let ghost m = value_model(value);
        let epos = self.tokenizer.lexer_mut().pos();
        proof {
            self.lexer().lemma_wf();
        }
        // A dotted key may not pass through a table that a header declared
        let n = key.len();
        match first_declared(&self.flags, header, &key) {
            Some(cont) => {
                let mut msg = String::from_str("Cannot redefine namespace ");
                let r = key_repr_of(&cont);
                msg.append(r.as_str());
                proof {
                    reveal_strlit("Cannot redefine namespace ");
                    assert(msg@ =~= redefined(key_path(cont@)));
                }
                return Err(error_at_char(msg.as_str(), epos, src, Ghost(e)));
            },
            None => {},
        }
        // The value goes to a key that is not there yet, through tables only
        let parent = joined(header, &key, n - 1);
        let last = key[n - 1].clone();
        let ghost op = NestOp::Assign(last@, m);
        proof {
            assert(key_path(parent@).skip(0) =~= hp + ks.drop_last());
            assert(last@ == ks.last());
        }
        if !nest_check(&self.out, self.root, &parent, 0, last.as_str(), 2, Ghost(op)) {
            return Err(error_at_char("Cannot overwrite a value", epos, src, Ghost(e)));
        }
        match self.end_statement() {
            Ok(()) => {},
            Err(err) => {
                return Err(err);
            },
        }
        // Note the tables on the key's way, then store the value
        add_dotted_tables(&mut self.flags, header, &key);
        let ghost root0 = self.root@;
        let ghost new_root = update_nest(root0, hp + ks.drop_last(), op)->0;
        nest_update(&mut self.out, self.root, &parent, 0, ExecOp::Assign(last, value), Ghost(op));
        self.root = Ghost(new_root);
        Ok(())
    }
}

} // verus!
