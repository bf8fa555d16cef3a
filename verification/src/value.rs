//! The TOML data model: values, and tables kept in key order.
use vstd::prelude::*;
use vstd::string::*;
use vstd::utf8::*;
pub use crate::datetime::Datetime;
use crate::text::{bytes_lt, key_lt, lemma_key_injective, lemma_key_lt_order};

verus! {

broadcast use vstd::string::group_string_axioms, vstd::utf8::group_utf8_lib;

/// Represents any valid TOML value.
#[derive(Debug, PartialEq)]
pub enum Value {
    /// A TOML string (basic, literal, or multiline).
    String(String),
    /// A TOML integer (64-bit signed).
    Integer(i64),
    /// A TOML float, held as the bit pattern of its IEEE 754 binary64 value.
    Float(u64),
    /// A TOML boolean (`true` or `false`).
    Boolean(bool),
    /// A TOML datetime.
    Datetime(Datetime),
    /// A TOML array containing a list of values.
    Array(Vec<Value>),
    /// A TOML inline table or standard table.
    Table(Table),
}

/// The name of the kind of value `v` is.
pub open spec fn kind_name_spec(v: Value) -> Seq<char> {
    match v {
        Value::String(_) => "string"@,
        Value::Integer(_) => "integer"@,
        Value::Float(_) => "float"@,
        Value::Boolean(_) => "boolean"@,
        Value::Datetime(_) => "datetime"@,
        Value::Array(_) => "array"@,
        Value::Table(_) => "table"@,
    }
}

impl Value {
    /// Returns the type name for error formatting.
    pub fn kind_name(&self) -> (n: &'static str)
        ensures
            n@ == kind_name_spec(*self),
    {
        match self {
            Value::String(_) => "string",
            Value::Integer(_) => "integer",
            Value::Float(_) => "float",
            Value::Boolean(_) => "boolean",
            Value::Datetime(_) => "datetime",
            Value::Array(_) => "array",
            Value::Table(_) => "table",
        }
    }

    pub fn as_table_mut(&mut self) -> (t: Option<&mut Table>)
        ensures
            match *old(self) {
                Value::Table(table) => t is Some && *t->0 == table && *final(self) == Value::Table(
                    *final(t->0),
                ),
                _ => t is None && *final(self) == *old(self),
            },
    {
        if let Value::Table(t) = self {
            Some(t)
        } else {
            None
        }
    }

    pub fn as_array_mut(&mut self) -> (a: Option<&mut Vec<Value>>)
        ensures
            match *old(self) {
                Value::Array(array) => a is Some && *a->0 == array && *final(self) == Value::Array(
                    *final(a->0),
                ),
                _ => a is None && *final(self) == *old(self),
            },
    {
        if let Value::Array(a) = self {
            Some(a)
        } else {
            None
        }
    }
}

/// The keys of `entries` are in strictly increasing order (so no key occurs twice).
pub open spec fn sorted_keys(entries: Seq<(String, Value)>) -> bool {
    forall|i: int, j: int|
        0 <= i < j < entries.len() ==> key_lt(#[trigger] entries[i].0@, #[trigger] entries[j].0@)
}

/// Whether some entry has key `k`.
pub open spec fn has_key(entries: Seq<(String, Value)>, k: Seq<char>) -> bool {
    exists|i: int| 0 <= i < entries.len() && #[trigger] entries[i].0@ == k
}

/// The map from each key to the value of the entry with that key.
pub open spec fn entries_map(entries: Seq<(String, Value)>) -> Map<Seq<char>, Value> {
    Map::new(
        |k: Seq<char>| has_key(entries, k),
        |k: Seq<char>|
            entries[choose|i: int| 0 <= i < entries.len() && #[trigger] entries[i].0@ == k].1,
    )
}

/// In sorted entries, an entry's key leads to that entry's value.
pub proof fn lemma_entries_map_at(entries: Seq<(String, Value)>, i: int)
    requires
        sorted_keys(entries),
        0 <= i < entries.len(),
    ensures
        entries_map(entries).contains_key(entries[i].0@),
        entries_map(entries)[entries[i].0@] == entries[i].1,
{
    let k = entries[i].0@;
    assert(has_key(entries, k));
    let c = choose|c: int| 0 <= c < entries.len() && #[trigger] entries[c].0@ == k;
    lemma_key_lt_order(k, k, k);
    if c < i {
        assert(key_lt(entries[c].0@, entries[i].0@));
    } else if c > i {
        assert(key_lt(entries[i].0@, entries[c].0@));
    }
}

/// Represents a parsed TOML table (a map of string keys to TOML values), its
/// entries kept in increasing key order. The entries live in a sorted vector
/// rather than a `BTreeMap`: vstd specifies `BTreeMap` only for key types that
/// obey its comparison laws, and gives `String` no such laws, so nothing about
/// a map keyed by `String` could be proved.
#[derive(Debug, PartialEq)]
pub struct Table {
    entries: Vec<(String, Value)>,
}

impl View for Table {
    type V = Map<Seq<char>, Value>;

    closed spec fn view(&self) -> Map<Seq<char>, Value> {
        entries_map(self.entries@)
    }
}

impl Table {
    /// The entries, in increasing key order.
    pub closed spec fn spec_entries(&self) -> Seq<(String, Value)> {
        self.entries@
    }

    #[verifier::type_invariant]
    closed spec fn keys_in_order(&self) -> bool {
        sorted_keys(self.entries@)
    }

    pub fn new() -> (t: Self)
        ensures
            t@ == Map::<Seq<char>, Value>::empty(),
            t.spec_entries().len() == 0,
    {
        let t = Table { entries: Vec::new() };
        proof {
            assert(t@ =~= Map::<Seq<char>, Value>::empty());
        }
        t
    }

    /// The number of entries.
    pub fn len(&self) -> (n: usize)
        ensures
            n == self.spec_entries().len(),
    {
        self.entries.len()
    }

    pub fn is_empty(&self) -> (b: bool)
        ensures
            b == (self@.dom() == Set::<Seq<char>>::empty()),
    {
        proof {
            use_type_invariant(self);
            if self.entries@.len() > 0 {
                lemma_entries_map_at(self.entries@, 0);
            } else {
                assert(self@.dom() =~= Set::<Seq<char>>::empty());
            }
        }
        self.entries.len() == 0
    }

    /// The entries, in increasing key order.
    pub fn entries(&self) -> (e: &[(String, Value)])
        ensures
            e@ == self.spec_entries(),
            sorted_keys(e@),
            entries_map(e@) == self@,
    {
        proof {
            use_type_invariant(self);
        }
        self.entries.as_slice()
    }

    /// Index of the first entry whose key is not below `key` (the length if none).
    fn lower_bound(&self, key: &str) -> (i: usize)
        ensures
            i <= self.spec_entries().len(),
            forall|j: int| 0 <= j < i ==> key_lt(#[trigger] self.spec_entries()[j].0@, key@),
            i < self.spec_entries().len() ==> !key_lt(self.spec_entries()[i as int].0@, key@),
    {
        let n = self.entries.len();
        let mut i: usize = 0;
        while i < n && str_less(self.entries[i].0.as_str(), key)
            invariant
                0 <= i <= n,
                n == self.entries@.len(),
                forall|j: int| 0 <= j < i ==> key_lt(#[trigger] self.entries@[j].0@, key@),
            decreases n - i,
        {
            i = i + 1;
        }
        i
    }

    pub fn get(&self, key: &str) -> (v: Option<&Value>)
        ensures
            match v {
                Some(x) => self@.contains_key(key@) && *x == self@[key@],
                None => !self@.contains_key(key@),
            },
    {
        proof {
            use_type_invariant(self);
        }
        let i = self.lower_bound(key);
        if i < self.entries.len() && str_equal(self.entries[i].0.as_str(), key) {
            proof {
                lemma_entries_map_at(self.entries@, i as int);
            }
            Some(&self.entries[i].1)
        } else {
            proof {
                self.lemma_absent(key@, i as int);
            }
            None
        }
    }

    /// A key that is not at its lower bound is absent.
    proof fn lemma_absent(&self, k: Seq<char>, i: int)
        requires
            sorted_keys(self.entries@),
            0 <= i <= self.entries@.len(),
            forall|j: int| 0 <= j < i ==> key_lt(#[trigger] self.entries@[j].0@, k),
            i < self.entries@.len() ==> !key_lt(self.entries@[i].0@, k),
            i < self.entries@.len() ==> self.entries@[i].0@ != k,
        ensures
            !self@.contains_key(k),
    {
        if has_key(self.entries@, k) {
            let c = choose|c: int| 0 <= c < self.entries@.len() && #[trigger] self.entries@[c].0@ == k;
            lemma_key_lt_order(k, k, k);
            if c > i {
                lemma_key_lt_order(self.entries@[i].0@, k, k);
            }
        }
    }

    pub fn contains_key(&self, key: &str) -> (b: bool)
        ensures
            b == self@.contains_key(key@),
    {
        match self.get(key) {
            Some(_) => true,
            None => false,
        }
    }

    /// Inserts `value` under `key`, and returns the value that `key` had before, if any.
    pub fn insert(&mut self, key: String, value: Value) -> (prev: Option<Value>)
        ensures
            final(self)@ == old(self)@.insert(key@, value),
            match prev {
                Some(v) => old(self)@.contains_key(key@) && v == old(self)@[key@],
                None => !old(self)@.contains_key(key@),
            },
    {
        proof {
            use_type_invariant(&*self);
        }
        let i = self.lower_bound(key.as_str());
        let mut entries: Vec<(String, Value)> = Vec::new();
        std::mem::swap(&mut entries, &mut self.entries);
        let ghost old_entries = entries@;
        let ghost k = key@;
        let prev = if i < entries.len() && str_equal(entries[i].0.as_str(), key.as_str()) {
            proof {
                lemma_entries_map_at(old_entries, i as int);
            }
            let (_, old_value) = entries.remove(i);
            entries.insert(i, (key, value));
            proof {
                assert(entries@ =~= old_entries.update(i as int, (entries@[i as int].0, value)));
                lemma_replace(old_entries, i as int, entries@[i as int].0, value);
            }
            Some(old_value)
        } else {
            proof {
                self.lemma_absent_in(old_entries, k, i as int);
                lemma_insert_new(old_entries, i as int, key, value);
            }
            entries.insert(i, (key, value));
            None
        };
        self.entries = entries;
        prev
    }

    /// A key that is not at its lower bound is absent from `entries`.
    proof fn lemma_absent_in(&self, entries: Seq<(String, Value)>, k: Seq<char>, i: int)
        requires
            sorted_keys(entries),
            0 <= i <= entries.len(),
            forall|j: int| 0 <= j < i ==> key_lt(#[trigger] entries[j].0@, k),
            i < entries.len() ==> !key_lt(entries[i].0@, k),
            i < entries.len() ==> entries[i].0@ != k,
        ensures
            !has_key(entries, k),
            i < entries.len() ==> key_lt(k, entries[i].0@),
    {
        if i < entries.len() {
            lemma_key_lt_order(entries[i].0@, k, k);
        }
        if has_key(entries, k) {
            let c = choose|c: int| 0 <= c < entries.len() && #[trigger] entries[c].0@ == k;
            lemma_key_lt_order(k, k, k);
            if c > i {
                lemma_key_lt_order(entries[i].0@, k, k);
            }
        }
    }
}

/// Removing the first of sorted entries removes its key from the map.
proof fn lemma_entries_map_drop_first(entries: Seq<(String, Value)>)
    requires
        sorted_keys(entries),
        entries.len() > 0,
    ensures
        sorted_keys(entries.drop_first()),
        entries_map(entries.drop_first()) == entries_map(entries).remove(entries[0].0@),
{
    let rest = entries.drop_first();
    let k0 = entries[0].0@;
    assert forall|a: int, b: int| 0 <= a < b < rest.len() implies key_lt(
        #[trigger] rest[a].0@,
        #[trigger] rest[b].0@,
    ) by {
        assert(rest[a] == entries[a + 1]);
        assert(rest[b] == entries[b + 1]);
    }
    assert forall|k: Seq<char>| #[trigger] has_key(rest, k) == (has_key(entries, k) && k != k0) by {
        if has_key(rest, k) {
            let c = choose|c: int| 0 <= c < rest.len() && #[trigger] rest[c].0@ == k;
            assert(entries[c + 1].0@ == k);
            assert(key_lt(entries[0].0@, entries[c + 1].0@));
            lemma_key_lt_order(k, k, k);
        }
        if has_key(entries, k) && k != k0 {
            let c = choose|c: int| 0 <= c < entries.len() && #[trigger] entries[c].0@ == k;
            assert(c != 0);
            assert(rest[c - 1].0@ == k);
        }
    }
    assert forall|k: Seq<char>| #[trigger] has_key(rest, k) implies entries_map(rest)[k]
        == entries_map(entries)[k] by {
        let c = choose|c: int| 0 <= c < rest.len() && #[trigger] rest[c].0@ == k;
        lemma_entries_map_at(rest, c);
        lemma_entries_map_at(entries, c + 1);
    }
    assert(entries_map(rest) =~= entries_map(entries).remove(k0));
}

/// The order of a table's entries depends on its contents alone: two tables
/// (entry sequences in key order) with the same map list the same keys with
/// the same values, in the same order, whatever order the keys were inserted in.
pub proof fn law_entries_follow_contents(a: Seq<(String, Value)>, b: Seq<(String, Value)>)
    requires
        sorted_keys(a),
        sorted_keys(b),
        entries_map(a) == entries_map(b),
    ensures
        a.len() == b.len(),
        forall|i: int| 0 <= i < a.len() ==> (#[trigger] a[i]).0@ == b[i].0@ && a[i].1 == b[i].1,
    decreases a.len(),
{
    if a.len() == 0 {
        if b.len() > 0 {
            lemma_entries_map_at(b, 0);
        }
    } else {
        lemma_entries_map_at(a, 0);
        let ka = a[0].0@;
        assert(has_key(b, ka));
        assert(b.len() > 0);
        lemma_entries_map_at(b, 0);
        let kb = b[0].0@;
        assert(has_key(a, kb));
        assert(ka == kb) by {
            let jb = choose|c: int| 0 <= c < b.len() && #[trigger] b[c].0@ == ka;
            let ja = choose|c: int| 0 <= c < a.len() && #[trigger] a[c].0@ == kb;
            lemma_key_lt_order(ka, kb, ka);
            if ka != kb {
                if jb > 0 {
                    assert(key_lt(b[0].0@, b[jb].0@));
                }
                if ja > 0 {
                    assert(key_lt(a[0].0@, a[ja].0@));
                }
            }
        }
        lemma_entries_map_drop_first(a);
        lemma_entries_map_drop_first(b);
        law_entries_follow_contents(a.drop_first(), b.drop_first());
        assert forall|i: int| 0 <= i < a.len() implies (#[trigger] a[i]).0@ == b[i].0@ && a[i].1
            == b[i].1 by {
            if i > 0 {
                assert(a[i] == a.drop_first()[i - 1]);
                assert(b[i] == b.drop_first()[i - 1]);
            }
        }
    }
}

/// Replacing the value of an existing key keeps the order and updates the map.
proof fn lemma_replace(entries: Seq<(String, Value)>, i: int, key: String, value: Value)
    requires
        sorted_keys(entries),
        0 <= i < entries.len(),
        entries[i].0@ == key@,
    ensures
        sorted_keys(entries.update(i, (key, value))),
        entries_map(entries.update(i, (key, value))) == entries_map(entries).insert(key@, value),
{
    let e2 = entries.update(i, (key, value));
    assert(forall|j: int| 0 <= j < e2.len() ==> #[trigger] e2[j].0@ == entries[j].0@);
    lemma_entries_map_at(e2, i);
    assert forall|k: Seq<char>| #[trigger] has_key(e2, k) == has_key(entries, k) by {
        if has_key(e2, k) {
            let c = choose|c: int| 0 <= c < e2.len() && #[trigger] e2[c].0@ == k;
            assert(entries[c].0@ == k);
        }
        if has_key(entries, k) {
            let c = choose|c: int| 0 <= c < entries.len() && #[trigger] entries[c].0@ == k;
            assert(e2[c].0@ == k);
        }
    }
    assert forall|k: Seq<char>| #[trigger] has_key(e2, k) && k != key@ implies entries_map(e2)[k]
        == entries_map(entries)[k] by {
        let c = choose|c: int| 0 <= c < entries.len() && #[trigger] entries[c].0@ == k;
        lemma_entries_map_at(entries, c);
        lemma_entries_map_at(e2, c);
    }
    assert(entries_map(e2) =~= entries_map(entries).insert(key@, value));
}

/// Inserting a new key at its place keeps the order and extends the map.
proof fn lemma_insert_new(entries: Seq<(String, Value)>, i: int, key: String, value: Value)
    requires
        sorted_keys(entries),
        0 <= i <= entries.len(),
        forall|j: int| 0 <= j < i ==> key_lt(#[trigger] entries[j].0@, key@),
        i < entries.len() ==> key_lt(key@, entries[i].0@),
        !has_key(entries, key@),
    ensures
        sorted_keys(entries.insert(i, (key, value))),
        entries_map(entries.insert(i, (key, value))) == entries_map(entries).insert(key@, value),
{
    let e2 = entries.insert(i, (key, value));
    assert forall|a: int, b: int| 0 <= a < b < e2.len() implies key_lt(
        #[trigger] e2[a].0@,
        #[trigger] e2[b].0@,
    ) by {
        if a < i && b == i {
        } else if a < i && b > i {
            assert(e2[b] == entries[b - 1]);
            if i < entries.len() {
                lemma_key_lt_order(entries[a].0@, key@, entries[i].0@);
                if b - 1 > i {
                    lemma_key_lt_order(entries[a].0@, entries[i].0@, entries[b - 1].0@);
                }
            } else {
            }
        } else if a == i {
            assert(e2[b] == entries[b - 1]);
            if b - 1 > i {
                lemma_key_lt_order(key@, entries[i].0@, entries[b - 1].0@);
            }
        } else if a < i {
        } else {
            assert(e2[a] == entries[a - 1]);
            assert(e2[b] == entries[b - 1]);
        }
    }
    lemma_entries_map_at(e2, i);
    assert forall|k: Seq<char>| #[trigger] has_key(e2, k) == (has_key(entries, k) || k == key@) by {
        if has_key(e2, k) {
            let c = choose|c: int| 0 <= c < e2.len() && #[trigger] e2[c].0@ == k;
            if c < i {
                assert(entries[c].0@ == k);
            } else if c > i {
                assert(entries[c - 1].0@ == k);
            }
        }
        if has_key(entries, k) {
            let c = choose|c: int| 0 <= c < entries.len() && #[trigger] entries[c].0@ == k;
            if c < i {
                assert(e2[c].0@ == k);
            } else {
                assert(e2[c + 1].0@ == k);
            }
        }
    }
    assert forall|k: Seq<char>| #[trigger] has_key(entries, k) implies entries_map(e2)[k]
        == entries_map(entries)[k] by {
        let c = choose|c: int| 0 <= c < entries.len() && #[trigger] entries[c].0@ == k;
        lemma_entries_map_at(entries, c);
        if c < i {
            lemma_entries_map_at(e2, c);
        } else {
            assert(e2[c + 1] == entries[c]);
            lemma_entries_map_at(e2, c + 1);
        }
    }
    assert(entries_map(e2) =~= entries_map(entries).insert(key@, value));
}

/// Whether `a` and `b` are the same string.
pub fn str_equal(a: &str, b: &str) -> (eq: bool)
    ensures
        eq == (a@ == b@),
{
    let x = a.as_bytes();
    let y = b.as_bytes();
    if x.len() != y.len() {
        return false;
    }
    let mut i: usize = 0;
    while i < x.len()
        invariant
            x@ == a.spec_bytes(),
            y@ == b.spec_bytes(),
            x@.len() == y@.len(),
            0 <= i <= x@.len(),
            forall|k: int| 0 <= k < i ==> x@[k] == y@[k],
        decreases x@.len() - i,
    {
        if x[i] != y[i] {
            return false;
        }
        i = i + 1;
    }
    proof {
        assert(x@ =~= y@);
        lemma_key_injective(a@, b@);
    }
    true
}

/// Whether `a` sorts before `b`, comparing bytes as Rust compares strings.
pub fn str_less(a: &str, b: &str) -> (lt: bool)
    ensures
        lt == key_lt(a@, b@),
{
    let x = a.as_bytes();
    let y = b.as_bytes();
    let mut i: usize = 0;
    proof {
        assert(x@.skip(0) =~= x@);
        assert(y@.skip(0) =~= y@);
    }
    loop
        invariant
            x@ == a.spec_bytes(),
            y@ == b.spec_bytes(),
            0 <= i <= x@.len(),
            i <= y@.len(),
            bytes_lt(x@, y@) == bytes_lt(x@.skip(i as int), y@.skip(i as int)),
        decreases x@.len() - i,
    {
        if i == x.len() {
            return i < y.len();
        }
        if i == y.len() {
            return false;
        }
        if x[i] != y[i] {
            return x[i] < y[i];
        }
        proof {
            assert(x@.skip(i as int).drop_first() =~= x@.skip(i + 1));
            assert(y@.skip(i as int).drop_first() =~= y@.skip(i + 1));
        }
        i = i + 1;
    }
}

} // verus!
