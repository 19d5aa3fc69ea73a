//! The value model: what a document of the notation holds once decoded.

use crate::date::Date;
use crate::number::{number_text, Number};
use vstd::prelude::*;
use vstd::string::StringSliceAdditionalSpecFns;
use vstd::utf8::encode_utf8;

verus! {

/// A document as a mathematical value. An object is the sequence of its
/// entries in ascending order of their keys.
pub enum Tree {
    Null,
    Bool(bool),
    /// A number, as the bytes of its numeral.
    Number(Seq<u8>),
    Text(Seq<char>),
    Array(Seq<Tree>),
    Object(Seq<(Seq<char>, Tree)>),
    Date(Date),
}

/// Whether `a` comes before `b` in the order of byte strings: at the first
/// place where they differ `a` has the smaller byte, or `a` ends there.
pub open spec fn bytes_before(a: Seq<u8>, b: Seq<u8>) -> bool
    decreases a.len(),
{
    if b.len() == 0 {
        false
    } else if a.len() == 0 {
        true
    } else if a[0] != b[0] {
        a[0] < b[0]
    } else {
        bytes_before(a.drop_first(), b.drop_first())
    }
}

/// Whether the key `a` comes before the key `b`: keys are ordered as their
/// UTF-8 bytes are.
pub open spec fn key_before(a: Seq<char>, b: Seq<char>) -> bool {
    bytes_before(encode_utf8(a), encode_utf8(b))
}

/// Whether the keys of `entries` ascend strictly, so that no key occurs twice.
pub open spec fn ascending(entries: Seq<(Seq<char>, Tree)>) -> bool {
    forall|i: int, j: int|
        0 <= i < j < entries.len() ==> key_before(#[trigger] entries[i].0, #[trigger] entries[j].0)
}

/// The number of entries whose key comes before `key`: the place of `key`
/// among ascending entries.
pub open spec fn rank(entries: Seq<(Seq<char>, Tree)>, key: Seq<char>) -> int
    decreases entries.len(),
{
    if entries.len() == 0 {
        0
    } else {
        rank(entries.drop_last(), key) + if key_before(entries.last().0, key) {
            1int
        } else {
            0int
        }
    }
}

/// The entries after `key` has been given `value`: an entry under the same
/// key gives way to the new one, which otherwise goes to its place in the
/// order.
pub open spec fn put(entries: Seq<(Seq<char>, Tree)>, key: Seq<char>, value: Tree) -> Seq<
    (Seq<char>, Tree),
> {
    let at = rank(entries, key);
    if at < entries.len() && entries[at].0 == key {
        entries.update(at, (key, value))
    } else {
        entries.insert(at, (key, value))
    }
}

/// What `entries` hold under `key`.
pub open spec fn lookup(entries: Seq<(Seq<char>, Tree)>, key: Seq<char>) -> Option<Tree> {
    let at = rank(entries, key);
    if at < entries.len() && entries[at].0 == key {
        Some(entries[at].1)
    } else {
        None
    }
}

/// Whether `t` is a value that the model admits: every number is a numeral
/// of the notation, every date is valid, and the keys of every object ascend.
pub open spec fn well_formed(t: Tree) -> bool
    decreases t,
{
    match t {
        Tree::Number(text) => number_text(text),
        Tree::Date(date) => date.valid(),
        Tree::Array(items) => forall|i: int|
            0 <= i < items.len() ==> well_formed(#[trigger] items[i]),
        Tree::Object(entries) => ascending(entries) && forall|i: int|
            0 <= i < entries.len() ==> well_formed((#[trigger] entries[i]).1),
        _ => true,
    }
}

pub proof fn lemma_bytes_before_irreflexive(a: Seq<u8>)
    ensures
        !bytes_before(a, a),
    decreases a.len(),
{
    if a.len() > 0 {
        lemma_bytes_before_irreflexive(a.drop_first());
    }
}

pub proof fn lemma_bytes_before_transitive(a: Seq<u8>, b: Seq<u8>, c: Seq<u8>)
    requires
        bytes_before(a, b),
        bytes_before(b, c),
    ensures
        bytes_before(a, c),
    decreases a.len(),
{
    if a.len() > 0 && a[0] == b[0] && b[0] == c[0] {
        lemma_bytes_before_transitive(a.drop_first(), b.drop_first(), c.drop_first());
    }
}

pub proof fn lemma_bytes_before_total(a: Seq<u8>, b: Seq<u8>)
    requires
        !bytes_before(a, b),
        !bytes_before(b, a),
    ensures
        a == b,
    decreases a.len(),
{
    if a.len() > 0 && b.len() > 0 {
        lemma_bytes_before_total(a.drop_first(), b.drop_first());
        assert(a =~= seq![a[0]] + a.drop_first());
        assert(b =~= seq![b[0]] + b.drop_first());
    } else {
        assert(a =~= b);
    }
}

/// Keys are totally ordered: of two different keys one comes before the other.
pub proof fn lemma_key_order(a: Seq<char>, b: Seq<char>, c: Seq<char>)
    ensures
        !key_before(a, a),
        key_before(a, b) && key_before(b, c) ==> key_before(a, c),
        !key_before(a, b) && !key_before(b, a) ==> a == b,
        key_before(a, b) ==> !key_before(b, a),
{
    lemma_bytes_before_irreflexive(encode_utf8(a));
    if key_before(a, b) && key_before(b, c) {
        lemma_bytes_before_transitive(encode_utf8(a), encode_utf8(b), encode_utf8(c));
    }
    if !key_before(a, b) && !key_before(b, a) {
        lemma_bytes_before_total(encode_utf8(a), encode_utf8(b));
        vstd::utf8::encode_utf8_decode_utf8(a);
        vstd::utf8::encode_utf8_decode_utf8(b);
    }
    if key_before(a, b) && key_before(b, a) {
        lemma_bytes_before_transitive(encode_utf8(a), encode_utf8(b), encode_utf8(a));
    }
}

/// Among ascending entries, the place before which all keys come before
/// `key` and from which on none does is the rank of `key`.
pub proof fn lemma_rank(entries: Seq<(Seq<char>, Tree)>, key: Seq<char>, at: int)
    requires
        0 <= at <= entries.len(),
        forall|j: int| 0 <= j < at ==> key_before(#[trigger] entries[j].0, key),
        forall|j: int| at <= j < entries.len() ==> !key_before(#[trigger] entries[j].0, key),
    ensures
        rank(entries, key) == at,
    decreases entries.len(),
{
    if entries.len() > 0 {
        let head = entries.drop_last();
        if at == entries.len() {
            lemma_rank(head, key, at - 1);
        } else {
            lemma_rank(head, key, at);
        }
    }
}

/// Ascending entries stay ascending when a key is given a value, and hold
/// that value under the key afterwards.
pub proof fn lemma_put(entries: Seq<(Seq<char>, Tree)>, key: Seq<char>, value: Tree)
    requires
        ascending(entries),
    ensures
        ascending(put(entries, key, value)),
        lookup(put(entries, key, value), key) == Some(value),
        0 <= rank(entries, key) <= entries.len(),
        forall|j: int| 0 <= j < rank(entries, key) ==> key_before(#[trigger] entries[j].0, key),
        forall|j: int|
            rank(entries, key) <= j < entries.len() ==> !key_before(#[trigger] entries[j].0, key),
{
    let at = first_not_before(entries, key, 0);
    lemma_first_not_before(entries, key, 0);
    lemma_rank(entries, key, at);
    let after = put(entries, key, value);
    assert forall|i: int, j: int| 0 <= i < j < after.len() implies key_before(
        #[trigger] after[i].0,
        #[trigger] after[j].0,
    ) by {
        if at < entries.len() && entries[at].0 == key {
            assert(after[i].0 == entries[i].0 && after[j].0 == entries[j].0);
        } else {
            let i0 = if i < at {
                i
            } else {
                i - 1
            };
            let j0 = if j < at {
                j
            } else {
                j - 1
            };
            if j == at {
                assert(after[i] == entries[i]);
            } else if i == at {
                assert(after[j] == entries[j0]);
                lemma_key_order(key, entries[at].0, entries[j0].0);
                lemma_key_order(entries[at].0, key, key);
                if j0 > at {
                    assert(key_before(entries[at].0, entries[j0].0));
                }
            } else {
                assert(after[i] == entries[i0] && after[j] == entries[j0]);
            }
        }
    }
    assert forall|j: int| 0 <= j < at implies key_before(#[trigger] after[j].0, key) by {
        assert(after[j] == entries[j]);
    }
    assert forall|j: int| at <= j < after.len() implies !key_before(#[trigger] after[j].0, key) by {
        if j == at {
            lemma_key_order(key, key, key);
        } else {
            lemma_key_order(key, after[j].0, key);
            assert(key_before(after[at].0, after[j].0));
        }
    }
    lemma_rank(after, key, at);
}

/// Among ascending entries, each entry is what is held under its key.
pub proof fn lemma_lookup_entry(entries: Seq<(Seq<char>, Tree)>, index: int)
    requires
        ascending(entries),
        0 <= index < entries.len(),
    ensures
        rank(entries, entries[index].0) == index,
        lookup(entries, entries[index].0) == Some(entries[index].1),
{
    let key = entries[index].0;
    assert forall|j: int| index <= j < entries.len() implies !key_before(
        #[trigger] entries[j].0,
        key,
    ) by {
        lemma_key_order(key, entries[j].0, key);
    }
    lemma_rank(entries, key, index);
}

/// Among ascending entries, a key under which nothing is held is the key of
/// no entry.
pub proof fn lemma_lookup_none(entries: Seq<(Seq<char>, Tree)>, key: Seq<char>)
    requires
        ascending(entries),
        lookup(entries, key) is None,
    ensures
        forall|i: int| 0 <= i < entries.len() ==> (#[trigger] entries[i]).0 != key,
{
    assert forall|i: int| 0 <= i < entries.len() implies (#[trigger] entries[i]).0 != key by {
        if entries[i].0 == key {
            lemma_lookup_entry(entries, i);
        }
    }
}

/// Giving a key a value changes what is held under that key, and under no
/// other: the last value given to a key is the one that is held.
pub proof fn lemma_put_lookup(
    entries: Seq<(Seq<char>, Tree)>,
    key: Seq<char>,
    value: Tree,
    other: Seq<char>,
)
    requires
        ascending(entries),
    ensures
        lookup(put(entries, key, value), other) == if other == key {
            Some(value)
        } else {
            lookup(entries, other)
        },
{
    lemma_put(entries, key, value);
    if other != key {
        lemma_put(entries, other, value);
        let at = rank(entries, key);
        let place = rank(entries, other);
        let after = put(entries, key, value);
        if at < entries.len() && entries[at].0 == key {
            assert forall|j: int| 0 <= j < place implies key_before(
                #[trigger] after[j].0,
                other,
            ) by {
                assert(after[j].0 == entries[j].0);
            }
            assert forall|j: int| place <= j < after.len() implies !key_before(
                #[trigger] after[j].0,
                other,
            ) by {
                assert(after[j].0 == entries[j].0);
            }
            lemma_rank(after, other, place);
        } else if key_before(key, other) {
            if place < at {
                lemma_key_order(entries[place].0, key, other);
            }
            assert forall|j: int| 0 <= j < place + 1 implies key_before(
                #[trigger] after[j].0,
                other,
            ) by {
                if j < at {
                    assert(after[j] == entries[j]);
                } else if j > at {
                    assert(after[j] == entries[j - 1]);
                }
            }
            assert forall|j: int| place + 1 <= j < after.len() implies !key_before(
                #[trigger] after[j].0,
                other,
            ) by {
                assert(after[j] == entries[j - 1]);
            }
            lemma_rank(after, other, place + 1);
            if place < entries.len() {
                assert(after[place + 1] == entries[place]);
            }
        } else {
            lemma_key_order(key, other, key);
            assert(key_before(other, key));
            if at < place {
                lemma_key_order(entries[at].0, other, key);
            }
            assert forall|j: int| 0 <= j < place implies key_before(
                #[trigger] after[j].0,
                other,
            ) by {
                assert(after[j] == entries[j]);
            }
            assert forall|j: int| place <= j < after.len() implies !key_before(
                #[trigger] after[j].0,
                other,
            ) by {
                if j < at {
                    assert(after[j] == entries[j]);
                } else if j > at {
                    assert(after[j] == entries[j - 1]);
                }
            }
            lemma_rank(after, other, place);
            if place < at {
                assert(after[place] == entries[place]);
            } else if at < entries.len() {
                lemma_key_order(other, key, entries[at].0);
            }
        }
    }
}

/// The first place from `from` on whose key does not come before `key`.
pub open spec fn first_not_before(entries: Seq<(Seq<char>, Tree)>, key: Seq<char>, from: int) -> int
    decreases entries.len() - from,
{
    if 0 <= from < entries.len() && key_before(entries[from].0, key) {
        first_not_before(entries, key, from + 1)
    } else {
        from
    }
}

proof fn lemma_first_not_before(entries: Seq<(Seq<char>, Tree)>, key: Seq<char>, from: int)
    requires
        ascending(entries),
        0 <= from <= entries.len(),
        forall|j: int| 0 <= j < from ==> key_before(#[trigger] entries[j].0, key),
    ensures
        from <= first_not_before(entries, key, from) <= entries.len(),
        forall|j: int|
            0 <= j < first_not_before(entries, key, from) ==> key_before(
                #[trigger] entries[j].0,
                key,
            ),
        forall|j: int|
            first_not_before(entries, key, from) <= j < entries.len() ==> !key_before(
                #[trigger] entries[j].0,
                key,
            ),
    decreases entries.len() - from,
{
    if from < entries.len() && key_before(entries[from].0, key) {
        lemma_first_not_before(entries, key, from + 1);
    } else {
        assert forall|j: int| from <= j < entries.len() implies !key_before(
            #[trigger] entries[j].0,
            key,
        ) by {
            if j > from {
                lemma_key_order(entries[from].0, entries[j].0, key);
            }
        }
    }
}

/// Whether the bytes of `a` come before those of `b`.
pub fn str_before(a: &str, b: &str) -> (r: bool)
    ensures
        r == key_before(a@, b@),
{
    let x = a.as_bytes();
    let y = b.as_bytes();
    let mut i: usize = 0;
    assert(x@.skip(0) =~= x@ && y@.skip(0) =~= y@);
    while i < x.len() && i < y.len()
        invariant
            x@ == encode_utf8(a@),
            y@ == encode_utf8(b@),
            i <= x@.len(),
            i <= y@.len(),
            bytes_before(x@, y@) == bytes_before(x@.skip(i as int), y@.skip(i as int)),
        decreases x@.len() - i,
    {
        proof {
            assert(x@.skip(i as int).drop_first() =~= x@.skip(i + 1));
            assert(y@.skip(i as int).drop_first() =~= y@.skip(i + 1));
        }
        if x[i] != y[i] {
            return x[i] < y[i];
        }
        i += 1;
    }
    i < y.len()
}

/// An object: values under keys, no key twice, held in ascending order of
/// the keys.
#[derive(Debug, PartialEq)]
pub struct Object {
    entries: Vec<(String, Value)>,
}

/// A decoded document, or a part of one.
#[derive(Debug, PartialEq)]
pub enum Value {
    Null,
    Bool(bool),
    Number(Number),
    String(String),
    Array(Vec<Value>),
    Object(Object),
    Date(Date),
}

/// The entries of an object as the model sees them: each key by its
/// characters, each value by its view.
pub open spec fn pairs(entries: Seq<(String, Value)>) -> Seq<(Seq<char>, Tree)>
    decreases entries,
{
    Seq::new(
        entries.len(),
        |i: int|
            if 0 <= i < entries.len() {
                (entries[i].0@, entries[i].1.view())
            } else {
                (Seq::empty(), Tree::Null)
            },
    )
}

impl View for Object {
    type V = Seq<(Seq<char>, Tree)>;

    /// The entries, in ascending order of their keys.
    closed spec fn view(&self) -> Seq<(Seq<char>, Tree)>
        decreases self,
    {
        pairs(self.entries@)
    }
}

impl View for Value {
    type V = Tree;

    open spec fn view(&self) -> Tree
        decreases self,
    {
        match self {
            Value::Null => Tree::Null,
            Value::Bool(b) => Tree::Bool(*b),
            Value::Number(n) => Tree::Number(n@),
            Value::String(s) => Tree::Text(s@),
            Value::Array(items) => Tree::Array(
                Seq::new(
                    items@.len(),
                    |i: int|
                        if 0 <= i < items@.len() {
                            items@[i].view()
                        } else {
                            Tree::Null
                        },
                ),
            ),
            Value::Object(o) => Tree::Object(o.view()),
            Value::Date(d) => Tree::Date(*d),
        }
    }
}

impl Object {
    /// The keys of every object ascend.
    #[verifier::type_invariant]
    pub closed spec fn ordered(&self) -> bool {
        ascending(self@)
    }

    /// The object without entries.
    pub fn new() -> (r: Object)
        ensures
            r@ == Seq::<(Seq<char>, Tree)>::empty(),
    {
        let entries: Vec<(String, Value)> = Vec::new();
        assert(pairs(entries@) =~= Seq::<(Seq<char>, Tree)>::empty());
        Object { entries }
    }

    /// The number of entries.
    pub fn len(&self) -> (r: usize)
        ensures
            r == self@.len(),
            ascending(self@),
    {
        proof {
            use_type_invariant(self);
        }
        self.entries.len()
    }

    pub fn is_empty(&self) -> (r: bool)
        ensures
            r == (self@.len() == 0),
    {
        self.entries.len() == 0
    }

    /// The key of the entry at `index`, counted in ascending order.
    pub fn key_at(&self, index: usize) -> (r: &String)
        requires
            index < self@.len(),
        ensures
            r@ == self@[index as int].0,
    {
        &self.entries[index].0
    }

    /// The value of the entry at `index`, counted in ascending order.
    pub fn value_at(&self, index: usize) -> (r: &Value)
        requires
            index < self@.len(),
        ensures
            r@ == self@[index as int].1,
            decreases_to!(self => r),
    {
        proof {
            vstd::std_specs::vec::axiom_vec_index_decreases(self.entries, index as int);
        }
        &self.entries[index].1
    }

    /// The place of `key` among the entries: the number of keys before it.
    fn search(&self, key: &str) -> (at: usize)
        ensures
            at == rank(self@, key@),
            at <= self@.len(),
            forall|j: int| 0 <= j < at ==> key_before(#[trigger] self@[j].0, key@),
            forall|j: int| at <= j < self@.len() ==> !key_before(#[trigger] self@[j].0, key@),
    {
        proof {
            use_type_invariant(self);
        }
        let mut low: usize = 0;
        let mut high: usize = self.entries.len();
        while low < high
            invariant
                ascending(self@),
                self@.len() == self.entries@.len(),
                low <= high <= self@.len(),
                forall|j: int| 0 <= j < low ==> key_before(#[trigger] self@[j].0, key@),
                forall|j: int| high <= j < self@.len() ==> !key_before(#[trigger] self@[j].0, key@),
            decreases high - low,
        {
            let middle = low + (high - low) / 2;
            if str_before(self.entries[middle].0.as_str(), key) {
                proof {
                    assert(self@[middle as int].0 == self.entries@[middle as int].0@);
                    assert forall|j: int| 0 <= j < middle + 1 implies key_before(
                        #[trigger] self@[j].0,
                        key@,
                    ) by {
                        if j < middle {
                            lemma_key_order(self@[j].0, self@[middle as int].0, key@);
                        }
                    }
                }
                low = middle + 1;
            } else {
                proof {
                    assert(self@[middle as int].0 == self.entries@[middle as int].0@);
                    assert forall|j: int| middle <= j < self@.len() implies !key_before(
                        #[trigger] self@[j].0,
                        key@,
                    ) by {
                        if j > middle {
                            lemma_key_order(self@[middle as int].0, self@[j].0, key@);
                        }
                    }
                }
                high = middle;
            }
        }
        proof {
            lemma_rank(self@, key@, low as int);
        }
        low
    }

    /// The value under `key`, if there is one.
    pub fn get(&self, key: &str) -> (r: Option<&Value>)
        ensures
            match r {
                Some(v) => lookup(self@, key@) == Some(v@) && exists|i: int|
                    0 <= i < self@.len() && self@[i] == (key@, v@),
                None => lookup(self@, key@) is None && forall|i: int|
                    0 <= i < self@.len() ==> (#[trigger] self@[i]).0 != key@,
            },
    {
        proof {
            use_type_invariant(self);
            if lookup(self@, key@) is None {
                lemma_lookup_none(self@, key@);
            }
        }
        let at = self.search(key);
        if at < self.entries.len() && str_equal(self.entries[at].0.as_str(), key) {
            Some(&self.entries[at].1)
        } else {
            None
        }
    }

    /// Gives `key` the value `value`. A value that the key had before is lost.
    pub fn insert(&mut self, key: String, value: Value)
        ensures
            final(self)@ == put(old(self)@, key@, value@),
    {
        proof {
            use_type_invariant(&*self);
            lemma_put(self@, key@, value@);
        }
        let at = self.search(key.as_str());
        let ghost before = self@;
        let ghost k = key@;
        let ghost v = value@;
        let same = at < self.entries.len() && str_equal(
            self.entries[at].0.as_str(),
            key.as_str(),
        );
        let mut entries: Vec<(String, Value)> = Vec::new();
        proof {
            assert(pairs(entries@) =~= Seq::<(Seq<char>, Tree)>::empty());
        }
        std::mem::swap(&mut self.entries, &mut entries);
        if same {
            entries.set(at, (key, value));
            assert(pairs(entries@) =~= before.update(at as int, (k, v)));
        } else {
            entries.insert(at, (key, value));
            assert(pairs(entries@) =~= before.insert(at as int, (k, v)));
        }
        assert(pairs(entries@) == put(before, k, v));
        self.entries = entries;
    }
}

/// Whether `a` and `b` are the same text.
pub fn str_equal(a: &str, b: &str) -> (r: bool)
    ensures
        r == (a@ == b@),
{
    let x = a.as_bytes();
    let y = b.as_bytes();
    proof {
        vstd::utf8::encode_utf8_decode_utf8(a@);
        vstd::utf8::encode_utf8_decode_utf8(b@);
    }
    if x.len() != y.len() {
        return false;
    }
    let mut i: usize = 0;
    while i < x.len()
        invariant
            x@ == encode_utf8(a@),
            y@ == encode_utf8(b@),
            x@.len() == y@.len(),
            i <= x@.len(),
            forall|j: int| 0 <= j < i ==> x@[j] == y@[j],
        decreases x@.len() - i,
    {
        if x[i] != y[i] {
            return false;
        }
        i += 1;
    }
    assert(x@ =~= y@);
    true
}

impl Clone for Object {
    fn clone(&self) -> (r: Self)
        ensures
            r@ == self@,
        decreases self,
    {
        proof {
            use_type_invariant(self);
        }
        let mut entries: Vec<(String, Value)> = Vec::new();
        let mut i: usize = 0;
        while i < self.entries.len()
            invariant
                i <= self.entries@.len(),
                entries@.len() == i,
                forall|j: int|
                    0 <= j < i ==> entries@[j].0@ == self.entries@[j].0@ && entries@[j].1@
                        == self.entries@[j].1@,
            decreases self.entries@.len() - i,
        {
            proof {
                vstd::std_specs::vec::axiom_vec_index_decreases(self.entries, i as int);
            }
            entries.push((self.entries[i].0.clone(), self.entries[i].1.clone()));
            i += 1;
        }
        assert(pairs(entries@) =~= self@);
        Object { entries }
    }
}

impl Clone for Value {
    /// A copy of the whole value.
    fn clone(&self) -> (r: Self)
        ensures
            r@ == self@,
        decreases self,
    {
        match self {
            Value::Null => Value::Null,
            Value::Bool(b) => Value::Bool(*b),
            Value::Number(n) => Value::Number(n.clone()),
            Value::String(s) => Value::String(s.clone()),
            Value::Array(items) => {
                let mut copies: Vec<Value> = Vec::new();
                let mut i: usize = 0;
                while i < items.len()
                    invariant
                        self is Array && self->Array_0 == *items,
                        i <= items@.len(),
                        copies@.len() == i,
                        forall|j: int| 0 <= j < i ==> copies@[j]@ == items@[j]@,
                    decreases items@.len() - i,
                {
                    proof {
                        vstd::std_specs::vec::axiom_vec_index_decreases(*items, i as int);
                    }
                    copies.push(items[i].clone());
                    i += 1;
                }
                let r = Value::Array(copies);
                assert(r@->Array_0 =~= self@->Array_0);
                r
            },
            Value::Object(o) => Value::Object(o.clone()),
            Value::Date(d) => Value::Date(*d),
        }
    }
}

} // verus!
