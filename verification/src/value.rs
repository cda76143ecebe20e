//! DynamoDB attribute values, items and key schemas.

use vstd::prelude::*;
use vstd::utf8::encode_utf8;

use crate::bytes::{bytes_copy, bytes_eq, bytes_lt, lex_asymmetric, lex_lt, lex_total};
use crate::sorted::{lemma_sorted_put_at, lemma_sorted_put_sorted, sorted_by, sorted_put};
use crate::text::{str_eq, str_lt, text, utf8_injective};

verus! {

// ---------------------------------------------------------------------------
// Models
// ---------------------------------------------------------------------------

/// What an attribute value is. Sets are given by their elements in order.
pub enum AttrView {
    S(Seq<char>),
    N(Seq<char>),
    B(Seq<u8>),
    Bool(bool),
    Null,
    SS(Seq<Seq<char>>),
    NS(Seq<Seq<char>>),
    BS(Seq<Seq<u8>>),
    L(Seq<AttrView>),
    M(Seq<(Seq<char>, AttrView)>),
}

/// What an item is: its attributes in the order of their names.
pub type ItemView = Seq<(Seq<char>, AttrView)>;

/// The key by which attributes are ordered.
pub open spec fn entry_key() -> spec_fn((Seq<char>, AttrView)) -> Seq<u8> {
    |e: (Seq<char>, AttrView)| encode_utf8(e.0)
}

/// The key by which strings are ordered.
pub open spec fn text_key() -> spec_fn(Seq<char>) -> Seq<u8> {
    |s: Seq<char>| encode_utf8(s)
}

/// The key by which byte strings are ordered.
pub open spec fn bytes_key() -> spec_fn(Seq<u8>) -> Seq<u8> {
    |b: Seq<u8>| b
}

/// The names of an item strictly increase.
pub open spec fn item_sorted(s: ItemView) -> bool {
    sorted_by(s, entry_key())
}

/// The value of the attribute `name`, where the item has it.
pub open spec fn lookup(s: ItemView, name: Seq<char>) -> Option<AttrView>
    decreases s.len(),
{
    if s.len() == 0 {
        None
    } else if s.last().0 == name {
        Some(s.last().1)
    } else {
        lookup(s.drop_last(), name)
    }
}

/// The item with the attribute `name` set to `value`.
pub open spec fn item_put(s: ItemView, name: Seq<char>, value: AttrView) -> ItemView {
    sorted_put(s, (name, value), entry_key())
}

pub proof fn lemma_lookup_found(s: ItemView, name: Seq<char>)
    ensures
        lookup(s, name) is Some ==> exists|i: int|
            0 <= i < s.len() && (#[trigger] s[i]).0 == name && lookup(s, name) == Some(s[i].1),
        lookup(s, name) is None ==> forall|i: int| 0 <= i < s.len() ==> (#[trigger] s[i]).0 != name,
    decreases s.len(),
{
    if s.len() > 0 {
        if s.last().0 == name {
            assert(s[s.len() - 1].0 == name);
        } else {
            lemma_lookup_found(s.drop_last(), name);
            if lookup(s.drop_last(), name) is Some {
                let i = choose|i: int|
                    0 <= i < s.drop_last().len() && (#[trigger] s.drop_last()[i]).0 == name && lookup(
                        s.drop_last(),
                        name,
                    ) == Some(s.drop_last()[i].1);
                assert(s[i].0 == name);
            } else {
                assert forall|i: int| 0 <= i < s.len() implies (#[trigger] s[i]).0 != name by {
                    if i < s.len() - 1 {
                        assert(s.drop_last()[i].0 != name);
                    }
                }
            }
        }
    }
}

/// In an item every attribute is found under its name.
pub proof fn lemma_lookup_at(s: ItemView, i: int)
    requires
        item_sorted(s),
        0 <= i < s.len(),
    ensures
        lookup(s, s[i].0) == Some(s[i].1),
    decreases s.len(),
{
    if i < s.len() - 1 {
        let n = s.len() - 1;
        assert(lex_lt(entry_key()(s[i]), entry_key()(s[n])));
        lex_asymmetric(encode_utf8(s[i].0), encode_utf8(s[n].0));
        let d = s.drop_last();
        assert forall|a: int, b: int| 0 <= a < b < d.len() implies lex_lt(
            entry_key()(#[trigger] d[a]),
            entry_key()(#[trigger] d[b]),
        ) by {
            assert(lex_lt(entry_key()(s[a]), entry_key()(s[b])));
        }
        lemma_lookup_at(d, i);
    }
}

/// Setting an attribute changes what is found under its name and nothing else.
pub proof fn item_put_lookup(s: ItemView, name: Seq<char>, value: AttrView, other: Seq<char>)
    ensures
        lookup(item_put(s, name, value), other) == if other == name {
            Some(value)
        } else {
            lookup(s, other)
        },
    decreases s.len(),
{
    let x = (name, value);
    let r = item_put(s, name, value);
    if s.len() == 0 {
        assert(r.last() == x);
        assert(r.drop_last() =~= Seq::empty());
        assert(lookup(r.drop_last(), other) is None);
    } else {
        let l = s.last();
        if encode_utf8(l.0) == encode_utf8(name) {
            utf8_injective(l.0, name);
            assert(r.drop_last() =~= s.drop_last());
        } else if lex_lt(encode_utf8(l.0), encode_utf8(name)) {
            assert(r.drop_last() =~= s);
            if other == name {
                assert(r.last() == x);
            }
        } else {
            item_put_lookup(s.drop_last(), name, value, other);
            assert(r.last() == l);
            assert(r.drop_last() =~= item_put(s.drop_last(), name, value));
            assert(l.0 != name);
        }
    }
}

/// Setting an attribute keeps the names in order.
pub proof fn item_put_sorted(s: ItemView, name: Seq<char>, value: AttrView)
    requires
        item_sorted(s),
    ensures
        item_sorted(item_put(s, name, value)),
{
    lemma_sorted_put_sorted(s, (name, value), entry_key());
}

/// Items in which the same is found under every name are the same.
pub proof fn items_equal(a: ItemView, b: ItemView)
    requires
        item_sorted(a),
        item_sorted(b),
        forall|k: Seq<char>| lookup(a, k) == lookup(b, k),
    ensures
        a == b,
    decreases a.len() + b.len(),
{
    if a.len() == 0 {
        if b.len() > 0 {
            lemma_lookup_at(b, 0);
            assert(lookup(a, b[0].0) is None);
        }
        assert(a =~= b);
    } else if b.len() == 0 {
        lemma_lookup_at(a, 0);
        assert(lookup(b, a[0].0) is None);
    } else {
        let x = a.last();
        let y = b.last();
        lex_total(encode_utf8(x.0), encode_utf8(y.0));
        lemma_lookup_at(a, a.len() - 1);
        lemma_lookup_at(b, b.len() - 1);
        lemma_lookup_found(b, x.0);
        lemma_lookup_found(a, y.0);
        let i = choose|i: int|
            0 <= i < b.len() && (#[trigger] b[i]).0 == x.0 && lookup(b, x.0) == Some(b[i].1);
        let j = choose|j: int|
            0 <= j < a.len() && (#[trigger] a[j]).0 == y.0 && lookup(a, y.0) == Some(a[j].1);
        if i < b.len() - 1 {
            assert(lex_lt(entry_key()(b[i]), entry_key()(b[b.len() - 1])));
            if j < a.len() - 1 {
                assert(lex_lt(entry_key()(a[j]), entry_key()(a[a.len() - 1])));
            }
            lex_asymmetric(encode_utf8(x.0), encode_utf8(y.0));
            assert(false);
        }
        assert(x == y);
        let c = a.drop_last();
        let d = b.drop_last();
        lemma_sorted_drop(a);
        lemma_sorted_drop(b);
        assert forall|k: Seq<char>| lookup(c, k) == lookup(d, k) by {
            if k == x.0 {
                lemma_not_in_rest(a);
                lemma_not_in_rest(b);
            } else {
                assert(lookup(a, k) == lookup(b, k));
            }
        }
        items_equal(c, d);
        assert(a =~= c.push(x));
        assert(b =~= d.push(y));
    }
}

pub proof fn lemma_sorted_drop(s: ItemView)
    requires
        item_sorted(s),
        s.len() > 0,
    ensures
        item_sorted(s.drop_last()),
{
    let d = s.drop_last();
    assert forall|a: int, b: int| 0 <= a < b < d.len() implies lex_lt(
        entry_key()(#[trigger] d[a]),
        entry_key()(#[trigger] d[b]),
    ) by {
        assert(lex_lt(entry_key()(s[a]), entry_key()(s[b])));
    }
}

proof fn lemma_not_in_rest(s: ItemView)
    requires
        item_sorted(s),
        s.len() > 0,
    ensures
        lookup(s.drop_last(), s.last().0) is None,
{
    lemma_lookup_found(s.drop_last(), s.last().0);
    if lookup(s.drop_last(), s.last().0) is Some {
        let i = choose|i: int|
            0 <= i < s.drop_last().len() && (#[trigger] s.drop_last()[i]).0 == s.last().0;
        assert(s.drop_last()[i] == s[i]);
        assert(lex_lt(entry_key()(s[i]), entry_key()(s[s.len() - 1])));
        lex_asymmetric(encode_utf8(s[i].0), encode_utf8(s.last().0));
    }
}

/// `s` with everything of `add` set in it, in order.
pub open spec fn item_put_all(s: ItemView, entries: Seq<(Seq<char>, AttrView)>) -> ItemView
    decreases entries.len(),
{
    if entries.len() == 0 {
        s
    } else {
        item_put(item_put_all(s, entries.drop_last()), entries.last().0, entries.last().1)
    }
}

pub proof fn lemma_item_put_all_sorted(s: ItemView, entries: Seq<(Seq<char>, AttrView)>)
    requires
        item_sorted(s),
    ensures
        item_sorted(item_put_all(s, entries)),
    decreases entries.len(),
{
    if entries.len() > 0 {
        lemma_item_put_all_sorted(s, entries.drop_last());
        item_put_sorted(
            item_put_all(s, entries.drop_last()),
            entries.last().0,
            entries.last().1,
        );
    }
}

// ---------------------------------------------------------------------------
// Sets
// ---------------------------------------------------------------------------

/// A set of strings, kept in order.
#[derive(Debug, PartialEq, Eq)]
pub struct StringSet {
    elems: Vec<String>,
}

impl StringSet {
    pub closed spec fn view(&self) -> Seq<Seq<char>> {
        self.elems@.map_values(|s: String| s@)
    }

    #[verifier::type_invariant]
    closed spec fn in_order(&self) -> bool {
        sorted_by(self.view(), text_key())
    }

    /// The empty set.
    pub fn new() -> (r: StringSet)
        ensures
            r@ == Seq::<Seq<char>>::empty(),
    {
        let r = StringSet { elems: Vec::new() };
        assert(r@ =~= Seq::<Seq<char>>::empty());
        r
    }

    /// How many elements there are. They are in order and none occurs twice.
    pub fn len(&self) -> (n: usize)
        ensures
            n == self@.len(),
            sorted_by(self@, text_key()),
    {
        proof {
            use_type_invariant(self);
        }
        self.elems.len()
    }

    /// The element at position `i` in order.
    pub fn at(&self, i: usize) -> (s: &String)
        requires
            i < self@.len(),
        ensures
            s@ == self@[i as int],
    {
        &self.elems[i]
    }

    /// Puts `s` into the set.
    pub fn insert(&mut self, s: String)
        ensures
            final(self)@ == sorted_put(old(self)@, s@, text_key()),
    {
        proof {
            use_type_invariant(&*self);
        }
        let ghost before = self@;
        let mut elems: Vec<String> = Vec::new();
        std::mem::swap(&mut elems, &mut self.elems);
        let ghost model = elems@.map_values(|s: String| s@);
        assert(model == before);
        let mut i: usize = 0;
        while i < elems.len() && str_lt(elems[i].as_str(), s.as_str())
            invariant
                i <= elems.len(),
                model == elems@.map_values(|s: String| s@),
                forall|j: int|
                    0 <= j < i ==> lex_lt(text_key()(#[trigger] model[j]), text_key()(s@)),
            decreases elems.len() - i,
        {
            i = i + 1;
        }
        proof {
            lemma_sorted_put_at(model, s@, text_key(), i as int);
            lemma_sorted_put_sorted(model, s@, text_key());
        }
        if i < elems.len() && str_eq(elems[i].as_str(), s.as_str()) {
            elems.set(i, s);
            assert(elems@.map_values(|s: String| s@) =~= model.update(i as int, s@));
        } else {
            proof {
                if i < elems.len() && encode_utf8(model[i as int]) == encode_utf8(s@) {
                    utf8_injective(model[i as int], s@);
                }
            }
            elems.insert(i, s);
            assert(elems@.map_values(|s: String| s@) =~= model.insert(i as int, s@));
        }
        self.elems = elems;
    }
}

impl Clone for StringSet {
    fn clone(&self) -> (r: StringSet)
        ensures
            r@ == self@,
    {
        proof {
            use_type_invariant(self);
        }
        let mut elems: Vec<String> = Vec::new();
        let mut i: usize = 0;
        while i < self.elems.len()
            invariant
                i <= self.elems.len(),
                elems@.map_values(|s: String| s@) == self@.take(i as int),
            decreases self.elems.len() - i,
        {
            let ghost before = elems@;
            elems.push(text(self.elems[i].as_str()));
            i = i + 1;
            assert(elems@.map_values(|s: String| s@) =~= before.map_values(|s: String| s@).push(
                self@[i - 1],
            ));
            assert(self@.take(i as int) =~= self@.take(i - 1).push(self@[i - 1]));
        }
        assert(self@.take(i as int) =~= self@);
        StringSet { elems }
    }
}

/// A set of byte strings, kept in order.
#[derive(Debug, PartialEq, Eq)]
pub struct BytesSet {
    elems: Vec<Vec<u8>>,
}

impl BytesSet {
    pub closed spec fn view(&self) -> Seq<Seq<u8>> {
        self.elems@.map_values(|b: Vec<u8>| b@)
    }

    #[verifier::type_invariant]
    closed spec fn in_order(&self) -> bool {
        sorted_by(self.view(), bytes_key())
    }

    /// The empty set.
    pub fn new() -> (r: BytesSet)
        ensures
            r@ == Seq::<Seq<u8>>::empty(),
    {
        let r = BytesSet { elems: Vec::new() };
        assert(r@ =~= Seq::<Seq<u8>>::empty());
        r
    }

    /// How many elements there are. They are in order and none occurs twice.
    pub fn len(&self) -> (n: usize)
        ensures
            n == self@.len(),
            sorted_by(self@, bytes_key()),
    {
        proof {
            use_type_invariant(self);
        }
        self.elems.len()
    }

    /// The element at position `i` in order.
    pub fn at(&self, i: usize) -> (b: &Vec<u8>)
        requires
            i < self@.len(),
        ensures
            b@ == self@[i as int],
    {
        &self.elems[i]
    }

    /// Puts `b` into the set.
    pub fn insert(&mut self, b: Vec<u8>)
        ensures
            final(self)@ == sorted_put(old(self)@, b@, bytes_key()),
    {
        proof {
            use_type_invariant(&*self);
        }
        let ghost before = self@;
        let mut elems: Vec<Vec<u8>> = Vec::new();
        std::mem::swap(&mut elems, &mut self.elems);
        let ghost model = elems@.map_values(|b: Vec<u8>| b@);
        assert(model == before);
        let mut i: usize = 0;
        while i < elems.len() && bytes_lt(elems[i].as_slice(), b.as_slice())
            invariant
                i <= elems.len(),
                model == elems@.map_values(|b: Vec<u8>| b@),
                forall|j: int|
                    0 <= j < i ==> lex_lt(bytes_key()(#[trigger] model[j]), bytes_key()(b@)),
            decreases elems.len() - i,
        {
            i = i + 1;
        }
        proof {
            lemma_sorted_put_at(model, b@, bytes_key(), i as int);
            lemma_sorted_put_sorted(model, b@, bytes_key());
        }
        if i < elems.len() && bytes_eq(elems[i].as_slice(), b.as_slice()) {
            elems.set(i, b);
            assert(elems@.map_values(|b: Vec<u8>| b@) =~= model.update(i as int, b@));
        } else {
            elems.insert(i, b);
            assert(elems@.map_values(|b: Vec<u8>| b@) =~= model.insert(i as int, b@));
        }
        self.elems = elems;
    }
}

impl Clone for BytesSet {
    fn clone(&self) -> (r: BytesSet)
        ensures
            r@ == self@,
    {
        proof {
            use_type_invariant(self);
        }
        let mut elems: Vec<Vec<u8>> = Vec::new();
        let mut i: usize = 0;
        while i < self.elems.len()
            invariant
                i <= self.elems.len(),
                elems@.map_values(|b: Vec<u8>| b@) == self@.take(i as int),
            decreases self.elems.len() - i,
        {
            let ghost before = elems@;
            elems.push(bytes_copy(self.elems[i].as_slice()));
            i = i + 1;
            assert(elems@.map_values(|b: Vec<u8>| b@) =~= before.map_values(|b: Vec<u8>| b@).push(
                self@[i - 1],
            ));
            assert(self@.take(i as int) =~= self@.take(i - 1).push(self@[i - 1]));
        }
        assert(self@.take(i as int) =~= self@);
        BytesSet { elems }
    }
}

// ---------------------------------------------------------------------------
// Attribute values and items
// ---------------------------------------------------------------------------

/// A DynamoDB attribute value.
#[derive(Debug, PartialEq, Eq)]
pub enum AttributeValue {
    S(String),
    N(String),
    B(Vec<u8>),
    Bool(bool),
    Null,
    SS(StringSet),
    NS(StringSet),
    BS(BytesSet),
    L(Vec<AttributeValue>),
    M(Item),
}

/// A DynamoDB item: attributes by name, kept in the order of their names.
#[derive(Debug, PartialEq, Eq)]
pub struct Item {
    entries: Vec<(String, AttributeValue)>,
}

impl AttributeValue {
    pub open spec fn view(&self) -> AttrView
        decreases self,
    {
        match self {
            AttributeValue::S(s) => AttrView::S(s@),
            AttributeValue::N(s) => AttrView::N(s@),
            AttributeValue::B(b) => AttrView::B(b@),
            AttributeValue::Bool(b) => AttrView::Bool(*b),
            AttributeValue::Null => AttrView::Null,
            AttributeValue::SS(s) => AttrView::SS(s@),
            AttributeValue::NS(s) => AttrView::NS(s@),
            AttributeValue::BS(s) => AttrView::BS(s@),
            AttributeValue::L(l) => AttrView::L(
                Seq::new(
                    l@.len(),
                    |i: int|
                        if 0 <= i < l@.len() {
                            l@[i].view()
                        } else {
                            AttrView::Null
                        },
                ),
            ),
            AttributeValue::M(m) => AttrView::M(m.view()),
        }
    }
}

/// The views of attribute values.
pub open spec fn attr_views(l: Seq<AttributeValue>) -> Seq<AttrView> {
    Seq::new(l.len(), |i: int| l[i]@)
}

impl Item {
    pub closed spec fn view(&self) -> ItemView
        decreases self,
    {
        Seq::new(
            self.entries@.len(),
            |i: int|
                if 0 <= i < self.entries@.len() {
                    (self.entries@[i].0@, self.entries@[i].1.view())
                } else {
                    (Seq::empty(), AttrView::Null)
                },
        )
    }

    #[verifier::type_invariant]
    closed spec fn in_order(&self) -> bool {
        item_sorted(self.view())
    }

    /// The item without attributes.
    pub fn new() -> (r: Item)
        ensures
            r@ == Seq::<(Seq<char>, AttrView)>::empty(),
    {
        let r = Item { entries: Vec::new() };
        assert(r@ =~= Seq::<(Seq<char>, AttrView)>::empty());
        r
    }

    /// How many attributes there are. Their names are in order and none occurs
    /// twice.
    pub fn len(&self) -> (n: usize)
        ensures
            n == self@.len(),
            item_sorted(self@),
    {
        proof {
            use_type_invariant(self);
        }
        self.entries.len()
    }

    pub fn is_empty(&self) -> (r: bool)
        ensures
            r == (self@.len() == 0),
    {
        self.entries.len() == 0
    }

    /// The name of the attribute at position `i` in order.
    pub fn name_at(&self, i: usize) -> (s: &String)
        requires
            i < self@.len(),
        ensures
            s@ == self@[i as int].0,
    {
        &self.entries[i].0
    }

    /// The value of the attribute at position `i` in order.
    pub fn value_at(&self, i: usize) -> (v: &AttributeValue)
        requires
            i < self@.len(),
        ensures
            v@ == self@[i as int].1,
            decreases_to!(self => v),
    {
        &self.entries[i].1
    }

    /// The value of the attribute `name`, where there is one.
    pub fn get(&self, name: &str) -> (r: Option<&AttributeValue>)
        ensures
            match r {
                Some(v) => lookup(self@, name@) == Some(v@),
                None => lookup(self@, name@) is None,
            },
    {
        proof {
            use_type_invariant(self);
            lemma_lookup_found(self@, name@);
        }
        let mut i: usize = 0;
        while i < self.entries.len()
            invariant
                i <= self.entries.len(),
                item_sorted(self@),
                forall|j: int| 0 <= j < i ==> (#[trigger] self@[j]).0 != name@,
            decreases self.entries.len() - i,
        {
            assert(self@[i as int] == (
                self.entries@[i as int].0@,
                self.entries@[i as int].1@,
            ));
            if str_eq(self.entries[i].0.as_str(), name) {
                proof {
                    lemma_lookup_at(self@, i as int);
                }
                return Some(&self.entries[i].1);
            }
            i = i + 1;
        }
        None
    }

    pub fn contains_key(&self, name: &str) -> (r: bool)
        ensures
            r == lookup(self@, name@) is Some,
    {
        self.get(name).is_some()
    }

    /// Sets the attribute `name`.
    pub fn insert(&mut self, name: String, value: AttributeValue)
        ensures
            final(self)@ == item_put(old(self)@, name@, value@),
    {
        proof {
            use_type_invariant(&*self);
        }
        let ghost model = self@;
        let ghost e = (name@, value@);
        let mut entries: Vec<(String, AttributeValue)> = Vec::new();
        std::mem::swap(&mut entries, &mut self.entries);
        assert(model == entry_views(entries@));
        let mut i: usize = 0;
        while i < entries.len() && str_lt(entries[i].0.as_str(), name.as_str())
            invariant
                i <= entries.len(),
                e == (name@, value@),
                model == entry_views(entries@),
                forall|j: int| 0 <= j < i ==> lex_lt(entry_key()(#[trigger] model[j]), entry_key()(e)),
            decreases entries.len() - i,
        {
            assert(model[i as int].0 == entries@[i as int].0@);
            i = i + 1;
        }
        proof {
            if i < entries.len() {
                assert(model[i as int].0 == entries@[i as int].0@);
            }
            lemma_sorted_put_at(model, e, entry_key(), i as int);
            lemma_sorted_put_sorted(model, e, entry_key());
        }
        if i < entries.len() && str_eq(entries[i].0.as_str(), name.as_str()) {
            entries.set(i, (name, value));
            assert(entry_views(entries@) =~= model.update(i as int, e));
        } else {
            proof {
                if i < entries.len() && encode_utf8(model[i as int].0) == encode_utf8(name@) {
                    utf8_injective(model[i as int].0, name@);
                }
            }
            entries.insert(i, (name, value));
            assert(entry_views(entries@) =~= model.insert(i as int, e));
        }
        proof {
            lemma_item_view(Item { entries });
        }
        *self = Item { entries };
    }
}

/// The views of attributes.
spec fn entry_views(s: Seq<(String, AttributeValue)>) -> ItemView {
    Seq::new(s.len(), |i: int| (s[i].0@, s[i].1@))
}

proof fn lemma_item_view(i: Item)
    ensures
        i@ == entry_views(i.entries@),
{
    assert(i@ =~= entry_views(i.entries@));
}

/// A copy of an attribute value.
pub fn copy_attr(a: &AttributeValue) -> (r: AttributeValue)
    ensures
        r@ == a@,
    decreases a,
{
    match a {
        AttributeValue::S(s) => AttributeValue::S(text(s.as_str())),
        AttributeValue::N(s) => AttributeValue::N(text(s.as_str())),
        AttributeValue::B(b) => AttributeValue::B(bytes_copy(b.as_slice())),
        AttributeValue::Bool(b) => AttributeValue::Bool(*b),
        AttributeValue::Null => AttributeValue::Null,
        AttributeValue::SS(s) => AttributeValue::SS(s.clone()),
        AttributeValue::NS(s) => AttributeValue::NS(s.clone()),
        AttributeValue::BS(s) => AttributeValue::BS(s.clone()),
        AttributeValue::L(l) => {
            let mut out: Vec<AttributeValue> = Vec::new();
            let mut i: usize = 0;
            while i < l.len()
                invariant
                    i <= l.len(),
                    *a == AttributeValue::L(*l),
                    attr_views(out@) == attr_views(l@).take(i as int),
                decreases l.len() - i,
            {
                let ghost before = attr_views(out@);
                let e = &l[i];
                assert(*e == a->L_0@[i as int]);
                assert(decreases_to!(a => a->L_0@[i as int]));
                let v = copy_attr(e);
                out.push(v);
                i = i + 1;
                assert(attr_views(out@) =~= before.push(l@[i - 1]@));
                assert(attr_views(l@).take(i as int) =~= before.push(l@[i - 1]@));
            }
            let r = AttributeValue::L(out);
            assert(r@->L_0 =~= a@->L_0) by {
                assert(attr_views(l@).take(i as int) =~= attr_views(l@));
                assert(r@->L_0 =~= attr_views(out@));
                assert(a@->L_0 =~= attr_views(l@));
            }
            r
        },
        AttributeValue::M(m) => AttributeValue::M(copy_item(m)),
    }
}

/// A copy of an item.
pub fn copy_item(a: &Item) -> (r: Item)
    ensures
        r@ == a@,
    decreases a,
{
    proof {
        use_type_invariant(a);
    }
    let mut entries: Vec<(String, AttributeValue)> = Vec::new();
    let mut i: usize = 0;
    while i < a.entries.len()
        invariant
            i <= a.entries.len(),
            entry_views(entries@) == a@.take(i as int),
        decreases a.entries.len() - i,
    {
        let ghost before = entry_views(entries@);
        let name = text(a.entries[i].0.as_str());
        let value = copy_attr(&a.entries[i].1);
        entries.push((name, value));
        i = i + 1;
        assert(entry_views(entries@) =~= before.push(a@[i - 1]));
        assert(a@.take(i as int) =~= before.push(a@[i - 1]));
    }
    assert(a@.take(i as int) =~= a@);
    proof {
        lemma_item_view(Item { entries });
    }
    Item { entries }
}

impl Clone for AttributeValue {
    fn clone(&self) -> (r: AttributeValue)
        ensures
            r@ == self@,
    {
        copy_attr(self)
    }
}

impl Clone for Item {
    fn clone(&self) -> (r: Item)
        ensures
            r@ == self@,
    {
        copy_item(self)
    }
}

/// Whether two attribute values are the same.
pub fn attr_eq(a: &AttributeValue, b: &AttributeValue) -> (r: bool)
    ensures
        r == (a@ == b@),
    decreases a,
{
    match (a, b) {
        (AttributeValue::S(x), AttributeValue::S(y)) => str_eq(x.as_str(), y.as_str()),
        (AttributeValue::N(x), AttributeValue::N(y)) => str_eq(x.as_str(), y.as_str()),
        (AttributeValue::B(x), AttributeValue::B(y)) => bytes_eq(x.as_slice(), y.as_slice()),
        (AttributeValue::Bool(x), AttributeValue::Bool(y)) => *x == *y,
        (AttributeValue::Null, AttributeValue::Null) => true,
        (AttributeValue::SS(x), AttributeValue::SS(y)) => string_set_eq(x, y),
        (AttributeValue::NS(x), AttributeValue::NS(y)) => string_set_eq(x, y),
        (AttributeValue::BS(x), AttributeValue::BS(y)) => bytes_set_eq(x, y),
        (AttributeValue::L(x), AttributeValue::L(y)) => {
            let ghost xs = attr_views(x@);
            let ghost ys = attr_views(y@);
            assert(a@->L_0 =~= xs);
            assert(b@->L_0 =~= ys);
            if x.len() != y.len() {
                return false;
            }
            let mut i: usize = 0;
            while i < x.len()
                invariant
                    i <= x.len(),
                    x.len() == y.len(),
                    *a == AttributeValue::L(*x),
                    xs == attr_views(x@),
                    ys == attr_views(y@),
                    a@ == AttrView::L(xs),
                    b@ == AttrView::L(ys),
                    forall|j: int| 0 <= j < i ==> xs[j] == ys[j],
                decreases x.len() - i,
            {
                if !attr_eq(&x[i], &y[i]) {
                    assert(xs[i as int] != ys[i as int]);
                    return false;
                }
                i = i + 1;
            }
            assert(xs =~= ys);
            true
        },
        (AttributeValue::M(x), AttributeValue::M(y)) => item_eq(x, y),
        _ => false,
    }
}

/// Whether two items are the same.
pub fn item_eq(a: &Item, b: &Item) -> (r: bool)
    ensures
        r == (a@ == b@),
    decreases a,
{
    if a.entries.len() != b.entries.len() {
        assert(a@.len() != b@.len());
        return false;
    }
    let mut i: usize = 0;
    while i < a.entries.len()
        invariant
            i <= a.entries.len(),
            a.entries.len() == b.entries.len(),
            forall|j: int| 0 <= j < i ==> a@[j] == b@[j],
        decreases a.entries.len() - i,
    {
        if !str_eq(a.entries[i].0.as_str(), b.entries[i].0.as_str()) || !attr_eq(
            &a.entries[i].1,
            &b.entries[i].1,
        ) {
            assert(a@[i as int] != b@[i as int]);
            return false;
        }
        i = i + 1;
    }
    assert(a@ =~= b@);
    true
}

fn string_set_eq(a: &StringSet, b: &StringSet) -> (r: bool)
    ensures
        r == (a@ == b@),
{
    if a.elems.len() != b.elems.len() {
        assert(a@.len() != b@.len());
        return false;
    }
    let mut i: usize = 0;
    while i < a.elems.len()
        invariant
            i <= a.elems.len(),
            a.elems.len() == b.elems.len(),
            forall|j: int| 0 <= j < i ==> a@[j] == b@[j],
        decreases a.elems.len() - i,
    {
        if !str_eq(a.elems[i].as_str(), b.elems[i].as_str()) {
            assert(a@[i as int] != b@[i as int]);
            return false;
        }
        i = i + 1;
    }
    assert(a@ =~= b@);
    true
}

fn bytes_set_eq(a: &BytesSet, b: &BytesSet) -> (r: bool)
    ensures
        r == (a@ == b@),
{
    if a.elems.len() != b.elems.len() {
        assert(a@.len() != b@.len());
        return false;
    }
    let mut i: usize = 0;
    while i < a.elems.len()
        invariant
            i <= a.elems.len(),
            a.elems.len() == b.elems.len(),
            forall|j: int| 0 <= j < i ==> a@[j] == b@[j],
        decreases a.elems.len() - i,
    {
        if !bytes_eq(a.elems[i].as_slice(), b.elems[i].as_slice()) {
            assert(a@[i as int] != b@[i as int]);
            return false;
        }
        i = i + 1;
    }
    assert(a@ =~= b@);
    true
}

/// Whether two optional attribute values are the same.
pub fn opt_attr_eq(a: Option<&AttributeValue>, b: Option<&AttributeValue>) -> (r: bool)
    ensures
        r == (opt_attr_view(a) == opt_attr_view(b)),
{
    match (a, b) {
        (Some(x), Some(y)) => attr_eq(x, y),
        (None, None) => true,
        _ => false,
    }
}

pub open spec fn opt_attr_view(a: Option<&AttributeValue>) -> Option<AttrView> {
    match a {
        Some(v) => Some(v@),
        None => None,
    }
}

/// The view of an optional item.
pub open spec fn opt_item_view(a: Option<Item>) -> Option<ItemView> {
    match a {
        Some(i) => Some(i@),
        None => None,
    }
}

/// The views of items.
pub open spec fn item_views(l: Seq<Item>) -> Seq<ItemView> {
    l.map_values(|i: Item| i@)
}

// ---------------------------------------------------------------------------
// Key schemas
// ---------------------------------------------------------------------------

/// The part that an attribute has in a key.
#[derive(Clone, Copy, Debug, PartialEq, Eq, Structural)]
pub enum KeyType {
    Hash,
    Range,
}

/// One attribute of a key.
#[derive(Debug, PartialEq, Eq)]
pub struct KeySchemaElement {
    pub attribute_name: String,
    pub key_type: KeyType,
}

impl KeySchemaElement {
    pub open spec fn view(&self) -> (Seq<char>, KeyType) {
        (self.attribute_name@, self.key_type)
    }
}

impl Clone for KeySchemaElement {
    fn clone(&self) -> (r: KeySchemaElement)
        ensures
            r@ == self@,
    {
        KeySchemaElement {
            attribute_name: text(self.attribute_name.as_str()),
            key_type: self.key_type,
        }
    }
}

/// What a key schema is.
pub type SchemaView = Seq<(Seq<char>, KeyType)>;

pub open spec fn schema_view(s: Seq<KeySchemaElement>) -> SchemaView {
    s.map_values(|k: KeySchemaElement| k@)
}

/// The name of the first attribute of the given part.
pub open spec fn key_name(s: SchemaView, part: KeyType) -> Option<Seq<char>>
    decreases s.len(),
{
    if s.len() == 0 {
        None
    } else if s[0].1 == part {
        Some(s[0].0)
    } else {
        key_name(s.skip(1), part)
    }
}

/// Looks up the first attribute of the given part.
pub fn find_key(schema: &[KeySchemaElement], part: KeyType) -> (r: Option<&String>)
    ensures
        match r {
            Some(n) => key_name(schema_view(schema@), part) == Some(n@),
            None => key_name(schema_view(schema@), part) is None,
        },
{
    let ghost v = schema_view(schema@);
    let mut i: usize = 0;
    assert(v.skip(0) =~= v);
    while i < schema.len()
        invariant
            i <= schema.len(),
            v == schema_view(schema@),
            key_name(v.skip(i as int), part) == key_name(v, part),
        decreases schema.len() - i,
    {
        assert(v.skip(i as int)[0] == schema@[i as int]@);
        if schema[i].key_type == part {
            return Some(&schema[i].attribute_name);
        }
        assert(v.skip(i as int).skip(1) =~= v.skip(i + 1));
        i = i + 1;
    }
    None
}

/// A copy of a key schema.
pub fn copy_schema(s: &[KeySchemaElement]) -> (r: Vec<KeySchemaElement>)
    ensures
        schema_view(r@) == schema_view(s@),
{
    let mut out: Vec<KeySchemaElement> = Vec::new();
    let mut i: usize = 0;
    while i < s.len()
        invariant
            i <= s.len(),
            schema_view(out@) == schema_view(s@).take(i as int),
        decreases s.len() - i,
    {
        let ghost before = schema_view(out@);
        out.push(s[i].clone());
        i = i + 1;
        assert(schema_view(out@) =~= before.push(s@[i - 1]@));
        assert(schema_view(s@).take(i as int) =~= before.push(s@[i - 1]@));
    }
    assert(schema_view(s@).take(i as int) =~= schema_view(s@));
    out
}

/// The attributes of `item` that the schema names.
pub open spec fn key_attributes(item: ItemView, schema: SchemaView) -> ItemView
    decreases schema.len(),
{
    if schema.len() == 0 {
        Seq::empty()
    } else {
        let rest = key_attributes(item, schema.drop_last());
        match lookup(item, schema.last().0) {
            Some(v) => item_put(rest, schema.last().0, v),
            None => rest,
        }
    }
}

/// Takes the attributes that the schema names out of an item.
pub fn extract_key(item: &Item, schema: &[KeySchemaElement]) -> (r: Item)
    ensures
        r@ == key_attributes(item@, schema_view(schema@)),
{
    let ghost v = schema_view(schema@);
    let mut out = Item::new();
    let mut i: usize = 0;
    assert(v.take(0) =~= Seq::empty());
    while i < schema.len()
        invariant
            i <= schema.len(),
            v == schema_view(schema@),
            out@ == key_attributes(item@, v.take(i as int)),
        decreases schema.len() - i,
    {
        let name = &schema[i].attribute_name;
        match item.get(name.as_str()) {
            Some(x) => {
                out.insert(text(name.as_str()), x.clone());
            },
            None => {},
        }
        i = i + 1;
        assert(v.take(i as int).drop_last() =~= v.take(i - 1));
    }
    assert(v.take(i as int) =~= v);
    out
}

/// Of an item's attributes exactly those that the schema names are kept.
pub proof fn key_attributes_lookup(item: ItemView, schema: SchemaView, name: Seq<char>)
    ensures
        lookup(key_attributes(item, schema), name) == if exists|i: int|
            0 <= i < schema.len() && (#[trigger] schema[i]).0 == name {
            lookup(item, name)
        } else {
            None
        },
        item_sorted(key_attributes(item, schema)),
    decreases schema.len(),
{
    if schema.len() > 0 {
        let d = schema.drop_last();
        key_attributes_lookup(item, d, name);
        let rest = key_attributes(item, d);
        let l = schema.last();
        if let Some(v) = lookup(item, l.0) {
            item_put_lookup(rest, l.0, v, name);
            item_put_sorted(rest, l.0, v);
        }
        if exists|i: int| 0 <= i < schema.len() && (#[trigger] schema[i]).0 == name {
            let i = choose|i: int| 0 <= i < schema.len() && (#[trigger] schema[i]).0 == name;
            if i < d.len() {
                assert(d[i].0 == name);
            }
        }
        if exists|i: int| 0 <= i < d.len() && (#[trigger] d[i]).0 == name {
            let i = choose|i: int| 0 <= i < d.len() && (#[trigger] d[i]).0 == name;
            assert(schema[i].0 == name);
        }
        assert(schema[schema.len() - 1] == l);
    }
}

} // verus!
