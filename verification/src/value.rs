//! Values, and what it is for two of them to be equal.

use crate::number::{Decimal, Number};
use crate::tokenize::{Token, TokenView};
use vstd::prelude::*;

verus! {

/// The mathematical content of a [`Value`]: a finite tree in which an array
/// is a sequence and an object is a map from its keys.
pub enum ValueView {
    Null,
    Bool(bool),
    Number(Decimal),
    String(Seq<char>),
    Array(Seq<ValueView>),
    Object(Map<Seq<char>, ValueView>),
}

/// A value of the data format.
#[derive(Debug)]
pub enum Value {
    /// `null`
    Null,
    /// `true` or `false`
    Bool(bool),
    /// A number, with its exact value
    Number(Number),
    /// A string, as it stands between its quotes
    String(String),
    /// An array, its elements in their order
    Array(Vec<Value>),
    /// An object
    Object(Object),
}

/// A mapping from keys to values, each key held once. The entries are kept
/// in a vector, in the order in which their keys came, and are looked up
/// from its start; that order plays no part in what the object is.
#[derive(Debug)]
pub struct Object {
    entries: Vec<(String, Value)>,
}

/// No two entries of `keys` are the same.
pub open spec fn distinct(keys: Seq<Seq<char>>) -> bool {
    forall|i: int, j: int| 0 <= i < j < keys.len() ==> keys[i] != keys[j]
}

/// The keys of `entries`, in their order.
pub open spec fn keys_of(entries: Seq<(String, Value)>) -> Seq<Seq<char>> {
    Seq::new(entries.len(), |i: int| entries[i].0@)
}

/// The map that takes each of `keys` to the value at its place in `values`.
pub open spec fn map_of(keys: Seq<Seq<char>>, values: Seq<ValueView>) -> Map<Seq<char>, ValueView> {
    Map::new(|k: Seq<char>| keys.contains(k), |k: Seq<char>| values[keys.index_of(k)])
}

impl View for Value {
    type V = ValueView;

    open spec fn view(&self) -> ValueView
        decreases self, 0int,
    {
        match self {
            Value::Null => ValueView::Null,
            Value::Bool(b) => ValueView::Bool(*b),
            Value::Number(n) => ValueView::Number(n@),
            Value::String(s) => ValueView::String(s@),
            Value::Array(items) => ValueView::Array(views_of(items@)),
            Value::Object(object) => ValueView::Object(object.view()),
        }
    }
}

/// The contents of `items`, in their order.
pub open spec fn views_of(items: Seq<Value>) -> Seq<ValueView>
    decreases items, 0int,
{
    Seq::new(
        items.len(),
        |i: int|
            if 0 <= i < items.len() {
                items[i].view()
            } else {
                ValueView::Null
            },
    )
}

impl View for Object {
    type V = Map<Seq<char>, ValueView>;

    closed spec fn view(&self) -> Map<Seq<char>, ValueView>
        decreases self, 1int,
    {
        map_of(self.key_seq(), self.value_seq())
    }
}

impl Object {
    #[verifier::type_invariant]
    closed spec fn inv(&self) -> bool {
        distinct(self.key_seq())
    }

    /// The keys in the order in which they are held.
    closed spec fn key_seq(&self) -> Seq<Seq<char>> {
        keys_of(self.entries@)
    }

    /// The values in the order in which they are held.
    closed spec fn value_seq(&self) -> Seq<ValueView>
        decreases self, 0int,
    {
        Seq::new(
            self.entries@.len(),
            |i: int|
                if 0 <= i < self.entries@.len() {
                    self.entries@[i].1.view()
                } else {
                    ValueView::Null
                },
        )
    }

    /// An object without entries.
    pub fn new() -> (r: Object)
        ensures
            r@ == Map::<Seq<char>, ValueView>::empty(),
    {
        let r = Object { entries: Vec::new() };
        assert(r@ =~= Map::<Seq<char>, ValueView>::empty());
        r
    }

    /// The number of entries.
    pub fn len(&self) -> (n: usize)
        ensures
            n == self@.dom().len(),
            self@.dom().finite(),
    {
        proof {
            use_type_invariant(self);
            lemma_map_of_len(self.key_seq(), self.value_seq());
        }
        self.entries.len()
    }

    /// Where `key` is held, if it is.
    fn position(&self, key: &str) -> (r: Option<usize>)
        ensures
            match r {
                Some(i) => i < self.key_seq().len() && self.key_seq()[i as int] == key@,
                None => !self.key_seq().contains(key@),
            },
    {
        let mut i: usize = 0;
        while i < self.entries.len()
            invariant
                i <= self.entries.len(),
                forall|j: int| 0 <= j < i ==> self.key_seq()[j] != key@,
            decreases self.entries.len() - i,
        {
            if self.entries[i].0.as_str().eq(key) {
                return Some(i);
            }
            i = i + 1;
        }
        None
    }

    /// Checks whether the object has an entry for `key`.
    pub fn contains_key(&self, key: &str) -> (r: bool)
        ensures
            r == self@.dom().contains(key@),
    {
        self.position(key).is_some()
    }

    /// The value that the object holds for `key`.
    pub fn get(&self, key: &str) -> (r: Option<&Value>)
        ensures
            match r {
                Some(value) => self@.dom().contains(key@) && value@ == self@[key@],
                None => !self@.dom().contains(key@),
            },
    {
        proof {
            use_type_invariant(self);
        }
        match self.position(key) {
            Some(i) => {
                proof {
                    lemma_map_of_index(self.key_seq(), self.value_seq(), i as int);
                }
                Some(&self.entries[i].1)
            },
            None => None,
        }
    }

    /// Sets the value for `key`, and returns the value that it had before.
    pub fn insert(&mut self, key: String, value: Value) -> (r: Option<Value>)
        ensures
            final(self)@ == old(self)@.insert(key@, value@),
            match r {
                Some(previous) => old(self)@.dom().contains(key@) && previous@ == old(self)@[key@],
                None => !old(self)@.dom().contains(key@),
            },
    {
        proof {
            use_type_invariant(&*self);
        }
        let ghost keys = self.key_seq();
        let ghost values = self.value_seq();
        let found = self.position(key.as_str());
        let mut entries: Vec<(String, Value)> = Vec::new();
        core::mem::swap(&mut self.entries, &mut entries);
        match found {
            Some(i) => {
                proof {
                    lemma_map_of_index(keys, values, i as int);
                    lemma_map_of_update(keys, values, i as int, value@);
                }
                entries.push((key, value));
                let previous = entries.swap_remove(i);
                assert(keys_of(entries@) =~= keys);
                core::mem::swap(&mut self.entries, &mut entries);
                assert(self.key_seq() =~= keys);
                assert(self.value_seq() =~= values.update(i as int, value@));
                Some(previous.1)
            },
            None => {
                proof {
                    lemma_map_of_push(keys, values, key@, value@);
                }
                entries.push((key, value));
                assert(keys_of(entries@) =~= keys.push(key@));
                core::mem::swap(&mut self.entries, &mut entries);
                assert(self.key_seq() =~= keys.push(key@));
                assert(self.value_seq() =~= values.push(value@));
                None
            },
        }
    }
}

/// Why a value could not be had.
#[derive(Debug, Clone, PartialEq)]
pub enum ValueError {
    /// The token is none that stands for a value by itself
    TryFromToken(Token),
    /// The value is no number
    TryIntof64,
}

/// The mathematical content of a [`ValueError`].
pub enum ValueErrorView {
    TryFromToken(TokenView),
    TryIntof64,
}

impl View for ValueError {
    type V = ValueErrorView;

    open spec fn view(&self) -> ValueErrorView {
        match self {
            ValueError::TryFromToken(t) => ValueErrorView::TryFromToken(t@),
            ValueError::TryIntof64 => ValueErrorView::TryIntof64,
        }
    }
}

/// The value that a token stands for by itself, if it stands for one.
pub open spec fn value_of_token(token: TokenView) -> Option<ValueView> {
    match token {
        TokenView::Null => Some(ValueView::Null),
        TokenView::Bool(b) => Some(ValueView::Bool(b)),
        TokenView::Number(n) => Some(ValueView::Number(n)),
        TokenView::String(s) => Some(ValueView::String(s)),
        _ => None,
    }
}

impl Clone for Value {
    fn clone(&self) -> (r: Value)
        ensures
            r@ == self@,
    {
        self.duplicate()
    }
}

impl Clone for Object {
    fn clone(&self) -> (r: Object)
        ensures
            r@ == self@,
    {
        self.duplicate()
    }
}

impl Value {
    /// A copy of the value.
    fn duplicate(&self) -> (r: Value)
        ensures
            r@ == self@,
        decreases self,
    {
        match self {
            Value::Null => Value::Null,
            Value::Bool(b) => Value::Bool(*b),
            Value::Number(n) => Value::Number(n.clone()),
            Value::String(s) => Value::String(s.clone()),
            Value::Array(items) => {
                let mut copies: Vec<Value> = Vec::new();
                let mut i: usize = 0;
                assert forall|j: int| 0 <= j < items.len() implies decreases_to!(self => #[trigger] items@[j]) by {
                    assert(decreases_to!(self => *items));
                    assert(decreases_to!(*items => items@[j]));
                }
                while i < items.len()
                    invariant
                        forall|j: int| 0 <= j < items.len() ==> decreases_to!(self => #[trigger] items@[j]),
                        i <= items.len(),
                        copies.len() == i,
                        forall|j: int| 0 <= j < i ==> copies@[j]@ == items@[j]@,
                    decreases items.len() - i,
                {
                    copies.push(items[i].duplicate());
                    i = i + 1;
                }
                assert(views_of(copies@) =~= views_of(items@));
                Value::Array(copies)
            },
            Value::Object(object) => Value::Object(object.duplicate()),
        }
    }
}

impl Object {
    /// A copy of the object.
    fn duplicate(&self) -> (r: Object)
        ensures
            r@ == self@,
        decreases self,
    {
        proof {
            use_type_invariant(self);
        }
        let mut entries: Vec<(String, Value)> = Vec::new();
        let mut i: usize = 0;
        while i < self.entries.len()
            invariant
                i <= self.entries.len(),
                entries.len() == i,
                forall|j: int|
                    0 <= j < i ==> (#[trigger] entries@[j]).0@ == self.entries@[j].0@ && entries@[j].1@
                        == self.entries@[j].1@,
            decreases self.entries.len() - i,
        {
            let key = self.entries[i].0.clone();
            let value = self.entries[i].1.duplicate();
            entries.push((key, value));
            i = i + 1;
        }
        assert(keys_of(entries@) =~= self.key_seq());
        let r = Object { entries };
        assert(r.value_seq() =~= self.value_seq());
        r
    }
}

impl TryFrom<Token> for Value {
    type Error = ValueError;

    /// The value that `token` stands for by itself.
    fn try_from(token: Token) -> (r: Result<Value, ValueError>)
        ensures
            match r {
                Ok(v) => value_of_token(token@) == Some(v@),
                Err(e) => value_of_token(token@) is None && e@ == ValueErrorView::TryFromToken(
                    token@,
                ),
            },
    {
        match token {
            Token::Null => Ok(Value::Null),
            Token::Bool(b) => Ok(Value::Bool(b)),
            Token::Number(n) => Ok(Value::Number(n)),
            Token::String(s) => Ok(Value::String(s)),
            _ => Err(ValueError::TryFromToken(token)),
        }
    }
}

impl vstd::std_specs::convert::TryFromSpecImpl<Token> for Value {
    open spec fn obeys_try_from_spec() -> bool {
        true
    }

    open spec fn try_from_spec(token: Token) -> Result<Value, ValueError> {
        match token {
            Token::Null => Ok(Value::Null),
            Token::Bool(b) => Ok(Value::Bool(b)),
            Token::Number(n) => Ok(Value::Number(n)),
            Token::String(s) => Ok(Value::String(s)),
            _ => Err(ValueError::TryFromToken(token)),
        }
    }
}

impl Value {
    /// The number that the value is, if it is one.
    pub fn try_into(&self) -> (r: Result<&Number, ValueError>)
        ensures
            match r {
                Ok(n) => self@ == ValueView::Number(n@),
                Err(e) => !(self@ is Number) && e@ == ValueErrorView::TryIntof64,
            },
    {
        match self {
            Value::Number(n) => Ok(n),
            _ => Err(ValueError::TryIntof64),
        }
    }

    /// Checks whether two values have the same content. The order in which
    /// an object holds its entries plays no part.
    fn equals(&self, other: &Value) -> (r: bool)
        ensures
            r == (self@ == other@),
        decreases self,
    {
        match (self, other) {
            (Value::Null, Value::Null) => true,
            (Value::Bool(a), Value::Bool(b)) => *a == *b,
            (Value::Number(a), Value::Number(b)) => a.eq(b),
            (Value::String(a), Value::String(b)) => a.as_str().eq(b.as_str()),
            (Value::Array(a), Value::Array(b)) => {
                if a.len() != b.len() {
                    assert(views_of(a@).len() != views_of(b@).len());
                    return false;
                }
                let mut i: usize = 0;
                assert forall|j: int| 0 <= j < a.len() implies decreases_to!(self => #[trigger] a@[j]) by {
                    assert(decreases_to!(self => *a));
                    assert(decreases_to!(*a => a@[j]));
                }
                while i < a.len()
                    invariant
                        forall|j: int| 0 <= j < a.len() ==> decreases_to!(self => #[trigger] a@[j]),
                        self == Value::Array(*a),
                        other == Value::Array(*b),
                        a.len() == b.len(),
                        i <= a.len(),
                        forall|j: int| 0 <= j < i ==> a@[j]@ == b@[j]@,
                    decreases a.len() - i,
                {
                    if !a[i].equals(&b[i]) {
                        assert(views_of(a@)[i as int] != views_of(b@)[i as int]);
                        return false;
                    }
                    i = i + 1;
                }
                assert(views_of(a@) =~= views_of(b@));
                true
            },
            (Value::Object(a), Value::Object(b)) => a.equals(b),
            _ => false,
        }
    }
}

impl Object {
    /// Checks whether two objects hold the same keys with the same values.
    fn equals(&self, other: &Object) -> (r: bool)
        ensures
            r == (self@ == other@),
        decreases self,
    {
        proof {
            use_type_invariant(self);
            use_type_invariant(other);
        }
        let mut i: usize = 0;
        while i < self.entries.len()
            invariant
                i <= self.entries.len(),
                distinct(self.key_seq()),
                distinct(other.key_seq()),
                forall|j: int|
                    0 <= j < i ==> other@.dom().contains(#[trigger] self.key_seq()[j])
                        && other@[self.key_seq()[j]] == self.value_seq()[j],
            decreases self.entries.len() - i,
        {
            proof {
                lemma_map_of_index(self.key_seq(), self.value_seq(), i as int);
            }
            match other.position(self.entries[i].0.as_str()) {
                None => {
                    return false;
                },
                Some(j) => {
                    proof {
                        lemma_map_of_index(other.key_seq(), other.value_seq(), j as int);
                    }
                    if !self.entries[i].1.equals(&other.entries[j].1) {
                        return false;
                    }
                },
            }
            i = i + 1;
        }
        let mut j: usize = 0;
        while j < other.entries.len()
            invariant
                j <= other.entries.len(),
                distinct(self.key_seq()),
                distinct(other.key_seq()),
                forall|k: int| 0 <= k < j ==> self@.dom().contains(#[trigger] other.key_seq()[k]),
            decreases other.entries.len() - j,
        {
            proof {
                lemma_map_of_index(other.key_seq(), other.value_seq(), j as int);
            }
            if self.position(other.entries[j].0.as_str()).is_none() {
                return false;
            }
            j = j + 1;
        }
        proof {
            assert forall|k: Seq<char>| self@.dom().contains(k) implies other@.dom().contains(k)
                && self@[k] == other@[k] by {
                let at = self.key_seq().index_of(k);
                lemma_map_of_index(self.key_seq(), self.value_seq(), at);
            }
            assert forall|k: Seq<char>| other@.dom().contains(k) implies self@.dom().contains(k) by {
                let at = other.key_seq().index_of(k);
                assert(other.key_seq()[at] == k);
            }
            assert(self@ =~= other@);
        }
        true
    }
}

impl PartialEq for Value {
    fn eq(&self, other: &Value) -> (r: bool) {
        self.equals(other)
    }
}

impl vstd::std_specs::cmp::PartialEqSpecImpl for Value {
    open spec fn obeys_eq_spec() -> bool {
        true
    }

    /// Two values are equal when they have the same content.
    open spec fn eq_spec(&self, other: &Value) -> bool {
        self@ == other@
    }
}

impl PartialEq for Object {
    fn eq(&self, other: &Object) -> (r: bool) {
        self.equals(other)
    }
}

impl vstd::std_specs::cmp::PartialEqSpecImpl for Object {
    open spec fn obeys_eq_spec() -> bool {
        true
    }

    /// Two objects are equal when they are the same map.
    open spec fn eq_spec(&self, other: &Object) -> bool {
        self@ == other@
    }
}

/// The order in which two keys get their values plays no part in the object
/// that results.
pub proof fn lemma_insert_order(
    members: Map<Seq<char>, ValueView>,
    first: Seq<char>,
    first_value: ValueView,
    second: Seq<char>,
    second_value: ValueView,
)
    requires
        first != second,
    ensures
        members.insert(first, first_value).insert(second, second_value) == members.insert(
            second,
            second_value,
        ).insert(first, first_value),
{
    assert(members.insert(first, first_value).insert(second, second_value) =~= members.insert(
        second,
        second_value,
    ).insert(first, first_value));
}

/// A key of `keys` is taken to the value at its place.
pub proof fn lemma_map_of_index(keys: Seq<Seq<char>>, values: Seq<ValueView>, i: int)
    requires
        distinct(keys),
        0 <= i < keys.len(),
    ensures
        map_of(keys, values).dom().contains(keys[i]),
        map_of(keys, values)[keys[i]] == values[i],
{
    let j = keys.index_of(keys[i]);
    assert(0 <= j < keys.len() && keys[j] == keys[i]);
    assert(j == i);
}

/// Distinct keys make a map of as many entries.
proof fn lemma_map_of_len(keys: Seq<Seq<char>>, values: Seq<ValueView>)
    requires
        distinct(keys),
    ensures
        map_of(keys, values).dom().finite(),
        map_of(keys, values).dom().len() == keys.len(),
{
    assert(keys.no_duplicates());
    keys.unique_seq_to_set();
    assert(map_of(keys, values).dom() =~= keys.to_set());
}

/// A new value at the place of a key is that key's new value in the map.
proof fn lemma_map_of_update(keys: Seq<Seq<char>>, values: Seq<ValueView>, i: int, v: ValueView)
    requires
        distinct(keys),
        keys.len() == values.len(),
        0 <= i < keys.len(),
    ensures
        map_of(keys, values.update(i, v)) == map_of(keys, values).insert(keys[i], v),
{
    let updated = map_of(keys, values.update(i, v));
    let inserted = map_of(keys, values).insert(keys[i], v);
    assert forall|k: Seq<char>| updated.dom().contains(k) implies #[trigger] updated[k] == inserted[k] by {
        let j = keys.index_of(k);
        lemma_map_of_index(keys, values, j);
        lemma_map_of_index(keys, values.update(i, v), j);
    }
    assert(updated.dom() =~= inserted.dom());
    assert(updated =~= inserted);
}

/// A new key with its value at the end is a new entry of the map.
pub proof fn lemma_map_of_push(keys: Seq<Seq<char>>, values: Seq<ValueView>, k: Seq<char>, v: ValueView)
    requires
        distinct(keys),
        keys.len() == values.len(),
        !keys.contains(k),
    ensures
        distinct(keys.push(k)),
        map_of(keys.push(k), values.push(v)) == map_of(keys, values).insert(k, v),
{
    let longer = keys.push(k);
    assert forall|i: int, j: int| 0 <= i < j < longer.len() implies longer[i] != longer[j] by {
        if j == keys.len() {
            assert(keys[i] == longer[i]);
        }
    }
    let pushed = map_of(longer, values.push(v));
    let inserted = map_of(keys, values).insert(k, v);
    assert forall|q: Seq<char>| pushed.dom().contains(q) <==> inserted.dom().contains(q) by {
        if pushed.dom().contains(q) {
            let j = longer.index_of(q);
            if j < keys.len() {
                assert(keys[j] == q);
            }
        }
        if inserted.dom().contains(q) {
            if q == k {
                assert(longer[keys.len() as int] == q);
            } else {
                let j = keys.index_of(q);
                assert(longer[j] == q);
            }
        }
    }
    assert forall|q: Seq<char>| pushed.dom().contains(q) implies #[trigger] pushed[q] == inserted[q] by {
        let j = longer.index_of(q);
        lemma_map_of_index(longer, values.push(v), j);
        if j < keys.len() {
            assert(keys[j] == q);
            lemma_map_of_index(keys, values, j);
        }
    }
    assert(pushed =~= inserted);
}

} // verus!
