//! The values that the wire format carries, and their mathematical model.

use vstd::prelude::*;
use vstd::slice::slice_to_vec;

verus! {

/// The model of a [`Value`]: the same tree, over sequences.
pub enum ValueView {
    Null,
    Bool(bool),
    Int(i64),
    /// An IEEE-754 double, held as its 64 bits.
    Float(u64),
    Bytes(Seq<u8>),
    Text(Seq<char>),
    List(Seq<ValueView>),
    /// Entries in insertion order.
    Dict(Seq<(Seq<char>, ValueView)>),
    Structure { marker: u8, signature: u8, fields: Seq<ValueView> },
}

/// A value of the wire format.
#[derive(Debug, PartialEq)]
pub enum Value {
    Null,
    Bool(bool),
    Int(i64),
    /// An IEEE-754 double, held as its 64 bits.
    Float(u64),
    Bytes(Vec<u8>),
    Text(String),
    List(Vec<Value>),
    Dict(BoltMap),
    /// A marker whose low four bits give the number of fields, a signature, and the fields.
    Structure { marker: u8, signature: u8, fields: Vec<Value> },
}

/// A map from text keys to values that keeps its entries in insertion order
/// and holds each key once.
#[derive(Debug, PartialEq)]
pub struct BoltMap {
    entries: Vec<(String, Value)>,
}

/// The models of a sequence of values, in the same order.
pub open spec fn views(items: Seq<Value>) -> Seq<ValueView> {
    Seq::new(items.len(), |i: int| items[i]@)
}

/// No entry before `i` has the key `key`, and the entry at `i` has it.
pub open spec fn first_at(entries: Seq<(Seq<char>, ValueView)>, key: Seq<char>, i: int) -> bool {
    &&& 0 <= i < entries.len()
    &&& entries[i].0 == key
    &&& forall|j: int| 0 <= j < i ==> (#[trigger] entries[j]).0 != key
}

/// No entry has the key `key`.
pub open spec fn absent(entries: Seq<(Seq<char>, ValueView)>, key: Seq<char>) -> bool {
    forall|j: int| 0 <= j < entries.len() ==> (#[trigger] entries[j]).0 != key
}

/// The value of the first entry with the key `key`, if there is one.
pub open spec fn lookup(entries: Seq<(Seq<char>, ValueView)>, key: Seq<char>) -> Option<
    ValueView,
> {
    if absent(entries, key) {
        None
    } else {
        Some(entries[choose|i: int| first_at(entries, key, i)].1)
    }
}

/// The entries after `key` was given the value `value`: in place where the
/// key was present, at the end where it was not.
pub open spec fn inserted(
    entries: Seq<(Seq<char>, ValueView)>,
    key: Seq<char>,
    value: ValueView,
) -> Seq<(Seq<char>, ValueView)> {
    if absent(entries, key) {
        entries.push((key, value))
    } else {
        entries.update(choose|i: int| first_at(entries, key, i), (key, value))
    }
}

/// No two entries share a key.
pub open spec fn distinct_keys(entries: Seq<(Seq<char>, ValueView)>) -> bool {
    forall|i: int, j: int|
        0 <= i < j < entries.len() ==> (#[trigger] entries[i]).0 != (#[trigger] entries[j]).0
}

impl ValueView {
    /// Every map in the value holds each key once, and every structure has
    /// the number of fields that its marker states.
    pub open spec fn wf(self) -> bool
        decreases self,
    {
        match self {
            ValueView::List(items) => forall|i: int|
                0 <= i < items.len() ==> (#[trigger] items[i]).wf(),
            ValueView::Dict(entries) => {
                &&& distinct_keys(entries)
                &&& forall|i: int| 0 <= i < entries.len() ==> (#[trigger] entries[i]).1.wf()
            },
            ValueView::Structure { marker, signature, fields } => {
                &&& fields.len() <= 15
                &&& marker == 0xB0 + fields.len()
                &&& forall|i: int| 0 <= i < fields.len() ==> (#[trigger] fields[i]).wf()
            },
            _ => true,
        }
    }
}

impl Value {
    /// The model of the value: the same tree, over sequences.
    pub open spec fn model(&self) -> ValueView
        decreases self,
    {
        match self {
            Value::Null => ValueView::Null,
            Value::Bool(b) => ValueView::Bool(*b),
            Value::Int(i) => ValueView::Int(*i),
            Value::Float(bits) => ValueView::Float(*bits),
            Value::Bytes(bytes) => ValueView::Bytes(bytes@),
            Value::Text(text) => ValueView::Text(text@),
            Value::List(items) => ValueView::List(
                Seq::new(
                    items@.len(),
                    |i: int|
                        if 0 <= i < items@.len() {
                            items@[i].model()
                        } else {
                            ValueView::Null
                        },
                ),
            ),
            Value::Dict(map) => ValueView::Dict(map.model()),
            Value::Structure { marker, signature, fields } => ValueView::Structure {
                marker: *marker,
                signature: *signature,
                fields: Seq::new(
                    fields@.len(),
                    |i: int|
                        if 0 <= i < fields@.len() {
                            fields@[i].model()
                        } else {
                            ValueView::Null
                        },
                ),
            },
        }
    }
}

impl BoltMap {
    /// The entries of the map, in insertion order.
    pub closed spec fn model(&self) -> Seq<(Seq<char>, ValueView)>
        decreases self,
    {
        Seq::new(
            self.entries@.len(),
            |i: int|
                if 0 <= i < self.entries@.len() {
                    (self.entries@[i].0@, self.entries@[i].1.model())
                } else {
                    (Seq::empty(), ValueView::Null)
                },
        )
    }
}

impl View for Value {
    type V = ValueView;

    open spec fn view(&self) -> ValueView {
        self.model()
    }
}

impl View for BoltMap {
    type V = Seq<(Seq<char>, ValueView)>;

    open spec fn view(&self) -> Seq<(Seq<char>, ValueView)> {
        self.model()
    }
}

/// The view of a list is the list of the views.
pub proof fn lemma_view_list(items: Vec<Value>)
    ensures
        Value::List(items)@ == ValueView::List(views(items@)),
{
    let v = Value::List(items);
    assert(v@ is List);
    let got = v@->List_0;
    assert(got.len() == items@.len());
    assert forall|i: int| 0 <= i < got.len() implies got[i] == views(items@)[i] by {
        assert(got[i] == items@[i]@);
    }
    assert(got =~= views(items@));
}

/// The view of a structure holds the views of its fields.
pub proof fn lemma_view_structure(marker: u8, signature: u8, fields: Vec<Value>)
    ensures
        (Value::Structure { marker, signature, fields })@ == (ValueView::Structure {
            marker,
            signature,
            fields: views(fields@),
        }),
{
    assert((Value::Structure { marker, signature, fields })@->fields =~= views(fields@));
}

/// Whether two texts hold the same characters.
pub fn same_text(a: &str, b: &str) -> (r: bool)
    ensures
        r == (a@ == b@),
{
    let x = a.as_bytes();
    let y = b.as_bytes();
    proof {
        vstd::utf8::encode_utf8_decode_utf8(a@);
        vstd::utf8::encode_utf8_decode_utf8(b@);
    }
    if x.len() != y.len() {
        return false;
    }
    let mut i: usize = 0;
    while i < x.len()
        invariant
            i <= x@.len(),
            x@.len() == y@.len(),
            x@ == vstd::utf8::encode_utf8(a@),
            y@ == vstd::utf8::encode_utf8(b@),
            forall|j: int| 0 <= j < i ==> x@[j] == y@[j],
        decreases x@.len() - i,
    {
        if x[i] != y[i] {
            return false;
        }
        i += 1;
    }
    assert(x@ =~= y@);
    true
}

impl BoltMap {
    /// Each key is held once.
    #[verifier::type_invariant]
    spec fn held_once(&self) -> bool {
        distinct_keys(self.model())
    }

    /// A map without entries.
    pub fn new() -> (map: BoltMap)
        ensures
            map@ == Seq::<(Seq<char>, ValueView)>::empty(),
    {
        let map = BoltMap { entries: Vec::new() };
        assert(map@ =~= Seq::<(Seq<char>, ValueView)>::empty());
        map
    }

    /// The number of entries, each with a key of its own.
    pub fn len(&self) -> (n: usize)
        ensures
            n == self@.len(),
            distinct_keys(self@),
    {
        proof {
            use_type_invariant(self);
        }
        self.entries.len()
    }

    /// Whether the map has no entry.
    pub fn is_empty(&self) -> (r: bool)
        ensures
            r == (self@.len() == 0),
    {
        self.entries.len() == 0
    }

    /// The key of the entry at `i`, counted in insertion order.
    pub(crate) fn key_at(&self, i: usize) -> (key: &String)
        requires
            i < self@.len(),
        ensures
            key@ == self@[i as int].0,
    {
        &self.entries[i].0
    }

    /// The value of the entry at `i`, counted in insertion order.
    pub(crate) fn value_at(&self, i: usize) -> (value: &Value)
        requires
            i < self@.len(),
        ensures
            value@ == self@[i as int].1,
    {
        &self.entries[i].1
    }

    /// The entry at `i`, counted in insertion order, if there are so many.
    pub fn entry_at(&self, i: usize) -> (r: Option<(&String, &Value)>)
        ensures
            match r {
                Some((key, value)) => i < self@.len() && key@ == self@[i as int].0 && value@
                    == self@[i as int].1,
                None => i >= self@.len(),
            },
    {
        if i < self.entries.len() {
            Some((&self.entries[i].0, &self.entries[i].1))
        } else {
            None
        }
    }

    /// Where the entry with the key `key` stands, if there is one.
    pub fn position(&self, key: &str) -> (r: Option<usize>)
        ensures
            match r {
                Some(i) => first_at(self@, key@, i as int),
                None => absent(self@, key@),
            },
    {
        let mut i: usize = 0;
        while i < self.entries.len()
            invariant
                i <= self.entries@.len(),
                self@.len() == self.entries@.len(),
                forall|j: int| 0 <= j < i ==> (#[trigger] self@[j]).0 != key@,
            decreases self.entries@.len() - i,
        {
            if same_text(self.entries[i].0.as_str(), key) {
                return Some(i);
            }
            i += 1;
        }
        None
    }

    /// Whether an entry has the key `key`.
    pub fn contains_key(&self, key: &str) -> (r: bool)
        ensures
            r == !absent(self@, key@),
    {
        match self.position(key) {
            Some(i) => {
                assert(self@[i as int].0 == key@);
                true
            },
            None => false,
        }
    }

    /// The value that `key` has, if it has one.
    pub fn value(&self, key: &str) -> (r: Option<&Value>)
        ensures
            match r {
                Some(value) => lookup(self@, key@) == Some(value@),
                None => lookup(self@, key@) is None,
            },
    {
        match self.position(key) {
            Some(i) => {
                proof {
                    lemma_first_at_unique(self@, key@, i as int);
                }
                Some(&self.entries[i].1)
            },
            None => None,
        }
    }

    /// Gives `key` the value `value`. A key that the map holds keeps its
    /// place; a new key goes to the end.
    pub fn put(&mut self, key: String, value: Value)
        ensures
            final(self)@ == inserted(old(self)@, key@, value@),
            distinct_keys(final(self)@),
    {
        proof {
            use_type_invariant(&*self);
            lemma_inserted_distinct(self@, key@, value@);
        }
        match self.position(key.as_str()) {
            Some(i) => {
                proof {
                    lemma_first_at_unique(self@, key@, i as int);
                }
                let mut entries: Vec<(String, Value)> = Vec::new();
                core::mem::swap(&mut self.entries, &mut entries);
                assert(self.model() =~= Seq::<(Seq<char>, ValueView)>::empty());
                entries.set(i, (key, value));
                proof {
                    let held = BoltMap { entries };
                    assert(held.model() =~= inserted(old(self)@, key@, value@));
                }
                core::mem::swap(&mut self.entries, &mut entries);
                assert(self@ =~= inserted(old(self)@, key@, value@));
            },
            None => {
                let mut entries: Vec<(String, Value)> = Vec::new();
                core::mem::swap(&mut self.entries, &mut entries);
                assert(self.model() =~= Seq::<(Seq<char>, ValueView)>::empty());
                entries.push((key, value));
                proof {
                    let held = BoltMap { entries };
                    assert(held.model() =~= inserted(old(self)@, key@, value@));
                }
                core::mem::swap(&mut self.entries, &mut entries);
                assert(self@ =~= inserted(old(self)@, key@, value@));
            },
        }
    }

    /// A map with the same entries, each value copied.
    pub fn duplicate(&self) -> (copy: BoltMap)
        ensures
            copy@ == self@,
        decreases self,
    {
        let mut entries: Vec<(String, Value)> = Vec::new();
        let mut i: usize = 0;
        while i < self.entries.len()
            invariant
                i <= self.entries@.len(),
                entries@.len() == i,
                forall|j: int|
                    0 <= j < i ==> (#[trigger] entries@[j]).0@ == self.entries@[j].0@
                        && entries@[j].1@ == self.entries@[j].1@,
            decreases self.entries@.len() - i,
        {
            let entry = &self.entries[i];
            proof {
                assert(decreases_to!(*self => self.entries));
                assert(decreases_to!(self.entries => self.entries@[i as int]));
                assert(decreases_to!(self.entries@[i as int] => self.entries@[i as int].1));
            }
            let value = entry.1.duplicate();
            entries.push((entry.0.clone(), value));
            i += 1;
        }
        proof {
            use_type_invariant(self);
            let held = BoltMap { entries };
            assert(held.model() =~= self.model());
        }
        BoltMap { entries }
    }
}

impl Value {
    /// A value with the same content, copied all the way down.
    pub fn duplicate(&self) -> (copy: Value)
        ensures
            copy@ == self@,
        decreases self,
    {
        match self {
            Value::Null => Value::Null,
            Value::Bool(b) => Value::Bool(*b),
            Value::Int(i) => Value::Int(*i),
            Value::Float(bits) => Value::Float(*bits),
            Value::Bytes(bytes) => Value::Bytes(slice_to_vec(bytes.as_slice())),
            Value::Text(text) => Value::Text(text.clone()),
            Value::List(items) => {
                let mut copies: Vec<Value> = Vec::new();
                let mut i: usize = 0;
                while i < items.len()
                    invariant
                        i <= items@.len(),
                        copies@.len() == i,
                        *self == Value::List(*items),
                        forall|j: int| 0 <= j < i ==> (#[trigger] copies@[j])@ == items@[j]@,
                    decreases items@.len() - i,
                {
                    proof {
                        assert(decreases_to!(*self => self->List_0));
                        assert(decreases_to!(*items => items@[i as int]));
                    }
                    let item = items[i].duplicate();
                    copies.push(item);
                    i += 1;
                }
                proof {
                    lemma_view_list(copies);
                    lemma_view_list(*items);
                    assert(views(copies@) =~= views(items@));
                }
                Value::List(copies)
            },
            Value::Dict(map) => {
                proof {
                    assert(decreases_to!(*self => self->Dict_0));
                }
                Value::Dict(map.duplicate())
            },
            Value::Structure { marker, signature, fields } => {
                let mut copies: Vec<Value> = Vec::new();
                let mut i: usize = 0;
                while i < fields.len()
                    invariant
                        i <= fields@.len(),
                        copies@.len() == i,
                        self is Structure,
                        self->fields == *fields,
                        forall|j: int| 0 <= j < i ==> (#[trigger] copies@[j])@ == fields@[j]@,
                    decreases fields@.len() - i,
                {
                    proof {
                        assert(decreases_to!(*self => self->fields));
                        assert(decreases_to!(*fields => fields@[i as int]));
                    }
                    let item = fields[i].duplicate();
                    copies.push(item);
                    i += 1;
                }
                proof {
                    lemma_view_structure(*marker, *signature, copies);
                    lemma_view_structure(*marker, *signature, *fields);
                    assert(views(copies@) =~= views(fields@));
                }
                Value::Structure { marker: *marker, signature: *signature, fields: copies }
            },
        }
    }
}

impl Value {
    /// The structure with the signature and the fields, under the marker
    /// that states their number; none where they are more than fifteen.
    pub fn structure(signature: u8, fields: Vec<Value>) -> (r: Option<Value>)
        ensures
            match r {
                Some(v) => fields@.len() <= 15 && v@ == (ValueView::Structure {
                    marker: (0xB0 + fields@.len()) as u8,
                    signature,
                    fields: views(fields@),
                }),
                None => fields@.len() > 15,
            },
    {
        if fields.len() > 15 {
            None
        } else {
            let marker: u8 = 0xB0 + fields.len() as u8;
            proof {
                lemma_view_structure(marker, signature, fields);
            }
            Some(Value::Structure { marker, signature, fields })
        }
    }

    /// Whether every structure in the value has the number of fields that
    /// its marker states. (A map holds each key once by its making.)
    pub fn is_well_formed(&self) -> (r: bool)
        ensures
            r == self@.wf(),
        decreases self,
    {
        match self {
            Value::List(items) => {
                proof {
                    lemma_view_list(*items);
                    assert(decreases_to!(*self => self->List_0));
                }
                proof {
                    lemma_list_wf(items@);
                }
                all_well_formed(items)
            },
            Value::Dict(map) => {
                proof {
                    use_type_invariant(map);
                    assert(decreases_to!(*self => self->Dict_0));
                    assert(decreases_to!(*map => map.entries));
                }
                let mut i: usize = 0;
                while i < map.entries.len()
                    invariant
                        i <= map.entries@.len(),
                        map@.len() == map.entries@.len(),
                        self@ == ValueView::Dict(map@),
                        distinct_keys(map@),
                        decreases_to!(*self => map.entries),
                        forall|j: int| 0 <= j < i ==> (#[trigger] map@[j]).1.wf(),
                    decreases map.entries@.len() - i,
                {
                    proof {
                        assert(decreases_to!(map.entries => map.entries@[i as int]));
                        assert(decreases_to!(map.entries@[i as int] => map.entries@[i as int].1));
                    }
                    if !map.entries[i].1.is_well_formed() {
                        assert(!map@[i as int].1.wf());
                        return false;
                    }
                    i += 1;
                }
                true
            },
            Value::Structure { marker, signature, fields } => {
                proof {
                    lemma_view_structure(*marker, *signature, *fields);
                    assert(decreases_to!(*self => self->fields));
                }
                if fields.len() > 15 || *marker != 0xB0 + fields.len() as u8 {
                    return false;
                }
                proof {
                    lemma_structure_wf(*marker, *signature, fields@);
                }
                all_well_formed(fields)
            },
            _ => true,
        }
    }
}

/// Whether every value of `items` is well formed.
pub fn all_well_formed(items: &Vec<Value>) -> (r: bool)
    ensures
        r == forall|i: int| 0 <= i < items@.len() ==> (#[trigger] items@[i])@.wf(),
    decreases items,
{
    let mut i: usize = 0;
    while i < items.len()
        invariant
            i <= items@.len(),
            forall|j: int| 0 <= j < i ==> (#[trigger] items@[j])@.wf(),
        decreases items@.len() - i,
    {
        proof {
            assert(decreases_to!(*items => items@[i as int]));
        }
        if !items[i].is_well_formed() {
            assert(!items@[i as int]@.wf());
            return false;
        }
        i += 1;
    }
    true
}

/// A list is well formed where its items are.
pub proof fn lemma_list_wf(items: Seq<Value>)
    ensures
        ValueView::List(views(items)).wf() <==> forall|i: int|
            0 <= i < items.len() ==> (#[trigger] items[i])@.wf(),
{
    let list = views(items);
    assert(list.len() == items.len());
    let whole = ValueView::List(list);
    assert(whole->List_0 == list);
    if whole.wf() {
        assert forall|i: int| 0 <= i < items.len() implies (#[trigger] items[i])@.wf() by {
            assert(list[i].wf());
        }
    }
    if forall|i: int| 0 <= i < items.len() ==> (#[trigger] items[i])@.wf() {
        assert forall|i: int| 0 <= i < list.len() implies (#[trigger] list[i]).wf() by {
            assert(items[i]@.wf());
        }
    }
}

/// A structure whose marker states the number of its fields is well formed
/// where its fields are.
pub proof fn lemma_structure_wf(marker: u8, signature: u8, items: Seq<Value>)
    requires
        items.len() <= 15,
        marker == 0xB0 + items.len(),
    ensures
        (ValueView::Structure { marker, signature, fields: views(items) }).wf() <==> forall|
            i: int,
        |
            0 <= i < items.len() ==> (#[trigger] items[i])@.wf(),
{
    let fields = views(items);
    if (ValueView::Structure { marker, signature, fields }).wf() {
        assert forall|i: int| 0 <= i < items.len() implies (#[trigger] items[i])@.wf() by {
            assert(fields[i].wf());
        }
    }
    if forall|i: int| 0 <= i < items.len() ==> (#[trigger] items[i])@.wf() {
        assert forall|i: int| 0 <= i < fields.len() implies (#[trigger] fields[i]).wf() by {
            assert(items[i]@.wf());
        }
    }
}

/// Copies of the values of `items`, in the same order.
pub fn duplicate_all(items: &Vec<Value>) -> (copies: Vec<Value>)
    ensures
        views(copies@) == views(items@),
{
    let mut copies: Vec<Value> = Vec::new();
    let mut i: usize = 0;
    while i < items.len()
        invariant
            i <= items@.len(),
            copies@.len() == i,
            forall|j: int| 0 <= j < i ==> (#[trigger] copies@[j])@ == items@[j]@,
        decreases items@.len() - i,
    {
        copies.push(items[i].duplicate());
        i += 1;
    }
    assert(views(copies@) =~= views(items@));
    copies
}

impl Clone for Value {
    fn clone(&self) -> (copy: Self)
        ensures
            copy@ == self@,
    {
        self.duplicate()
    }
}

impl Clone for BoltMap {
    fn clone(&self) -> (copy: Self)
        ensures
            copy@ == self@,
    {
        self.duplicate()
    }
}

impl Default for BoltMap {
    fn default() -> (map: Self)
        ensures
            map@ == Seq::<(Seq<char>, ValueView)>::empty(),
    {
        BoltMap::new()
    }
}

/// Only one entry is the first with its key.
pub proof fn lemma_first_at_unique(entries: Seq<(Seq<char>, ValueView)>, key: Seq<char>, i: int)
    requires
        first_at(entries, key, i),
    ensures
        !absent(entries, key),
        (choose|k: int| first_at(entries, key, k)) == i,
{
    assert(entries[i].0 == key);
    let k = choose|k: int| first_at(entries, key, k);
    if k < i {
        assert(entries[k].0 != key);
    }
    if i < k {
        assert(entries[i].0 != key);
    }
}

/// Giving a key a value keeps the keys distinct.
pub proof fn lemma_inserted_distinct(
    entries: Seq<(Seq<char>, ValueView)>,
    key: Seq<char>,
    value: ValueView,
)
    requires
        distinct_keys(entries),
    ensures
        distinct_keys(inserted(entries, key, value)),
{
    let after = inserted(entries, key, value);
    if absent(entries, key) {
        assert forall|i: int, j: int| 0 <= i < j < after.len() implies (#[trigger] after[i]).0 != (
        #[trigger] after[j]).0 by {
            if j < entries.len() {
                assert(entries[i].0 != entries[j].0);
            } else {
                assert(entries[i].0 != key);
            }
        }
    } else {
        let k = choose|k: int| first_at(entries, key, k);
        assert(first_at(entries, key, k)) by {
            let w = choose|w: int| 0 <= w < entries.len() && (#[trigger] entries[w]).0 == key;
            lemma_first_exists(entries, key, w);
        }
        assert forall|i: int, j: int| 0 <= i < j < after.len() implies (#[trigger] after[i]).0 != (
        #[trigger] after[j]).0 by {
            assert(entries[i].0 != entries[j].0);
        }
    }
}

/// Where some entry has a key, one entry is the first with it.
pub proof fn lemma_first_exists(entries: Seq<(Seq<char>, ValueView)>, key: Seq<char>, w: int)
    requires
        0 <= w < entries.len(),
        entries[w].0 == key,
    ensures
        exists|k: int| first_at(entries, key, k),
    decreases w,
{
    if forall|j: int| 0 <= j < w ==> (#[trigger] entries[j]).0 != key {
        assert(first_at(entries, key, w));
    } else {
        let j = choose|j: int| 0 <= j < w && (#[trigger] entries[j]).0 == key;
        lemma_first_exists(entries, key, j);
    }
}

/// After a key was given a value, the key has that value, and every other
/// key has what it had.
pub proof fn lemma_lookup_inserted(
    entries: Seq<(Seq<char>, ValueView)>,
    key: Seq<char>,
    value: ValueView,
    other: Seq<char>,
)
    ensures
        lookup(inserted(entries, key, value), other) == if other == key {
            Some(value)
        } else {
            lookup(entries, other)
        },
{
    let after = inserted(entries, key, value);
    let place: int = if absent(entries, key) {
        entries.len() as int
    } else {
        let w = choose|w: int| 0 <= w < entries.len() && (#[trigger] entries[w]).0 == key;
        lemma_first_exists(entries, key, w);
        choose|p: int| first_at(entries, key, p)
    };
    assert(after.len() >= entries.len());
    assert(after[place] == (key, value));
    assert forall|j: int| 0 <= j < entries.len() implies (#[trigger] after[j]).0
        == entries[j].0 by {
        if j == place {
            assert(entries[j].0 == key);
        }
    }
    if other == key {
        assert forall|j: int| 0 <= j < place implies (#[trigger] after[j]).0 != key by {
            assert(entries[j].0 != key);
        }
        lemma_first_at_unique(after, key, place);
    } else if absent(entries, other) {
        assert forall|j: int| 0 <= j < after.len() implies (#[trigger] after[j]).0 != other by {
            if j < entries.len() {
                assert(entries[j].0 != other);
            }
        }
    } else {
        let w = choose|w: int| 0 <= w < entries.len() && (#[trigger] entries[w]).0 == other;
        lemma_first_exists(entries, other, w);
        let k = choose|k: int| first_at(entries, other, k);
        assert forall|j: int| 0 <= j < k implies (#[trigger] after[j]).0 != other by {
            assert(entries[j].0 != other);
        }
        assert(after[k].0 == entries[k].0);
        lemma_first_at_unique(after, other, k);
        assert(k != place);
    }
}

} // verus!
