//! The value tree that parsing produces, and its mathematical model.

use vstd::prelude::*;

verus! {

/// The mathematical model of a value: text, an ordered sequence of values,
/// or a finite mapping from key text to values.
pub enum Tree {
    String(Seq<char>),
    Array(Seq<Tree>),
    Object(Map<Seq<char>, Tree>),
}

/// A parsed value.
///
/// Primitive tokens are kept as their exact text: nothing is converted to a
/// number or a boolean, and quote characters stay in place.
#[derive(Debug)]
pub enum Value {
    String(String),
    Array(Vec<Value>),
    Object(Fields),
}

/// The fields of an object: key text mapped to values, each key held once.
#[derive(Debug)]
pub struct Fields {
    entries: Vec<(String, Value)>,
}

/// The model of a value.
pub open spec fn tree_of(v: Value) -> Tree
    decreases v,
{
    match v {
        Value::String(text) => Tree::String(text@),
        Value::Array(items) => Tree::Array(trees_of(items@)),
        Value::Object(fields) => Tree::Object(fields@),
    }
}

/// The models of a sequence of values, in order.
pub open spec fn trees_of(items: Seq<Value>) -> Seq<Tree>
    decreases items,
{
    if items.len() == 0 {
        Seq::empty()
    } else {
        trees_of(items.drop_last()).push(tree_of(items.last()))
    }
}

/// The mapping that a list of entries stands for; a later entry replaces an
/// earlier one with the same key.
spec fn map_of(entries: Seq<(String, Value)>) -> Map<Seq<char>, Tree>
    decreases entries,
{
    if entries.len() == 0 {
        Map::empty()
    } else {
        map_of(entries.drop_last()).insert(entries.last().0@, tree_of(entries.last().1))
    }
}

impl View for Fields {
    type V = Map<Seq<char>, Tree>;

    closed spec fn view(&self) -> Map<Seq<char>, Tree>
        decreases self,
    {
        map_of(self.entries@)
    }
}

impl View for Value {
    type V = Tree;

    open spec fn view(&self) -> Tree {
        tree_of(*self)
    }
}

/// No two entries hold the same key text.
spec fn distinct_keys(entries: Seq<(String, Value)>) -> bool {
    forall|i: int, j: int| 0 <= i < j < entries.len() ==> entries[i].0@ != entries[j].0@
}

/// Some entry holds the key text `k`.
spec fn has_key(entries: Seq<(String, Value)>, k: Seq<char>) -> bool {
    exists|i: int| 0 <= i < entries.len() && #[trigger] entries[i].0@ == k
}

/// `trees_of` works item by item.
pub proof fn lemma_trees_of(items: Seq<Value>)
    ensures
        trees_of(items).len() == items.len(),
        forall|i: int| 0 <= i < items.len() ==> #[trigger] trees_of(items)[i] == tree_of(items[i]),
    decreases items.len(),
{
    if items.len() > 0 {
        lemma_trees_of(items.drop_last());
    }
}

/// Appending a value appends its model.
pub proof fn lemma_trees_of_push(items: Seq<Value>, v: Value)
    ensures
        trees_of(items.push(v)) == trees_of(items).push(tree_of(v)),
{
    assert(items.push(v).drop_last() =~= items);
}

proof fn lemma_map_of_domain(entries: Seq<(String, Value)>)
    ensures
        map_of(entries).dom().finite(),
        forall|k: Seq<char>| map_of(entries).contains_key(k) <==> has_key(entries, k),
    decreases entries.len(),
{
    if entries.len() > 0 {
        let front = entries.drop_last();
        lemma_map_of_domain(front);
        assert forall|k: Seq<char>| map_of(entries).contains_key(k) <==> has_key(entries, k) by {
            if has_key(entries, k) {
                let i = choose|i: int| 0 <= i < entries.len() && #[trigger] entries[i].0@ == k;
                if i < entries.len() - 1 {
                    assert(front[i].0@ == k);
                }
            }
            if has_key(front, k) {
                let i = choose|i: int| 0 <= i < front.len() && #[trigger] front[i].0@ == k;
                assert(entries[i].0@ == k);
            }
            if entries.last().0@ == k {
                assert(entries[entries.len() - 1].0@ == k);
            }
        }
    }
}

proof fn lemma_map_of_entry(entries: Seq<(String, Value)>, i: int)
    requires
        distinct_keys(entries),
        0 <= i < entries.len(),
    ensures
        map_of(entries).contains_key(entries[i].0@),
        map_of(entries)[entries[i].0@] == tree_of(entries[i].1),
    decreases entries.len(),
{
    if i < entries.len() - 1 {
        lemma_map_of_entry(entries.drop_last(), i);
    }
}

proof fn lemma_map_of_len(entries: Seq<(String, Value)>)
    requires
        distinct_keys(entries),
    ensures
        map_of(entries).dom().finite(),
        map_of(entries).len() == entries.len(),
    decreases entries.len(),
{
    lemma_map_of_domain(entries);
    if entries.len() > 0 {
        let front = entries.drop_last();
        lemma_map_of_len(front);
        lemma_map_of_domain(front);
        if has_key(front, entries.last().0@) {
            let i = choose|i: int| 0 <= i < front.len() && #[trigger] front[i].0@ == entries.last().0@;
            assert(entries[i].0@ == entries[entries.len() - 1].0@);
        }
    }
}

proof fn lemma_map_of_push(entries: Seq<(String, Value)>, key: String, value: Value)
    requires
        distinct_keys(entries),
        !has_key(entries, key@),
    ensures
        distinct_keys(entries.push((key, value))),
        map_of(entries.push((key, value))) == map_of(entries).insert(key@, tree_of(value)),
{
    let longer = entries.push((key, value));
    assert(longer.drop_last() =~= entries);
    assert forall|i: int, j: int| 0 <= i < j < longer.len() implies longer[i].0@ != longer[j].0@ by {
        if j == entries.len() {
            assert(entries[i].0@ != key@);
        }
    }
}

proof fn lemma_map_of_update(entries: Seq<(String, Value)>, i: int, key: String, value: Value)
    requires
        distinct_keys(entries),
        0 <= i < entries.len(),
        entries[i].0@ == key@,
    ensures
        distinct_keys(entries.update(i, (key, value))),
        map_of(entries.update(i, (key, value))) == map_of(entries).insert(key@, tree_of(value)),
    decreases entries.len(),
{
    let changed = entries.update(i, (key, value));
    assert forall|a: int, b: int| 0 <= a < b < changed.len() implies changed[a].0@ != changed[b].0@ by {
        assert(entries[a].0@ != entries[b].0@);
    }
    if i == entries.len() - 1 {
        assert(changed.drop_last() =~= entries.drop_last());
        assert(map_of(changed) =~= map_of(entries).insert(key@, tree_of(value)));
    } else {
        let front = entries.drop_last();
        lemma_map_of_update(front, i, key, value);
        assert(changed.drop_last() =~= front.update(i, (key, value)));
        assert(entries[i].0@ != entries[entries.len() - 1].0@);
        assert(map_of(changed) =~= map_of(entries).insert(key@, tree_of(value)));
    }
}

/// The index of the entry that holds `key`, if there is one.
fn position(entries: &Vec<(String, Value)>, key: &String) -> (found: Option<usize>)
    ensures
        match found {
            Some(i) => i < entries.len() && entries[i as int].0@ == key@,
            None => !has_key(entries@, key@),
        },
{
    let mut i: usize = 0;
    while i < entries.len()
        invariant
            i <= entries.len(),
            forall|j: int| 0 <= j < i ==> entries[j].0@ != key@,
        decreases entries.len() - i,
    {
        if entries[i].0 == *key {
            return Some(i);
        }
        i += 1;
    }
    None
}

impl Fields {
    #[verifier::type_invariant]
    spec fn well_formed(self) -> bool {
        distinct_keys(self.entries@)
    }

    /// An object with no fields.
    pub fn new() -> (fields: Fields)
        ensures
            fields@ == Map::<Seq<char>, Tree>::empty(),
    {
        Fields { entries: Vec::new() }
    }

    /// Maps `key` to `value`. A value already held under `key` is replaced.
    pub fn insert(&mut self, key: String, value: Value)
        ensures
            final(self)@ == old(self)@.insert(key@, value@),
    {
        proof {
            use_type_invariant(&*self);
        }
        let mut entries: Vec<(String, Value)> = Vec::new();
        std::mem::swap(&mut entries, &mut self.entries);
        match position(&entries, &key) {
            Some(i) => {
                proof {
                    lemma_map_of_update(entries@, i as int, key, value);
                }
                entries.set(i, (key, value));
            },
            None => {
                proof {
                    lemma_map_of_push(entries@, key, value);
                }
                entries.push((key, value));
            },
        }
        self.entries = entries;
    }

    /// The value held under `key`, if there is one.
    pub fn get(&self, key: &String) -> (found: Option<&Value>)
        ensures
            match found {
                Some(value) => self@.contains_key(key@) && value@ == self@[key@],
                None => !self@.contains_key(key@),
            },
    {
        proof {
            use_type_invariant(self);
            lemma_map_of_domain(self.entries@);
        }
        match position(&self.entries, key) {
            Some(i) => {
                proof {
                    lemma_map_of_entry(self.entries@, i as int);
                }
                Some(&self.entries[i].1)
            },
            None => None,
        }
    }

    /// The number of fields.
    pub fn len(&self) -> (n: usize)
        ensures
            n == self@.len(),
            self@.dom().finite(),
    {
        proof {
            use_type_invariant(self);
            lemma_map_of_len(self.entries@);
        }
        self.entries.len()
    }

    /// Whether every field of `self` is a field of `other` with an equal value.
    fn within(&self, other: &Fields) -> (r: bool)
        ensures
            r == self@.submap_of(other@),
        decreases self, 0int,
    {
        proof {
            use_type_invariant(self);
            lemma_map_of_domain(self.entries@);
        }
        let mut i: usize = 0;
        while i < self.entries.len()
            invariant
                i <= self.entries.len(),
                distinct_keys(self.entries@),
                forall|j: int|
                    0 <= j < i ==> other@.contains_key(#[trigger] self.entries[j].0@)
                        && other@[self.entries[j].0@] == tree_of(self.entries[j].1),
            decreases self.entries.len() - i,
        {
            proof {
                lemma_map_of_entry(self.entries@, i as int);
            }
            match other.get(&self.entries[i].0) {
                Some(theirs) => {
                    if !self.entries[i].1.same(theirs) {
                        return false;
                    }
                },
                None => {
                    return false;
                },
            }
            i += 1;
        }
        proof {
            lemma_map_of_domain(self.entries@);
            assert forall|k: Seq<char>| #[trigger] self@.dom().contains(k) implies other@.dom().contains(k)
                && self@[k] == other@[k] by {
                assert(map_of(self.entries@).contains_key(k));
                assert(has_key(self.entries@, k));
                let j = choose|j: int| 0 <= j < self.entries@.len() && #[trigger] self.entries@[j].0@ == k;
                lemma_map_of_entry(self.entries@, j);
            }
        }
        true
    }

    /// Whether two objects hold the same keys with equal values.
    fn same(&self, other: &Fields) -> (r: bool)
        ensures
            r == (self@ == other@),
        decreases self, 1int,
    {
        let r = self.len() == other.len() && self.within(other);
        proof {
            if r {
                vstd::set_lib::lemma_subset_equality(self@.dom(), other@.dom());
                assert(self@ =~= other@);
            }
        }
        r
    }
}

impl Value {
    /// Whether two values have the same model.
    fn same(&self, other: &Value) -> (r: bool)
        ensures
            r == (self@ == other@),
        decreases self, 0int,
    {
        match self {
            Value::String(text) => match other {
                Value::String(theirs) => *text == *theirs,
                _ => false,
            },
            Value::Array(items) => match other {
                Value::Array(theirs) => {
                    proof {
                        lemma_trees_of(items@);
                        lemma_trees_of(theirs@);
                    }
                    if items.len() != theirs.len() {
                        return false;
                    }
                    let mut i: usize = 0;
                    while i < items.len()
                        invariant
                            i <= items.len(),
                            items.len() == theirs.len(),
                            *self == Value::Array(*items),
                            *other == Value::Array(*theirs),
                            forall|j: int| 0 <= j < i ==> tree_of(items[j]) == tree_of(theirs[j]),
                        decreases items.len() - i,
                    {
                        proof {
                            assert(decreases_to!(*self => self->Array_0));
                            assert(decreases_to!(self->Array_0 => items@));
                            assert(decreases_to!(items@ => items@[i as int]));
                        }
                        if !items[i].same(&theirs[i]) {
                            proof {
                                lemma_trees_of(items@);
                                lemma_trees_of(theirs@);
                                assert(trees_of(items@)[i as int] != trees_of(theirs@)[i as int]);
                            }
                            return false;
                        }
                        i += 1;
                    }
                    assert(trees_of(items@) =~= trees_of(theirs@));
                    true
                },
                _ => false,
            },
            Value::Object(fields) => match other {
                Value::Object(theirs) => fields.same(theirs),
                _ => false,
            },
        }
    }
}

impl PartialEq for Value {
    /// Values are equal when their models are: arrays item by item in
    /// order, objects key by key whatever the order of insertion.
    fn eq(&self, other: &Value) -> (r: bool) {
        self.same(other)
    }
}

impl vstd::std_specs::cmp::PartialEqSpecImpl for Value {
    open spec fn obeys_eq_spec() -> bool {
        true
    }

    open spec fn eq_spec(&self, other: &Value) -> bool {
        self@ == other@
    }
}

impl PartialEq for Fields {
    /// Two objects are equal when they hold the same keys with equal values.
    fn eq(&self, other: &Fields) -> (r: bool) {
        self.same(other)
    }
}

impl vstd::std_specs::cmp::PartialEqSpecImpl for Fields {
    open spec fn obeys_eq_spec() -> bool {
        true
    }

    open spec fn eq_spec(&self, other: &Fields) -> bool {
        self@ == other@
    }
}

} // verus!
