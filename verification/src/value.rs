//! The structured-document model: a closed tree of scalars, sequences and
//! insertion-ordered mappings, together with its mathematical view.

use vstd::prelude::*;
use vstd::std_specs::cmp::PartialEqSpecImpl;

verus! {

/// A number as a document holds it: an integer of either sign, or a
/// floating-point number kept as its IEEE 754 binary64 bit pattern.
#[derive(Debug)]
pub enum Number {
    PosInt(u64),
    NegInt(i64),
    Float(u64),
}

/// The mathematical value of a [`Number`]: the integer it denotes, whichever
/// variant holds it, or the bit pattern of a floating-point number.
pub enum Num {
    Int(int),
    Float(u64),
}

impl View for Number {
    type V = Num;

    open spec fn view(&self) -> Num {
        match self {
            Number::PosInt(n) => Num::Int(*n as int),
            Number::NegInt(n) => Num::Int(*n as int),
            Number::Float(bits) => Num::Float(*bits),
        }
    }
}

impl Clone for Number {
    fn clone(&self) -> (r: Self)
        ensures
            r == *self,
    {
        match self {
            Number::PosInt(n) => Number::PosInt(*n),
            Number::NegInt(n) => Number::NegInt(*n),
            Number::Float(bits) => Number::Float(*bits),
        }
    }
}

impl PartialEq for Number {
    /// Two numbers are equal when they denote the same integer, in whichever
    /// variant, or hold the same floating-point bit pattern.
    fn eq(&self, other: &Number) -> (r: bool) {
        match (self, other) {
            (Number::PosInt(a), Number::PosInt(b)) => *a == *b,
            (Number::NegInt(a), Number::NegInt(b)) => *a == *b,
            (Number::PosInt(a), Number::NegInt(b)) => *b >= 0 && *a == *b as u64,
            (Number::NegInt(a), Number::PosInt(b)) => *a >= 0 && *a as u64 == *b,
            (Number::Float(a), Number::Float(b)) => *a == *b,
            _ => false,
        }
    }
}

impl PartialEqSpecImpl for Number {
    open spec fn obeys_eq_spec() -> bool {
        true
    }

    open spec fn eq_spec(&self, other: &Number) -> bool {
        self@ == other@
    }
}

/// A node of a structured document.
#[derive(Debug)]
pub enum Value {
    Null,
    Bool(bool),
    Number(Number),
    String(String),
    Sequence(Vec<Value>),
    Mapping(Mapping),
}

/// An insertion-ordered list of key/value pairs.
#[derive(Debug)]
pub struct Mapping {
    pub entries: Vec<(Value, Value)>,
}

/// The mathematical tree that a [`Value`] stands for.
pub enum Node {
    Null,
    Bool(bool),
    Number(Num),
    Str(Seq<char>),
    Sequence(Seq<Node>),
    Mapping(Seq<(Node, Node)>),
}

impl View for Mapping {
    type V = Seq<(Node, Node)>;

    open spec fn view(&self) -> Seq<(Node, Node)>
        decreases self,
    {
        Seq::new(
            self.entries@.len(),
            |i: int|
                if 0 <= i < self.entries@.len() {
                    (self.entries@[i].0@, self.entries@[i].1@)
                } else {
                    (Node::Null, Node::Null)
                },
        )
    }
}

/// The trees that the elements of a sequence stand for, in order.
pub open spec fn sequence_view(items: Vec<Value>) -> Seq<Node>
    decreases items,
{
    Seq::new(
        items@.len(),
        |i: int|
            if 0 <= i < items@.len() {
                items@[i]@
            } else {
                Node::Null
            },
    )
}

impl View for Value {
    type V = Node;

    open spec fn view(&self) -> Node
        decreases self,
    {
        match self {
            Value::Null => Node::Null,
            Value::Bool(b) => Node::Bool(*b),
            Value::Number(n) => Node::Number(n@),
            Value::String(s) => Node::Str(s@),
            Value::Sequence(items) => Node::Sequence(sequence_view(*items)),
            Value::Mapping(m) => Node::Mapping(m@),
        }
    }
}

/// The views of a vector of nodes, element by element.
pub open spec fn views(items: Seq<Value>) -> Seq<Node> {
    Seq::new(items.len(), |i: int| items[i]@)
}

/// The views of a vector of key/value pairs, pair by pair.
pub open spec fn pair_views(entries: Seq<(Value, Value)>) -> Seq<(Node, Node)> {
    Seq::new(entries.len(), |i: int| (entries[i].0@, entries[i].1@))
}

/// The tree of a sequence node holds the trees of its elements, in order.
pub proof fn lemma_sequence_view(items: Vec<Value>)
    ensures
        Value::Sequence(items)@ == Node::Sequence(views(items@)),
{
    assert(sequence_view(items) =~= views(items@));
}

/// The tree of a mapping node holds the trees of its keys and values, pair
/// by pair.
pub proof fn lemma_mapping_view(m: Mapping)
    ensures
        m@ == pair_views(m.entries@),
        Value::Mapping(m)@ == Node::Mapping(pair_views(m.entries@)),
{
    assert(m@ =~= pair_views(m.entries@));
}

impl Clone for Value {
    /// A deep copy: the result stands for the same tree.
    fn clone(&self) -> (r: Self)
        ensures
            r@ == self@,
        decreases self,
    {
        match self {
            Value::Null => Value::Null,
            Value::Bool(b) => Value::Bool(*b),
            Value::Number(n) => Value::Number(n.clone()),
            Value::String(s) => Value::String(s.clone()),
            Value::Sequence(items) => Value::Sequence(clone_sequence(items)),
            Value::Mapping(m) => Value::Mapping(m.clone()),
        }
    }
}

/// A deep copy of the elements of a sequence, in order.
fn clone_sequence(items: &Vec<Value>) -> (r: Vec<Value>)
    ensures
        sequence_view(r) == sequence_view(*items),
    decreases items,
{
    let mut out: Vec<Value> = Vec::new();
    let mut i: usize = 0;
    while i < items.len()
        invariant
            i <= items.len(),
            out@.len() == i,
            forall|j: int| 0 <= j < i ==> out@[j]@ == items@[j]@,
        decreases items.len() - i,
    {
        out.push(items[i].clone());
        i += 1;
    }
    assert(sequence_view(out) =~= sequence_view(*items));
    out
}

impl Clone for Mapping {
    /// A deep copy: the result holds the same pairs in the same order.
    fn clone(&self) -> (r: Self)
        ensures
            r@ == self@,
        decreases self,
    {
        let mut out: Vec<(Value, Value)> = Vec::new();
        let mut i: usize = 0;
        while i < self.entries.len()
            invariant
                i <= self.entries.len(),
                out@.len() == i,
                forall|j: int|
                    0 <= j < i ==> out@[j].0@ == self.entries@[j].0@ && out@[j].1@
                        == self.entries@[j].1@,
            decreases self.entries.len() - i,
        {
            let key = self.entries[i].0.clone();
            let value = self.entries[i].1.clone();
            out.push((key, value));
            i += 1;
        }
        let r = Mapping { entries: out };
        proof {
            lemma_mapping_view(r);
            lemma_mapping_view(*self);
            assert(pair_views(r.entries@) =~= pair_views(self.entries@));
        }
        r
    }
}

/// The value paired with the first occurrence of `key`, if there is one.
pub open spec fn lookup(entries: Seq<(Node, Node)>, key: Node) -> Option<Node>
    decreases entries.len(),
{
    if entries.len() == 0 {
        None
    } else {
        match lookup(entries.drop_last(), key) {
            Some(found) => Some(found),
            None => if entries.last().0 == key {
                Some(entries.last().1)
            } else {
                None
            },
        }
    }
}

/// The pairs whose key is not `key`, in the order they had.
pub open spec fn without_key(entries: Seq<(Node, Node)>, key: Node) -> Seq<(Node, Node)>
    decreases entries.len(),
{
    if entries.len() == 0 {
        Seq::empty()
    } else if entries.last().0 == key {
        without_key(entries.drop_last(), key)
    } else {
        without_key(entries.drop_last(), key).push(entries.last())
    }
}

/// No key occurs twice.
pub open spec fn distinct_keys(entries: Seq<(Node, Node)>) -> bool {
    forall|i: int, j: int| 0 <= i < j < entries.len() ==> entries[i].0 != entries[j].0
}

/// Every node of the list is well formed.
pub open spec fn all_well_formed(items: Seq<Node>) -> bool
    decreases items,
{
    forall|i: int| 0 <= i < items.len() ==> (#[trigger] items[i]).well_formed()
}

impl Node {
    /// Every mapping in the tree, at any depth, has distinct keys.
    pub open spec fn well_formed(self) -> bool
        decreases self,
    {
        match self {
            Node::Sequence(items) => all_well_formed(items),
            Node::Mapping(entries) => {
                &&& distinct_keys(entries)
                &&& forall|i: int|
                    0 <= i < entries.len() ==> (#[trigger] entries[i]).0.well_formed()
                        && entries[i].1.well_formed()
            },
            _ => true,
        }
    }
}

/// A lookup over a prefix that found something finds the same in the whole.
pub proof fn lemma_lookup_prefix(entries: Seq<(Node, Node)>, key: Node, n: int)
    requires
        0 <= n <= entries.len(),
        lookup(entries.take(n), key) is Some,
    ensures
        lookup(entries, key) == lookup(entries.take(n), key),
    decreases entries.len() - n,
{
    if n < entries.len() {
        assert(entries.take(n + 1).drop_last() =~= entries.take(n));
        lemma_lookup_prefix(entries, key, n + 1);
    } else {
        assert(entries.take(n) =~= entries);
    }
}

/// A lookup finds nothing exactly when no pair has the key.
pub proof fn lemma_lookup_none(entries: Seq<(Node, Node)>, key: Node)
    ensures
        lookup(entries, key) is None <==> forall|i: int|
            0 <= i < entries.len() ==> (#[trigger] entries[i]).0 != key,
    decreases entries.len(),
{
    if entries.len() > 0 {
        let init = entries.drop_last();
        lemma_lookup_none(init, key);
        if lookup(entries, key) is None {
            assert forall|i: int| 0 <= i < entries.len() implies (#[trigger] entries[i]).0
                != key by {
                if i < init.len() {
                    assert(init[i] == entries[i]);
                }
            }
        } else if lookup(init, key) is Some {
            let i = choose|i: int| 0 <= i < init.len() && (#[trigger] init[i]).0 == key;
            assert(entries[i] == init[i]);
        }
    }
}

/// Removing a key twice removes no more than removing it once.
pub proof fn lemma_without_key_twice(entries: Seq<(Node, Node)>, key: Node)
    ensures
        without_key(without_key(entries, key), key) == without_key(entries, key),
        lookup(without_key(entries, key), key) is None,
    decreases entries.len(),
{
    if entries.len() > 0 {
        lemma_without_key_twice(entries.drop_last(), key);
        if entries.last().0 != key {
            let kept = without_key(entries.drop_last(), key);
            assert(kept.push(entries.last()).drop_last() =~= kept);
        }
    }
}

/// After a key has been removed, no pair has it.
pub proof fn lemma_without_key_lacks(entries: Seq<(Node, Node)>, key: Node)
    ensures
        forall|i: int|
            0 <= i < without_key(entries, key).len() ==> (#[trigger] without_key(
                entries,
                key,
            )[i]).0 != key,
{
    lemma_without_key_twice(entries, key);
    lemma_lookup_none(without_key(entries, key), key);
}

/// Every key of the first list is a key of the second.
pub open spec fn keys_among(part: Seq<(Node, Node)>, whole: Seq<(Node, Node)>) -> bool {
    forall|i: int|
        0 <= i < part.len() ==> exists|j: int|
            0 <= j < whole.len() && (#[trigger] whole[j]).0 == (#[trigger] part[i]).0
}

/// Both members of every pair are well formed.
pub open spec fn members_well_formed(entries: Seq<(Node, Node)>) -> bool {
    forall|i: int|
        0 <= i < entries.len() ==> (#[trigger] entries[i]).0.well_formed()
            && entries[i].1.well_formed()
}

/// Removing a key keeps what makes a mapping well formed: the keys that
/// stay are distinct keys of the mapping as it was, and the members are untouched.
pub proof fn lemma_without_key_keeps_form(entries: Seq<(Node, Node)>, key: Node)
    requires
        distinct_keys(entries),
        members_well_formed(entries),
    ensures
        distinct_keys(without_key(entries, key)),
        members_well_formed(without_key(entries, key)),
        keys_among(without_key(entries, key), entries),
    decreases entries.len(),
{
    if entries.len() > 0 {
        let init = entries.drop_last();
        let last = entries.len() - 1;
        assert forall|i: int| 0 <= i < init.len() implies init[i] == entries[i] by {}
        lemma_without_key_keeps_form(init, key);
        let kept = without_key(init, key);
        let out = without_key(entries, key);
        assert forall|i: int| 0 <= i < out.len() implies exists|j: int|
            0 <= j < entries.len() && (#[trigger] entries[j]).0 == (#[trigger] out[i]).0 by {
            if i < kept.len() {
                assert(out[i] == kept[i]);
                let j = choose|j: int| 0 <= j < init.len() && (#[trigger] init[j]).0 == kept[i].0;
                assert(entries[j] == init[j]);
            } else {
                assert(out[i] == entries[last]);
            }
        }
        assert forall|a: int, b: int| 0 <= a < b < out.len() implies out[a].0 != out[b].0 by {
            if b == kept.len() {
                assert(out[a] == kept[a]);
                let j = choose|j: int| 0 <= j < init.len() && (#[trigger] init[j]).0 == kept[a].0;
                assert(entries[j] == init[j]);
                assert(out[b] == entries[last]);
            } else {
                assert(out[a] == kept[a] && out[b] == kept[b]);
            }
        }
        assert forall|i: int| 0 <= i < out.len() implies (#[trigger] out[i]).0.well_formed()
            && out[i].1.well_formed() by {
            if i < kept.len() {
                assert(out[i] == kept[i]);
            } else {
                assert(out[i] == entries[last]);
            }
        }
    }
}

impl Mapping {
    /// An empty mapping.
    pub fn new() -> (r: Mapping)
        ensures
            r@ == Seq::<(Node, Node)>::empty(),
    {
        let r = Mapping { entries: Vec::new() };
        assert(r@ =~= Seq::<(Node, Node)>::empty());
        r
    }

    /// The number of pairs.
    pub fn len(&self) -> (n: usize)
        ensures
            n == self@.len(),
    {
        self.entries.len()
    }

    /// The value paired with the first occurrence of `key`.
    pub fn get(&self, key: &Value) -> (r: Option<&Value>)
        ensures
            match r {
                Some(v) => lookup(self@, key@) == Some(v@),
                None => lookup(self@, key@) is None,
            },
    {
        let mut i: usize = 0;
        while i < self.entries.len()
            invariant
                i <= self.entries.len(),
                lookup(self@.take(i as int), key@) is None,
            decreases self.entries.len() - i,
        {
            proof {
                assert(self@.take(i + 1).drop_last() =~= self@.take(i as int));
            }
            if self.entries[i].0 == *key {
                proof {
                    lemma_lookup_prefix(self@, key@, i + 1);
                }
                return Some(&self.entries[i].1);
            }
            i += 1;
        }
        assert(self@.take(i as int) =~= self@);
        None
    }

    /// Whether some pair has the key `key`.
    pub fn contains_key(&self, key: &Value) -> (b: bool)
        ensures
            b == lookup(self@, key@).is_some(),
            b == exists|i: int| 0 <= i < self@.len() && (#[trigger] self@[i]).0 == key@,
    {
        proof {
            lemma_lookup_none(self@, key@);
        }
        self.get(key).is_some()
    }

    /// Removes every pair whose key is `key`, keeping the others in order,
    /// and hands out the value that was paired with its first occurrence.
    pub fn remove(&mut self, key: &Value) -> (r: Option<Value>)
        ensures
            final(self)@ == without_key(old(self)@, key@),
            match r {
                Some(v) => lookup(old(self)@, key@) == Some(v@),
                None => lookup(old(self)@, key@) is None,
            },
            Node::Mapping(old(self)@).well_formed() ==> Node::Mapping(final(self)@).well_formed(),
    {
        let ghost before = self@;
        proof {
            if Node::Mapping(before).well_formed() {
                lemma_without_key_keeps_form(before, key@);
            }
        }
        let ghost mut seen: int = 0;
        let mut found: Option<Value> = None;
        let mut i: usize = 0;
        while i < self.entries.len()
            invariant
                0 <= seen <= before.len(),
                i <= self.entries.len(),
                i == without_key(before.take(seen), key@).len(),
                self@ =~= without_key(before.take(seen), key@) + before.skip(seen),
                match found {
                    Some(v) => lookup(before.take(seen), key@) == Some(v@),
                    None => lookup(before.take(seen), key@) is None,
                },
            decreases before.len() - seen,
        {
            proof {
                assert(before.take(seen + 1).drop_last() =~= before.take(seen));
                assert(self@[i as int] == before.skip(seen)[0]);
            }
            if self.entries[i].0 == *key {
                let ghost prior = self@;
                let removed = self.entries.remove(i);
                proof {
                    assert(self@ =~= prior.remove(i as int));
                }
                if found.is_none() {
                    found = Some(removed.1);
                }
            } else {
                i += 1;
            }
            proof {
                seen = seen + 1;
                assert(before.skip(seen - 1).skip(1) =~= before.skip(seen));
            }
        }
        proof {
            assert(before.skip(seen).len() == 0);
            assert(before.take(seen) =~= before);
        }
        found
    }
}

impl PartialEq for Value {
    /// Two nodes are equal when they stand for the same tree.
    fn eq(&self, other: &Value) -> (r: bool)
        decreases self,
    {
        match (self, other) {
            (Value::Null, Value::Null) => true,
            (Value::Bool(a), Value::Bool(b)) => *a == *b,
            (Value::Number(a), Value::Number(b)) => *a == *b,
            (Value::String(a), Value::String(b)) => *a == *b,
            (Value::Sequence(a), Value::Sequence(b)) => eq_sequence(a, b),
            (Value::Mapping(a), Value::Mapping(b)) => *a == *b,
            _ => false,
        }
    }
}

impl PartialEqSpecImpl for Value {
    open spec fn obeys_eq_spec() -> bool {
        true
    }

    open spec fn eq_spec(&self, other: &Value) -> bool {
        self@ == other@
    }
}

/// Whether two sequences stand for the same trees in the same order.
fn eq_sequence(a: &Vec<Value>, b: &Vec<Value>) -> (r: bool)
    ensures
        r == (sequence_view(*a) == sequence_view(*b)),
    decreases a,
{
    if a.len() != b.len() {
        assert(sequence_view(*a).len() != sequence_view(*b).len());
        return false;
    }
    let mut i: usize = 0;
    while i < a.len()
        invariant
            i <= a.len(),
            a.len() == b.len(),
            forall|j: int| 0 <= j < i ==> a@[j]@ == b@[j]@,
        decreases a.len() - i,
    {
        if !(a[i] == b[i]) {
            assert(sequence_view(*a)[i as int] != sequence_view(*b)[i as int]);
            return false;
        }
        i += 1;
    }
    assert(sequence_view(*a) =~= sequence_view(*b));
    true
}

impl PartialEq for Mapping {
    /// Two mappings are equal when they hold the same pairs in the same order.
    fn eq(&self, other: &Mapping) -> (r: bool)
        decreases self,
    {
        if self.entries.len() != other.entries.len() {
            assert(self@.len() != other@.len());
            return false;
        }
        let mut i: usize = 0;
        while i < self.entries.len()
            invariant
                i <= self.entries.len(),
                self.entries.len() == other.entries.len(),
                forall|j: int|
                    0 <= j < i ==> self.entries@[j].0@ == other.entries@[j].0@
                        && self.entries@[j].1@ == other.entries@[j].1@,
            decreases self.entries.len() - i,
        {
            if !(self.entries[i].0 == other.entries[i].0) || !(self.entries[i].1
                == other.entries[i].1) {
                assert(self@[i as int] != other@[i as int]);
                return false;
            }
            i += 1;
        }
        assert(self@ =~= other@);
        true
    }
}

impl PartialEqSpecImpl for Mapping {
    open spec fn obeys_eq_spec() -> bool {
        true
    }

    open spec fn eq_spec(&self, other: &Mapping) -> bool {
        self@ == other@
    }
}

} // verus!
