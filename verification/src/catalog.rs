//! The records of the catalog: one per remapping rule, each carrying the
//! context of the group that the rule was found in.

use crate::value::{Node, Value};
use vstd::prelude::*;

verus! {

/// The activation mode of a group: one label, or several.
#[derive(Debug, PartialEq)]
pub enum ModeValue {
    Single(String),
    Multiple(Vec<String>),
}

/// The mathematical value of a [`ModeValue`].
pub enum ModeView {
    Single(Seq<char>),
    Multiple(Seq<Seq<char>>),
}

/// The texts of a list of strings, in order.
pub open spec fn texts(labels: Seq<String>) -> Seq<Seq<char>> {
    Seq::new(labels.len(), |i: int| labels[i]@)
}

/// The labels, with `separator` between each two neighbours.
pub open spec fn joined(labels: Seq<Seq<char>>, separator: Seq<char>) -> Seq<char>
    decreases labels.len(),
{
    if labels.len() == 0 {
        Seq::empty()
    } else if labels.len() == 1 {
        labels[0]
    } else {
        joined(labels.drop_last(), separator) + separator + labels.last()
    }
}

impl ModeView {
    /// The mode as one line of text: a single label as it is, several
    /// labels separated by a comma and a space.
    pub open spec fn rendered(self) -> Seq<char> {
        match self {
            ModeView::Single(label) => label,
            ModeView::Multiple(labels) => joined(labels, ", "@),
        }
    }
}

impl View for ModeValue {
    type V = ModeView;

    open spec fn view(&self) -> ModeView {
        match self {
            ModeValue::Single(label) => ModeView::Single(label@),
            ModeValue::Multiple(labels) => ModeView::Multiple(texts(labels@)),
        }
    }
}

/// A copy of a list of strings.
fn clone_labels(labels: &Vec<String>) -> (r: Vec<String>)
    ensures
        texts(r@) == texts(labels@),
{
    let mut out: Vec<String> = Vec::new();
    let mut i: usize = 0;
    while i < labels.len()
        invariant
            i <= labels.len(),
            out@.len() == i,
            forall|j: int| 0 <= j < i ==> out@[j]@ == labels@[j]@,
        decreases labels.len() - i,
    {
        out.push(labels[i].clone());
        i += 1;
    }
    assert(texts(out@) =~= texts(labels@));
    out
}

impl Clone for ModeValue {
    fn clone(&self) -> (r: Self)
        ensures
            r@ == self@,
    {
        match self {
            ModeValue::Single(label) => ModeValue::Single(label.clone()),
            ModeValue::Multiple(labels) => ModeValue::Multiple(clone_labels(labels)),
        }
    }
}

impl ModeValue {
    /// Renders the mode for display: a single label as it is, several labels
    /// joined by `", "`.
    pub fn to_string(&self) -> (r: String)
        ensures
            r@ == self@.rendered(),
    {
        match self {
            ModeValue::Single(label) => label.clone(),
            ModeValue::Multiple(labels) => {
                let mut out = String::new();
                let mut i: usize = 0;
                while i < labels.len()
                    invariant
                        i <= labels.len(),
                        out@ == joined(texts(labels@).take(i as int), ", "@),
                    decreases labels.len() - i,
                {
                    proof {
                        let upto = texts(labels@).take(i + 1);
                        assert(upto.drop_last() =~= texts(labels@).take(i as int));
                        assert(upto.last() == labels@[i as int]@);
                    }
                    if i > 0 {
                        out.append(", ");
                    } else {
                        assert(out@ + labels@[i as int]@ =~= labels@[i as int]@);
                    }
                    out.append(labels[i].as_str());
                    i += 1;
                }
                assert(texts(labels@).take(i as int) =~= texts(labels@));
                out
            },
        }
    }

    /// Reads a mode from a document node: a string is a single label, a
    /// sequence made of strings only is a list of labels, and nothing else
    /// is a mode.
    pub fn from_value(value: &Value) -> (r: Option<ModeValue>)
        ensures
            mode_view(r) == mode_of(value@),
    {
        match value {
            Value::String(label) => Some(ModeValue::Single(label.clone())),
            Value::Sequence(items) => {
                proof {
                    crate::value::lemma_sequence_view(*items);
                }
                let mut out: Vec<String> = Vec::new();
                let mut i: usize = 0;
                while i < items.len()
                    invariant
                        i <= items.len(),
                        out@.len() == i,
                        value@ == Node::Sequence(crate::value::views(items@)),
                        forall|j: int| 0 <= j < i ==> items@[j]@ == Node::Str(out@[j]@),
                    decreases items.len() - i,
                {
                    match &items[i] {
                        Value::String(label) => {
                            out.push(label.clone());
                        },
                        _ => {
                            assert(!(crate::value::views(items@)[i as int] is Str));
                            return None;
                        },
                    }
                    i += 1;
                }
                proof {
                    let nodes = crate::value::views(items@);
                    assert forall|j: int| 0 <= j < nodes.len() implies (#[trigger] nodes[j]) is Str by {
                        assert(items@[j]@ == Node::Str(out@[j]@));
                    }
                    assert(texts(out@) =~= labels_of(nodes));
                }
                Some(ModeValue::Multiple(out))
            },
            _ => None,
        }
    }
}

/// Every node of the list is a string.
pub open spec fn all_strings(items: Seq<Node>) -> bool {
    forall|i: int| 0 <= i < items.len() ==> (#[trigger] items[i]) is Str
}

/// The texts of a list of string nodes.
pub open spec fn labels_of(items: Seq<Node>) -> Seq<Seq<char>> {
    Seq::new(items.len(), |i: int| items[i]->Str_0)
}

/// The mode that a document node stands for, if it has the shape of one.
pub open spec fn mode_of(value: Node) -> Option<ModeView> {
    match value {
        Node::Str(label) => Some(ModeView::Single(label)),
        Node::Sequence(items) => if all_strings(items) {
            Some(ModeView::Multiple(labels_of(items)))
        } else {
            None
        },
        _ => None,
    }
}

/// The text of an optional string.
pub open spec fn text_view(o: Option<String>) -> Option<Seq<char>> {
    match o {
        Some(s) => Some(s@),
        None => None,
    }
}

/// The tree of an optional node.
pub open spec fn node_view(o: Option<Value>) -> Option<Node> {
    match o {
        Some(v) => Some(v@),
        None => None,
    }
}

/// The value of an optional mode.
pub open spec fn mode_view(o: Option<ModeValue>) -> Option<ModeView> {
    match o {
        Some(m) => Some(m@),
        None => None,
    }
}

/// What a group hands down to every rule inside it.
#[derive(Debug, PartialEq)]
pub struct Context {
    pub name: Option<String>,
    pub mode: Option<ModeValue>,
    pub application: Option<Value>,
    pub window: Option<Value>,
    pub device: Option<Value>,
    pub exact_match: Option<bool>,
}

/// The mathematical value of a [`Context`].
pub struct ContextView {
    pub name: Option<Seq<char>>,
    pub mode: Option<ModeView>,
    pub application: Option<Node>,
    pub window: Option<Node>,
    pub device: Option<Node>,
    pub exact_match: Option<bool>,
}

impl View for Context {
    type V = ContextView;

    open spec fn view(&self) -> ContextView {
        ContextView {
            name: text_view(self.name),
            mode: mode_view(self.mode),
            application: node_view(self.application),
            window: node_view(self.window),
            device: node_view(self.device),
            exact_match: self.exact_match,
        }
    }
}

/// A copy of an optional string.
pub(crate) fn clone_text(o: &Option<String>) -> (r: Option<String>)
    ensures
        text_view(r) == text_view(*o),
{
    match o {
        Some(s) => Some(s.clone()),
        None => None,
    }
}

/// A deep copy of an optional node.
pub(crate) fn clone_node(o: &Option<Value>) -> (r: Option<Value>)
    ensures
        node_view(r) == node_view(*o),
{
    match o {
        Some(v) => Some(v.clone()),
        None => None,
    }
}

/// A copy of an optional mode.
pub(crate) fn clone_mode(o: &Option<ModeValue>) -> (r: Option<ModeValue>)
    ensures
        mode_view(r) == mode_view(*o),
{
    match o {
        Some(m) => Some(m.clone()),
        None => None,
    }
}

impl Clone for Context {
    fn clone(&self) -> (r: Self)
        ensures
            r@ == self@,
    {
        Context {
            name: clone_text(&self.name),
            mode: clone_mode(&self.mode),
            application: clone_node(&self.application),
            window: clone_node(&self.window),
            device: clone_node(&self.device),
            exact_match: self.exact_match,
        }
    }
}

/// One remapping rule as the catalog lists it.
#[derive(Debug, PartialEq)]
pub struct CatalogRecord {
    /// The key or key combination that triggers the rule.
    pub trigger: String,
    /// The annotation that was attached to the rule.
    pub description: Option<String>,
    /// What the rule does, without its annotation.
    pub action: Option<Value>,
    /// The mode of the group that holds the rule.
    pub mode: Option<ModeValue>,
    /// The name of the group that holds the rule.
    pub name: Option<String>,
    /// The application filter of the group.
    pub application: Option<Value>,
    /// The window filter of the group.
    pub window: Option<Value>,
    /// The device filter of the group.
    pub device: Option<Value>,
    /// The exact-match flag of the group.
    pub exact_match: Option<bool>,
}

/// The mathematical value of a [`CatalogRecord`].
pub struct RecordView {
    pub trigger: Seq<char>,
    pub description: Option<Seq<char>>,
    pub action: Option<Node>,
    pub context: ContextView,
}

impl View for CatalogRecord {
    type V = RecordView;

    open spec fn view(&self) -> RecordView {
        RecordView {
            trigger: self.trigger@,
            description: text_view(self.description),
            action: node_view(self.action),
            context: ContextView {
                name: text_view(self.name),
                mode: mode_view(self.mode),
                application: node_view(self.application),
                window: node_view(self.window),
                device: node_view(self.device),
                exact_match: self.exact_match,
            },
        }
    }
}

/// The values of a list of records, in order.
pub open spec fn record_views(records: Seq<CatalogRecord>) -> Seq<RecordView> {
    Seq::new(records.len(), |i: int| records[i]@)
}

/// The catalog: every rule of a document, in the order it was met.
#[derive(Debug, PartialEq)]
pub struct CatalogDocument {
    pub bindings: Vec<CatalogRecord>,
}

impl View for CatalogDocument {
    type V = Seq<RecordView>;

    open spec fn view(&self) -> Seq<RecordView> {
        record_views(self.bindings@)
    }
}

} // verus!
