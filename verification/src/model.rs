//! What splitting a document means, stated over the mathematical trees.
//!
//! A document is split in three levels. Its top-level pairs are walked in
//! order; the values under `keymap` and `modmap` are lists of groups; each
//! group that is a mapping hands its context down to the rules under its
//! `remap` key. Every rule with a string key loses its annotation in the
//! clean output and gives one record to the catalog.

use crate::catalog::{mode_of, ContextView, ModeView, RecordView};
use crate::value::{lookup, without_key, Node};
use vstd::prelude::*;

verus! {

/// The key under which a rule's action holds its annotation.
pub open spec fn description_key() -> Node {
    Node::Str("description"@)
}

/// The key under which a group holds its rules.
pub open spec fn remap_key() -> Node {
    Node::Str("remap"@)
}

/// Whether a top-level key names a list of groups.
pub open spec fn is_section_key(key: Node) -> bool {
    key == Node::Str("keymap"@) || key == Node::Str("modmap"@)
}

/// The annotation of an action: the text under its `description` key, if the
/// action is a mapping and that value is a string.
pub open spec fn description_of(action: Node) -> Option<Seq<char>> {
    match action {
        Node::Mapping(entries) => match lookup(entries, description_key()) {
            Some(Node::Str(text)) => Some(text),
            _ => None,
        },
        _ => None,
    }
}

/// An action without its `description` key; a node that is no mapping is
/// left as it is.
pub open spec fn clean_action(action: Node) -> Node {
    match action {
        Node::Mapping(entries) => Node::Mapping(without_key(entries, description_key())),
        _ => action,
    }
}

/// A node after its annotation has been taken out: the `description` key
/// goes only where it held a string.
pub open spec fn extracted(node: Node) -> Node {
    if description_of(node) is Some {
        clean_action(node)
    } else {
        node
    }
}

/// The text of a node that is a string.
pub open spec fn string_of(found: Option<Node>) -> Option<Seq<char>> {
    match found {
        Some(Node::Str(text)) => Some(text),
        _ => None,
    }
}

/// The flag of a node that is a boolean.
pub open spec fn bool_of(found: Option<Node>) -> Option<bool> {
    match found {
        Some(Node::Bool(flag)) => Some(flag),
        _ => None,
    }
}

/// The mode of a node that has the shape of one.
pub open spec fn mode_of_found(found: Option<Node>) -> Option<ModeView> {
    match found {
        Some(node) => mode_of(node),
        None => None,
    }
}

/// The context that a group hands down to its rules. A field of an
/// unexpected shape counts as absent.
pub open spec fn context_of(group: Seq<(Node, Node)>) -> ContextView {
    ContextView {
        name: string_of(lookup(group, Node::Str("name"@))),
        mode: mode_of_found(lookup(group, Node::Str("mode"@))),
        application: lookup(group, Node::Str("application"@)),
        window: lookup(group, Node::Str("window"@)),
        device: lookup(group, Node::Str("device"@)),
        exact_match: bool_of(lookup(group, Node::Str("exact_match"@))),
    }
}

/// The record of one rule.
pub open spec fn record_of(trigger: Seq<char>, action: Node, context: ContextView) -> RecordView {
    RecordView {
        trigger,
        description: description_of(action),
        action: Some(clean_action(action)),
        context,
    }
}

/// The rules of a remap mapping, cleaned: pairs with a string key, each with
/// its action stripped of the annotation, in the order they had.
pub open spec fn clean_rules(rules: Seq<(Node, Node)>) -> Seq<(Node, Node)>
    decreases rules.len(),
{
    if rules.len() == 0 {
        Seq::empty()
    } else if rules.last().0 is Str {
        clean_rules(rules.drop_last()).push((rules.last().0, clean_action(rules.last().1)))
    } else {
        clean_rules(rules.drop_last())
    }
}

/// One record for each pair with a string key, in the order they had.
pub open spec fn rule_records(rules: Seq<(Node, Node)>, context: ContextView) -> Seq<RecordView>
    decreases rules.len(),
{
    if rules.len() == 0 {
        Seq::empty()
    } else if rules.last().0 is Str {
        rule_records(rules.drop_last(), context).push(
            record_of(rules.last().0->Str_0, rules.last().1, context),
        )
    } else {
        rule_records(rules.drop_last(), context)
    }
}

/// The clean form of the value under a `remap` key: always a mapping, empty
/// where the value was none.
pub open spec fn clean_remap(remap: Node) -> Node {
    match remap {
        Node::Mapping(rules) => Node::Mapping(clean_rules(rules)),
        _ => Node::Mapping(Seq::empty()),
    }
}

/// The records of the value under a `remap` key.
pub open spec fn remap_records(remap: Node, context: ContextView) -> Seq<RecordView> {
    match remap {
        Node::Mapping(rules) => rule_records(rules, context),
        _ => Seq::empty(),
    }
}

/// One pair of a group, cleaned: the value under `remap` is replaced by its
/// clean form, any other pair is kept.
pub open spec fn clean_field(field: (Node, Node)) -> (Node, Node) {
    if field.0 == remap_key() {
        (field.0, clean_remap(field.1))
    } else {
        field
    }
}

/// The pairs of a group, cleaned one by one.
pub open spec fn clean_fields(fields: Seq<(Node, Node)>) -> Seq<(Node, Node)> {
    fields.map_values(|field: (Node, Node)| clean_field(field))
}

/// The records of the pairs of a group: those of each value under `remap`,
/// in the order of the pairs.
pub open spec fn field_records(fields: Seq<(Node, Node)>, context: ContextView) -> Seq<
    RecordView,
>
    decreases fields.len(),
{
    if fields.len() == 0 {
        Seq::empty()
    } else if fields.last().0 == remap_key() {
        field_records(fields.drop_last(), context) + remap_records(fields.last().1, context)
    } else {
        field_records(fields.drop_last(), context)
    }
}

/// The records of one group, under the context that the group defines.
pub open spec fn records_of_group(group: Seq<(Node, Node)>) -> Seq<RecordView> {
    field_records(group, context_of(group))
}

/// The groups of a list, cleaned: entries that are mappings, in the order
/// they had; any other entry is dropped.
pub open spec fn clean_groups(groups: Seq<Node>) -> Seq<Node>
    decreases groups.len(),
{
    if groups.len() == 0 {
        Seq::empty()
    } else {
        match groups.last() {
            Node::Mapping(fields) => clean_groups(groups.drop_last()).push(
                Node::Mapping(clean_fields(fields)),
            ),
            _ => clean_groups(groups.drop_last()),
        }
    }
}

/// The records of a list of groups, group after group.
pub open spec fn group_records(groups: Seq<Node>) -> Seq<RecordView>
    decreases groups.len(),
{
    if groups.len() == 0 {
        Seq::empty()
    } else {
        match groups.last() {
            Node::Mapping(fields) => group_records(groups.drop_last()) + records_of_group(
                fields,
            ),
            _ => group_records(groups.drop_last()),
        }
    }
}

/// The clean form of the value under `keymap` or `modmap`: always a
/// sequence, empty where the value was none.
pub open spec fn clean_section(section: Node) -> Node {
    match section {
        Node::Sequence(groups) => Node::Sequence(clean_groups(groups)),
        _ => Node::Sequence(Seq::empty()),
    }
}

/// The records of the value under `keymap` or `modmap`.
pub open spec fn section_records(section: Node) -> Seq<RecordView> {
    match section {
        Node::Sequence(groups) => group_records(groups),
        _ => Seq::empty(),
    }
}

/// One top-level pair, cleaned: the value under `keymap` or `modmap` is
/// replaced by its clean form, any other pair is kept.
pub open spec fn clean_pair(pair: (Node, Node)) -> (Node, Node) {
    if is_section_key(pair.0) {
        (pair.0, clean_section(pair.1))
    } else {
        pair
    }
}

/// The top-level pairs of a document, cleaned one by one.
pub open spec fn clean_pairs(pairs: Seq<(Node, Node)>) -> Seq<(Node, Node)> {
    pairs.map_values(|pair: (Node, Node)| clean_pair(pair))
}

/// The records of the top-level pairs: those of each value under `keymap`
/// or `modmap`, in the order of the pairs.
pub open spec fn pair_records(pairs: Seq<(Node, Node)>) -> Seq<RecordView>
    decreases pairs.len(),
{
    if pairs.len() == 0 {
        Seq::empty()
    } else if is_section_key(pairs.last().0) {
        pair_records(pairs.drop_last()) + section_records(pairs.last().1)
    } else {
        pair_records(pairs.drop_last())
    }
}

/// The clean document: always a mapping, empty where the input was none.
pub open spec fn clean_document(document: Node) -> Node {
    match document {
        Node::Mapping(pairs) => Node::Mapping(clean_pairs(pairs)),
        _ => Node::Mapping(Seq::empty()),
    }
}

/// The catalog: the records of every rule of the document, in the order in
/// which a walk through the document meets them.
pub open spec fn catalog(document: Node) -> Seq<RecordView> {
    match document {
        Node::Mapping(pairs) => pair_records(pairs),
        _ => Seq::empty(),
    }
}

/// The pairs under a `remap` key: those of a mapping, none of any other
/// node.
pub open spec fn remap_rules(remap: Node) -> Seq<(Node, Node)> {
    match remap {
        Node::Mapping(rules) => rules,
        _ => Seq::empty(),
    }
}

/// The pairs under the `remap` keys of one group, in the order of the walk.
pub open spec fn field_rules(fields: Seq<(Node, Node)>) -> Seq<(Node, Node)>
    decreases fields.len(),
{
    if fields.len() == 0 {
        Seq::empty()
    } else if fields.last().0 == remap_key() {
        field_rules(fields.drop_last()) + remap_rules(fields.last().1)
    } else {
        field_rules(fields.drop_last())
    }
}

/// The pairs under the `remap` keys of a list of groups, group after group.
pub open spec fn group_rules(groups: Seq<Node>) -> Seq<(Node, Node)>
    decreases groups.len(),
{
    if groups.len() == 0 {
        Seq::empty()
    } else {
        match groups.last() {
            Node::Mapping(fields) => group_rules(groups.drop_last()) + field_rules(fields),
            _ => group_rules(groups.drop_last()),
        }
    }
}

/// The pairs under the `remap` keys of the value under `keymap` or `modmap`.
pub open spec fn section_rules(section: Node) -> Seq<(Node, Node)> {
    match section {
        Node::Sequence(groups) => group_rules(groups),
        _ => Seq::empty(),
    }
}

/// The pairs under the `remap` keys below a list of top-level pairs.
pub open spec fn pair_rules(pairs: Seq<(Node, Node)>) -> Seq<(Node, Node)>
    decreases pairs.len(),
{
    if pairs.len() == 0 {
        Seq::empty()
    } else if is_section_key(pairs.last().0) {
        pair_rules(pairs.drop_last()) + section_rules(pairs.last().1)
    } else {
        pair_rules(pairs.drop_last())
    }
}

/// Every key/value pair of every `remap` mapping of every group under
/// `keymap` or `modmap`, as one list in the order of the walk: top-level
/// pairs first, then groups, then the pairs of a group, then the rules.
pub open spec fn rules_of(document: Node) -> Seq<(Node, Node)> {
    match document {
        Node::Mapping(pairs) => pair_rules(pairs),
        _ => Seq::empty(),
    }
}

/// Every rule has a string for its key.
pub open spec fn string_keys_only(rules: Seq<(Node, Node)>) -> bool {
    forall|i: int| 0 <= i < rules.len() ==> (#[trigger] rules[i]).0 is Str
}

/// The node is no mapping with a `description` key.
pub open spec fn lacks_description(action: Node) -> bool {
    match action {
        Node::Mapping(entries) => forall|i: int|
            0 <= i < entries.len() ==> (#[trigger] entries[i]).0 != description_key(),
        _ => true,
    }
}

/// The context in which every field is absent.
pub open spec fn no_context() -> ContextView {
    ContextView {
        name: None,
        mode: None,
        application: None,
        window: None,
        device: None,
        exact_match: None,
    }
}

/// The records with their context left aside.
pub open spec fn without_context(records: Seq<RecordView>) -> Seq<RecordView> {
    records.map_values(|record: RecordView| RecordView { context: no_context(), ..record })
}

/// The records with their annotation left aside.
pub open spec fn without_descriptions(records: Seq<RecordView>) -> Seq<RecordView> {
    records.map_values(|record: RecordView| RecordView { description: None, ..record })
}

/// The mappings that are groups of the document: the entries of the lists
/// under `keymap` and `modmap` that are mappings.
pub open spec fn is_group_of(document: Node, group: Seq<(Node, Node)>) -> bool {
    exists|p: int, g: int|
        {
            &&& document is Mapping
            &&& 0 <= p < document->Mapping_0.len()
            &&& is_section_key(#[trigger] document->Mapping_0[p].0)
            &&& document->Mapping_0[p].1 is Sequence
            &&& 0 <= g < document->Mapping_0[p].1->Sequence_0.len()
            &&& #[trigger] document->Mapping_0[p].1->Sequence_0[g] == Node::Mapping(group)
        }
}

/// The context is the one that some group of the document defines.
pub open spec fn is_group_context(document: Node, context: ContextView) -> bool {
    exists|group: Seq<(Node, Node)>| #[trigger]
        is_group_of(document, group) && context == context_of(group)
}

} // verus!
