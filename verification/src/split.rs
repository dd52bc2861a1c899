//! Splitting a document into its clean form and its catalog.

use crate::catalog::{
    clone_mode, clone_node, clone_text, record_views, text_view, CatalogDocument, CatalogRecord,
    Context, ModeValue,
};
use crate::laws::{
    lemma_clean_document_well_formed, lemma_clean_fields_well_formed, lemma_clean_remap_well_formed,
    lemma_clean_section_well_formed,
};
use crate::model::{
    catalog, clean_action, clean_document, clean_field, clean_fields, clean_groups, clean_pair,
    clean_pairs, clean_remap, clean_rules, clean_section, context_of, description_key,
    description_of, extracted, field_records, group_records, pair_records, record_of,
    records_of_group, remap_key, remap_records, rule_records, section_records,
};
use crate::value::{lemma_sequence_view, lemma_without_key_twice, views, Mapping, Node, Value};
use vstd::prelude::*;

verus! {

/// A string node that holds `name`.
fn key_of(name: &str) -> (key: Value)
    ensures
        key@ == Node::Str(name@),
{
    Value::String(String::from_str(name))
}

/// Takes the annotation out of a node.
///
/// Where the node is a mapping whose `description` key holds a string, the
/// key is removed in place and the string is handed out. Any other node is
/// left exactly as it was, and nothing is handed out.
pub fn extract_description(value: &mut Value) -> (r: Option<String>)
    ensures
        text_view(r) == description_of(old(value)@),
        final(value)@ == extracted(old(value)@),
        old(value)@.well_formed() ==> final(value)@.well_formed(),
{
    let key = key_of("description");
    match value {
        Value::Mapping(map) => {
            let annotated = match map.get(&key) {
                Some(Value::String(_)) => true,
                _ => false,
            };
            if annotated {
                match map.remove(&key) {
                    Some(Value::String(text)) => Some(text),
                    _ => None,
                }
            } else {
                None
            }
        },
        _ => None,
    }
}

/// Removes the `description` key of a mapping node, whatever it holds.
fn strip_description(value: &mut Value)
    ensures
        final(value)@ == clean_action(old(value)@),
{
    let key = key_of("description");
    match value {
        Value::Mapping(map) => {
            let _ = map.remove(&key);
        },
        _ => {},
    }
}

impl Context {
    /// Reads the context of a group from its pairs, without changing them.
    ///
    /// `name` counts where it is a string, `mode` where it is a string or
    /// a list of strings, `exact_match` where it is a boolean; the three
    /// filters are taken as they are. A field of another shape is absent.
    pub fn from_group(group: &Mapping) -> (r: Context)
        ensures
            r@ == context_of(group@),
    {
        let name = match group.get(&key_of("name")) {
            Some(Value::String(text)) => Some(text.clone()),
            _ => None,
        };
        let mode = match group.get(&key_of("mode")) {
            Some(value) => ModeValue::from_value(value),
            None => None,
        };
        let application = match group.get(&key_of("application")) {
            Some(value) => Some(value.clone()),
            None => None,
        };
        let window = match group.get(&key_of("window")) {
            Some(value) => Some(value.clone()),
            None => None,
        };
        let device = match group.get(&key_of("device")) {
            Some(value) => Some(value.clone()),
            None => None,
        };
        let exact_match = match group.get(&key_of("exact_match")) {
            Some(Value::Bool(flag)) => Some(*flag),
            _ => None,
        };
        Context { name, mode, application, window, device, exact_match }
    }
}

/// Splits the rules under a `remap` key.
///
/// Each pair with a string key gives one record, built from the key, the
/// annotation of its action and the context, and one pair of the clean
/// mapping: the same key with the action stripped of its annotation. Pairs
/// with another key give neither. A node that is no mapping gives an empty
/// mapping and no record. The input is not changed.
pub fn process_remap(remap: &Value, context: &Context) -> (r: (Value, Vec<CatalogRecord>))
    ensures
        r.0@ == clean_remap(remap@),
        record_views(r.1@) == remap_records(remap@, context@),
        remap@.well_formed() ==> r.0@.well_formed(),
{
    proof {
        if remap@.well_formed() {
            lemma_clean_remap_well_formed(remap@);
        }
    }
    let mut clean = Mapping::new();
    let mut records: Vec<CatalogRecord> = Vec::new();
    assert(record_views(records@) =~= Seq::empty());
    match remap {
        Value::Mapping(rules) => {
            let mut i: usize = 0;
            while i < rules.entries.len()
                invariant
                    i <= rules.entries.len(),
                    rules@.len() == rules.entries.len(),
                    clean@ == clean_rules(rules@.take(i as int)),
                    record_views(records@) == rule_records(rules@.take(i as int), context@),
                decreases rules.entries.len() - i,
            {
                proof {
                    assert(rules@.take(i + 1).drop_last() =~= rules@.take(i as int));
                    assert(rules@.take(i + 1).last() == rules@[i as int]);
                }
                let ghost clean_before = clean@;
                let ghost records_before = record_views(records@);
                match &rules.entries[i].0 {
                    Value::String(trigger) => {
                        let mut action = rules.entries[i].1.clone();
                        let description = extract_description(&mut action);
                        strip_description(&mut action);
                        proof {
                            let ghost given = rules@[i as int].1;
                            if let Node::Mapping(entries) = given {
                                lemma_without_key_twice(entries, description_key());
                            }
                            assert(action@ == clean_action(given));
                        }
                        let record = CatalogRecord {
                            trigger: trigger.clone(),
                            description,
                            action: Some(action.clone()),
                            mode: clone_mode(&context.mode),
                            name: clone_text(&context.name),
                            application: clone_node(&context.application),
                            window: clone_node(&context.window),
                            device: clone_node(&context.device),
                            exact_match: context.exact_match,
                        };
                        assert(record@ == record_of(trigger@, rules@[i as int].1, context@));
                        records.push(record);
                        clean.entries.push((Value::String(trigger.clone()), action));
                        proof {
                            assert(clean@ =~= clean_before.push(
                                (rules@[i as int].0, clean_action(rules@[i as int].1)),
                            ));
                            assert(record_views(records@) =~= records_before.push(record@));
                        }
                    },
                    _ => {},
                }
                i += 1;
            }
            assert(rules@.take(i as int) =~= rules@);
        },
        _ => {},
    }
    (Value::Mapping(clean), records)
}

/// Splits one group: its pairs are copied in order, with the value under
/// `remap` replaced by its clean form, and the rules found there give the
/// records, each under the context of this group.
pub fn process_group(group: &Mapping) -> (r: (Mapping, Vec<CatalogRecord>))
    ensures
        r.0@ == clean_fields(group@),
        record_views(r.1@) == records_of_group(group@),
        Node::Mapping(group@).well_formed() ==> Node::Mapping(r.0@).well_formed(),
{
    proof {
        if Node::Mapping(group@).well_formed() {
            lemma_clean_fields_well_formed(group@);
        }
    }
    let context = Context::from_group(group);
    let remap = key_of("remap");
    let mut clean = Mapping::new();
    let mut records: Vec<CatalogRecord> = Vec::new();
    assert(record_views(records@) =~= Seq::empty());
    let mut i: usize = 0;
    while i < group.entries.len()
        invariant
            i <= group.entries.len(),
            group@.len() == group.entries.len(),
            remap@ == remap_key(),
            clean@ == clean_fields(group@.take(i as int)),
            record_views(records@) == field_records(group@.take(i as int), context@),
        decreases group.entries.len() - i,
    {
        proof {
            assert(group@.take(i + 1).drop_last() =~= group@.take(i as int));
            assert(group@.take(i + 1).last() == group@[i as int]);
        }
        let ghost clean_before = clean@;
        let ghost records_before = record_views(records@);
        let key = group.entries[i].0.clone();
        if group.entries[i].0 == remap {
            let (clean_value, mut found) = process_remap(&group.entries[i].1, &context);
            let ghost found_before = record_views(found@);
            clean.entries.push((key, clean_value));
            records.append(&mut found);
            proof {
                assert(record_views(records@) =~= records_before + found_before);
            }
        } else {
            clean.entries.push((key, group.entries[i].1.clone()));
        }
        proof {
            assert(clean@ =~= clean_before.push(clean_field(group@[i as int])));
            assert(clean_fields(group@.take(i + 1)) =~= clean_fields(group@.take(i as int)).push(
                clean_field(group@[i as int]),
            ));
        }
        i += 1;
    }
    assert(group@.take(i as int) =~= group@);
    (clean, records)
}

/// Splits the list of groups under `keymap` or `modmap`.
///
/// Every entry that is a mapping is split as a group and takes its place,
/// clean, in the output list; any other entry is dropped and gives no
/// record. A node that is no sequence gives an empty list and no record.
pub fn process_keymap_or_modmap(items: &Value) -> (r: (Value, Vec<CatalogRecord>))
    ensures
        r.0@ == clean_section(items@),
        record_views(r.1@) == section_records(items@),
        items@.well_formed() ==> r.0@.well_formed(),
{
    proof {
        if items@.well_formed() {
            lemma_clean_section_well_formed(items@);
        }
    }
    let mut clean: Vec<Value> = Vec::new();
    let mut records: Vec<CatalogRecord> = Vec::new();
    assert(record_views(records@) =~= Seq::empty());
    assert(views(clean@) =~= Seq::empty());
    match items {
        Value::Sequence(groups) => {
            proof {
                lemma_sequence_view(*groups);
            }
            let mut i: usize = 0;
            while i < groups.len()
                invariant
                    i <= groups.len(),
                    views(clean@) == clean_groups(views(groups@).take(i as int)),
                    record_views(records@) == group_records(views(groups@).take(i as int)),
                decreases groups.len() - i,
            {
                proof {
                    let nodes = views(groups@);
                    assert(nodes.take(i + 1).drop_last() =~= nodes.take(i as int));
                    assert(nodes.take(i + 1).last() == groups@[i as int]@);
                }
                let ghost clean_before = views(clean@);
                let ghost records_before = record_views(records@);
                match &groups[i] {
                    Value::Mapping(group) => {
                        let (clean_group, mut found) = process_group(group);
                        let ghost found_before = record_views(found@);
                        clean.push(Value::Mapping(clean_group));
                        records.append(&mut found);
                        proof {
                            assert(views(clean@) =~= clean_before.push(
                                Node::Mapping(clean_fields(group@)),
                            ));
                            assert(record_views(records@) =~= records_before + found_before);
                        }
                    },
                    _ => {},
                }
                i += 1;
            }
            assert(views(groups@).take(i as int) =~= views(groups@));
        },
        _ => {},
    }
    proof {
        lemma_sequence_view(clean);
    }
    (Value::Sequence(clean), records)
}

/// Splits a whole document into its clean form and its catalog.
///
/// The top-level pairs are copied in order. Under `keymap` and `modmap`
/// the list of groups is replaced by its clean form and its rules are
/// added to the catalog; the value under any other key is copied as it
/// is. A node that is no mapping gives an empty mapping and an empty
/// catalog. The split is total: whatever the shape of the input, it
/// succeeds.
pub fn process_config(input: &Value) -> (r: Result<(Value, CatalogDocument), String>)
    ensures
        r is Ok,
        r->Ok_0.0@ == clean_document(input@),
        r->Ok_0.1@ == catalog(input@),
        input@.well_formed() ==> r->Ok_0.0@.well_formed(),
{
    proof {
        if input@.well_formed() {
            lemma_clean_document_well_formed(input@);
        }
    }
    let keymap = key_of("keymap");
    let modmap = key_of("modmap");
    let mut clean = Mapping::new();
    let mut bindings: Vec<CatalogRecord> = Vec::new();
    assert(record_views(bindings@) =~= Seq::empty());
    match input {
        Value::Mapping(pairs) => {
            let mut i: usize = 0;
            while i < pairs.entries.len()
                invariant
                    i <= pairs.entries.len(),
                    pairs@.len() == pairs.entries.len(),
                    keymap@ == Node::Str("keymap"@),
                    modmap@ == Node::Str("modmap"@),
                    clean@ == clean_pairs(pairs@.take(i as int)),
                    record_views(bindings@) == pair_records(pairs@.take(i as int)),
                decreases pairs.entries.len() - i,
            {
                proof {
                    assert(pairs@.take(i + 1).drop_last() =~= pairs@.take(i as int));
                    assert(pairs@.take(i + 1).last() == pairs@[i as int]);
                }
                let ghost clean_before = clean@;
                let ghost records_before = record_views(bindings@);
                let key = pairs.entries[i].0.clone();
                if pairs.entries[i].0 == keymap || pairs.entries[i].0 == modmap {
                    let (clean_items, mut found) = process_keymap_or_modmap(&pairs.entries[i].1);
                    let ghost found_before = record_views(found@);
                    clean.entries.push((key, clean_items));
                    bindings.append(&mut found);
                    proof {
                        assert(record_views(bindings@) =~= records_before + found_before);
                    }
                } else {
                    clean.entries.push((key, pairs.entries[i].1.clone()));
                }
                proof {
                    assert(clean@ =~= clean_before.push(clean_pair(pairs@[i as int])));
                    assert(clean_pairs(pairs@.take(i + 1)) =~= clean_pairs(
                        pairs@.take(i as int),
                    ).push(clean_pair(pairs@[i as int])));
                }
                i += 1;
            }
            assert(pairs@.take(i as int) =~= pairs@);
        },
        _ => {},
    }
    Ok((Value::Mapping(clean), CatalogDocument { bindings }))
}

} // verus!
