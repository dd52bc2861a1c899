//! What holds of every split, whatever the document.

use crate::catalog::ContextView;
use crate::model::{
    catalog, clean_action, clean_document, clean_field, clean_fields, clean_groups, clean_pair,
    clean_pairs, clean_remap, clean_rules, clean_section, context_of, description_key,
    description_of, field_records, field_rules, group_records, group_rules, is_group_context,
    is_group_of, is_section_key, lacks_description, no_context, pair_records, pair_rules, record_of,
    records_of_group, remap_key, remap_records, remap_rules, rule_records, rules_of,
    section_records, section_rules, string_keys_only, without_context, without_descriptions,
};
use crate::value::{
    all_well_formed, distinct_keys, keys_among, lemma_without_key_keeps_form,
    lemma_without_key_lacks, lemma_without_key_twice, lookup, members_well_formed, Node,
};
use vstd::prelude::*;

verus! {

/// The records of two lists of rules put end to end are the records of the
/// first followed by the records of the second.
pub proof fn lemma_rule_records_concat(
    first: Seq<(Node, Node)>,
    second: Seq<(Node, Node)>,
    context: ContextView,
)
    ensures
        rule_records(first + second, context) == rule_records(first, context) + rule_records(
            second,
            context,
        ),
    decreases second.len(),
{
    if second.len() == 0 {
        assert(first + second =~= first);
        assert(rule_records(first, context) + rule_records(second, context) =~= rule_records(
            first,
            context,
        ));
    } else {
        assert((first + second).drop_last() =~= first + second.drop_last());
        assert((first + second).last() == second.last());
        lemma_rule_records_concat(first, second.drop_last(), context);
        assert(rule_records(first + second, context) =~= rule_records(first, context)
            + rule_records(second, context));
    }
}

/// Cleaning two lists of rules put end to end gives the clean first list
/// followed by the clean second list.
pub proof fn lemma_clean_rules_concat(first: Seq<(Node, Node)>, second: Seq<(Node, Node)>)
    ensures
        clean_rules(first + second) == clean_rules(first) + clean_rules(second),
    decreases second.len(),
{
    if second.len() == 0 {
        assert(first + second =~= first);
        assert(clean_rules(first) + clean_rules(second) =~= clean_rules(first));
    } else {
        assert((first + second).drop_last() =~= first + second.drop_last());
        assert((first + second).last() == second.last());
        lemma_clean_rules_concat(first, second.drop_last());
        assert(clean_rules(first + second) =~= clean_rules(first) + clean_rules(second));
    }
}

/// Leaving the context aside, the records of a list of rules do not depend
/// on the context they were made under.
proof fn lemma_forget_context(rules: Seq<(Node, Node)>, context: ContextView)
    ensures
        without_context(rule_records(rules, context)) == rule_records(rules, no_context()),
    decreases rules.len(),
{
    if rules.len() > 0 {
        lemma_forget_context(rules.drop_last(), context);
    }
    assert(without_context(rule_records(rules, context)) =~= rule_records(rules, no_context()));
}

/// Leaving the context aside, the records of a group's pairs are what the
/// rules under its `remap` keys give.
proof fn lemma_field_records_follow_rules(fields: Seq<(Node, Node)>, context: ContextView)
    ensures
        without_context(field_records(fields, context)) == rule_records(
            field_rules(fields),
            no_context(),
        ),
    decreases fields.len(),
{
    if fields.len() > 0 {
        let init = fields.drop_last();
        lemma_field_records_follow_rules(init, context);
        if fields.last().0 == remap_key() {
            let rules = remap_rules(fields.last().1);
            lemma_forget_context(rules, context);
            lemma_rule_records_concat(field_rules(init), rules, no_context());
            assert(without_context(field_records(fields, context)) =~= without_context(
                field_records(init, context),
            ) + without_context(remap_records(fields.last().1, context)));
        }
    } else {
        assert(without_context(field_records(fields, context)) =~= Seq::empty());
    }
}

/// Leaving the context aside, the records of a list of groups are what the
/// rules of those groups give.
proof fn lemma_group_records_follow_rules(groups: Seq<Node>)
    ensures
        without_context(group_records(groups)) == rule_records(group_rules(groups), no_context()),
    decreases groups.len(),
{
    if groups.len() > 0 {
        let init = groups.drop_last();
        lemma_group_records_follow_rules(init);
        if let Node::Mapping(fields) = groups.last() {
            lemma_field_records_follow_rules(fields, context_of(fields));
            lemma_rule_records_concat(group_rules(init), field_rules(fields), no_context());
            assert(without_context(group_records(groups)) =~= without_context(group_records(init))
                + without_context(records_of_group(fields)));
        }
    } else {
        assert(without_context(group_records(groups)) =~= Seq::empty());
    }
}

/// Leaving the context aside, the records of the top-level pairs are what
/// the rules below them give.
proof fn lemma_pair_records_follow_rules(pairs: Seq<(Node, Node)>)
    ensures
        without_context(pair_records(pairs)) == rule_records(pair_rules(pairs), no_context()),
    decreases pairs.len(),
{
    if pairs.len() > 0 {
        let init = pairs.drop_last();
        lemma_pair_records_follow_rules(init);
        if is_section_key(pairs.last().0) {
            let section = pairs.last().1;
            if let Node::Sequence(groups) = section {
                lemma_group_records_follow_rules(groups);
            } else {
                assert(without_context(section_records(section)) =~= Seq::empty());
            }
            lemma_rule_records_concat(pair_rules(init), section_rules(section), no_context());
            assert(without_context(pair_records(pairs)) =~= without_context(pair_records(init))
                + without_context(section_records(section)));
        }
    } else {
        assert(without_context(pair_records(pairs)) =~= Seq::empty());
    }
}

/// Order is preserved: the catalog lists the rules of the document in the
/// order of the walk. Leaving the context aside, it is exactly what the
/// rules of the whole document, taken as one list, give.
pub proof fn lemma_catalog_follows_rules(document: Node)
    ensures
        without_context(catalog(document)) == rule_records(rules_of(document), no_context()),
{
    if let Node::Mapping(pairs) = document {
        lemma_pair_records_follow_rules(pairs);
    } else {
        assert(without_context(catalog(document)) =~= Seq::empty());
    }
}

/// Where every rule of a list has a string key, the list gives one record
/// for each rule, at the same position.
pub proof fn lemma_one_record_per_rule(rules: Seq<(Node, Node)>, context: ContextView)
    requires
        string_keys_only(rules),
    ensures
        rule_records(rules, context).len() == rules.len(),
        forall|i: int|
            0 <= i < rules.len() ==> #[trigger] rule_records(rules, context)[i] == record_of(
                rules[i].0->Str_0,
                rules[i].1,
                context,
            ),
    decreases rules.len(),
{
    if rules.len() > 0 {
        let init = rules.drop_last();
        assert forall|i: int| 0 <= i < init.len() implies (#[trigger] init[i]).0 is Str by {
            assert(init[i] == rules[i]);
        }
        lemma_one_record_per_rule(init, context);
        assert(rules.last() == rules[rules.len() - 1]);
        assert forall|i: int| 0 <= i < rules.len() implies #[trigger] rule_records(
            rules,
            context,
        )[i] == record_of(rules[i].0->Str_0, rules[i].1, context) by {
            if i < init.len() {
                assert(init[i] == rules[i]);
                assert(rule_records(rules, context)[i] == rule_records(init, context)[i]);
            }
        }
    }
}

/// Completeness: where every key under every `remap` is a string, the
/// catalog has as many records as the `remap` mappings of the document
/// have pairs, and the record at each position has the trigger, the
/// annotation and the clean action of the rule at that position.
pub proof fn lemma_catalog_counts_rules(document: Node)
    requires
        string_keys_only(rules_of(document)),
    ensures
        catalog(document).len() == rules_of(document).len(),
        forall|i: int|
            0 <= i < rules_of(document).len() ==> {
                let record = #[trigger] catalog(document)[i];
                let rule = rules_of(document)[i];
                &&& record.trigger == rule.0->Str_0
                &&& record.description == description_of(rule.1)
                &&& record.action == Some(clean_action(rule.1))
            },
{
    lemma_catalog_follows_rules(document);
    lemma_one_record_per_rule(rules_of(document), no_context());
    let plain = without_context(catalog(document));
    assert(plain.len() == catalog(document).len());
    assert forall|i: int| 0 <= i < rules_of(document).len() implies {
        let record = #[trigger] catalog(document)[i];
        let rule = rules_of(document)[i];
        &&& record.trigger == rule.0->Str_0
        &&& record.description == description_of(rule.1)
        &&& record.action == Some(clean_action(rule.1))
    } by {
        assert(plain[i] == rule_records(rules_of(document), no_context())[i]);
        assert(plain[i].trigger == catalog(document)[i].trigger);
    }
}

/// Every record made from a list of rules carries the context it was made
/// under.
pub proof fn lemma_rule_records_context(rules: Seq<(Node, Node)>, context: ContextView)
    ensures
        forall|i: int|
            0 <= i < rule_records(rules, context).len() ==> (#[trigger] rule_records(
                rules,
                context,
            )[i]).context == context,
    decreases rules.len(),
{
    if rules.len() > 0 {
        lemma_rule_records_context(rules.drop_last(), context);
    }
}

/// Every record of a group's pairs carries the context it was made under.
proof fn lemma_field_records_context(fields: Seq<(Node, Node)>, context: ContextView)
    ensures
        forall|i: int|
            0 <= i < field_records(fields, context).len() ==> (#[trigger] field_records(
                fields,
                context,
            )[i]).context == context,
    decreases fields.len(),
{
    if fields.len() > 0 {
        lemma_field_records_context(fields.drop_last(), context);
        if fields.last().0 == remap_key() {
            if let Node::Mapping(rules) = fields.last().1 {
                lemma_rule_records_context(rules, context);
            }
        }
    }
}

/// Context fidelity: every record of a group carries exactly the context
/// that the group defines. A field that the group lacks, or holds in
/// another shape, is absent from each of its records.
pub proof fn lemma_records_carry_group_context(group: Seq<(Node, Node)>)
    ensures
        forall|i: int|
            0 <= i < records_of_group(group).len() ==> (#[trigger] records_of_group(
                group,
            )[i]).context == context_of(group),
{
    lemma_field_records_context(group, context_of(group));
}

/// The context is the one that some mapping of the list defines.
spec fn is_context_among(groups: Seq<Node>, context: ContextView) -> bool {
    exists|g: int|
        0 <= g < groups.len() && #[trigger] groups[g] is Mapping && context == context_of(
            groups[g]->Mapping_0,
        )
}

/// The context of every record of a list of groups is the one that a
/// mapping of the list defines.
proof fn lemma_group_records_context(groups: Seq<Node>)
    ensures
        forall|i: int|
            0 <= i < group_records(groups).len() ==> is_context_among(
                groups,
                (#[trigger] group_records(groups)[i]).context,
            ),
    decreases groups.len(),
{
    if groups.len() > 0 {
        let init = groups.drop_last();
        lemma_group_records_context(init);
        let last = groups.len() - 1;
        assert forall|i: int| 0 <= i < group_records(groups).len() implies is_context_among(
            groups,
            (#[trigger] group_records(groups)[i]).context,
        ) by {
            if i < group_records(init).len() {
                assert(group_records(groups)[i] == group_records(init)[i]);
                let context = group_records(init)[i].context;
                assert(is_context_among(init, context));
                let g = choose|g: int|
                    0 <= g < init.len() && #[trigger] init[g] is Mapping && context == context_of(
                        init[g]->Mapping_0,
                    );
                assert(groups[g] == init[g]);
            } else {
                let fields = groups[last]->Mapping_0;
                lemma_records_carry_group_context(fields);
                assert(group_records(groups)[i] == records_of_group(fields)[i - group_records(
                    init,
                ).len()]);
                assert(groups[last] is Mapping);
            }
        }
    }
}

/// The context of every record found below the first `upto` top-level
/// pairs is the one that a group of the document defines.
proof fn lemma_pair_records_context(document: Node, upto: int)
    requires
        document is Mapping,
        0 <= upto <= document->Mapping_0.len(),
    ensures
        forall|i: int|
            0 <= i < pair_records(document->Mapping_0.take(upto)).len() ==> is_group_context(
                document,
                (#[trigger] pair_records(document->Mapping_0.take(upto))[i]).context,
            ),
    decreases upto,
{
    let pairs = document->Mapping_0;
    if upto > 0 {
        let here = pairs.take(upto);
        let init = pairs.take(upto - 1);
        assert(here.drop_last() =~= init);
        assert(here.last() == pairs[upto - 1]);
        lemma_pair_records_context(document, upto - 1);
        assert forall|i: int| 0 <= i < pair_records(here).len() implies is_group_context(
            document,
            (#[trigger] pair_records(here)[i]).context,
        ) by {
            if i < pair_records(init).len() {
                assert(pair_records(here)[i] == pair_records(init)[i]);
            } else {
                let section = pairs[upto - 1].1;
                let groups = section->Sequence_0;
                let j = i - pair_records(init).len();
                assert(pair_records(here)[i] == section_records(section)[j]);
                lemma_group_records_context(groups);
                let context = group_records(groups)[j].context;
                assert(is_context_among(groups, context));
                let g = choose|g: int|
                    0 <= g < groups.len() && #[trigger] groups[g] is Mapping && context
                        == context_of(groups[g]->Mapping_0);
                let group = groups[g]->Mapping_0;
                assert(is_section_key(document->Mapping_0[upto - 1].0));
                assert(document->Mapping_0[upto - 1].1->Sequence_0[g] == Node::Mapping(group));
                assert(is_group_of(document, group));
            }
        }
    }
}

/// Context fidelity, for a whole document: the context of every record of
/// the catalog is the context that one of the groups of the document
/// defines.
pub proof fn lemma_catalog_contexts_come_from_groups(document: Node)
    ensures
        forall|i: int|
            0 <= i < catalog(document).len() ==> is_group_context(
                document,
                (#[trigger] catalog(document)[i]).context,
            ),
{
    if let Node::Mapping(pairs) = document {
        assert(pairs.take(pairs.len() as int) =~= pairs);
        lemma_pair_records_context(document, pairs.len() as int);
    }
}

/// Pass-through: the clean document has the top-level keys of the input,
/// in the same order, and under every key other than `keymap` and `modmap`
/// the very value that the input has there.
pub proof fn lemma_other_pairs_pass_through(document: Node)
    requires
        document is Mapping,
    ensures
        clean_document(document) is Mapping,
        clean_document(document)->Mapping_0.len() == document->Mapping_0.len(),
        forall|i: int|
            0 <= i < document->Mapping_0.len() ==> {
                let before = #[trigger] document->Mapping_0[i];
                let after = clean_document(document)->Mapping_0[i];
                &&& after.0 == before.0
                &&& !is_section_key(before.0) ==> after.1 == before.1
            },
{
}

/// A clean action has no `description` key, holds no annotation, and
/// cleaning it again changes nothing.
pub proof fn lemma_clean_action_is_clean(action: Node)
    ensures
        lacks_description(clean_action(action)),
        description_of(clean_action(action)) is None,
        clean_action(clean_action(action)) == clean_action(action),
{
    if let Node::Mapping(entries) = action {
        lemma_without_key_lacks(entries, description_key());
        lemma_without_key_twice(entries, description_key());
    }
}

/// Every clean rule has a string key and an action without a `description`
/// key.
proof fn lemma_clean_rules_are_clean(rules: Seq<(Node, Node)>)
    ensures
        string_keys_only(clean_rules(rules)),
        forall|i: int|
            0 <= i < clean_rules(rules).len() ==> lacks_description(
                (#[trigger] clean_rules(rules)[i]).1,
            ),
    decreases rules.len(),
{
    if rules.len() > 0 {
        lemma_clean_rules_are_clean(rules.drop_last());
        lemma_clean_action_is_clean(rules.last().1);
    }
}

/// The rules of a clean group are the rules of the group, cleaned.
proof fn lemma_field_rules_of_clean(fields: Seq<(Node, Node)>)
    ensures
        field_rules(clean_fields(fields)) == clean_rules(field_rules(fields)),
    decreases fields.len(),
{
    if fields.len() > 0 {
        let init = fields.drop_last();
        lemma_field_rules_of_clean(init);
        assert(clean_fields(fields).drop_last() =~= clean_fields(init));
        assert(clean_fields(fields).last() == clean_field(fields.last()));
        if fields.last().0 == remap_key() {
            lemma_clean_rules_concat(field_rules(init), remap_rules(fields.last().1));
        }
    }
}

/// The rules of a clean list of groups are the rules of the list, cleaned.
proof fn lemma_group_rules_of_clean(groups: Seq<Node>)
    ensures
        group_rules(clean_groups(groups)) == clean_rules(group_rules(groups)),
    decreases groups.len(),
{
    if groups.len() > 0 {
        let init = groups.drop_last();
        lemma_group_rules_of_clean(init);
        if let Node::Mapping(fields) = groups.last() {
            let clean_group = Node::Mapping(clean_fields(fields));
            assert(clean_groups(groups).drop_last() =~= clean_groups(init));
            assert(clean_groups(groups).last() == clean_group);
            lemma_field_rules_of_clean(fields);
            lemma_clean_rules_concat(group_rules(init), field_rules(fields));
        }
    }
}

/// The rules below the clean top-level pairs are the rules below the
/// pairs, cleaned.
proof fn lemma_pair_rules_of_clean(pairs: Seq<(Node, Node)>)
    ensures
        pair_rules(clean_pairs(pairs)) == clean_rules(pair_rules(pairs)),
    decreases pairs.len(),
{
    if pairs.len() > 0 {
        let init = pairs.drop_last();
        lemma_pair_rules_of_clean(init);
        assert(clean_pairs(pairs).drop_last() =~= clean_pairs(init));
        assert(clean_pairs(pairs).last() == clean_pair(pairs.last()));
        if is_section_key(pairs.last().0) {
            let section = pairs.last().1;
            if let Node::Sequence(groups) = section {
                lemma_group_rules_of_clean(groups);
            }
            lemma_clean_rules_concat(pair_rules(init), section_rules(section));
        }
    }
}

/// The rules of the clean document are the rules of the input, cleaned:
/// nothing but the rules with a string key, in their order, each with its
/// action stripped of the annotation.
pub proof fn lemma_rules_of_clean_document(document: Node)
    ensures
        rules_of(clean_document(document)) == clean_rules(rules_of(document)),
{
    if let Node::Mapping(pairs) = document {
        lemma_pair_rules_of_clean(pairs);
    }
}

/// Annotation removal: no rule anywhere in the clean document has a
/// `description` key in its action.
pub proof fn lemma_clean_document_lacks_descriptions(document: Node)
    ensures
        forall|i: int|
            0 <= i < rules_of(clean_document(document)).len() ==> lacks_description(
                (#[trigger] rules_of(clean_document(document))[i]).1,
            ),
{
    lemma_rules_of_clean_document(document);
    lemma_clean_rules_are_clean(rules_of(document));
}

/// Cleaning clean rules changes nothing.
proof fn lemma_clean_rules_twice(rules: Seq<(Node, Node)>)
    ensures
        clean_rules(clean_rules(rules)) == clean_rules(rules),
    decreases rules.len(),
{
    if rules.len() > 0 {
        let init = rules.drop_last();
        lemma_clean_rules_twice(init);
        if rules.last().0 is Str {
            let rule = (rules.last().0, clean_action(rules.last().1));
            lemma_clean_action_is_clean(rules.last().1);
            assert(clean_rules(rules).drop_last() =~= clean_rules(init));
            assert(clean_rules(rules).last() == rule);
        }
    }
}

/// Cleaning a clean pair of a group changes nothing.
proof fn lemma_clean_field_twice(field: (Node, Node))
    ensures
        clean_field(clean_field(field)) == clean_field(field),
{
    if field.0 == remap_key() {
        if let Node::Mapping(rules) = field.1 {
            lemma_clean_rules_twice(rules);
        }
    }
}

/// Cleaning a clean group changes nothing.
proof fn lemma_clean_fields_twice(fields: Seq<(Node, Node)>)
    ensures
        clean_fields(clean_fields(fields)) == clean_fields(fields),
{
    assert forall|i: int| 0 <= i < fields.len() implies clean_fields(clean_fields(fields))[i]
        == clean_fields(fields)[i] by {
        lemma_clean_field_twice(fields[i]);
    }
    assert(clean_fields(clean_fields(fields)) =~= clean_fields(fields));
}

/// Cleaning a clean list of groups changes nothing.
proof fn lemma_clean_groups_twice(groups: Seq<Node>)
    ensures
        clean_groups(clean_groups(groups)) == clean_groups(groups),
    decreases groups.len(),
{
    if groups.len() > 0 {
        let init = groups.drop_last();
        lemma_clean_groups_twice(init);
        if let Node::Mapping(fields) = groups.last() {
            let clean_group = Node::Mapping(clean_fields(fields));
            assert(clean_groups(groups).drop_last() =~= clean_groups(init));
            assert(clean_groups(groups).last() == clean_group);
            lemma_clean_fields_twice(fields);
        }
    }
}

/// Cleaning a clean top-level pair changes nothing.
proof fn lemma_clean_pair_twice(pair: (Node, Node))
    ensures
        clean_pair(clean_pair(pair)) == clean_pair(pair),
{
    if is_section_key(pair.0) {
        if let Node::Sequence(groups) = pair.1 {
            lemma_clean_groups_twice(groups);
        }
    }
}

/// Idempotence of the clean output: splitting a clean document gives the
/// same clean document again.
pub proof fn lemma_clean_document_is_idempotent(document: Node)
    ensures
        clean_document(clean_document(document)) == clean_document(document),
{
    if let Node::Mapping(pairs) = document {
        assert forall|i: int| 0 <= i < pairs.len() implies clean_pairs(clean_pairs(pairs))[i]
            == clean_pairs(pairs)[i] by {
            lemma_clean_pair_twice(pairs[i]);
        }
        assert(clean_pairs(clean_pairs(pairs)) =~= clean_pairs(pairs));
    } else {
        assert(clean_pairs(Seq::empty()) =~= Seq::empty());
    }
}

/// Clean rules give the records of the rules, without the descriptions.
proof fn lemma_rule_records_of_clean(rules: Seq<(Node, Node)>, context: ContextView)
    ensures
        rule_records(clean_rules(rules), context) == without_descriptions(
            rule_records(rules, context),
        ),
    decreases rules.len(),
{
    if rules.len() > 0 {
        let init = rules.drop_last();
        lemma_rule_records_of_clean(init, context);
        if rules.last().0 is Str {
            let rule = (rules.last().0, clean_action(rules.last().1));
            lemma_clean_action_is_clean(rules.last().1);
            assert(clean_rules(rules).drop_last() =~= clean_rules(init));
            assert(clean_rules(rules).last() == rule);
        }
    }
    assert(rule_records(clean_rules(rules), context) =~= without_descriptions(
        rule_records(rules, context),
    ));
}

/// Cleaning the pairs of a group changes no value but the one under `remap`.
proof fn lemma_lookup_in_clean_fields(fields: Seq<(Node, Node)>, key: Node)
    requires
        key != remap_key(),
    ensures
        lookup(clean_fields(fields), key) == lookup(fields, key),
    decreases fields.len(),
{
    if fields.len() > 0 {
        lemma_lookup_in_clean_fields(fields.drop_last(), key);
        assert(clean_fields(fields).drop_last() =~= clean_fields(fields.drop_last()));
        assert(clean_fields(fields).last() == clean_field(fields.last()));
    }
}

/// A group keeps its context when it is cleaned.
pub proof fn lemma_clean_group_keeps_context(group: Seq<(Node, Node)>)
    ensures
        context_of(clean_fields(group)) == context_of(group),
{
    reveal_strlit("remap");
    reveal_strlit("name");
    reveal_strlit("mode");
    reveal_strlit("application");
    reveal_strlit("window");
    reveal_strlit("device");
    reveal_strlit("exact_match");
    assert("remap"@.len() == 5);
    assert("name"@.len() == 4);
    assert("mode"@.len() == 4);
    assert("application"@.len() == 11);
    assert("window"@.len() == 6);
    assert("device"@.len() == 6);
    assert("exact_match"@.len() == 11);
    lemma_lookup_in_clean_fields(group, Node::Str("name"@));
    lemma_lookup_in_clean_fields(group, Node::Str("mode"@));
    lemma_lookup_in_clean_fields(group, Node::Str("application"@));
    lemma_lookup_in_clean_fields(group, Node::Str("window"@));
    lemma_lookup_in_clean_fields(group, Node::Str("device"@));
    lemma_lookup_in_clean_fields(group, Node::Str("exact_match"@));
}

/// The pairs of a clean group give the records of the group's pairs,
/// without the descriptions.
proof fn lemma_field_records_of_clean(fields: Seq<(Node, Node)>, context: ContextView)
    ensures
        field_records(clean_fields(fields), context) == without_descriptions(
            field_records(fields, context),
        ),
    decreases fields.len(),
{
    if fields.len() > 0 {
        let init = fields.drop_last();
        lemma_field_records_of_clean(init, context);
        assert(clean_fields(fields).drop_last() =~= clean_fields(init));
        assert(clean_fields(fields).last() == clean_field(fields.last()));
        if fields.last().0 == remap_key() {
            if let Node::Mapping(rules) = fields.last().1 {
                lemma_rule_records_of_clean(rules, context);
            }
        }
    }
    assert(field_records(clean_fields(fields), context) =~= without_descriptions(
        field_records(fields, context),
    ));
}

/// A clean list of groups gives the records of the list, without the
/// descriptions.
proof fn lemma_group_records_of_clean(groups: Seq<Node>)
    ensures
        group_records(clean_groups(groups)) == without_descriptions(group_records(groups)),
    decreases groups.len(),
{
    if groups.len() > 0 {
        let init = groups.drop_last();
        lemma_group_records_of_clean(init);
        if let Node::Mapping(fields) = groups.last() {
            let clean_group = Node::Mapping(clean_fields(fields));
            assert(clean_groups(groups).drop_last() =~= clean_groups(init));
            assert(clean_groups(groups).last() == clean_group);
            lemma_clean_group_keeps_context(fields);
            lemma_field_records_of_clean(fields, context_of(fields));
        }
    }
    assert(group_records(clean_groups(groups)) =~= without_descriptions(group_records(groups)));
}

/// Clean top-level pairs give the records of the pairs, without the
/// descriptions.
proof fn lemma_pair_records_of_clean(pairs: Seq<(Node, Node)>)
    ensures
        pair_records(clean_pairs(pairs)) == without_descriptions(pair_records(pairs)),
    decreases pairs.len(),
{
    if pairs.len() > 0 {
        let init = pairs.drop_last();
        lemma_pair_records_of_clean(init);
        assert(clean_pairs(pairs).drop_last() =~= clean_pairs(init));
        assert(clean_pairs(pairs).last() == clean_pair(pairs.last()));
        if is_section_key(pairs.last().0) {
            if let Node::Sequence(groups) = pairs.last().1 {
                lemma_group_records_of_clean(groups);
            }
        }
    }
    assert(pair_records(clean_pairs(pairs)) =~= without_descriptions(pair_records(pairs)));
}

/// A second pass finds the same rules and no annotation: the catalog of the
/// clean document is the catalog of the input with every description
/// absent.
pub proof fn lemma_catalog_of_clean_document(document: Node)
    ensures
        catalog(clean_document(document)) == without_descriptions(catalog(document)),
{
    if let Node::Mapping(pairs) = document {
        lemma_pair_records_of_clean(pairs);
    } else {
        assert(catalog(clean_document(document)) =~= without_descriptions(catalog(document)));
    }
}

/// Idempotence: where a document holds no rule, splitting its clean form
/// gives no record and the same clean form again.
pub proof fn lemma_second_pass_without_rules(document: Node)
    requires
        catalog(document).len() == 0,
    ensures
        catalog(clean_document(document)).len() == 0,
        clean_document(clean_document(document)) == clean_document(document),
{
    lemma_catalog_of_clean_document(document);
    lemma_clean_document_is_idempotent(document);
}

/// A clean action is well formed where the action was.
pub proof fn lemma_clean_action_well_formed(action: Node)
    requires
        action.well_formed(),
    ensures
        clean_action(action).well_formed(),
{
    if let Node::Mapping(entries) = action {
        lemma_without_key_keeps_form(entries, description_key());
    }
}

/// Clean rules have distinct keys and well-formed members where the rules
/// had, and no key that the rules had not.
proof fn lemma_clean_rules_keep_form(rules: Seq<(Node, Node)>)
    requires
        distinct_keys(rules),
        members_well_formed(rules),
    ensures
        distinct_keys(clean_rules(rules)),
        members_well_formed(clean_rules(rules)),
        keys_among(clean_rules(rules), rules),
    decreases rules.len(),
{
    if rules.len() > 0 {
        let init = rules.drop_last();
        let last = rules.len() - 1;
        assert forall|i: int| 0 <= i < init.len() implies init[i] == rules[i] by {}
        lemma_clean_rules_keep_form(init);
        assert(rules[last].1.well_formed());
        lemma_clean_action_well_formed(rules[last].1);
        let kept = clean_rules(init);
        let out = clean_rules(rules);
        assert forall|i: int| 0 <= i < out.len() implies exists|j: int|
            0 <= j < rules.len() && (#[trigger] rules[j]).0 == (#[trigger] out[i]).0 by {
            if i < kept.len() {
                assert(out[i] == kept[i]);
                let j = choose|j: int| 0 <= j < init.len() && (#[trigger] init[j]).0 == kept[i].0;
                assert(rules[j] == init[j]);
            } else {
                assert(out[i].0 == rules[last].0);
            }
        }
        assert forall|a: int, b: int| 0 <= a < b < out.len() implies out[a].0 != out[b].0 by {
            if b == kept.len() {
                assert(out[a] == kept[a]);
                let j = choose|j: int| 0 <= j < init.len() && (#[trigger] init[j]).0 == kept[a].0;
                assert(rules[j] == init[j]);
                assert(out[b].0 == rules[last].0);
            } else {
                assert(out[a] == kept[a] && out[b] == kept[b]);
            }
        }
        assert forall|i: int| 0 <= i < out.len() implies (#[trigger] out[i]).0.well_formed()
            && out[i].1.well_formed() by {
            if i < kept.len() {
                assert(out[i] == kept[i]);
            } else {
                assert(out[i] == (rules[last].0, clean_action(rules[last].1)));
            }
        }
    }
}

/// The clean form of the value under `remap` is well formed where the
/// value was.
pub proof fn lemma_clean_remap_well_formed(remap: Node)
    requires
        remap.well_formed(),
    ensures
        clean_remap(remap).well_formed(),
{
    if let Node::Mapping(rules) = remap {
        lemma_clean_rules_keep_form(rules);
    }
}

/// A clean pair of a group keeps its key, and its value is well formed
/// where the pair's members were.
proof fn lemma_clean_field_well_formed(field: (Node, Node))
    requires
        field.0.well_formed(),
        field.1.well_formed(),
    ensures
        clean_field(field).0 == field.0,
        clean_field(field).1.well_formed(),
{
    if field.0 == remap_key() {
        lemma_clean_remap_well_formed(field.1);
    }
}

/// A clean group is well formed where the group was.
pub proof fn lemma_clean_fields_well_formed(fields: Seq<(Node, Node)>)
    requires
        Node::Mapping(fields).well_formed(),
    ensures
        Node::Mapping(clean_fields(fields)).well_formed(),
{
    let out = clean_fields(fields);
    assert forall|i: int| 0 <= i < out.len() implies (#[trigger] out[i]).0.well_formed()
        && out[i].1.well_formed() by {
        assert(fields[i].0.well_formed());
        lemma_clean_field_well_formed(fields[i]);
    }
    assert forall|a: int, b: int| 0 <= a < b < out.len() implies out[a].0 != out[b].0 by {
        assert(fields[a].0.well_formed() && fields[b].0.well_formed());
        lemma_clean_field_well_formed(fields[a]);
        lemma_clean_field_well_formed(fields[b]);
    }
}

/// A clean list of groups is well formed where the list was.
proof fn lemma_clean_groups_well_formed(groups: Seq<Node>)
    requires
        Node::Sequence(groups).well_formed(),
    ensures
        Node::Sequence(clean_groups(groups)).well_formed(),
    decreases groups.len(),
{
    assert(all_well_formed(groups));
    if groups.len() > 0 {
        let init = groups.drop_last();
        let last = groups.len() - 1;
        assert forall|i: int| 0 <= i < init.len() implies (#[trigger] init[i]).well_formed() by {
            assert(init[i] == groups[i]);
        }
        assert(all_well_formed(init));
        lemma_clean_groups_well_formed(init);
        let kept = clean_groups(init);
        let out = clean_groups(groups);
        assert(all_well_formed(kept));
        assert(groups[last].well_formed());
        if let Node::Mapping(fields) = groups.last() {
            lemma_clean_fields_well_formed(fields);
        }
        assert forall|i: int| 0 <= i < out.len() implies (#[trigger] out[i]).well_formed() by {
            if i < kept.len() {
                assert(out[i] == kept[i]);
            }
        }
    }
    assert(all_well_formed(clean_groups(groups)));
}

/// The clean form of the value under `keymap` or `modmap` is well formed
/// where the value was.
pub proof fn lemma_clean_section_well_formed(section: Node)
    requires
        section.well_formed(),
    ensures
        clean_section(section).well_formed(),
{
    if let Node::Sequence(groups) = section {
        lemma_clean_groups_well_formed(groups);
    } else {
        assert(all_well_formed(Seq::<Node>::empty()));
    }
}

/// A clean top-level pair keeps its key, and its value is well formed
/// where the pair's members were.
proof fn lemma_clean_pair_well_formed(pair: (Node, Node))
    requires
        pair.0.well_formed(),
        pair.1.well_formed(),
    ensures
        clean_pair(pair).0 == pair.0,
        clean_pair(pair).1.well_formed(),
{
    if is_section_key(pair.0) {
        lemma_clean_section_well_formed(pair.1);
    }
}

/// Well-formedness is kept: where no mapping of the input has a key twice,
/// no mapping of the clean document has.
pub proof fn lemma_clean_document_well_formed(document: Node)
    requires
        document.well_formed(),
    ensures
        clean_document(document).well_formed(),
{
    if let Node::Mapping(pairs) = document {
        let out = clean_pairs(pairs);
        assert forall|i: int| 0 <= i < out.len() implies (#[trigger] out[i]).0.well_formed()
            && out[i].1.well_formed() by {
            assert(pairs[i].0.well_formed());
            lemma_clean_pair_well_formed(pairs[i]);
        }
        assert forall|a: int, b: int| 0 <= a < b < out.len() implies out[a].0 != out[b].0 by {
            assert(pairs[a].0.well_formed() && pairs[b].0.well_formed());
            lemma_clean_pair_well_formed(pairs[a]);
            lemma_clean_pair_well_formed(pairs[b]);
        }
    }
}

} // verus!
