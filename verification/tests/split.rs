use config_splitter::catalog::{CatalogRecord, Context, ModeValue};
use config_splitter::split::{
    extract_description, process_config, process_group, process_keymap_or_modmap, process_remap,
};
use config_splitter::value::{Mapping, Number, Value};

fn from_yaml(node: &serde_yaml::Value) -> Value {
    match node {
        serde_yaml::Value::Null => Value::Null,
        serde_yaml::Value::Bool(flag) => Value::Bool(*flag),
        serde_yaml::Value::Number(number) => {
            if let Some(n) = number.as_u64() {
                Value::Number(Number::PosInt(n))
            } else if let Some(n) = number.as_i64() {
                Value::Number(Number::NegInt(n))
            } else {
                Value::Number(Number::Float(number.as_f64().unwrap().to_bits()))
            }
        }
        serde_yaml::Value::String(text) => Value::String(text.clone()),
        serde_yaml::Value::Sequence(items) => Value::Sequence(items.iter().map(from_yaml).collect()),
        serde_yaml::Value::Mapping(mapping) => Value::Mapping(Mapping {
            entries: mapping
                .iter()
                .map(|(key, value)| (from_yaml(key), from_yaml(value)))
                .collect(),
        }),
        serde_yaml::Value::Tagged(_) => panic!("tagged nodes are not part of the document model"),
    }
}

fn to_yaml(node: &Value) -> serde_yaml::Value {
    match node {
        Value::Null => serde_yaml::Value::Null,
        Value::Bool(flag) => serde_yaml::Value::Bool(*flag),
        Value::Number(Number::PosInt(n)) => serde_yaml::Value::Number((*n).into()),
        Value::Number(Number::NegInt(n)) => serde_yaml::Value::Number((*n).into()),
        Value::Number(Number::Float(bits)) => {
            serde_yaml::Value::Number(f64::from_bits(*bits).into())
        }
        Value::String(text) => serde_yaml::Value::String(text.clone()),
        Value::Sequence(items) => serde_yaml::Value::Sequence(items.iter().map(to_yaml).collect()),
        Value::Mapping(mapping) => {
            let mut out = serde_yaml::Mapping::new();
            for (key, value) in &mapping.entries {
                out.insert(to_yaml(key), to_yaml(value));
            }
            serde_yaml::Value::Mapping(out)
        }
    }
}

fn parse(text: &str) -> Value {
    from_yaml(&serde_yaml::from_str::<serde_yaml::Value>(text).unwrap())
}

fn render(node: &Value) -> String {
    serde_yaml::to_string(&to_yaml(node)).unwrap()
}

fn text(s: &str) -> Value {
    Value::String(s.to_string())
}

fn no_context() -> Context {
    Context {
        name: None,
        mode: None,
        application: None,
        window: None,
        device: None,
        exact_match: None,
    }
}

fn triggers(records: &[CatalogRecord]) -> Vec<&str> {
    records.iter().map(|record| record.trigger.as_str()).collect()
}

#[test]
fn test_extract_description() {
    let mut value = parse(
        r#"
            launch: [xterm]
            description: "Open terminal"
            "#,
    );

    let desc = extract_description(&mut value);
    assert_eq!(desc, Some("Open terminal".to_string()));

    // Description should be removed
    if let Value::Mapping(map) = &value {
        assert!(!map.contains_key(&Value::String("description".to_string())));
    }
}

#[test]
fn test_process_simple_keymap() {
    let input = parse(
        r#"
            keymap:
              - name: Test
                remap:
                  C-a: Home
                  C-e: End
            "#,
    );

    let (clean, dmenu) = process_config(&input).unwrap();

    // Check clean config
    let clean_str = render(&clean);
    assert!(clean_str.contains("C-a"));
    assert!(clean_str.contains("Home"));
    assert!(!clean_str.contains("description"));

    // Check dmenu output
    assert_eq!(dmenu.bindings.len(), 2);
    assert!(dmenu.bindings.iter().any(|b| b.trigger == "C-a"));
    assert!(dmenu.bindings.iter().any(|b| b.trigger == "C-e"));
}

#[test]
fn test_process_keymap_with_descriptions() {
    let input = parse(
        r#"
            keymap:
              - name: Launch
                mode: default
                remap:
                  Super-t:
                    launch: [xterm]
                    description: "Open terminal"
                  Super-b:
                    launch: [firefox]
                    description: "Open browser"
            "#,
    );

    let (clean, dmenu) = process_config(&input).unwrap();

    // Check clean config
    let clean_str = render(&clean);
    assert!(!clean_str.contains("description"));
    assert!(clean_str.contains("Super-t"));
    assert!(clean_str.contains("xterm"));

    // Check dmenu output
    assert_eq!(dmenu.bindings.len(), 2);

    let terminal_binding = dmenu
        .bindings
        .iter()
        .find(|b| b.trigger == "Super-t")
        .expect("Super-t binding not found");
    assert_eq!(terminal_binding.description, Some("Open terminal".to_string()));
    assert_eq!(terminal_binding.name, Some("Launch".to_string()));

    let browser_binding = dmenu
        .bindings
        .iter()
        .find(|b| b.trigger == "Super-b")
        .expect("Super-b binding not found");
    assert_eq!(browser_binding.description, Some("Open browser".to_string()));
}

#[test]
fn test_process_with_application_filter() {
    let input = parse(
        r#"
            keymap:
              - name: Emacs
                application:
                  not: [Emacs, Terminal]
                mode: [default, insert]
                remap:
                  C-a:
                    action: Home
                    description: "Move to beginning of line"
            "#,
    );

    let (clean, dmenu) = process_config(&input).unwrap();

    // Check dmenu output has metadata
    assert_eq!(dmenu.bindings.len(), 1);
    let binding = &dmenu.bindings[0];
    assert_eq!(binding.trigger, "C-a");
    assert_eq!(binding.description, Some("Move to beginning of line".to_string()));
    assert_eq!(binding.name, Some("Emacs".to_string()));
    assert!(binding.application.is_some());
    assert!(binding.mode.is_some());

    // Check clean config doesn't have description
    let clean_str = render(&clean);
    assert!(!clean_str.contains("Move to beginning"));
}

#[test]
fn test_modmap_processing() {
    let input = parse(
        r#"
            modmap:
              - name: Global
                remap:
                  CapsLock: Esc
                  Alt_L: Ctrl_L
            "#,
    );

    let (_clean, dmenu) = process_config(&input).unwrap();

    // Check dmenu has modmap bindings
    assert_eq!(dmenu.bindings.len(), 2);
    assert!(dmenu.bindings.iter().any(|b| b.trigger == "CapsLock"));
    assert!(dmenu.bindings.iter().any(|b| b.trigger == "Alt_L"));
}

#[test]
fn simple_keymap_is_left_unchanged_and_fully_listed() {
    let input = parse("keymap: [{name: Test, remap: {C-a: Home, C-e: End}}]");
    let (clean, catalog) = process_config(&input).unwrap();
    assert_eq!(clean, input);
    assert_eq!(triggers(&catalog.bindings), vec!["C-a", "C-e"]);
    for record in &catalog.bindings {
        assert_eq!(record.description, None);
        assert_eq!(record.name, Some("Test".to_string()));
    }
    assert_eq!(catalog.bindings[0].action, Some(text("Home")));
    assert_eq!(catalog.bindings[1].action, Some(text("End")));
}

#[test]
fn annotated_rule_is_split_into_action_and_description() {
    let input =
        parse("keymap: [{remap: {Super-t: {launch: [xterm], description: Open terminal}}}]");
    let (clean, catalog) = process_config(&input).unwrap();
    let expected_action = parse("{launch: [xterm]}");
    assert_eq!(clean, parse("keymap: [{remap: {Super-t: {launch: [xterm]}}}]"));
    assert_eq!(catalog.bindings.len(), 1);
    let record = &catalog.bindings[0];
    assert_eq!(record.trigger, "Super-t");
    assert_eq!(record.description, Some("Open terminal".to_string()));
    assert_eq!(record.action, Some(expected_action));
    assert_eq!(record.name, None);
    assert_eq!(record.mode, None);
}

#[test]
fn mode_list_is_kept_and_rendered_joined() {
    let input = parse("keymap: [{mode: [default, insert], remap: {C-a: Home}}]");
    let (clean, catalog) = process_config(&input).unwrap();
    assert_eq!(catalog.bindings.len(), 1);
    let mode = catalog.bindings[0].mode.as_ref().unwrap();
    assert_eq!(
        *mode,
        ModeValue::Multiple(vec!["default".to_string(), "insert".to_string()])
    );
    assert_eq!(mode.to_string(), "default, insert");
    assert_eq!(clean, input);
    let Value::Mapping(top) = &clean else { panic!("clean document is a mapping") };
    let Some(Value::Sequence(groups)) = top.get(&text("keymap")) else {
        panic!("keymap is a sequence")
    };
    let Value::Mapping(group) = &groups[0] else { panic!("group is a mapping") };
    assert_eq!(
        group.get(&text("mode")),
        Some(&Value::Sequence(vec![text("default"), text("insert")]))
    );
}

#[test]
fn modmap_records_carry_no_filters() {
    let input = parse("modmap: [{name: Global, remap: {CapsLock: Esc, Alt_L: Ctrl_L}}]");
    let (clean, catalog) = process_config(&input).unwrap();
    assert_eq!(clean, input);
    assert_eq!(triggers(&catalog.bindings), vec!["CapsLock", "Alt_L"]);
    for record in &catalog.bindings {
        assert_eq!(record.name, Some("Global".to_string()));
        assert_eq!(record.application, None);
        assert_eq!(record.window, None);
        assert_eq!(record.device, None);
        assert_eq!(record.mode, None);
        assert_eq!(record.exact_match, None);
    }
}

#[test]
fn sibling_sections_pass_through_untouched() {
    let input = parse(
        r#"
filters:
  description: not an annotation
  nested: [1, -2, 3.5, true, null, {description: kept}]
keymap:
  - remap:
      C-a: {launch: [a], description: gone}
virtual_modifiers: [CapsLock]
"#,
    );
    let (clean, catalog) = process_config(&input).unwrap();
    let Value::Mapping(before) = &input else { panic!("input is a mapping") };
    let Value::Mapping(after) = &clean else { panic!("clean document is a mapping") };
    assert_eq!(after.len(), 3);
    assert_eq!(after.entries[0], before.entries[0]);
    assert_eq!(after.entries[2], before.entries[2]);
    assert_eq!(after.entries[1].0, text("keymap"));
    assert_eq!(render(&after.entries[0].1), render(&before.entries[0].1));
    assert_eq!(catalog.bindings.len(), 1);
}

#[test]
fn records_follow_the_order_of_the_walk() {
    let input = parse(
        r#"
modmap:
  - name: M
    remap: {m1: a, m2: b}
other: {remap: {x: y}}
keymap:
  - name: First
    remap: {k1: a, k2: b}
  - just a string
  - name: Second
    window: {only: Term}
    remap: {k3: c}
    exact_match: true
"#,
    );
    let (clean, catalog) = process_config(&input).unwrap();
    assert_eq!(triggers(&catalog.bindings), vec!["m1", "m2", "k1", "k2", "k3"]);
    let names: Vec<Option<&str>> = catalog.bindings.iter().map(|r| r.name.as_deref()).collect();
    assert_eq!(
        names,
        vec![Some("M"), Some("M"), Some("First"), Some("First"), Some("Second")]
    );
    assert_eq!(catalog.bindings[4].window, Some(parse("{only: Term}")));
    assert_eq!(catalog.bindings[4].exact_match, Some(true));
    assert_eq!(catalog.bindings[3].window, None);
    assert_eq!(catalog.bindings[3].exact_match, None);
    let expected = parse(
        r#"
modmap:
  - name: M
    remap: {m1: a, m2: b}
other: {remap: {x: y}}
keymap:
  - name: First
    remap: {k1: a, k2: b}
  - name: Second
    window: {only: Term}
    remap: {k3: c}
    exact_match: true
"#,
    );
    assert_eq!(clean, expected);
}

#[test]
fn one_record_for_each_rule() {
    let input = parse(
        r#"
keymap:
  - remap: {a: 1, b: 2, c: 3}
  - remap: {}
  - name: no rules here
  - remap: {d: 4}
modmap:
  - remap: {e: 5, f: 6}
"#,
    );
    let (_, catalog) = process_config(&input).unwrap();
    assert_eq!(catalog.bindings.len(), 6);
}

#[test]
fn no_description_is_left_under_any_rule() {
    let input = parse(
        r#"
keymap:
  - remap:
      a: {description: first, launch: [x], with: more}
      b: {launch: [y], description: 42}
      c: {description: {nested: mapping}}
      d: plain
    description: a group may keep this key
"#,
    );
    let (clean, catalog) = process_config(&input).unwrap();
    let expected = parse(
        r#"
keymap:
  - remap:
      a: {launch: [x], with: more}
      b: {launch: [y]}
      c: {}
      d: plain
    description: a group may keep this key
"#,
    );
    assert_eq!(clean, expected);
    let descriptions: Vec<Option<&str>> =
        catalog.bindings.iter().map(|r| r.description.as_deref()).collect();
    assert_eq!(descriptions, vec![Some("first"), None, None, None]);
    assert_eq!(catalog.bindings[1].action, Some(parse("{launch: [y]}")));
}

#[test]
fn second_pass_changes_nothing_and_finds_no_annotation() {
    let input = parse(
        r#"
keymap:
  - name: Launch
    mode: default
    remap:
      Super-t: {launch: [xterm], description: Open terminal}
      Super-b: {launch: [firefox], description: Open browser}
  - 17
settings: {description: stays}
"#,
    );
    let (clean, catalog) = process_config(&input).unwrap();
    let (clean_again, catalog_again) = process_config(&clean).unwrap();
    assert_eq!(clean_again, clean);
    assert_eq!(catalog_again.bindings.len(), catalog.bindings.len());
    for (again, first) in catalog_again.bindings.iter().zip(catalog.bindings.iter()) {
        assert_eq!(again.description, None);
        assert_eq!(again.trigger, first.trigger);
        assert_eq!(again.action, first.action);
        assert_eq!(again.name, first.name);
        assert_eq!(again.mode, first.mode);
    }
}

#[test]
fn second_pass_over_a_document_without_rules_gives_no_record() {
    let input = parse("{keymap: [{name: Empty, remap: {}}, 3], modmap: nothing, other: [1]}");
    let (clean, catalog) = process_config(&input).unwrap();
    assert_eq!(catalog.bindings.len(), 0);
    assert_eq!(clean, parse("{keymap: [{name: Empty, remap: {}}], modmap: [], other: [1]}"));
    let (clean_again, catalog_again) = process_config(&clean).unwrap();
    assert_eq!(catalog_again.bindings.len(), 0);
    assert_eq!(clean_again, clean);
}

#[test]
fn document_that_is_no_mapping_gives_an_empty_mapping() {
    for input in [Value::Null, text("keymap"), parse("[{keymap: []}]"), Value::Bool(true)] {
        let (clean, catalog) = process_config(&input).unwrap();
        assert_eq!(clean, Value::Mapping(Mapping::new()));
        assert!(catalog.bindings.is_empty());
    }
}

#[test]
fn section_that_is_no_sequence_gives_an_empty_sequence() {
    for items in [Value::Null, text("x"), parse("{remap: {a: b}}")] {
        let (clean, records) = process_keymap_or_modmap(&items);
        assert_eq!(clean, Value::Sequence(vec![]));
        assert!(records.is_empty());
    }
}

#[test]
fn entries_that_are_no_mappings_are_dropped() {
    let items = parse("[1, {name: A, remap: {a: b}}, text, [nested], {name: B}]");
    let (clean, records) = process_keymap_or_modmap(&items);
    assert_eq!(clean, parse("[{name: A, remap: {a: b}}, {name: B}]"));
    assert_eq!(triggers(&records), vec!["a"]);
}

#[test]
fn remap_that_is_no_mapping_gives_an_empty_mapping() {
    for remap in [Value::Null, text("x"), parse("[a, b]")] {
        let (clean, records) = process_remap(&remap, &no_context());
        assert_eq!(clean, Value::Mapping(Mapping::new()));
        assert!(records.is_empty());
    }
    let group = parse("{name: G, remap: [a, b]}");
    let Value::Mapping(group) = group else { panic!("group is a mapping") };
    let (clean, records) = process_group(&group);
    assert_eq!(Value::Mapping(clean), parse("{name: G, remap: {}}"));
    assert!(records.is_empty());
}

#[test]
fn rules_without_a_string_key_are_skipped() {
    let remap = parse("{1: one, a: A, true: yes, [x]: list, b: B, null: none}");
    let (clean, records) = process_remap(&remap, &no_context());
    assert_eq!(clean, parse("{a: A, b: B}"));
    assert_eq!(triggers(&records), vec!["a", "b"]);
}

#[test]
fn keys_of_any_kind_are_kept_outside_remap() {
    let input = parse("{1: one, keymap: [{2: two, remap: {3: three, a: b}}], null: none}");
    let (clean, catalog) = process_config(&input).unwrap();
    assert_eq!(clean, parse("{1: one, keymap: [{2: two, remap: {a: b}}], null: none}"));
    assert_eq!(triggers(&catalog.bindings), vec!["a"]);
}

#[test]
fn scalar_action_has_no_description_and_stays_as_it_is() {
    let remap = parse("{a: Home, b: 7, c: null, d: [x, description]}");
    let (clean, records) = process_remap(&remap, &no_context());
    assert_eq!(clean, remap);
    assert_eq!(records.len(), 4);
    for record in &records {
        assert_eq!(record.description, None);
    }
    assert_eq!(records[1].action, Some(Value::Number(Number::PosInt(7))));
    assert_eq!(records[2].action, Some(Value::Null));
}

#[test]
fn process_remap_copies_the_context_into_every_record() {
    let context = Context {
        name: Some("G".to_string()),
        mode: Some(ModeValue::Single("insert".to_string())),
        application: Some(parse("{only: Firefox}")),
        window: Some(text("w")),
        device: Some(parse("{not: [kbd]}")),
        exact_match: Some(false),
    };
    let remap = parse("{a: A, b: {x: y, description: D}}");
    let (clean, records) = process_remap(&remap, &context);
    assert_eq!(clean, parse("{a: A, b: {x: y}}"));
    assert_eq!(records.len(), 2);
    for record in &records {
        assert_eq!(record.name, context.name);
        assert_eq!(record.mode, context.mode);
        assert_eq!(record.application, context.application);
        assert_eq!(record.window, context.window);
        assert_eq!(record.device, context.device);
        assert_eq!(record.exact_match, context.exact_match);
    }
    assert_eq!(
        records[1],
        CatalogRecord {
            trigger: "b".to_string(),
            description: Some("D".to_string()),
            action: Some(parse("{x: y}")),
            mode: Some(ModeValue::Single("insert".to_string())),
            name: Some("G".to_string()),
            application: Some(parse("{only: Firefox}")),
            window: Some(text("w")),
            device: Some(parse("{not: [kbd]}")),
            exact_match: Some(false),
        }
    );
    assert_eq!(remap, parse("{a: A, b: {x: y, description: D}}"));
}

#[test]
fn context_reads_each_field_in_its_expected_shape() {
    let Value::Mapping(group) = parse(
        r#"
name: Editor
mode: insert
application: {only: [Emacs]}
window: title
device: {not: mouse}
exact_match: true
remap: {a: b}
"#,
    ) else {
        panic!("group is a mapping")
    };
    let before = group.clone();
    let context = Context::from_group(&group);
    assert_eq!(
        context,
        Context {
            name: Some("Editor".to_string()),
            mode: Some(ModeValue::Single("insert".to_string())),
            application: Some(parse("{only: [Emacs]}")),
            window: Some(text("title")),
            device: Some(parse("{not: mouse}")),
            exact_match: Some(true),
        }
    );
    assert_eq!(group, before);
}

#[test]
fn context_fields_of_another_shape_are_absent() {
    let Value::Mapping(group) = parse(
        r#"
name: [not, a, string]
mode: {default: true}
exact_match: "yes"
application: null
"#,
    ) else {
        panic!("group is a mapping")
    };
    let context = Context::from_group(&group);
    assert_eq!(context.name, None);
    assert_eq!(context.mode, None);
    assert_eq!(context.exact_match, None);
    assert_eq!(context.application, Some(Value::Null));
    assert_eq!(context.window, None);
    assert_eq!(context.device, None);

    let Value::Mapping(group) = parse("{name: 5, mode: [default, 2], exact_match: 1}") else {
        panic!("group is a mapping")
    };
    assert_eq!(Context::from_group(&group), no_context());
    assert_eq!(Context::from_group(&Mapping::new()), no_context());
}

#[test]
fn malformed_mode_does_not_stop_the_split() {
    let input = parse("keymap: [{name: N, mode: 3, remap: {a: b}}]");
    let (clean, catalog) = process_config(&input).unwrap();
    assert_eq!(clean, input);
    assert_eq!(catalog.bindings.len(), 1);
    assert_eq!(catalog.bindings[0].mode, None);
    assert_eq!(catalog.bindings[0].name, Some("N".to_string()));
}

#[test]
fn extract_description_leaves_other_shapes_unchanged() {
    for text_in in [
        "just a string",
        "[description, other]",
        "{launch: [xterm]}",
        "{description: 42, launch: [xterm]}",
        "{description: [a, b]}",
        "{description: null}",
        "{Description: wrong case}",
        "12",
        "null",
    ] {
        let mut value = parse(text_in);
        let before = value.clone();
        assert_eq!(extract_description(&mut value), None);
        assert_eq!(value, before);
    }
}

#[test]
fn extract_description_keeps_the_order_of_what_remains() {
    let mut value = parse("{description: D, launch: [a], with: b, then: c}");
    assert_eq!(extract_description(&mut value), Some("D".to_string()));
    assert_eq!(value, parse("{launch: [a], with: b, then: c}"));
    let Value::Mapping(map) = &value else { panic!("still a mapping") };
    assert_eq!(map.entries[0].0, text("launch"));
    assert_eq!(map.entries[1].0, text("with"));
    assert_eq!(map.entries[2].0, text("then"));
    assert_eq!(extract_description(&mut value), None);

    let mut empty_text = parse("{a: b, description: ''}");
    assert_eq!(extract_description(&mut empty_text), Some(String::new()));
    assert_eq!(empty_text, parse("{a: b}"));
}
