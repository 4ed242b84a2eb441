use behat_lsp::contexts::{
    collect_contexts, context_set, index_contexts, normalize_class_name, read_contexts,
};
use behat_lsp::yaml::{parse_yaml, Yaml, YamlError};

const CONFIGURATION: &str = "
default:
  suites:
    web:
      contexts:
        - App\\Tests\\WebContext
        - \\App\\Tests\\LoginContext:
            - '@session'
        - 12
        - [ignored]
    api:
      contexts:
        - App\\Tests\\WebContext
      filters:
        contexts: notalist
other:
  - contexts: [Last]
";

fn names(list: &[&str]) -> Vec<String> {
    list.iter().map(|name| name.to_string()).collect()
}

#[test]
fn contexts_are_read_in_document_order() {
    let found = read_contexts(CONFIGURATION).unwrap();
    assert_eq!(
        found,
        names(&[
            "App\\Tests\\WebContext",
            "\\App\\Tests\\LoginContext",
            "App\\Tests\\WebContext",
            "Last",
        ])
    );
}

#[test]
fn contexts_inside_contexts_are_found_too() {
    let found = read_contexts("contexts:\n  - A:\n      contexts: [B]\n  - C\n").unwrap();
    assert_eq!(found, names(&["A", "C", "B"]));
}

#[test]
fn a_text_that_is_no_yaml_is_an_error() {
    assert_eq!(read_contexts("a: [").unwrap_err(), YamlError::Invalid);
    assert_eq!(parse_yaml("a: b: c").unwrap_err(), YamlError::Invalid);
}

#[test]
fn yaml_values_are_told_apart() {
    let value = parse_yaml("a: [x, 1, null, {y: z}]\n").unwrap();
    match value {
        Yaml::Mapping(entries) => {
            assert_eq!(entries.len(), 1);
            assert!(matches!(&entries[0].0, Yaml::Text(text) if text == "a"));
            match &entries[0].1 {
                Yaml::Sequence(items) => {
                    assert_eq!(items.len(), 4);
                    assert!(matches!(&items[0], Yaml::Text(text) if text == "x"));
                    assert!(matches!(&items[1], Yaml::Other));
                    assert!(matches!(&items[2], Yaml::Other));
                    assert!(matches!(&items[3], Yaml::Mapping(inner) if inner.len() == 1));
                }
                _ => panic!("no sequence"),
            }
        }
        _ => panic!("no mapping"),
    }
}

#[test]
fn contexts_are_collected_from_a_value() {
    let value = Yaml::Mapping(vec![(
        Yaml::Text("contexts".to_string()),
        Yaml::Sequence(vec![
            Yaml::Text("A".to_string()),
            Yaml::Mapping(vec![
                (Yaml::Text("B".to_string()), Yaml::Other),
                (Yaml::Other, Yaml::Text("no".to_string())),
            ]),
            Yaml::Other,
        ]),
    )]);
    let mut out = names(&["first"]);
    collect_contexts(&value, &mut out);
    assert_eq!(out, names(&["first", "A", "B"]));
}

#[test]
fn each_context_counts_once() {
    let set = context_set(&names(&["\\A", "B", "A", "\\\\B", "C"]));
    assert_eq!(set, names(&["A", "B", "C"]));
    assert_eq!(context_set(&set), set);
}

#[test]
fn a_project_without_configuration_has_no_contexts() {
    assert_eq!(index_contexts(None), Vec::<String>::new());
    assert_eq!(index_contexts(Some("a: [")), Vec::<String>::new());
    assert_eq!(index_contexts(Some("default: {}")), Vec::<String>::new());
    assert_eq!(
        index_contexts(Some(CONFIGURATION)),
        names(&["App\\Tests\\WebContext", "App\\Tests\\LoginContext", "Last"])
    );
}

#[test]
fn class_names_are_normalized() {
    assert_eq!(normalize_class_name("\\App\\Foo"), "App\\Foo");
    assert_eq!(normalize_class_name("App\\Foo"), "App\\Foo");
}
