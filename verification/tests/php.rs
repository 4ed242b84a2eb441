use std::path::PathBuf;

use behat_lsp::php::{
    collect_classes, collect_classes_from_statements, collect_steps_from_class,
    collect_steps_from_method, extract_first_string_argument, label_of, parse_php, parse_php_file,
    qualify_class_name, step_kind_from_attribute, ParsedStep, PhpArgument, PhpAttribute, PhpClass,
    PhpMember, PhpStatement,
};
use behat_lsp::steps::{step_kind_keyword, StepKind};

const SOURCE: &str = r#"<?php

namespace App\Tests;

use Behat\Step\Given;

final class WebContext
{
    const X = 1;

    #[Given('I am on :page')]
    #[\Behat\Step\When("I \"go\"")]
    public function go(): void {}

    #[Then('it works', 2), Deprecated('no')]
    private function works(): void {}

    #[And]
    #[But(name: 'named')]
    #[Given(12)]
    #[Given()]
    #[Given('a' . 'b')]
    public function none(): void {}
}

interface NotAClass {}

class Second { #[And('twice')] function a() {} #[But('not')] function b() {} }
"#;

fn text(value: Option<&str>, raw: &str) -> PhpArgument {
    PhpArgument::Text { value: value.map(|v| v.to_string()), raw: raw.to_string() }
}

fn attribute(name: &str, arguments: Option<Vec<PhpArgument>>) -> PhpAttribute {
    PhpAttribute { name: name.to_string(), arguments }
}

fn step(name: &str, value: &str) -> PhpAttribute {
    attribute(name, Some(vec![text(Some(value), "raw")]))
}

fn shown(steps: &[ParsedStep]) -> Vec<(String, StepKind)> {
    steps.iter().map(|s| (s.text.clone(), s.kind)).collect()
}

fn expected(list: &[(&str, StepKind)]) -> Vec<(String, StepKind)> {
    list.iter().map(|(text, kind)| (text.to_string(), *kind)).collect()
}

fn parse(source: &str) -> Vec<PhpStatement> {
    parse_php("x.php".to_string(), PathBuf::from("/p/x.php"), source.to_string())
}

#[test]
fn a_php_file_gives_its_classes_and_steps() {
    let file = parse_php_file(
        &PathBuf::from("/p/tests/WebContext.php"),
        &PathBuf::from("/p"),
        SOURCE.to_string(),
    );
    assert_eq!(file.classes.len(), 2);
    assert_eq!(file.classes[0].fqcn, "App\\Tests\\WebContext");
    assert_eq!(
        shown(&file.classes[0].steps),
        expected(&[
            ("I am on :page", StepKind::Given),
            ("I \"go\"", StepKind::When),
            ("it works", StepKind::Then),
        ])
    );
    assert_eq!(file.classes[1].fqcn, "App\\Tests\\Second");
    assert_eq!(
        shown(&file.classes[1].steps),
        expected(&[("twice", StepKind::And), ("not", StepKind::But)])
    );
}

#[test]
fn the_name_of_the_file_does_not_matter() {
    let a = parse_php_file(&PathBuf::from("/a.php"), &PathBuf::from("/"), SOURCE.to_string());
    let b = parse_php_file(&PathBuf::from("b"), &PathBuf::from("/c"), SOURCE.to_string());
    assert_eq!(a.classes.len(), b.classes.len());
    assert_eq!(a.classes[0].fqcn, b.classes[0].fqcn);
    assert_eq!(shown(&a.classes[0].steps), shown(&b.classes[0].steps));
}

#[test]
fn classes_go_by_the_namespace_they_stand_in() {
    let source = "<?php namespace A { class X {} } namespace { class Y {} } namespace B\\C { class Z {} }";
    let classes = collect_classes(&parse(source));
    let names: Vec<&str> = classes.iter().map(|c| c.fqcn.as_str()).collect();
    assert_eq!(names, vec!["A\\X", "Y", "B\\C\\Z"]);
    let classes = collect_classes(&parse("<?php class Alone {} function f() { class Inner {} }"));
    assert_eq!(classes.len(), 1);
    assert_eq!(classes[0].fqcn, "Alone");
}

#[test]
fn a_text_without_php_has_no_classes() {
    assert!(collect_classes(&parse("class X {}")).is_empty());
    assert!(collect_classes(&parse("")).is_empty());
}

#[test]
fn a_broken_file_is_read_as_far_as_it_goes() {
    let classes = collect_classes(&parse("<?php namespace A; class X { #[Given('a')] function f() {} } class {"));
    assert_eq!(classes[0].fqcn, "A\\X");
    assert_eq!(shown(&classes[0].steps), expected(&[("a", StepKind::Given)]));
}

#[test]
fn statements_are_copied() {
    let statements = parse("<?php namespace N\\M; class K { #[A('x')] function f() {} public $p; } echo 1;");
    let inner = statements
        .iter()
        .find_map(|s| match s {
            PhpStatement::Namespace { name, statements } => Some((name.clone(), statements)),
            _ => None,
        })
        .unwrap();
    assert_eq!(inner.0, Some("N\\M".to_string()));
    assert_eq!(inner.1.len(), 2);
    match &inner.1[0] {
        PhpStatement::Class(class) => {
            assert_eq!(class.name, "K");
            assert_eq!(class.members.len(), 2);
            match &class.members[0] {
                PhpMember::Method(lists) => {
                    assert_eq!(lists.len(), 1);
                    assert_eq!(lists[0][0].name, "A");
                    match &lists[0][0].arguments.as_ref().unwrap()[0] {
                        PhpArgument::Text { value, raw } => {
                            assert_eq!(value.as_deref(), Some("x"));
                            assert_eq!(raw, "'x'");
                        }
                        PhpArgument::Other => panic!("no text"),
                    }
                }
                PhpMember::Other => panic!("no method"),
            }
            assert!(matches!(class.members[1], PhpMember::Other));
        }
        _ => panic!("no class"),
    }
    assert!(matches!(inner.1[1], PhpStatement::Other));
}

#[test]
fn kinds_go_by_the_last_part_of_the_name() {
    let kind = |name: &str| step_kind_from_attribute(&attribute(name, None));
    assert_eq!(kind("Given"), Some(StepKind::Given));
    assert_eq!(kind("Behat\\Step\\When"), Some(StepKind::When));
    assert_eq!(kind("\\Then"), Some(StepKind::Then));
    assert_eq!(kind("And"), Some(StepKind::And));
    assert_eq!(kind("But"), Some(StepKind::But));
    assert_eq!(kind("given"), None);
    assert_eq!(kind("Given\\"), None);
    assert_eq!(kind("Given\\Other"), None);
    assert_eq!(kind("XGiven"), None);
    assert_eq!(kind(""), None);
}

#[test]
fn the_first_argument_gives_the_text() {
    let first = |arguments| extract_first_string_argument(&attribute("Given", arguments));
    assert_eq!(first(Some(vec![text(Some("v"), "r"), text(Some("w"), "s")])), Some("v".to_string()));
    assert_eq!(first(Some(vec![text(None, "r")])), Some("r".to_string()));
    assert_eq!(first(Some(vec![PhpArgument::Other, text(Some("v"), "r")])), None);
    assert_eq!(first(Some(Vec::new())), None);
    assert_eq!(first(None), None);
}

#[test]
fn steps_come_in_the_order_of_attributes_and_members() {
    let lists = vec![
        vec![step("Given", "a"), step("Other", "no"), step("Then", "b")],
        Vec::new(),
        vec![step("But", "c"), attribute("And", None)],
    ];
    let mut out = Vec::new();
    collect_steps_from_method(&lists, &mut out);
    assert_eq!(
        shown(&out),
        expected(&[("a", StepKind::Given), ("b", StepKind::Then), ("c", StepKind::But)])
    );
    let class = PhpClass {
        name: "X".to_string(),
        members: vec![
            PhpMember::Method(vec![vec![step("When", "1")]]),
            PhpMember::Other,
            PhpMember::Method(vec![vec![step("And", "2")]]),
        ],
    };
    assert_eq!(
        shown(&collect_steps_from_class(&class)),
        expected(&[("1", StepKind::When), ("2", StepKind::And)])
    );
}

#[test]
fn class_names_are_qualified() {
    assert_eq!(qualify_class_name(Some("A\\B"), "C"), "A\\B\\C");
    assert_eq!(qualify_class_name(Some(""), "C"), "C");
    assert_eq!(qualify_class_name(None, "C"), "C");
}

#[test]
fn a_namespace_inside_hides_the_one_outside() {
    let class = |name: &str| PhpStatement::Class(PhpClass { name: name.to_string(), members: Vec::new() });
    let statements = vec![
        class("X"),
        PhpStatement::Namespace { name: Some("In".to_string()), statements: vec![class("Y")] },
        PhpStatement::Namespace { name: None, statements: vec![class("Z")] },
        PhpStatement::Other,
    ];
    let mut out = Vec::new();
    collect_classes_from_statements(&statements, Some("Out"), &mut out);
    let names: Vec<&str> = out.iter().map(|c| c.fqcn.as_str()).collect();
    assert_eq!(names, vec!["Out\\X", "In\\Y", "Z"]);
}

#[test]
fn a_file_is_labelled_by_where_it_lies() {
    let label = |path: &str, root: &str| label_of(&PathBuf::from(path), &PathBuf::from(root));
    assert_eq!(label("/p/src/A.php", "/p"), "src/A.php");
    assert_eq!(label("/q/A.php", "/p"), "/q/A.php");
}

#[test]
fn a_step_is_written_with_the_word_of_its_attribute() {
    for word in ["Given", "When", "Then", "And", "But"] {
        let name = format!("Behat\\Step\\{word}");
        let kind = step_kind_from_attribute(&attribute(name.as_str(), None)).unwrap();
        assert_eq!(step_kind_keyword(kind), word);
    }
}
