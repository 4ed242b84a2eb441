use behat_lsp::snippet::{
    build_step_snippet, build_step_snippet_inner, is_simple_regex_placeholder,
    strip_regex_wrappers,
};

fn both(text: &str) -> (String, String) {
    build_step_snippet(text)
}

fn pair(plain: &str, snippet: &str) -> (String, String) {
    (plain.to_string(), snippet.to_string())
}

#[test]
fn plain_text_stands_for_itself() {
    assert_eq!(both("I wait"), pair("I wait", "I wait"));
    assert_eq!(both(""), pair("", ""));
}

#[test]
fn names_become_placeholders() {
    assert_eq!(
        both("I have :count items in :place_2"),
        pair("I have <count> items in <place_2>", "I have ${1:count} items in ${2:place_2}")
    );
}

#[test]
fn a_colon_without_a_name_stays() {
    assert_eq!(both("the time: 10:"), pair("the time: 10:", "the time: 10:"));
    assert_eq!(both("a::b"), pair("a:<b>", "a:${1:b}"));
    assert_eq!(both(":é"), pair(":é", ":é"));
}

#[test]
fn simple_groups_become_params() {
    assert_eq!(
        both("/^I see \"([^\"]*)\" and (.*)$/"),
        pair("^I see \"<param>\" and <param>$", "^I see \"${1:param}\" and ${2:param}$")
    );
    assert_eq!(both("(?:a|b)"), pair("<param>", "${1:param}"));
    assert_eq!(both("(?P<name>x)"), pair("<param>", "${1:param}"));
    assert_eq!(both("( .+ )"), pair("<param>", "${1:param}"));
}

#[test]
fn other_groups_stand_for_what_they_hold() {
    assert_eq!(both("I (can see :x)"), pair("I can see <x>", "I can see ${1:x}"));
    assert_eq!(both("( a (b) )c"), pair("a bc", "a bc"));
    assert_eq!(both(":a (x (.*) :b) :c"), pair(
        "<a> x <param> <b> <c>",
        "${1:a} x ${2:param} ${3:b} ${4:c}",
    ));
}

#[test]
fn a_group_may_stay_open() {
    assert_eq!(both("a (b"), pair("a b", "a b"));
    assert_eq!(both("a (.*"), pair("a <param>", "a ${1:param}"));
    assert_eq!(both("a) b"), pair("a) b", "a) b"));
    assert_eq!(both("()"), pair("", ""));
}

#[test]
fn delimiters_go_only_at_the_outside() {
    assert_eq!(both("#I go#"), pair("I go", "I go"));
    assert_eq!(both("  /I go/  "), pair("I go", "I go"));
    assert_eq!(both("(/x/)"), pair("/x/", "/x/"));
    assert_eq!(both("/I go#"), pair("/I go#", "/I go#"));
}

#[test]
fn wrappers_are_stripped() {
    assert_eq!(strip_regex_wrappers("/a/"), Some("a".to_string()));
    assert_eq!(strip_regex_wrappers(" #a b# "), Some("a b".to_string()));
    assert_eq!(strip_regex_wrappers("//"), Some(String::new()));
    assert_eq!(strip_regex_wrappers("/"), None);
    assert_eq!(strip_regex_wrappers(""), None);
    assert_eq!(strip_regex_wrappers("/a#"), None);
    assert_eq!(strip_regex_wrappers("~a~"), None);
    assert_eq!(strip_regex_wrappers("/a/i"), None);
    assert_eq!(strip_regex_wrappers("é"), None);
}

#[test]
fn unwrapping_undoes_wrapping() {
    assert_eq!(strip_regex_wrappers("/ a /"), Some(" a ".to_string()));
    assert_eq!(strip_regex_wrappers("#/x/#"), Some("/x/".to_string()));
}

#[test]
fn groups_for_any_value_are_known() {
    for text in [".*", ".+", "[^)]*", "[^\"]*", "[^']*", "[^ ]*", "[^/]*", "?:x", "?P<n>x", " .* "] {
        assert!(is_simple_regex_placeholder(text), "{text}");
    }
    for text in ["", "*", ".", "[^x]*", "?", "?P", "a?:", "\\d+"] {
        assert!(!is_simple_regex_placeholder(text), "{text}");
    }
}

#[test]
fn numbering_goes_on_from_the_given_number() {
    let (plain, snippet, next) = build_step_snippet_inner(":a :b", 7, true);
    assert_eq!(plain, "<a> <b>");
    assert_eq!(snippet, "${7:a} ${8:b}");
    assert_eq!(next, 9);
    let (plain, snippet, next) = build_step_snippet_inner("/:a/", 1, false);
    assert_eq!(plain, "/<a>/");
    assert_eq!(snippet, "/${1:a}/");
    assert_eq!(next, 2);
}

#[test]
fn parts_can_be_put_together() {
    let (plain_a, snippet_a, next) = build_step_snippet_inner("x :a (.*) ", 1, false);
    let (plain_b, snippet_b, _) = build_step_snippet_inner(":b y", next, false);
    let (plain, snippet) = both("x :a (.*) :b y");
    assert_eq!(plain, format!("{plain_a}{plain_b}"));
    assert_eq!(snippet, format!("{snippet_a}{snippet_b}"));
}

#[test]
fn more_than_nine_tab_stops() {
    let (_, snippet) = both(":a:a:a:a:a:a:a:a:a:a:a");
    assert!(snippet.ends_with("${9:a}${10:a}${11:a}"));
}

#[test]
fn there_is_at_most_one_tab_stop_for_two_characters() {
    for text in [":a:b:c", "(.*)(.*)", "::::", "(((:a)))", ""] {
        let (_, _, next) = build_step_snippet_inner(text, 1, false);
        assert!(2 * (next - 1) <= text.chars().count(), "{text}");
    }
}
