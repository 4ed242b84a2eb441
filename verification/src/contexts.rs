//! The context classes that a Behat configuration names.

use vstd::prelude::*;

use crate::text::{contains_text, same_text, strip_leading_backslashes};
use crate::yaml::{parse_yaml, Yaml, YamlError};

verus! {

use crate::text::{lemma_without_leading_backslashes_idempotent, without_leading_backslashes};
use crate::yaml::{yaml_parsed, yaml_tree, YamlTree};

/// The keys of a mapping that are text.
pub open spec fn text_keys(entries: Seq<(YamlTree, YamlTree)>) -> Seq<Seq<char>> {
    entries.filter_map(
        |e: (YamlTree, YamlTree)|
            match e.0 {
                YamlTree::Text(name) => Some(name),
                _ => None,
            },
    )
}

/// The classes that one item of a list of contexts names: the item itself, or the keys of a
/// mapping from class to arguments.
pub open spec fn item_classes(item: YamlTree) -> Seq<Seq<char>> {
    match item {
        YamlTree::Text(name) => seq![name],
        YamlTree::Mapping(entries) => text_keys(entries),
        _ => Seq::empty(),
    }
}

/// The classes that the items of a list of contexts name.
pub open spec fn listed_classes(items: Seq<YamlTree>) -> Seq<Seq<char>> {
    items.flat_map(|item: YamlTree| item_classes(item))
}

/// The classes that an entry of a mapping names, where it is a list of contexts.
pub open spec fn entry_classes(key: YamlTree, value: YamlTree) -> Seq<Seq<char>> {
    match (key, value) {
        (YamlTree::Text(name), YamlTree::Sequence(items)) => if name == "contexts"@ {
            listed_classes(items)
        } else {
            Seq::empty()
        },
        _ => Seq::empty(),
    }
}

/// The classes that the lists of contexts anywhere in a document name, in document order.
pub open spec fn context_classes(tree: YamlTree) -> Seq<Seq<char>>
    decreases tree,
{
    match tree {
        YamlTree::Mapping(entries) => mapping_classes(entries),
        YamlTree::Sequence(items) => sequence_classes(items),
        _ => Seq::empty(),
    }
}

/// The classes that the lists of contexts in the entries of a mapping name.
pub open spec fn mapping_classes(entries: Seq<(YamlTree, YamlTree)>) -> Seq<Seq<char>>
    decreases entries,
{
    if entries.len() == 0 {
        Seq::empty()
    } else {
        let (key, value) = entries[entries.len() - 1];
        mapping_classes(entries.subrange(0, entries.len() - 1)) + entry_classes(key, value)
            + context_classes(entries[entries.len() - 1].1)
    }
}

/// The classes that the lists of contexts in the items of a sequence name.
pub open spec fn sequence_classes(items: Seq<YamlTree>) -> Seq<Seq<char>>
    decreases items,
{
    if items.len() == 0 {
        Seq::empty()
    } else {
        sequence_classes(items.subrange(0, items.len() - 1)) + context_classes(
            items[items.len() - 1],
        )
    }
}

/// The names of `classes` without leading backslashes.
pub open spec fn normalized_names(classes: Seq<Seq<char>>) -> Seq<Seq<char>> {
    classes.map_values(|name: Seq<char>| without_leading_backslashes(name))
}

/// `names` with only the first of those that are the same.
pub open spec fn distinct_names(names: Seq<Seq<char>>) -> Seq<Seq<char>>
    decreases names.len(),
{
    if names.len() == 0 {
        names
    } else {
        let kept = distinct_names(names.drop_last());
        if kept.contains(names.last()) {
            kept
        } else {
            kept.push(names.last())
        }
    }
}

/// The classes that a configuration names as contexts: none, where there is no configuration or it
/// is not a YAML document.
pub open spec fn named_classes(configuration: Option<Seq<char>>) -> Seq<Seq<char>> {
    match configuration {
        None => Seq::empty(),
        Some(text) => match yaml_parsed(text) {
            None => Seq::empty(),
            Some(tree) => context_classes(tree),
        },
    }
}

/// The contexts that a project has, given its configuration.
pub open spec fn configured_contexts(configuration: Option<Seq<char>>) -> Seq<Seq<char>> {
    distinct_names(normalized_names(named_classes(configuration)))
}

/// Whether two configurations name the same contexts, in whatever order, however often and with
/// however many backslashes before them.
pub open spec fn names_same_contexts(a: Option<Seq<char>>, b: Option<Seq<char>>) -> bool {
    forall|name: Seq<char>|
        normalized_names(named_classes(a)).contains(name) <==> normalized_names(
            named_classes(b),
        ).contains(name)
}

/// No name stands twice in `distinct_names`, and each name of the argument stands in it.
pub proof fn lemma_distinct_names(names: Seq<Seq<char>>)
    ensures
        distinct_names(names).no_duplicates(),
        forall|name: Seq<char>| distinct_names(names).contains(name) <==> names.contains(name),
    decreases names.len(),
{
    if names.len() > 0 {
        let init = names.drop_last();
        let kept = distinct_names(init);
        lemma_distinct_names(init);
        assert forall|name: Seq<char>| distinct_names(names).contains(name) <==> names.contains(
            name,
        ) by {
            if names.contains(name) {
                let i = choose|i: int| 0 <= i < names.len() && names[i] == name;
                if i < init.len() {
                    assert(init[i] == name);
                    assert(init.contains(name));
                    assert(kept.contains(name));
                    let k = choose|k: int| 0 <= k < kept.len() && kept[k] == name;
                    assert(distinct_names(names)[k] == name);
                } else if !kept.contains(name) {
                    assert(distinct_names(names)[kept.len() as int] == name);
                }
            }
            if distinct_names(names).contains(name) {
                let k = choose|k: int|
                    0 <= k < distinct_names(names).len() && distinct_names(names)[k] == name;
                if k < kept.len() {
                    assert(kept[k] == name);
                    assert(init.contains(name));
                    let i = choose|i: int| 0 <= i < init.len() && init[i] == name;
                    assert(names[i] == name);
                } else {
                    assert(names[names.len() - 1] == name);
                }
            }
        }
    }
}

/// The contexts of a project are distinct, and none of them starts with a backslash.
pub proof fn lemma_configured_contexts(configuration: Option<Seq<char>>)
    ensures
        configured_contexts(configuration).no_duplicates(),
        forall|i: int|
            0 <= i < configured_contexts(configuration).len() ==> without_leading_backslashes(
                #[trigger] configured_contexts(configuration)[i],
            ) == configured_contexts(configuration)[i],
{
    let classes = named_classes(configuration);
    let names = normalized_names(classes);
    lemma_distinct_names(names);
    assert forall|i: int| 0 <= i < distinct_names(names).len() implies without_leading_backslashes(
        #[trigger] distinct_names(names)[i],
    ) == distinct_names(names)[i] by {
        assert(distinct_names(names).contains(distinct_names(names)[i]));
        assert(names.contains(distinct_names(names)[i]));
        let k = choose|k: int| 0 <= k < names.len() && names[k] == distinct_names(names)[i];
        lemma_without_leading_backslashes_idempotent(classes[k]);
    }
}

/// Configurations that name the same contexts give a project the same contexts.
pub proof fn lemma_same_contexts(
    a: Option<Seq<char>>,
    b: Option<Seq<char>>,
    context: Seq<char>,
)
    requires
        names_same_contexts(a, b),
    ensures
        configured_contexts(a).contains(context) <==> configured_contexts(b).contains(context),
{
    let names_a = normalized_names(named_classes(a));
    let names_b = normalized_names(named_classes(b));
    lemma_distinct_names(names_a);
    lemma_distinct_names(names_b);
    assert(names_a.contains(context) <==> names_b.contains(context));
    assert(distinct_names(names_a).contains(context) <==> names_a.contains(context));
    assert(distinct_names(names_b).contains(context) <==> names_b.contains(context));
}

/// A class name without leading backslashes.
pub fn normalize_class_name(name: &str) -> (r: String)
    ensures
        r@ == without_leading_backslashes(name@),
{
    strip_leading_backslashes(name)
}

/// Appends the classes that the items of a list of contexts name.
fn collect_listed(items: &Vec<Yaml>, out: &mut Vec<String>)
    ensures
        final(out).deep_view() == old(out).deep_view() + listed_classes(
            yaml_tree(Yaml::Sequence(*items))->Sequence_0,
        ),
{
    let ghost trees = yaml_tree(Yaml::Sequence(*items))->Sequence_0;
    let ghost classes = |item: YamlTree| item_classes(item);
    let mut i: usize = 0;
    assert(trees.take(0) =~= Seq::empty());
    assert(out.deep_view() =~= old(out).deep_view() + listed_classes(trees.take(0)));
    while i < items.len()
        invariant
            i <= items@.len(),
            trees == yaml_tree(Yaml::Sequence(*items))->Sequence_0,
            trees.len() == items@.len(),
            classes == (|item: YamlTree| item_classes(item)),
            out.deep_view() == old(out).deep_view() + listed_classes(trees.take(i as int)),
        decreases items@.len() - i,
    {
        let ghost before = out.deep_view();
        assert(trees[i as int] == yaml_tree(items@[i as int]));
        match &items[i] {
            Yaml::Text(name) => {
                out.push(name.clone());
                assert(out.deep_view() =~= before + seq![name@]);
            },
            Yaml::Mapping(entries) => {
                let ghost keys = yaml_tree(items@[i as int])->Mapping_0;
                let ghost key_text = |e: (YamlTree, YamlTree)|
                    match e.0 {
                        YamlTree::Text(name) => Some(name),
                        _ => None,
                    };
                let mut k: usize = 0;
                assert(keys.take(0) =~= Seq::empty());
                assert(out.deep_view() =~= before + keys.take(0).filter_map(key_text));
                while k < entries.len()
                    invariant
                        i < items@.len(),
                        items@[i as int] == Yaml::Mapping(*entries),
                        keys == yaml_tree(items@[i as int])->Mapping_0,
                        key_text == (|e: (YamlTree, YamlTree)|
                            match e.0 {
                                YamlTree::Text(name) => Some(name),
                                _ => None,
                            }),
                        k <= entries@.len(),
                        keys.len() == entries@.len(),
                        out.deep_view() == before + keys.take(k as int).filter_map(key_text),
                    decreases entries@.len() - k,
                {
                    let ghost inner = out.deep_view();
                    proof {
                        keys.lemma_filter_map_take_succ(key_text, k as int);
                        assert(keys[k as int].0 == yaml_tree(entries@[k as int].0));
                    }
                    if let Yaml::Text(name) = &entries[k].0 {
                        out.push(name.clone());
                        assert(out.deep_view() =~= inner + seq![name@]);
                    }
                    k += 1;
                    assert(out.deep_view() =~= before + keys.take(k as int).filter_map(key_text));
                }
                assert(keys.take(k as int) =~= keys);
                assert(out.deep_view() == before + text_keys(keys));
            },
            _ => {
                assert(out.deep_view() =~= before + Seq::empty());
            },
        }
        proof {
            assert(out.deep_view() == before + item_classes(trees[i as int]));
            trees.lemma_flat_map_take_append(classes, i as int);
        }
        i += 1;
        assert(out.deep_view() =~= old(out).deep_view() + listed_classes(trees.take(i as int)));
    }
    assert(trees.take(i as int) =~= trees);
}

/// Appends the classes that the lists of contexts anywhere in `value` name.
pub fn collect_contexts(value: &Yaml, out: &mut Vec<String>)
    ensures
        final(out).deep_view() == old(out).deep_view() + context_classes(yaml_tree(*value)),
    decreases value,
{
    match value {
        Yaml::Mapping(entries) => {
            let ghost trees = yaml_tree(*value)->Mapping_0;
            let mut i: usize = 0;
            assert(out.deep_view() =~= old(out).deep_view() + mapping_classes(
                trees.subrange(0, 0),
            ));
            while i < entries.len()
                invariant
                    i <= entries@.len(),
                    *value == Yaml::Mapping(*entries),
                    trees == yaml_tree(*value)->Mapping_0,
                    trees.len() == entries@.len(),
                    out.deep_view() == old(out).deep_view() + mapping_classes(
                        trees.subrange(0, i as int),
                    ),
                decreases entries@.len() - i,
            {
                let ghost before = out.deep_view();
                assert(trees[i as int] == (
                    yaml_tree(entries@[i as int].0),
                    yaml_tree(entries@[i as int].1),
                ));
                if let Yaml::Text(key) = &entries[i].0 {
                    if same_text(key.as_str(), "contexts") {
                        if let Yaml::Sequence(items) = &entries[i].1 {
                            collect_listed(items, out);
                        }
                    }
                }
                assert(out.deep_view() =~= before + entry_classes(
                    trees[i as int].0,
                    trees[i as int].1,
                ));
                collect_contexts(&entries[i].1, out);
                proof {
                    let upto = trees.subrange(0, i + 1);
                    assert(upto.subrange(0, upto.len() - 1) =~= trees.subrange(0, i as int));
                    assert(upto[upto.len() - 1] == trees[i as int]);
                    assert(out.deep_view() =~= old(out).deep_view() + mapping_classes(upto));
                }
                i += 1;
            }
            assert(trees.subrange(0, i as int) =~= trees);
        },
        Yaml::Sequence(items) => {
            let ghost trees = yaml_tree(*value)->Sequence_0;
            let mut i: usize = 0;
            assert(out.deep_view() =~= old(out).deep_view() + sequence_classes(
                trees.subrange(0, 0),
            ));
            while i < items.len()
                invariant
                    i <= items@.len(),
                    *value == Yaml::Sequence(*items),
                    trees == yaml_tree(*value)->Sequence_0,
                    trees.len() == items@.len(),
                    out.deep_view() == old(out).deep_view() + sequence_classes(
                        trees.subrange(0, i as int),
                    ),
                decreases items@.len() - i,
            {
                assert(trees[i as int] == yaml_tree(items@[i as int]));
                collect_contexts(&items[i], out);
                proof {
                    let upto = trees.subrange(0, i + 1);
                    assert(upto.subrange(0, upto.len() - 1) =~= trees.subrange(0, i as int));
                    assert(upto[upto.len() - 1] == trees[i as int]);
                    assert(out.deep_view() =~= old(out).deep_view() + sequence_classes(upto));
                }
                i += 1;
            }
            assert(trees.subrange(0, i as int) =~= trees);
        },
        _ => {
            assert(out.deep_view() =~= old(out).deep_view() + Seq::empty());
        },
    }
}

/// The classes that a Behat configuration names as contexts, in document order.
pub fn read_contexts(configuration: &str) -> (classes: Result<Vec<String>, YamlError>)
    ensures
        classes is Ok <==> yaml_parsed(configuration@) is Some,
        classes matches Ok(names) ==> names.deep_view() == context_classes(
            yaml_parsed(configuration@)->0,
        ),
{
    match parse_yaml(configuration) {
        Ok(value) => {
            let mut out: Vec<String> = Vec::new();
            collect_contexts(&value, &mut out);
            assert(out.deep_view() =~= context_classes(yaml_tree(value)));
            Ok(out)
        },
        Err(error) => Err(error),
    }
}

/// The names of `classes` without leading backslashes, each once, in the order in which they
/// first come up.
pub fn context_set(classes: &Vec<String>) -> (names: Vec<String>)
    ensures
        names.deep_view() == distinct_names(normalized_names(classes.deep_view())),
{
    let ghost all = normalized_names(classes.deep_view());
    let mut names: Vec<String> = Vec::new();
    let mut i: usize = 0;
    assert(names.deep_view() =~= distinct_names(all.take(0)));
    while i < classes.len()
        invariant
            i <= classes@.len(),
            all == normalized_names(classes.deep_view()),
            names.deep_view() == distinct_names(all.take(i as int)),
        decreases classes@.len() - i,
    {
        let ghost before = names.deep_view();
        let name = normalize_class_name(classes[i].as_str());
        assert(all.take(i + 1).drop_last() =~= all.take(i as int));
        assert(all.take(i + 1).last() == name@);
        if !contains_text(&names, name.as_str()) {
            names.push(name);
            assert(names.deep_view() =~= before.push(all[i as int]));
        }
        i += 1;
    }
    assert(all.take(i as int) =~= all);
    names
}

/// The contexts that a project has, given the text of its configuration, or nothing where it
/// cannot be read.
pub fn index_contexts(configuration: Option<&str>) -> (names: Vec<String>)
    ensures
        names.deep_view() == configured_contexts(configuration.deep_view()),
{
    match configuration {
        Some(text) => match read_contexts(text) {
            Ok(classes) => context_set(&classes),
            Err(_) => {
                let names: Vec<String> = Vec::new();
                assert(names.deep_view() =~= configured_contexts(Some(text@)));
                names
            },
        },
        None => {
            let names: Vec<String> = Vec::new();
            assert(names.deep_view() =~= configured_contexts(None));
            names
        },
    }
}

} // verus!
