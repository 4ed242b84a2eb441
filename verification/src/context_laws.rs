//! Which contexts a configuration names.

use vstd::prelude::*;

verus! {

use crate::contexts::{
    configured_contexts, context_classes, distinct_names, entry_classes, item_classes,
    lemma_distinct_names, listed_classes, mapping_classes, named_classes, normalized_names,
    sequence_classes, text_keys,
};
use crate::sequences::{lemma_filter_map_add, lemma_flat_map_add, lemma_flat_map_one};
use crate::text::without_leading_backslashes;
use crate::text_laws::{is_stripped, lemma_stripped};
use crate::yaml::{yaml_parsed, YamlTree};

/// Contexts named in parts of a document in a row are named in that order, each as often as it is.
pub proof fn lemma_contexts_in_order(
    entries_a: Seq<(YamlTree, YamlTree)>,
    entries_b: Seq<(YamlTree, YamlTree)>,
    items_a: Seq<YamlTree>,
    items_b: Seq<YamlTree>,
)
    ensures
        context_classes(YamlTree::Mapping(entries_a + entries_b)) == context_classes(
            YamlTree::Mapping(entries_a),
        ) + context_classes(YamlTree::Mapping(entries_b)),
        context_classes(YamlTree::Sequence(items_a + items_b)) == context_classes(
            YamlTree::Sequence(items_a),
        ) + context_classes(YamlTree::Sequence(items_b)),
        listed_classes(items_a + items_b) == listed_classes(items_a) + listed_classes(items_b),
        text_keys(entries_a + entries_b) == text_keys(entries_a) + text_keys(entries_b),
{
    lemma_mapping_add(entries_a, entries_b);
    lemma_sequence_add(items_a, items_b);
    lemma_flat_map_add(items_a, items_b, |item: YamlTree| item_classes(item));
    lemma_filter_map_add(
        entries_a,
        entries_b,
        |e: (YamlTree, YamlTree)|
            match e.0 {
                YamlTree::Text(name) => Some(name),
                _ => None,
            },
    );
}

proof fn lemma_mapping_add(a: Seq<(YamlTree, YamlTree)>, b: Seq<(YamlTree, YamlTree)>)
    ensures
        mapping_classes(a + b) == mapping_classes(a) + mapping_classes(b),
    decreases b.len(),
{
    let all = a + b;
    if b.len() == 0 {
        assert(all =~= a);
        assert(mapping_classes(a) + mapping_classes(b) =~= mapping_classes(a));
    } else {
        let init = b.subrange(0, b.len() - 1);
        lemma_mapping_add(a, init);
        assert(all.subrange(0, all.len() - 1) =~= a + init);
        assert(all[all.len() - 1] == b[b.len() - 1]);
        assert(mapping_classes(all) =~= mapping_classes(a) + mapping_classes(b));
    }
}

proof fn lemma_sequence_add(a: Seq<YamlTree>, b: Seq<YamlTree>)
    ensures
        sequence_classes(a + b) == sequence_classes(a) + sequence_classes(b),
    decreases b.len(),
{
    let all = a + b;
    if b.len() == 0 {
        assert(all =~= a);
        assert(sequence_classes(a) + sequence_classes(b) =~= sequence_classes(a));
    } else {
        let init = b.subrange(0, b.len() - 1);
        lemma_sequence_add(a, init);
        assert(all.subrange(0, all.len() - 1) =~= a + init);
        assert(all[all.len() - 1] == b[b.len() - 1]);
        assert(sequence_classes(all) =~= sequence_classes(a) + sequence_classes(b));
    }
}

/// A list under the key `contexts` names the contexts of its items, and whatever stands under a key
/// or in a sequence is looked through too. Nothing else names contexts.
pub proof fn lemma_contexts_of_one(
    key: YamlTree,
    value: YamlTree,
    items: Seq<YamlTree>,
    text: Seq<char>,
)
    ensures
        context_classes(
            YamlTree::Mapping(
                seq![
                    (
                        YamlTree::Text(seq!['c', 'o', 'n', 't', 'e', 'x', 't', 's']),
                        YamlTree::Sequence(items),
                    ),
                ],
            ),
        ) == listed_classes(items) + context_classes(YamlTree::Sequence(items)),
        (key != YamlTree::Text(seq!['c', 'o', 'n', 't', 'e', 'x', 't', 's']) || !(
        value is Sequence)) ==> context_classes(YamlTree::Mapping(seq![(key, value)]))
            == context_classes(value),
        context_classes(YamlTree::Sequence(seq![value])) == context_classes(value),
        context_classes(YamlTree::Mapping(Seq::empty())) == Seq::<Seq<char>>::empty(),
        context_classes(YamlTree::Sequence(Seq::empty())) == Seq::<Seq<char>>::empty(),
        context_classes(YamlTree::Text(text)) == Seq::<Seq<char>>::empty(),
        context_classes(YamlTree::Other) == Seq::<Seq<char>>::empty(),
{
    reveal_strlit("contexts");
    let word = seq!['c', 'o', 'n', 't', 'e', 'x', 't', 's'];
    assert("contexts"@ =~= word);
    lemma_one_entry(YamlTree::Text(word), YamlTree::Sequence(items));
    lemma_one_entry(key, value);
    if key != YamlTree::Text(word) || !(value is Sequence) {
        assert(entry_classes(key, value) =~= Seq::empty());
        assert(entry_classes(key, value) + context_classes(value) =~= context_classes(value));
    }
    let single = seq![value];
    assert(single.subrange(0, 0) =~= Seq::empty());
    assert(sequence_classes(single.subrange(0, 0)) =~= Seq::empty());
    assert(sequence_classes(single) =~= context_classes(value));
}

proof fn lemma_one_entry(key: YamlTree, value: YamlTree)
    ensures
        context_classes(YamlTree::Mapping(seq![(key, value)])) == entry_classes(key, value)
            + context_classes(value),
{
    let entry = (key, value);
    let single = seq![entry];
    assert(single.subrange(0, 0) =~= Seq::empty());
    assert(mapping_classes(single.subrange(0, 0)) =~= Seq::empty());
    assert(single[single.len() - 1] == entry);
    assert(mapping_classes(single) =~= entry_classes(key, value) + context_classes(value));
}

/// An item of a list of contexts names a class as a text, or as the keys of a mapping that are
/// texts. Any other item names none.
pub proof fn lemma_listed_item(
    name: Seq<char>,
    entries: Seq<(YamlTree, YamlTree)>,
    items: Seq<YamlTree>,
    key: YamlTree,
    value: YamlTree,
)
    ensures
        listed_classes(seq![YamlTree::Text(name)]) == seq![name],
        listed_classes(seq![YamlTree::Mapping(entries)]) == text_keys(entries),
        listed_classes(seq![YamlTree::Sequence(items)]) == Seq::<Seq<char>>::empty(),
        listed_classes(seq![YamlTree::Other]) == Seq::<Seq<char>>::empty(),
        text_keys(seq![(YamlTree::Text(name), value)]) == seq![name],
        !(key is Text) ==> text_keys(seq![(key, value)]) == Seq::<Seq<char>>::empty(),
{
    let of_item = |item: YamlTree| item_classes(item);
    let of_key = |e: (YamlTree, YamlTree)|
        match e.0 {
            YamlTree::Text(name) => Some(name),
            _ => None,
        };
    lemma_flat_map_one(YamlTree::Text(name), of_item);
    lemma_flat_map_one(YamlTree::Mapping(entries), of_item);
    lemma_flat_map_one(YamlTree::Sequence(items), of_item);
    lemma_flat_map_one(YamlTree::Other, of_item);
    let named = (YamlTree::Text(name), value);
    let other = (key, value);
    Seq::<(YamlTree, YamlTree)>::lemma_filter_map_singleton(named, of_key);
    Seq::<(YamlTree, YamlTree)>::lemma_filter_map_singleton(other, of_key);
}

/// A configuration names what its document names, and nothing where it is missing or no YAML.
pub proof fn lemma_named_classes(text: Seq<char>)
    ensures
        named_classes(None) == Seq::<Seq<char>>::empty(),
        yaml_parsed(text) is None ==> named_classes(Some(text)) == Seq::<Seq<char>>::empty(),
        yaml_parsed(text) matches Some(tree) ==> named_classes(Some(text)) == context_classes(
            tree,
        ),
{
}

/// The contexts of a project are the classes that its configuration names, without the backslashes
/// before their names, and each of them once.
pub proof fn lemma_contexts_are_named(configuration: Option<Seq<char>>, context: Seq<char>)
    ensures
        configured_contexts(configuration).contains(context) <==> exists|i: int|
            0 <= i < named_classes(configuration).len() && is_stripped(
                #[trigger] named_classes(configuration)[i],
                context,
            ),
        forall|i: int, j: int|
            0 <= i < j < configured_contexts(configuration).len() ==> #[trigger]
                configured_contexts(configuration)[i] != #[trigger] configured_contexts(
                configuration,
            )[j],
{
    let classes = named_classes(configuration);
    let names = normalized_names(classes);
    lemma_distinct_names(names);
    assert(distinct_names(names).contains(context) <==> names.contains(context));
    if names.contains(context) {
        let i = choose|i: int| 0 <= i < names.len() && names[i] == context;
        lemma_stripped(classes[i], context);
        assert(is_stripped(classes[i], context));
    }
    if exists|i: int| 0 <= i < classes.len() && is_stripped(#[trigger] classes[i], context) {
        let i = choose|i: int| 0 <= i < classes.len() && is_stripped(#[trigger] classes[i], context);
        lemma_stripped(classes[i], context);
        assert(names[i] == without_leading_backslashes(classes[i]));
        assert(names[i] == context);
    }
}

} // verus!
