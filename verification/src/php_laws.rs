//! Which steps a PHP file defines.

use vstd::prelude::*;

use crate::steps::StepKind;

verus! {

use crate::paths::{path_lossy_text, path_without_prefix};
use crate::php::{
    attribute_step, class_steps, declared_classes, file_label, first_text, kind_of_name,
    last_segment, lemma_last_segment, list_steps, member_steps, method_steps, qualified_name,
    statement_classes, ArgumentTree, AttributeTree, ClassTree, MemberTree, ParsedClassView,
    ParsedStepView, PhpTree,
};
use crate::sequences::{
    lemma_filter_map_add, lemma_filter_map_member, lemma_flat_map_add, lemma_flat_map_member,
    lemma_flat_map_one, lemma_in_sum,
};

/// The letters of the word that an attribute for a kind of step is named by.
pub open spec fn word_of(kind: StepKind) -> Seq<char> {
    match kind {
        StepKind::Given => seq!['G', 'i', 'v', 'e', 'n'],
        StepKind::When => seq!['W', 'h', 'e', 'n'],
        StepKind::Then => seq!['T', 'h', 'e', 'n'],
        StepKind::And => seq!['A', 'n', 'd'],
        StepKind::But => seq!['B', 'u', 't'],
        StepKind::Other => Seq::empty(),
    }
}

/// Whether `word` is all that stands behind the last backslash of a name.
pub open spec fn ends_with_word(name: Seq<char>, word: Seq<char>) -> bool {
    &&& word.len() <= name.len()
    &&& name.skip(name.len() - word.len()) == word
    &&& word.len() < name.len() ==> name[name.len() - word.len() - 1] == '\\'
    &&& !word.contains('\\')
}

/// Whether an attribute defines a step of a kind with a text: its name ends with the word of the
/// kind, and its first argument is a string literal with that value, or, where the literal has no
/// value, with that source text.
pub open spec fn attribute_defines(
    attribute: AttributeTree,
    kind: StepKind,
    text: Seq<char>,
) -> bool {
    &&& kind != StepKind::Other
    &&& ends_with_word(attribute.name, word_of(kind))
    &&& attribute.arguments matches Some(arguments)
    &&& arguments.len() > 0
    &&& arguments[0] matches ArgumentTree::Text { value, raw }
    &&& text == match value {
        Some(literal) => literal,
        None => raw,
    }
}

/// The part of a name behind its last backslash is the one word that it ends with.
pub proof fn lemma_ends_with_word(name: Seq<char>, word: Seq<char>)
    ensures
        last_segment(name) == word <==> ends_with_word(name, word),
{
    let segment = last_segment(name);
    lemma_last_segment(name);
    if ends_with_word(name, word) {
        if segment.len() > word.len() {
            let k = segment.len() - word.len() - 1;
            assert(segment[k] == name[name.len() - word.len() - 1]);
            assert(segment.contains(segment[k]));
        } else if segment.len() < word.len() {
            let k = word.len() - segment.len() - 1;
            assert(word[k] == name[name.len() - segment.len() - 1]);
            assert(word.contains(word[k]));
        }
        assert(segment == word);
    }
}

proof fn lemma_words()
    ensures
        "Given"@ == word_of(StepKind::Given),
        "When"@ == word_of(StepKind::When),
        "Then"@ == word_of(StepKind::Then),
        "And"@ == word_of(StepKind::And),
        "But"@ == word_of(StepKind::But),
        forall|a: StepKind, b: StepKind| #[trigger]
            word_of(a) == #[trigger] word_of(b) ==> a == b,
{
    reveal_strlit("Given");
    reveal_strlit("When");
    reveal_strlit("Then");
    reveal_strlit("And");
    reveal_strlit("But");
    assert("Given"@ =~= word_of(StepKind::Given));
    assert("When"@ =~= word_of(StepKind::When));
    assert("Then"@ =~= word_of(StepKind::Then));
    assert("And"@ =~= word_of(StepKind::And));
    assert("But"@ =~= word_of(StepKind::But));
    assert forall|a: StepKind, b: StepKind| #[trigger] word_of(a) == #[trigger] word_of(
        b,
    ) implies a == b by {
        if word_of(a).len() > 0 {
            assert(word_of(a)[0] == word_of(b)[0]);
            assert(word_of(a)[1] == word_of(b)[1]);
        }
    }
}

/// An attribute is for the kind of step whose word its name ends with, and for none where it ends
/// with none of the words.
pub proof fn lemma_kind_of_name(name: Seq<char>, kind: StepKind)
    ensures
        kind_of_name(name) == Some(kind) <==> kind != StepKind::Other && ends_with_word(
            name,
            word_of(kind),
        ),
{
    lemma_words();
    lemma_ends_with_word(name, word_of(kind));
}

/// An attribute defines just the steps that its name and its first argument say, with the text of
/// the argument to the letter.
pub proof fn lemma_attribute_step(attribute: AttributeTree, kind: StepKind, text: Seq<char>)
    ensures
        attribute_step(attribute) == Some(ParsedStepView { text, kind }) <==> attribute_defines(
            attribute,
            kind,
            text,
        ),
{
    lemma_kind_of_name(attribute.name, kind);
}

/// The text of the first argument is the value of the literal, character for character, or its
/// source text where it has no value. There is none where the first argument is no literal.
pub proof fn lemma_first_text(
    name: Seq<char>,
    value: Seq<char>,
    raw: Seq<char>,
    behind: Seq<ArgumentTree>,
)
    ensures
        first_text(
            AttributeTree {
                name,
                arguments: Some(seq![ArgumentTree::Text { value: Some(value), raw }] + behind),
            },
        ) == Some(value),
        first_text(
            AttributeTree {
                name,
                arguments: Some(seq![ArgumentTree::Text { value: None, raw }] + behind),
            },
        ) == Some(raw),
        first_text(
            AttributeTree { name, arguments: Some(seq![ArgumentTree::Other] + behind) },
        ) is None,
        first_text(AttributeTree { name, arguments: Some(Seq::empty()) }) is None,
        first_text(AttributeTree { name, arguments: None }) is None,
{
    let with_value = ArgumentTree::Text { value: Some(value), raw };
    let without_value = ArgumentTree::Text { value: None, raw };
    let other = ArgumentTree::Other;
    assert((seq![with_value] + behind)[0] == with_value);
    assert((seq![without_value] + behind)[0] == without_value);
    assert((seq![other] + behind)[0] == other);
}

/// Whether one of the methods of a class has an attribute.
pub open spec fn has_attribute(class: ClassTree, attribute: AttributeTree) -> bool {
    exists|i: int|
        0 <= i < class.members.len() && member_has_attribute(
            #[trigger] class.members[i],
            attribute,
        )
}

/// Whether a member of a class is a method with an attribute.
pub open spec fn member_has_attribute(member: MemberTree, attribute: AttributeTree) -> bool {
    member matches MemberTree::Method(lists) && exists|k: int|
        0 <= k < lists.len() && (#[trigger] lists[k]).contains(attribute)
}

proof fn lemma_list_has_step(list: Seq<AttributeTree>, kind: StepKind, text: Seq<char>)
    ensures
        list_steps(list).contains(ParsedStepView { text, kind }) <==> exists|a: AttributeTree|
            #[trigger] list.contains(a) && attribute_defines(a, kind, text),
{
    let step = ParsedStepView { text, kind };
    let step_of = |a: AttributeTree| attribute_step(a);
    lemma_filter_map_member(list, step_of, step);
    if list_steps(list).contains(step) {
        let a = choose|a: AttributeTree| #[trigger] list.contains(a) && step_of(a) == Some(step);
        lemma_attribute_step(a, kind, text);
        assert(list.contains(a) && attribute_defines(a, kind, text));
    }
    if exists|a: AttributeTree| #[trigger] list.contains(a) && attribute_defines(a, kind, text) {
        let a = choose|a: AttributeTree| #[trigger]
            list.contains(a) && attribute_defines(a, kind, text);
        lemma_attribute_step(a, kind, text);
        assert(list.contains(a) && step_of(a) == Some(step));
    }
}

proof fn lemma_member_has_step(member: MemberTree, kind: StepKind, text: Seq<char>)
    ensures
        member_steps(member).contains(ParsedStepView { text, kind }) <==> exists|
            a: AttributeTree,
        | #[trigger] member_has_attribute(member, a) && attribute_defines(a, kind, text),
{
    let step = ParsedStepView { text, kind };
    let of_list = |list: Seq<AttributeTree>| list_steps(list);
    if let MemberTree::Method(lists) = member {
        lemma_flat_map_member(lists, of_list, step);
        if method_steps(lists).contains(step) {
            let k = choose|k: int|
                0 <= k < lists.len() && of_list(#[trigger] lists[k]).contains(step);
            lemma_list_has_step(lists[k], kind, text);
            let a = choose|a: AttributeTree| #[trigger]
                lists[k].contains(a) && attribute_defines(a, kind, text);
            assert(member_has_attribute(member, a));
        }
        if exists|a: AttributeTree| #[trigger]
            member_has_attribute(member, a) && attribute_defines(a, kind, text) {
            let a = choose|a: AttributeTree| #[trigger]
                member_has_attribute(member, a) && attribute_defines(a, kind, text);
            let k = choose|k: int| 0 <= k < lists.len() && (#[trigger] lists[k]).contains(a);
            lemma_list_has_step(lists[k], kind, text);
            assert(of_list(lists[k]).contains(step));
        }
    }
}

/// A class defines just the steps that the attributes of its methods define.
pub proof fn lemma_class_has_step(class: ClassTree, kind: StepKind, text: Seq<char>)
    ensures
        class_steps(class).contains(ParsedStepView { text, kind }) <==> exists|a: AttributeTree|
            #[trigger] has_attribute(class, a) && attribute_defines(a, kind, text),
{
    let step = ParsedStepView { text, kind };
    let of_member = |member: MemberTree| member_steps(member);
    let members = class.members;
    lemma_flat_map_member(members, of_member, step);
    if class_steps(class).contains(step) {
        let i = choose|i: int|
            0 <= i < members.len() && of_member(#[trigger] members[i]).contains(step);
        lemma_member_has_step(members[i], kind, text);
        let a = choose|a: AttributeTree| #[trigger]
            member_has_attribute(members[i], a) && attribute_defines(a, kind, text);
        assert(has_attribute(class, a));
    }
    if exists|a: AttributeTree| #[trigger]
        has_attribute(class, a) && attribute_defines(a, kind, text) {
        let a = choose|a: AttributeTree| #[trigger]
            has_attribute(class, a) && attribute_defines(a, kind, text);
        let i = choose|i: int|
            0 <= i < members.len() && member_has_attribute(#[trigger] members[i], a);
        lemma_member_has_step(members[i], kind, text);
        assert(of_member(members[i]).contains(step));
    }
}

/// The steps of attributes, lists and members in a row are those of each, in a row: nothing comes
/// before what it stands behind, and nothing comes twice.
pub proof fn lemma_steps_in_order(
    a: Seq<AttributeTree>,
    b: Seq<AttributeTree>,
    lists_a: Seq<Seq<AttributeTree>>,
    lists_b: Seq<Seq<AttributeTree>>,
    name: Seq<char>,
    members_a: Seq<MemberTree>,
    members_b: Seq<MemberTree>,
)
    ensures
        list_steps(a + b) == list_steps(a) + list_steps(b),
        method_steps(lists_a + lists_b) == method_steps(lists_a) + method_steps(lists_b),
        class_steps(ClassTree { name, members: members_a + members_b }) == class_steps(
            ClassTree { name, members: members_a },
        ) + class_steps(ClassTree { name, members: members_b }),
{
    lemma_filter_map_add(a, b, |attribute: AttributeTree| attribute_step(attribute));
    lemma_flat_map_add(lists_a, lists_b, |list: Seq<AttributeTree>| list_steps(list));
    lemma_flat_map_add(members_a, members_b, |member: MemberTree| member_steps(member));
}

/// One attribute makes one step or none, one list the steps of its attributes, one method those of
/// its lists, and any other member none.
pub proof fn lemma_steps_of_one(
    attribute: AttributeTree,
    list: Seq<AttributeTree>,
    lists: Seq<Seq<AttributeTree>>,
    name: Seq<char>,
)
    ensures
        list_steps(seq![attribute]) == match attribute_step(attribute) {
            Some(step) => seq![step],
            None => Seq::<ParsedStepView>::empty(),
        },
        method_steps(seq![list]) == list_steps(list),
        class_steps(ClassTree { name, members: seq![MemberTree::Method(lists)] }) == method_steps(
            lists,
        ),
        class_steps(ClassTree { name, members: seq![MemberTree::Other] }) == Seq::<
            ParsedStepView,
        >::empty(),
{
    let of_attribute = |attribute: AttributeTree| attribute_step(attribute);
    let of_list = |list: Seq<AttributeTree>| list_steps(list);
    let of_member = |member: MemberTree| member_steps(member);
    Seq::<AttributeTree>::lemma_filter_map_singleton(attribute, of_attribute);
    lemma_flat_map_one(list, of_list);
    lemma_flat_map_one(MemberTree::Method(lists), of_member);
    lemma_flat_map_one(MemberTree::Other, of_member);
}

/// The name of a class is written behind its namespace and a backslash, or alone where it has none.
pub proof fn lemma_qualified_name(namespace: Seq<char>, name: Seq<char>)
    ensures
        namespace.len() > 0 ==> qualified_name(Some(namespace), name) == namespace + seq!['\\']
            + name,
        qualified_name(Some(Seq::empty()), name) == name,
        qualified_name(None, name) == name,
{
    assert(namespace.push('\\') + name =~= namespace + seq!['\\'] + name);
}

/// The full name of a class that stands in a namespace.
pub open spec fn full_name(namespace: Option<Seq<char>>, name: Seq<char>) -> Seq<char> {
    match namespace {
        None => name,
        Some(prefix) => if prefix.len() > 0 {
            prefix + seq!['\\'] + name
        } else {
            name
        },
    }
}

/// Whether a class stands among the statements of a namespace, itself or in a namespace there, and
/// `within` is the namespace right around it.
pub open spec fn stands_in(
    class: ClassTree,
    within: Option<Seq<char>>,
    statements: Seq<PhpTree>,
    namespace: Option<Seq<char>>,
) -> bool
    decreases statements,
{
    exists|i: int|
        0 <= i < statements.len() && stands_at(class, within, #[trigger] statements[i], namespace)
}

/// Whether a class is a statement of a namespace, or stands in the namespace that the statement is.
pub open spec fn stands_at(
    class: ClassTree,
    within: Option<Seq<char>>,
    statement: PhpTree,
    namespace: Option<Seq<char>>,
) -> bool
    decreases statement,
{
    match statement {
        PhpTree::Namespace { name, statements } => stands_in(class, within, statements, name),
        PhpTree::Class(declared) => declared == class && within == namespace,
        PhpTree::Other => false,
    }
}

/// What is said of a class where it is declared.
pub open spec fn parsed_class(class: ClassTree, within: Option<Seq<char>>) -> ParsedClassView {
    ParsedClassView { fqcn: full_name(within, class.name), steps: class_steps(class) }
}

proof fn lemma_statement_declares(
    statement: PhpTree,
    namespace: Option<Seq<char>>,
    parsed: ParsedClassView,
)
    ensures
        statement_classes(statement, namespace).contains(parsed) <==> exists|
            class: ClassTree,
            within: Option<Seq<char>>,
        | #[trigger] stands_at(class, within, statement, namespace) && parsed == parsed_class(
            class,
            within,
        ),
    decreases statement,
{
    match statement {
        PhpTree::Namespace { name, statements } => {
            lemma_file_declares(statements, name, parsed);
            if statement_classes(statement, namespace).contains(parsed) {
                let (class, within) = choose|class: ClassTree, within: Option<Seq<char>>| #[trigger]
                    stands_in(class, within, statements, name) && parsed == parsed_class(
                        class,
                        within,
                    );
                assert(stands_at(class, within, statement, namespace));
            }
            if exists|class: ClassTree, within: Option<Seq<char>>| #[trigger]
                stands_at(class, within, statement, namespace) && parsed == parsed_class(
                    class,
                    within,
                ) {
                let (class, within) = choose|class: ClassTree, within: Option<Seq<char>>| #[trigger]
                    stands_at(class, within, statement, namespace) && parsed == parsed_class(
                        class,
                        within,
                    );
                assert(stands_in(class, within, statements, name));
            }
        },
        PhpTree::Class(class) => {
            let all = statement_classes(statement, namespace);
            match namespace {
                Some(prefix) => {
                    lemma_qualified_name(prefix, class.name);
                    if prefix.len() == 0 {
                        assert(prefix =~= Seq::empty());
                    }
                },
                None => {
                    lemma_qualified_name(Seq::empty(), class.name);
                },
            }
            assert(all[0] == parsed_class(class, namespace));
            if all.contains(parsed) {
                assert(stands_at(class, namespace, statement, namespace));
            }
            if exists|c: ClassTree, within: Option<Seq<char>>| #[trigger]
                stands_at(c, within, statement, namespace) && parsed == parsed_class(c, within) {
                assert(all.contains(all[0]));
            }
        },
        PhpTree::Other => {},
    }
}

/// A file declares just the classes that stand in it, each with the name of the namespace right
/// around it and with the steps of its methods.
pub proof fn lemma_file_declares(
    statements: Seq<PhpTree>,
    namespace: Option<Seq<char>>,
    parsed: ParsedClassView,
)
    ensures
        declared_classes(statements, namespace).contains(parsed) <==> exists|
            class: ClassTree,
            within: Option<Seq<char>>,
        | #[trigger] stands_in(class, within, statements, namespace) && parsed == parsed_class(
            class,
            within,
        ),
    decreases statements,
{
    let all = declared_classes(statements, namespace);
    if statements.len() == 0 {
        assert(all =~= Seq::empty());
    } else {
        let n = statements.len() - 1;
        let init = statements.subrange(0, n);
        let before = declared_classes(init, namespace);
        let behind = statement_classes(statements[n], namespace);
        lemma_file_declares(init, namespace, parsed);
        lemma_statement_declares(statements[n], namespace, parsed);
        lemma_in_sum(before, behind, parsed);
        if before.contains(parsed) {
            let (class, within) = choose|class: ClassTree, within: Option<Seq<char>>| #[trigger]
                stands_in(class, within, init, namespace) && parsed == parsed_class(class, within);
            let i = choose|i: int|
                0 <= i < init.len() && stands_at(class, within, #[trigger] init[i], namespace);
            assert(stands_at(class, within, statements[i], namespace));
            assert(stands_in(class, within, statements, namespace));
        }
        if behind.contains(parsed) {
            let (class, within) = choose|class: ClassTree, within: Option<Seq<char>>| #[trigger]
                stands_at(class, within, statements[n], namespace) && parsed == parsed_class(
                    class,
                    within,
                );
            assert(stands_in(class, within, statements, namespace));
        }
        if exists|class: ClassTree, within: Option<Seq<char>>| #[trigger]
            stands_in(class, within, statements, namespace) && parsed == parsed_class(
                class,
                within,
            ) {
            let (class, within) = choose|class: ClassTree, within: Option<Seq<char>>| #[trigger]
                stands_in(class, within, statements, namespace) && parsed == parsed_class(
                    class,
                    within,
                );
            let i = choose|i: int|
                0 <= i < statements.len() && stands_at(
                    class,
                    within,
                    #[trigger] statements[i],
                    namespace,
                );
            if i < n {
                assert(stands_at(class, within, init[i], namespace));
                assert(stands_in(class, within, init, namespace));
            }
        }
    }
}

/// The classes of statements in a row are those of each, in a row.
pub proof fn lemma_classes_in_order(
    a: Seq<PhpTree>,
    b: Seq<PhpTree>,
    namespace: Option<Seq<char>>,
)
    ensures
        declared_classes(a + b, namespace) == declared_classes(a, namespace) + declared_classes(
            b,
            namespace,
        ),
    decreases b.len(),
{
    if b.len() == 0 {
        assert(a + b =~= a);
        assert(declared_classes(b, namespace) =~= Seq::empty());
        assert(declared_classes(a, namespace) + declared_classes(b, namespace)
            =~= declared_classes(a, namespace));
    } else {
        let all = a + b;
        let init = b.subrange(0, b.len() - 1);
        lemma_classes_in_order(a, init, namespace);
        assert(all.subrange(0, all.len() - 1) =~= a + init);
        assert(declared_classes(all, namespace) =~= declared_classes(a, namespace)
            + declared_classes(b, namespace));
    }
}

/// One class declares one class, and one namespace those that stand in it.
pub proof fn lemma_classes_of_one(
    class: ClassTree,
    name: Option<Seq<char>>,
    statements: Seq<PhpTree>,
    namespace: Option<Seq<char>>,
)
    ensures
        declared_classes(seq![PhpTree::Class(class)], namespace) == seq![
            parsed_class(class, namespace),
        ],
        declared_classes(seq![PhpTree::Namespace { name, statements }], namespace)
            == declared_classes(statements, name),
        declared_classes(seq![PhpTree::Other], namespace) == Seq::<ParsedClassView>::empty(),
{
    lemma_one_statement(PhpTree::Class(class), namespace);
    lemma_one_statement(PhpTree::Namespace { name, statements }, namespace);
    lemma_one_statement(PhpTree::Other, namespace);
    match namespace {
        Some(prefix) => {
            lemma_qualified_name(prefix, class.name);
            if prefix.len() == 0 {
                assert(prefix =~= Seq::empty());
            }
        },
        None => {
            lemma_qualified_name(Seq::empty(), class.name);
        },
    }
    assert(statement_classes(PhpTree::Class(class), namespace) =~= seq![
        parsed_class(class, namespace),
    ]);
}

proof fn lemma_one_statement(statement: PhpTree, namespace: Option<Seq<char>>)
    ensures
        declared_classes(seq![statement], namespace) == statement_classes(statement, namespace),
{
    let s = seq![statement];
    assert(s.subrange(0, 0) =~= Seq::empty());
    assert(declared_classes(s.subrange(0, 0), namespace) =~= Seq::empty());
    assert(declared_classes(s, namespace) =~= statement_classes(statement, namespace));
}

/// A file below the root is labelled by its path below the root, any other by its whole path.
pub proof fn lemma_file_label(path: Seq<u8>, root: Seq<u8>)
    ensures
        path_without_prefix(path, root) matches Some(below) ==> file_label(path, root)
            == path_lossy_text(below),
        path_without_prefix(path, root) is None ==> file_label(path, root) == path_lossy_text(
            path,
        ),
{
}

} // verus!
