//! The step definitions in PHP files: attributes on the methods of classes.

use std::borrow::Cow;
use std::path::PathBuf;

use bumpalo::Bump;
use mago_database::file::{File, FileType};
use mago_syntax::ast::ast::{
    Argument, Attribute, AttributeList, ClassLikeMember, Expression, Literal, Statement,
};
use vstd::prelude::*;

use crate::paths::{copy_path, lossy_text_of, strip_path_prefix};
use crate::steps::StepKind;
use crate::text::{chars_of, same_text, string_of};

verus! {

use crate::paths::{path_bytes, path_lossy_text, path_without_prefix};
use crate::steps::keyword;
use vstd::string::StringExecFns;

/// `bumpalo::Bump`, the memory that a syntax tree lies in.
#[verifier::external_type_specification]
#[verifier::external_body]
pub struct ExBump<const MIN_ALIGN: usize>(Bump<MIN_ALIGN>);

/// `mago_database::file::File`, a source file.
#[verifier::external_type_specification]
#[verifier::external_body]
pub struct ExFile(File);

/// `mago_syntax::ast::ast::Statement`, a statement of a PHP file.
#[verifier::external_type_specification]
#[verifier::external_body]
pub struct ExStatement<'arena>(Statement<'arena>);

/// `mago_syntax::ast::ast::ClassLikeMember`, a member of a class.
#[verifier::external_type_specification]
#[verifier::external_body]
pub struct ExClassLikeMember<'arena>(ClassLikeMember<'arena>);

/// `mago_syntax::ast::ast::AttributeList`, the attributes in one pair of brackets.
#[verifier::external_type_specification]
#[verifier::external_body]
pub struct ExAttributeList<'arena>(AttributeList<'arena>);

/// `mago_syntax::ast::ast::Attribute`, an attribute.
#[verifier::external_type_specification]
#[verifier::external_body]
pub struct ExAttribute<'arena>(Attribute<'arena>);

/// `mago_syntax::ast::ast::Argument`, an argument of an attribute.
#[verifier::external_type_specification]
#[verifier::external_body]
pub struct ExArgument<'arena>(Argument<'arena>);

/// An argument of an attribute: a string literal, or anything else.
#[derive(Debug)]
pub enum PhpArgument {
    /// A string literal that is given by position. It has no value where its escapes make none.
    Text { value: Option<String>, raw: String },
    Other,
}

/// What a `PhpArgument` says.
pub enum ArgumentTree {
    Text { value: Option<Seq<char>>, raw: Seq<char> },
    Other,
}

impl DeepView for PhpArgument {
    type V = ArgumentTree;

    open spec fn deep_view(&self) -> ArgumentTree {
        match *self {
            PhpArgument::Text { value, raw } => ArgumentTree::Text {
                value: value.deep_view(),
                raw: raw@,
            },
            PhpArgument::Other => ArgumentTree::Other,
        }
    }
}

/// An attribute, with the name that it is written by, and its arguments where it has a list of
/// them.
#[derive(Debug)]
pub struct PhpAttribute {
    pub name: String,
    pub arguments: Option<Vec<PhpArgument>>,
}

/// What a `PhpAttribute` says.
pub struct AttributeTree {
    pub name: Seq<char>,
    pub arguments: Option<Seq<ArgumentTree>>,
}

impl DeepView for PhpAttribute {
    type V = AttributeTree;

    open spec fn deep_view(&self) -> AttributeTree {
        AttributeTree { name: self.name@, arguments: self.arguments.deep_view() }
    }
}

/// A member of a class: a method with its lists of attributes, or anything else.
#[derive(Debug)]
pub enum PhpMember {
    Method(Vec<Vec<PhpAttribute>>),
    Other,
}

/// What a `PhpMember` says.
pub enum MemberTree {
    Method(Seq<Seq<AttributeTree>>),
    Other,
}

impl DeepView for PhpMember {
    type V = MemberTree;

    open spec fn deep_view(&self) -> MemberTree {
        match *self {
            PhpMember::Method(lists) => MemberTree::Method(lists.deep_view()),
            PhpMember::Other => MemberTree::Other,
        }
    }
}

/// A class, with its name and its members in order.
#[derive(Debug)]
pub struct PhpClass {
    pub name: String,
    pub members: Vec<PhpMember>,
}

/// What a `PhpClass` says.
pub struct ClassTree {
    pub name: Seq<char>,
    pub members: Seq<MemberTree>,
}

impl DeepView for PhpClass {
    type V = ClassTree;

    open spec fn deep_view(&self) -> ClassTree {
        ClassTree { name: self.name@, members: self.members.deep_view() }
    }
}

/// A statement of a PHP file: a namespace with what stands in it, a class, or anything else.
#[derive(Debug)]
pub enum PhpStatement {
    Namespace { name: Option<String>, statements: Vec<PhpStatement> },
    Class(PhpClass),
    Other,
}

/// What a `PhpStatement` says.
pub enum PhpTree {
    Namespace { name: Option<Seq<char>>, statements: Seq<PhpTree> },
    Class(ClassTree),
    Other,
}

/// The tree that a statement stands for.
pub open spec fn php_tree(statement: PhpStatement) -> PhpTree
    decreases statement,
{
    match statement {
        PhpStatement::Namespace { name, statements } => PhpTree::Namespace {
            name: name.deep_view(),
            statements: Seq::new(
                statements@.len(),
                |i: int|
                    if 0 <= i < statements@.len() {
                        php_tree(statements@[i])
                    } else {
                        arbitrary()
                    },
            ),
        },
        PhpStatement::Class(class) => PhpTree::Class(class.deep_view()),
        PhpStatement::Other => PhpTree::Other,
    }
}

/// The trees that statements stand for.
pub open spec fn php_trees(statements: Seq<PhpStatement>) -> Seq<PhpTree> {
    statements.map_values(|statement: PhpStatement| php_tree(statement))
}

/// The text that a `File` holds.
pub uninterp spec fn file_text(file: File) -> Seq<char>;

/// What the parser reads from the text of a PHP file.
pub uninterp spec fn php_parsed(text: Seq<char>) -> Seq<PhpTree>;

/// What a `Statement` holds.
pub uninterp spec fn statement_contents(statement: Statement<'_>) -> PhpTree;

/// What a `ClassLikeMember` holds.
pub uninterp spec fn member_contents(member: ClassLikeMember<'_>) -> MemberTree;

/// What an `AttributeList` holds.
pub uninterp spec fn list_contents(list: AttributeList<'_>) -> Seq<AttributeTree>;

/// What an `Attribute` holds.
pub uninterp spec fn attribute_contents(attribute: Attribute<'_>) -> AttributeTree;

/// What an `Argument` holds.
pub uninterp spec fn argument_contents(argument: Argument<'_>) -> ArgumentTree;

/// The top of a `Statement`.
enum StatementNode<'a, 'arena> {
    Namespace { name: Option<&'a str>, statements: &'a [Statement<'arena>] },
    Class { class_name: &'a str, members: &'a [ClassLikeMember<'arena>] },
    Other,
}

/// The top of a `ClassLikeMember`.
enum MemberNode<'a, 'arena> {
    Method(&'a [AttributeList<'arena>]),
    Other,
}

/// The top of an `Argument`.
enum ArgumentNode<'a> {
    Text { value: Option<&'a str>, raw: &'a str },
    Other,
}

/// `bumpalo::Bump::new` makes memory that nothing lies in yet.
#[verifier::external_body]
fn new_arena() -> Bump {
    Bump::new()
}

/// `mago_database::file::File::new` makes a file that holds the text that it is given.
#[verifier::external_body]
fn new_file(label: String, path: PathBuf, text: String) -> (file: File)
    ensures
        file_text(file) == text@,
{
    File::new(Cow::Owned(label), FileType::Host, Some(path), Cow::Owned(text))
}

/// `mago_syntax::parser::parse_file` reads any text. What the statements hold depends on the
/// text of the file alone, and `php_parsed` names it: the name of the file only marks where in
/// the source a part of the tree comes from.
#[verifier::external_body]
fn parse_file<'arena>(arena: &'arena Bump, file: &File) -> (statements: &'arena [Statement<
    'arena,
>])
    ensures
        statements@.map_values(|s: Statement<'arena>| statement_contents(s)) == php_parsed(
            file_text(*file),
        ),
{
    mago_syntax::parser::parse_file(arena, file).statements.as_slice()
}

/// The variants of `Statement`: `Namespace::name` and `Namespace::statements`, and the name and
/// the members of a `Class`. The other variants are one.
#[verifier::external_body]
fn statement_node<'a, 'arena>(statement: &'a Statement<'arena>) -> (node: StatementNode<
    'a,
    'arena,
>)
    ensures
        match node {
            StatementNode::Namespace { name, statements } => statement_contents(*statement) == (
            PhpTree::Namespace {
                name: name.deep_view(),
                statements: statements@.map_values(|s: Statement<'arena>| statement_contents(s)),
            }),
            StatementNode::Class { class_name, members } => statement_contents(*statement)
                == PhpTree::Class(
                (ClassTree {
                    name: class_name@,
                    members: members@.map_values(
                        |m: ClassLikeMember<'arena>| member_contents(m),
                    ),
                }),
            ),
            StatementNode::Other => statement_contents(*statement) == PhpTree::Other,
        },
{
    match statement {
        Statement::Namespace(namespace) => StatementNode::Namespace {
            name: namespace.name.as_ref().map(|name| name.value()),
            statements: namespace.statements().as_slice(),
        },
        Statement::Class(class) => StatementNode::Class {
            class_name: class.name.value,
            members: class.members.as_slice(),
        },
        _ => StatementNode::Other,
    }
}

/// The variants of `ClassLikeMember`: the lists of attributes of a `Method`. The other variants
/// are one.
#[verifier::external_body]
fn member_node<'a, 'arena>(member: &'a ClassLikeMember<'arena>) -> (node: MemberNode<'a, 'arena>)
    ensures
        match node {
            MemberNode::Method(lists) => member_contents(*member) == MemberTree::Method(
                lists@.map_values(|l: AttributeList<'arena>| list_contents(l)),
            ),
            MemberNode::Other => member_contents(*member) == MemberTree::Other,
        },
{
    match member {
        ClassLikeMember::Method(method) => MemberNode::Method(method.attribute_lists.as_slice()),
        _ => MemberNode::Other,
    }
}

/// The attributes of an `AttributeList`, in order.
#[verifier::external_body]
fn attributes_in<'a, 'arena>(list: &'a AttributeList<'arena>) -> (attributes: &'a [Attribute<
    'arena,
>])
    ensures
        attributes@.map_values(|a: Attribute<'arena>| attribute_contents(a)) == list_contents(
            *list,
        ),
{
    list.attributes.nodes.as_slice()
}

/// The name of an `Attribute`, and the items of its list of arguments where it has one.
#[verifier::external_body]
fn attribute_parts<'a, 'arena>(attribute: &'a Attribute<'arena>) -> (parts: (
    &'a str,
    Option<&'a [Argument<'arena>]>,
))
    ensures
        attribute_contents(*attribute) == (AttributeTree {
            name: parts.0@,
            arguments: match parts.1 {
                Some(arguments) => Some(
                    arguments@.map_values(|a: Argument<'arena>| argument_contents(a)),
                ),
                None => None,
            },
        }),
{
    let arguments = attribute.argument_list.as_ref().map(|list| list.arguments.nodes.as_slice());
    (attribute.name.value(), arguments)
}

/// The variants of `Argument`: the value and the source text of a `LiteralString` that is the
/// expression of a positional argument. All other arguments are one.
#[verifier::external_body]
fn argument_node<'a, 'arena>(argument: &'a Argument<'arena>) -> (node: ArgumentNode<'a>)
    ensures
        match node {
            ArgumentNode::Text { value, raw } => argument_contents(*argument) == (
            ArgumentTree::Text {
                value: value.deep_view(),
                raw: raw@,
            }),
            ArgumentNode::Other => argument_contents(*argument) == ArgumentTree::Other,
        },
{
    match argument {
        Argument::Positional(positional) => match positional.value {
            Expression::Literal(Literal::String(literal)) => ArgumentNode::Text {
                value: literal.value,
                raw: literal.raw,
            },
            _ => ArgumentNode::Other,
        },
        _ => ArgumentNode::Other,
    }
}

/// Copies an argument.
fn argument_of(argument: &Argument<'_>) -> (copy: PhpArgument)
    ensures
        copy.deep_view() == argument_contents(*argument),
{
    match argument_node(argument) {
        ArgumentNode::Text { value, raw } => {
            let value = match value {
                Some(text) => Some(text.to_owned()),
                None => None,
            };
            PhpArgument::Text { value, raw: raw.to_owned() }
        },
        ArgumentNode::Other => PhpArgument::Other,
    }
}

/// Copies an attribute with its arguments.
fn attribute_of(attribute: &Attribute<'_>) -> (copy: PhpAttribute)
    ensures
        copy.deep_view() == attribute_contents(*attribute),
{
    let (name, arguments) = attribute_parts(attribute);
    let arguments = match arguments {
        Some(items) => {
            let mut copies: Vec<PhpArgument> = Vec::new();
            let mut i: usize = 0;
            while i < items.len()
                invariant
                    i <= items@.len(),
                    copies@.len() == i,
                    forall|j: int|
                        0 <= j < i ==> (#[trigger] copies@[j]).deep_view() == argument_contents(
                            items@[j],
                        ),
                decreases items@.len() - i,
            {
                copies.push(argument_of(&items[i]));
                i += 1;
            }
            assert(copies.deep_view() =~= items@.map_values(
                |a: Argument<'_>| argument_contents(a),
            ));
            Some(copies)
        },
        None => None,
    };
    PhpAttribute { name: name.to_owned(), arguments }
}

/// Copies the attributes of a list.
fn attributes_of(list: &AttributeList<'_>) -> (copies: Vec<PhpAttribute>)
    ensures
        copies.deep_view() == list_contents(*list),
{
    let items = attributes_in(list);
    let mut copies: Vec<PhpAttribute> = Vec::new();
    let mut i: usize = 0;
    while i < items.len()
        invariant
            i <= items@.len(),
            copies@.len() == i,
            forall|j: int|
                0 <= j < i ==> (#[trigger] copies@[j]).deep_view() == attribute_contents(items@[j]),
        decreases items@.len() - i,
    {
        copies.push(attribute_of(&items[i]));
        i += 1;
    }
    assert(copies.deep_view() =~= items@.map_values(|a: Attribute<'_>| attribute_contents(a)));
    copies
}

/// Copies a member of a class.
fn member_of(member: &ClassLikeMember<'_>) -> (copy: PhpMember)
    ensures
        copy.deep_view() == member_contents(*member),
{
    match member_node(member) {
        MemberNode::Method(lists) => {
            let mut copies: Vec<Vec<PhpAttribute>> = Vec::new();
            let mut i: usize = 0;
            while i < lists.len()
                invariant
                    i <= lists@.len(),
                    copies@.len() == i,
                    forall|j: int|
                        0 <= j < i ==> (#[trigger] copies@[j]).deep_view() == list_contents(
                            lists@[j],
                        ),
                decreases lists@.len() - i,
            {
                copies.push(attributes_of(&lists[i]));
                i += 1;
            }
            assert(copies.deep_view() =~= lists@.map_values(
                |l: AttributeList<'_>| list_contents(l),
            ));
            PhpMember::Method(copies)
        },
        MemberNode::Other => PhpMember::Other,
    }
}

/// Copies the members of a class.
fn members_of(members: &[ClassLikeMember<'_>]) -> (copies: Vec<PhpMember>)
    ensures
        copies.deep_view() == members@.map_values(|m: ClassLikeMember<'_>| member_contents(m)),
{
    let mut copies: Vec<PhpMember> = Vec::new();
    let mut i: usize = 0;
    while i < members.len()
        invariant
            i <= members@.len(),
            copies@.len() == i,
            forall|j: int|
                0 <= j < i ==> (#[trigger] copies@[j]).deep_view() == member_contents(members@[j]),
        decreases members@.len() - i,
    {
        copies.push(member_of(&members[i]));
        i += 1;
    }
    assert(copies.deep_view() =~= members@.map_values(
        |m: ClassLikeMember<'_>| member_contents(m),
    ));
    copies
}

/// Copies a statement with all that stands in it.
fn statement_of(statement: &Statement<'_>) -> (copy: PhpStatement)
    ensures
        php_tree(copy) == statement_contents(*statement),
    decreases statement_contents(*statement),
{
    let ghost tree = statement_contents(*statement);
    match statement_node(statement) {
        StatementNode::Namespace { name, statements } => {
            let mut copies: Vec<PhpStatement> = Vec::new();
            let mut i: usize = 0;
            while i < statements.len()
                invariant
                    i <= statements@.len(),
                    copies@.len() == i,
                    tree == statement_contents(*statement),
                    tree is Namespace,
                    tree->statements == statements@.map_values(
                        |s: Statement<'_>| statement_contents(s),
                    ),
                    forall|j: int|
                        0 <= j < i ==> php_tree(#[trigger] copies@[j]) == tree->statements[j],
                decreases statements@.len() - i,
            {
                assert(tree->statements[i as int] == statement_contents(statements@[i as int]));
                copies.push(statement_of(&statements[i]));
                i += 1;
            }
            let name = match name {
                Some(text) => Some(text.to_owned()),
                None => None,
            };
            let copy = PhpStatement::Namespace { name, statements: copies };
            assert(php_tree(copy)->statements =~= tree->statements);
            copy
        },
        StatementNode::Class { class_name, members } => PhpStatement::Class(
            PhpClass { name: class_name.to_owned(), members: members_of(members) },
        ),
        StatementNode::Other => PhpStatement::Other,
    }
}

/// Reads the text of a PHP file. The label and the path only name the file.
pub fn parse_php(label: String, path: PathBuf, text: String) -> (statements: Vec<PhpStatement>)
    ensures
        php_trees(statements@) == php_parsed(text@),
{
    let arena = new_arena();
    let file = new_file(label, path, text);
    let parsed = parse_file(&arena, &file);
    let mut statements: Vec<PhpStatement> = Vec::new();
    let mut i: usize = 0;
    while i < parsed.len()
        invariant
            i <= parsed@.len(),
            statements@.len() == i,
            forall|j: int|
                0 <= j < i ==> php_tree(#[trigger] statements@[j]) == statement_contents(
                    parsed@[j],
                ),
        decreases parsed@.len() - i,
    {
        statements.push(statement_of(&parsed[i]));
        i += 1;
    }
    assert(php_trees(statements@) =~= parsed@.map_values(
        |s: Statement<'_>| statement_contents(s),
    ));
    statements
}

/// The part of a name behind its last backslash.
pub open spec fn last_segment(name: Seq<char>) -> Seq<char>
    decreases name.len(),
{
    if name.len() == 0 || name.last() == '\\' {
        Seq::empty()
    } else {
        last_segment(name.drop_last()).push(name.last())
    }
}

/// The kind of step that an attribute of this name defines.
pub open spec fn kind_of_name(name: Seq<char>) -> Option<StepKind> {
    let word = last_segment(name);
    if word == "Given"@ {
        Some(StepKind::Given)
    } else if word == "When"@ {
        Some(StepKind::When)
    } else if word == "Then"@ {
        Some(StepKind::Then)
    } else if word == "And"@ {
        Some(StepKind::And)
    } else if word == "But"@ {
        Some(StepKind::But)
    } else {
        None
    }
}

/// The text of the first argument of an attribute, where that is a string literal: its value, or
/// its source text where it has no value.
pub open spec fn first_text(attribute: AttributeTree) -> Option<Seq<char>> {
    match attribute.arguments {
        Some(arguments) => if arguments.len() == 0 {
            None
        } else {
            match arguments[0] {
                ArgumentTree::Text { value: Some(text), .. } => Some(text),
                ArgumentTree::Text { value: None, raw } => Some(raw),
                ArgumentTree::Other => None,
            }
        },
        None => None,
    }
}

/// A step that a method defines.
#[derive(Debug)]
pub struct ParsedStep {
    pub text: String,
    pub kind: StepKind,
}

/// What a `ParsedStep` says.
pub struct ParsedStepView {
    pub text: Seq<char>,
    pub kind: StepKind,
}

impl DeepView for ParsedStep {
    type V = ParsedStepView;

    open spec fn deep_view(&self) -> ParsedStepView {
        ParsedStepView { text: self.text@, kind: self.kind }
    }
}

/// A class with the steps that its methods define.
#[derive(Debug)]
pub struct ParsedClass {
    /// The name of the class with its namespace.
    pub fqcn: String,
    pub steps: Vec<ParsedStep>,
}

/// What a `ParsedClass` says.
pub struct ParsedClassView {
    pub fqcn: Seq<char>,
    pub steps: Seq<ParsedStepView>,
}

impl DeepView for ParsedClass {
    type V = ParsedClassView;

    open spec fn deep_view(&self) -> ParsedClassView {
        ParsedClassView { fqcn: self.fqcn@, steps: self.steps.deep_view() }
    }
}

/// The classes of a PHP file.
#[derive(Debug)]
pub struct ParsedFile {
    pub classes: Vec<ParsedClass>,
}

/// The step that an attribute defines.
pub open spec fn attribute_step(attribute: AttributeTree) -> Option<ParsedStepView> {
    match (kind_of_name(attribute.name), first_text(attribute)) {
        (Some(kind), Some(text)) => Some(ParsedStepView { text, kind }),
        _ => None,
    }
}

/// The steps that a list of attributes defines.
pub open spec fn list_steps(list: Seq<AttributeTree>) -> Seq<ParsedStepView> {
    list.filter_map(|attribute: AttributeTree| attribute_step(attribute))
}

/// The steps that the lists of attributes of a method define.
pub open spec fn method_steps(lists: Seq<Seq<AttributeTree>>) -> Seq<ParsedStepView> {
    lists.flat_map(|list: Seq<AttributeTree>| list_steps(list))
}

/// The steps that a member of a class defines.
pub open spec fn member_steps(member: MemberTree) -> Seq<ParsedStepView> {
    match member {
        MemberTree::Method(lists) => method_steps(lists),
        MemberTree::Other => Seq::empty(),
    }
}

/// The steps that the members of a class define.
pub open spec fn class_steps(class: ClassTree) -> Seq<ParsedStepView> {
    class.members.flat_map(|member: MemberTree| member_steps(member))
}

/// The name of a class with the namespace that it stands in.
pub open spec fn qualified_name(namespace: Option<Seq<char>>, name: Seq<char>) -> Seq<char> {
    match namespace {
        Some(prefix) => if prefix.len() == 0 {
            name
        } else {
            prefix.push('\\') + name
        },
        None => name,
    }
}

/// The classes that a statement declares. Those in a namespace stand in it alone, wherever the
/// namespace stands.
pub open spec fn statement_classes(
    statement: PhpTree,
    namespace: Option<Seq<char>>,
) -> Seq<ParsedClassView>
    decreases statement,
{
    match statement {
        PhpTree::Namespace { name, statements } => declared_classes(statements, name),
        PhpTree::Class(class) => seq![
            ParsedClassView {
                fqcn: qualified_name(namespace, class.name),
                steps: class_steps(class),
            },
        ],
        PhpTree::Other => Seq::empty(),
    }
}

/// The classes that statements declare, in order.
pub open spec fn declared_classes(
    statements: Seq<PhpTree>,
    namespace: Option<Seq<char>>,
) -> Seq<ParsedClassView>
    decreases statements,
{
    if statements.len() == 0 {
        Seq::empty()
    } else {
        declared_classes(statements.subrange(0, statements.len() - 1), namespace)
            + statement_classes(statements[statements.len() - 1], namespace)
    }
}

/// The label of a file: its path below the root of the project, or its whole path where it lies
/// elsewhere.
pub open spec fn file_label(path: Seq<u8>, root: Seq<u8>) -> Seq<char> {
    match path_without_prefix(path, root) {
        Some(below) => path_lossy_text(below),
        None => path_lossy_text(path),
    }
}

/// The last part of a name ends the name and has no backslash in it, and what stands before it
/// ends with one.
pub proof fn lemma_last_segment(name: Seq<char>)
    ensures
        last_segment(name).len() <= name.len(),
        last_segment(name) == name.skip(name.len() - last_segment(name).len()),
        !last_segment(name).contains('\\'),
        last_segment(name).len() < name.len() ==> name[name.len() - last_segment(name).len() - 1]
            == '\\',
    decreases name.len(),
{
    if name.len() > 0 && name.last() != '\\' {
        let init = name.drop_last();
        lemma_last_segment(init);
        assert(last_segment(name) =~= name.skip(name.len() - last_segment(name).len()));
        if last_segment(name).contains('\\') {
            let i = choose|i: int|
                0 <= i < last_segment(name).len() && last_segment(name)[i] == '\\';
            assert(last_segment(init)[i] == '\\');
        }
    } else {
        assert(last_segment(name) =~= name.skip(name.len() as int));
    }
}

/// A step is written with the word that its attribute is named by.
pub proof fn lemma_keyword_of_attribute(attribute: AttributeTree)
    ensures
        attribute_step(attribute) matches Some(step) ==> keyword(step.kind) == last_segment(
            attribute.name,
        ) && step.kind != StepKind::Other,
{
}

/// Each step is written with a word of its own.
pub open spec fn kinds_known(steps: Seq<ParsedStepView>) -> bool {
    forall|i: int| 0 <= i < steps.len() ==> (#[trigger] steps[i]).kind != StepKind::Other
}

proof fn lemma_flat_map_kinds<A>(items: Seq<A>, steps_of: spec_fn(A) -> Seq<ParsedStepView>, n: nat)
    requires
        n <= items.len(),
        forall|item: A| kinds_known(#[trigger] steps_of(item)),
    ensures
        kinds_known(items.take(n as int).flat_map(steps_of)),
    decreases n,
{
    if n == 0 {
        assert(items.take(0) =~= Seq::empty());
        assert(items.take(0).flat_map(steps_of) =~= Seq::empty());
    } else {
        lemma_flat_map_kinds(items, steps_of, (n - 1) as nat);
        items.lemma_flat_map_take_append(steps_of, n - 1);
        let before = items.take(n - 1).flat_map(steps_of);
        let behind = steps_of(items[n - 1]);
        assert(kinds_known(behind));
        let all = items.take(n as int).flat_map(steps_of);
        assert(all =~= before + behind);
        assert forall|i: int| 0 <= i < all.len() implies (#[trigger] all[i]).kind
            != StepKind::Other by {
            if i < before.len() {
                assert(all[i] == before[i]);
            } else {
                assert(all[i] == behind[i - before.len()]);
            }
        }
    }
}

proof fn lemma_list_kinds(list: Seq<AttributeTree>)
    ensures
        kinds_known(list_steps(list)),
{
    let step_of = |attribute: AttributeTree| attribute_step(attribute);
    let steps = list_steps(list);
    assert forall|i: int| 0 <= i < steps.len() implies (#[trigger] steps[i]).kind
        != StepKind::Other by {
        assert(steps.contains(steps[i]));
        list.lemma_filter_map_contains(step_of, steps[i]);
    }
}

proof fn lemma_class_kinds(class: ClassTree)
    ensures
        kinds_known(class_steps(class)),
{
    let of_list = |list: Seq<AttributeTree>| list_steps(list);
    let of_member = |member: MemberTree| member_steps(member);
    assert forall|list: Seq<AttributeTree>| kinds_known(#[trigger] of_list(list)) by {
        lemma_list_kinds(list);
    }
    assert forall|member: MemberTree| kinds_known(#[trigger] of_member(member)) by {
        if let MemberTree::Method(lists) = member {
            lemma_flat_map_kinds(lists, of_list, lists.len());
            assert(lists.take(lists.len() as int) =~= lists);
        }
    }
    lemma_flat_map_kinds(class.members, of_member, class.members.len());
    assert(class.members.take(class.members.len() as int) =~= class.members);
}

proof fn lemma_statement_kinds(statement: PhpTree, namespace: Option<Seq<char>>)
    ensures
        forall|i: int|
            0 <= i < statement_classes(statement, namespace).len() ==> kinds_known(
                (#[trigger] statement_classes(statement, namespace)[i]).steps,
            ),
    decreases statement,
{
    match statement {
        PhpTree::Namespace { name, statements } => {
            lemma_declared_kinds(statements, name);
            assert(statement_classes(statement, namespace) == declared_classes(statements, name));
            assert forall|i: int|
                0 <= i < statement_classes(statement, namespace).len() implies kinds_known(
                (#[trigger] statement_classes(statement, namespace)[i]).steps,
            ) by {
                assert(kinds_known(declared_classes(statements, name)[i].steps));
            }
        },
        PhpTree::Class(class) => {
            lemma_class_kinds(class);
        },
        PhpTree::Other => {},
    }
}

/// Each step that a class declares is written with a word of its own.
pub proof fn lemma_declared_kinds(statements: Seq<PhpTree>, namespace: Option<Seq<char>>)
    ensures
        forall|i: int|
            0 <= i < declared_classes(statements, namespace).len() ==> kinds_known(
                (#[trigger] declared_classes(statements, namespace)[i]).steps,
            ),
    decreases statements,
{
    if statements.len() > 0 {
        let init = statements.subrange(0, statements.len() - 1);
        let last = statements[statements.len() - 1];
        lemma_declared_kinds(init, namespace);
        lemma_statement_kinds(last, namespace);
        let before = declared_classes(init, namespace);
        let behind = statement_classes(last, namespace);
        let all = declared_classes(statements, namespace);
        assert forall|i: int| 0 <= i < all.len() implies kinds_known((#[trigger] all[i]).steps) by {
            if i < before.len() {
                assert(all[i] == before[i]);
            } else {
                assert(all[i] == behind[i - before.len()]);
            }
        }
    }
}

/// The part of a name behind its last backslash.
fn last_segment_of(name: &str) -> (segment: String)
    ensures
        segment@ == last_segment(name@),
{
    let chars = chars_of(name);
    let mut from: usize = chars.len();
    assert(chars@.subrange(from as int, chars@.len() as int) =~= Seq::empty());
    assert(chars@.take(from as int) =~= chars@);
    while from > 0 && chars[from - 1] != '\\'
        invariant
            from <= chars@.len(),
            last_segment(chars@) == last_segment(chars@.take(from as int)) + chars@.subrange(
                from as int,
                chars@.len() as int,
            ),
        decreases from,
    {
        let ghost before = chars@.take(from as int);
        let ghost behind = chars@.subrange(from as int, chars@.len() as int);
        from -= 1;
        proof {
            assert(before.drop_last() =~= chars@.take(from as int));
            assert(chars@.subrange(from as int, chars@.len() as int) =~= seq![before.last()]
                + behind);
            assert(last_segment(before.drop_last()).push(before.last()) + behind =~= last_segment(
                before.drop_last(),
            ) + (seq![before.last()] + behind));
        }
    }
    assert(last_segment(chars@.take(from as int)) =~= Seq::empty());
    let segment = string_of(&chars, from, chars.len());
    assert(segment@ =~= last_segment(name@));
    segment
}

/// The kind of step that an attribute defines, by the last part of its name.
pub fn step_kind_from_attribute(attribute: &PhpAttribute) -> (kind: Option<StepKind>)
    ensures
        kind == kind_of_name(attribute.name@),
{
    let word = last_segment_of(attribute.name.as_str());
    let word = word.as_str();
    if same_text(word, "Given") {
        Some(StepKind::Given)
    } else if same_text(word, "When") {
        Some(StepKind::When)
    } else if same_text(word, "Then") {
        Some(StepKind::Then)
    } else if same_text(word, "And") {
        Some(StepKind::And)
    } else if same_text(word, "But") {
        Some(StepKind::But)
    } else {
        None
    }
}

/// The text of the first argument of an attribute, where that is a string literal.
pub fn extract_first_string_argument(attribute: &PhpAttribute) -> (text: Option<String>)
    ensures
        text.deep_view() == first_text(attribute.deep_view()),
{
    match &attribute.arguments {
        Some(arguments) => {
            if arguments.len() == 0 {
                return None;
            }
            assert(arguments.deep_view()[0] == arguments@[0].deep_view());
            match &arguments[0] {
                PhpArgument::Text { value: Some(text), .. } => Some(text.clone()),
                PhpArgument::Text { value: None, raw } => Some(raw.clone()),
                PhpArgument::Other => None,
            }
        },
        None => None,
    }
}

/// Appends the steps that a list of attributes defines.
fn collect_steps_from_list(list: &Vec<PhpAttribute>, out: &mut Vec<ParsedStep>)
    ensures
        final(out).deep_view() == old(out).deep_view() + list_steps(list.deep_view()),
{
    let ghost all = list.deep_view();
    let ghost step_of = |attribute: AttributeTree| attribute_step(attribute);
    let mut i: usize = 0;
    assert(all.take(0) =~= Seq::empty());
    assert(out.deep_view() =~= old(out).deep_view() + all.take(0).filter_map(step_of));
    while i < list.len()
        invariant
            i <= list@.len(),
            all == list.deep_view(),
            step_of == (|attribute: AttributeTree| attribute_step(attribute)),
            out.deep_view() == old(out).deep_view() + all.take(i as int).filter_map(step_of),
        decreases list@.len() - i,
    {
        let ghost before = out.deep_view();
        let attribute = &list[i];
        proof {
            all.lemma_filter_map_take_succ(step_of, i as int);
            assert(all[i as int] == attribute.deep_view());
        }
        if let Some(kind) = step_kind_from_attribute(attribute) {
            if let Some(text) = extract_first_string_argument(attribute) {
                out.push(ParsedStep { text, kind });
                assert(out.deep_view() =~= before.push(ParsedStepView { text: text@, kind }));
            }
        }
        i += 1;
        assert(out.deep_view() =~= old(out).deep_view() + all.take(i as int).filter_map(step_of));
    }
    assert(all.take(i as int) =~= all);
}

/// Appends the steps that a method with these lists of attributes defines.
pub fn collect_steps_from_method(lists: &Vec<Vec<PhpAttribute>>, out: &mut Vec<ParsedStep>)
    ensures
        final(out).deep_view() == old(out).deep_view() + method_steps(lists.deep_view()),
{
    let ghost all = lists.deep_view();
    let ghost steps_of = |list: Seq<AttributeTree>| list_steps(list);
    let mut i: usize = 0;
    assert(all.take(0) =~= Seq::empty());
    assert(out.deep_view() =~= old(out).deep_view() + all.take(0).flat_map(steps_of));
    while i < lists.len()
        invariant
            i <= lists@.len(),
            all == lists.deep_view(),
            steps_of == (|list: Seq<AttributeTree>| list_steps(list)),
            out.deep_view() == old(out).deep_view() + all.take(i as int).flat_map(steps_of),
        decreases lists@.len() - i,
    {
        proof {
            all.lemma_flat_map_take_append(steps_of, i as int);
            assert(all[i as int] == lists@[i as int].deep_view());
        }
        collect_steps_from_list(&lists[i], out);
        i += 1;
        assert(out.deep_view() =~= old(out).deep_view() + all.take(i as int).flat_map(steps_of));
    }
    assert(all.take(i as int) =~= all);
}

/// The steps that the methods of a class define, in order.
pub fn collect_steps_from_class(class: &PhpClass) -> (steps: Vec<ParsedStep>)
    ensures
        steps.deep_view() == class_steps(class.deep_view()),
{
    let ghost all = class.members.deep_view();
    let ghost steps_of = |member: MemberTree| member_steps(member);
    let mut steps: Vec<ParsedStep> = Vec::new();
    let mut i: usize = 0;
    assert(all.take(0) =~= Seq::empty());
    assert(steps.deep_view() =~= all.take(0).flat_map(steps_of));
    while i < class.members.len()
        invariant
            i <= class.members@.len(),
            all == class.members.deep_view(),
            steps_of == (|member: MemberTree| member_steps(member)),
            steps.deep_view() == all.take(i as int).flat_map(steps_of),
        decreases class.members@.len() - i,
    {
        proof {
            all.lemma_flat_map_take_append(steps_of, i as int);
            assert(all[i as int] == class.members@[i as int].deep_view());
        }
        if let PhpMember::Method(lists) = &class.members[i] {
            collect_steps_from_method(lists, &mut steps);
        }
        i += 1;
        assert(steps.deep_view() =~= all.take(i as int).flat_map(steps_of));
    }
    assert(all.take(i as int) =~= all);
    steps
}

/// The name of a class with the namespace that it stands in.
pub fn qualify_class_name(namespace: Option<&str>, class_name: &str) -> (name: String)
    ensures
        name@ == qualified_name(namespace.deep_view(), class_name@),
{
    match namespace {
        Some(prefix) => {
            if same_text(prefix, "") {
                proof {
                    reveal_strlit("");
                }
                class_name.to_owned()
            } else {
                proof {
                    reveal_strlit("");
                    if prefix@.len() == 0 {
                        assert(prefix@ =~= ""@);
                    }
                }
                let mut name = prefix.to_owned();
                name.push('\\');
                name.append(class_name);
                name
            }
        },
        None => class_name.to_owned(),
    }
}

/// Appends the classes that statements declare.
pub fn collect_classes_from_statements(
    statements: &Vec<PhpStatement>,
    namespace: Option<&str>,
    out: &mut Vec<ParsedClass>,
)
    ensures
        final(out).deep_view() == old(out).deep_view() + declared_classes(
            php_trees(statements@),
            namespace.deep_view(),
        ),
    decreases statements,
{
    let ghost trees = php_trees(statements@);
    let ghost within = namespace.deep_view();
    let mut i: usize = 0;
    assert(out.deep_view() =~= old(out).deep_view() + declared_classes(
        trees.subrange(0, 0),
        within,
    ));
    while i < statements.len()
        invariant
            i <= statements@.len(),
            trees == php_trees(statements@),
            within == namespace.deep_view(),
            out.deep_view() == old(out).deep_view() + declared_classes(
                trees.subrange(0, i as int),
                within,
            ),
        decreases statements@.len() - i,
    {
        let ghost before = out.deep_view();
        let ghost tree = trees[i as int];
        assert(tree == php_tree(statements@[i as int]));
        match &statements[i] {
            PhpStatement::Namespace { name, statements: inner } => {
                assert(tree->statements =~= php_trees(inner@));
                let name = match name {
                    Some(name) => Some(name.as_str()),
                    None => None,
                };
                collect_classes_from_statements(inner, name, out);
            },
            PhpStatement::Class(class) => {
                let steps = collect_steps_from_class(class);
                let fqcn = qualify_class_name(namespace, class.name.as_str());
                out.push(ParsedClass { fqcn, steps });
                assert(out.deep_view() =~= before + statement_classes(tree, within));
            },
            PhpStatement::Other => {
                assert(out.deep_view() =~= before + statement_classes(tree, within));
            },
        }
        proof {
            let upto = trees.subrange(0, i + 1);
            assert(upto.subrange(0, upto.len() - 1) =~= trees.subrange(0, i as int));
            assert(out.deep_view() =~= old(out).deep_view() + declared_classes(upto, within));
        }
        i += 1;
    }
    assert(trees.subrange(0, i as int) =~= trees);
}

/// The classes that the statements of a file declare, in order.
pub fn collect_classes(statements: &Vec<PhpStatement>) -> (classes: Vec<ParsedClass>)
    ensures
        classes.deep_view() == declared_classes(php_trees(statements@), None),
{
    let mut classes: Vec<ParsedClass> = Vec::new();
    collect_classes_from_statements(statements, None, &mut classes);
    assert(classes.deep_view() =~= declared_classes(php_trees(statements@), None));
    classes
}

/// The label of a file.
pub fn label_of(path: &PathBuf, root: &PathBuf) -> (label: String)
    ensures
        label@ == file_label(path_bytes(*path), path_bytes(*root)),
{
    match strip_path_prefix(path, root) {
        Some(below) => lossy_text_of(&below),
        None => lossy_text_of(path),
    }
}

/// The classes that a PHP file declares, with the steps that they define.
pub fn parse_php_file(path: &PathBuf, root: &PathBuf, contents: String) -> (file: ParsedFile)
    ensures
        file.classes.deep_view() == declared_classes(php_parsed(contents@), None),
{
    let statements = parse_php(label_of(path, root), copy_path(path), contents);
    ParsedFile { classes: collect_classes(&statements) }
}

} // verus!
