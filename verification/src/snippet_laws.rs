//! What a step pattern is shown and inserted as.

use vstd::prelude::*;

verus! {

use crate::snippet::{
    after_group, group_content, group_len, is_name_char, is_simple_placeholder,
    lemma_plain_text_add, lemma_snippet_text_add, name_len, piece_plain, piece_snippet, pieces,
    placeholder_count, plain_text, single, snippet_text, step_pattern, unwrapped, Piece,
};
use crate::text::{decimal, trimmed};
use crate::text_laws::{all_blank, lemma_trimmed_between, no_blank_ends};

/// How many groups more are open behind `s` than before it.
pub open spec fn opened(s: Seq<char>) -> int
    decreases s.len(),
{
    if s.len() == 0 {
        0
    } else {
        (if s[0] == '(' {
            1int
        } else if s[0] == ')' {
            -1
        } else {
            0
        }) + opened(s.skip(1))
    }
}

/// Whether no parenthesis in `s` closes a group that is open before it.
pub open spec fn closes_none(s: Seq<char>) -> bool {
    forall|i: int| 0 <= i <= s.len() ==> opened(#[trigger] s.take(i)) >= 0
}

/// Whether each group that is opened in `s` is closed there, and no other.
pub open spec fn is_balanced(s: Seq<char>) -> bool {
    closes_none(s) && opened(s) == 0
}

/// Whether `t` starts with a question mark and what marks a group that is not captured or has a
/// name.
pub open spec fn starts_as_marked_group(t: Seq<char>) -> bool {
    ||| t.len() >= 2 && t[0] == '?' && t[1] == ':'
    ||| t.len() >= 3 && t[0] == '?' && t[1] == 'P' && t[2] == '<'
}

/// Whether the content of a group stands for any value.
pub open spec fn is_any_value(t: Seq<char>) -> bool {
    ||| t == seq!['.', '*']
    ||| t == seq!['.', '+']
    ||| t.len() == 5 && t[0] == '[' && t[1] == '^' && t[3] == ']' && t[4] == '*' && (t[2] == ')'
        || t[2] == '"' || t[2] == '\'' || t[2] == ' ' || t[2] == '/')
    ||| starts_as_marked_group(t)
}

/// A pattern of one piece.
pub open spec fn one(p: Piece) -> Seq<Piece> {
    seq![p]
}

/// The piece for each character of a text.
pub open spec fn literals(s: Seq<char>) -> Seq<Piece>
    decreases s.len(),
{
    if s.len() == 0 {
        Seq::empty()
    } else {
        one(Piece::Literal(s[0])) + literals(s.skip(1))
    }
}

proof fn lemma_name_len_is(name: Seq<char>, rest: Seq<char>)
    requires
        forall|i: int| 0 <= i < name.len() ==> is_name_char(#[trigger] name[i]),
        rest.len() > 0 ==> !is_name_char(rest[0]),
    ensures
        name_len(name + rest) == name.len(),
    decreases name.len(),
{
    let s = name + rest;
    if name.len() > 0 {
        assert(is_name_char(name[0]));
        assert(s.skip(1) =~= name.skip(1) + rest);
        assert forall|i: int| 0 <= i < name.skip(1).len() implies is_name_char(
            #[trigger] name.skip(1)[i],
        ) by {
            assert(is_name_char(name[i + 1]));
        }
        lemma_name_len_is(name.skip(1), rest);
    } else {
        assert(s =~= rest);
    }
}

/// A colon and the letters, digits and underscores behind it, capitals included, are one
/// placeholder of that name, and what follows is read on its own.
pub proof fn lemma_named_placeholder(name: Seq<char>, rest: Seq<char>)
    requires
        name.len() > 0,
        forall|i: int|
            0 <= i < name.len() ==> ('A' <= #[trigger] name[i] <= 'Z' || 'a' <= name[i] <= 'z'
                || '0' <= name[i] <= '9' || name[i] == '_'),
        rest.len() > 0 ==> !('A' <= rest[0] <= 'Z' || 'a' <= rest[0] <= 'z' || '0' <= rest[0]
            <= '9' || rest[0] == '_'),
    ensures
        pieces(seq![':'] + name + rest) == one(Piece::Placeholder(name)) + pieces(rest),
{
    let s = seq![':'] + name + rest;
    let n = name.len() as int;
    assert forall|i: int| 0 <= i < name.len() implies is_name_char(#[trigger] name[i]) by {}
    assert(s.skip(1) =~= name + rest);
    lemma_name_len_is(name, rest);
    assert(s[0] == ':');
    assert(s.subrange(1, 1 + n) =~= name);
    assert(s.skip(1 + n) =~= rest);
    assert(pieces(s) == single(Piece::Placeholder(name)) + pieces(rest));
}

/// A colon with no letter, digit or underscore behind it stands for itself.
pub proof fn lemma_bare_colon(rest: Seq<char>)
    requires
        rest.len() > 0 ==> !('A' <= rest[0] <= 'Z' || 'a' <= rest[0] <= 'z' || '0' <= rest[0]
            <= '9' || rest[0] == '_'),
    ensures
        pieces(seq![':'] + rest) == one(Piece::Literal(':')) + pieces(rest),
{
    let s = seq![':'] + rest;
    assert(s.skip(1) =~= rest);
    assert(rest =~= Seq::<char>::empty() + rest);
    lemma_name_len_is(Seq::empty(), rest);
    assert(pieces(s) == single(Piece::Literal(':')) + pieces(rest));
}

/// Any character but a colon and an opening parenthesis stands for itself.
pub proof fn lemma_plain_character(c: char, rest: Seq<char>)
    requires
        c != ':',
        c != '(',
    ensures
        pieces(seq![c] + rest) == one(Piece::Literal(c)) + pieces(rest),
{
    let s = seq![c] + rest;
    assert(s.skip(1) =~= rest);
    assert(s[0] == c);
    assert(pieces(s) == single(Piece::Literal(c)) + pieces(rest));
}

/// A text without colons and opening parentheses stands for itself, whatever follows it.
pub proof fn lemma_plain_start(text: Seq<char>, rest: Seq<char>)
    requires
        !text.contains(':'),
        !text.contains('('),
    ensures
        pieces(text + rest) == literals(text) + pieces(rest),
    decreases text.len(),
{
    if text.len() == 0 {
        assert(text + rest =~= rest);
        assert(literals(text) + pieces(rest) =~= pieces(rest));
    } else {
        let tail = text.skip(1);
        assert(text.contains(text[0]));
        assert forall|c: char| tail.contains(c) implies text.contains(c) by {
            let i = choose|i: int| 0 <= i < tail.len() && tail[i] == c;
            assert(text[i + 1] == c);
        }
        lemma_plain_start(tail, rest);
        lemma_plain_character(text[0], tail + rest);
        assert(text + rest =~= seq![text[0]] + (tail + rest));
        assert(literals(text) + pieces(rest) =~= one(Piece::Literal(text[0])) + (literals(tail)
            + pieces(rest)));
    }
}

proof fn lemma_opened_front(s: Seq<char>, i: int)
    requires
        0 <= i < s.len(),
    ensures
        opened(s.take(i + 1)) == (if s[0] == '(' {
            1int
        } else if s[0] == ')' {
            -1
        } else {
            0
        }) + opened(s.skip(1).take(i)),
{
    assert(s.take(i + 1).skip(1) =~= s.skip(1).take(i));
}

/// A group ends where the depth first falls to nothing, or with the text.
proof fn lemma_group_len_is(inner: Seq<char>, rest: Seq<char>, depth: nat)
    requires
        depth >= 1,
        forall|i: int| 0 <= i <= inner.len() ==> opened(#[trigger] inner.take(i)) + depth >= 1,
        rest.len() > 0 ==> rest[0] == ')' && opened(inner) + depth == 1,
    ensures
        group_len(inner + rest, depth) == inner.len(),
    decreases inner.len(),
{
    let s = inner + rest;
    if inner.len() == 0 {
        assert(s =~= rest);
    } else {
        let tail = inner.skip(1);
        assert(s.skip(1) =~= tail + rest);
        assert(s[0] == inner[0]);
        assert(inner.take(inner.len() as int) =~= inner);
        let next: int = (if inner[0] == '(' {
            depth as int + 1
        } else if inner[0] == ')' {
            depth - 1
        } else {
            depth as int
        });
        assert forall|i: int| 0 <= i <= tail.len() implies opened(#[trigger] tail.take(i)) + next
            >= 1 by {
            lemma_opened_front(inner, i);
            assert(opened(inner.take(i + 1)) + depth >= 1);
        }
        assert(tail.take(0) =~= Seq::empty());
        assert(opened(tail.take(0)) == 0);
        assert(opened(inner) == opened(tail) + next - depth);
        lemma_group_len_is(tail, rest, next as nat);
    }
}

proof fn lemma_any_value(t: Seq<char>)
    requires
        no_blank_ends(t),
    ensures
        is_simple_placeholder(t) <==> is_any_value(t),
{
    reveal_strlit(".*");
    reveal_strlit(".+");
    reveal_strlit("[^)]*");
    reveal_strlit("[^\"]*");
    reveal_strlit("[^']*");
    reveal_strlit("[^ ]*");
    reveal_strlit("[^/]*");
    reveal_strlit("?:");
    reveal_strlit("?P<");
    let none = Seq::<char>::empty();
    assert(none + t + none =~= t);
    lemma_trimmed_between(none, t, none);
    assert(trimmed(t) == t);
    if is_any_value(t) {
        if t == seq!['.', '*'] {
            assert(t =~= ".*"@);
        } else if t == seq!['.', '+'] {
            assert(t =~= ".+"@);
        } else if starts_as_marked_group(t) {
            if t[1] == ':' {
                assert("?:"@ =~= t.subrange(0, 2));
                assert("?:"@.is_prefix_of(t));
            } else {
                assert("?P<"@ =~= t.subrange(0, 3));
                assert("?P<"@.is_prefix_of(t));
            }
        } else if t[2] == ')' {
            assert(t =~= "[^)]*"@);
        } else if t[2] == '"' {
            assert(t =~= "[^\"]*"@);
        } else if t[2] == '\'' {
            assert(t =~= "[^']*"@);
        } else if t[2] == ' ' {
            assert(t =~= "[^ ]*"@);
        } else {
            assert(t =~= "[^/]*"@);
        }
    }
    if is_simple_placeholder(t) {
        if t == ".*"@ {
            assert(t =~= seq!['.', '*']);
        } else if t == ".+"@ {
            assert(t =~= seq!['.', '+']);
        } else if "?:"@.is_prefix_of(t) {
            assert(t[0] == "?:"@[0] && t[1] == "?:"@[1]);
        } else if "?P<"@.is_prefix_of(t) {
            assert(t[0] == "?P<"@[0] && t[1] == "?P<"@[1] && t[2] == "?P<"@[2]);
        }
    }
}

/// A text is that of a group for any value just where it is so without the white space around it.
pub proof fn lemma_any_value_between(before: Seq<char>, content: Seq<char>, after: Seq<char>)
    requires
        all_blank(before),
        all_blank(after),
        no_blank_ends(content),
    ensures
        is_simple_placeholder(before + content + after) <==> is_any_value(content),
{
    let none = Seq::<char>::empty();
    lemma_trimmed_between(before, content, after);
    lemma_trimmed_between(none, content, none);
    assert(none + content + none =~= content);
    lemma_any_value(content);
}

/// What the content of a group is read as.
spec fn group_pieces(content: Seq<char>) -> Seq<Piece> {
    if is_simple_placeholder(content) {
        single(Piece::Placeholder("param"@))
    } else {
        pieces(content)
    }
}

proof fn lemma_group_read(inner: Seq<char>, rest: Seq<char>, behind: Seq<char>)
    requires
        closes_none(inner),
        rest.len() > 0 ==> is_balanced(inner) && rest == seq![')'] + behind,
        rest.len() == 0 ==> behind.len() == 0,
    ensures
        pieces(seq!['('] + inner + rest) == group_pieces(trimmed(inner)) + pieces(behind),
{
    let s = seq!['('] + inner + rest;
    assert(s.skip(1) =~= inner + rest);
    assert forall|i: int| 0 <= i <= inner.len() implies opened(#[trigger] inner.take(i)) + 1
        >= 1 by {}
    lemma_group_len_is(inner, rest, 1);
    assert((inner + rest).take(inner.len() as int) =~= inner);
    assert(group_content(s.skip(1)) == trimmed(inner));
    assert(after_group(s.skip(1)) =~= behind) by {
        if rest.len() > 0 {
            assert((inner + rest).skip(inner.len() as int + 1) =~= behind);
        } else {
            assert(behind =~= Seq::empty());
        }
    }
    assert(s[0] == '(');
}

/// A group for any value, with white space around it or not, is a placeholder named `param`, and
/// what follows its closing parenthesis is read on its own.
pub proof fn lemma_group_for_any_value(
    before: Seq<char>,
    content: Seq<char>,
    after: Seq<char>,
    rest: Seq<char>,
)
    requires
        all_blank(before),
        all_blank(after),
        no_blank_ends(content),
        is_any_value(content),
        is_balanced(before + content + after),
    ensures
        pieces(seq!['('] + (before + content + after) + (seq![')'] + rest)) == one(
            Piece::Placeholder(seq!['p', 'a', 'r', 'a', 'm']),
        ) + pieces(rest),
{
    reveal_strlit("param");
    assert("param"@ =~= seq!['p', 'a', 'r', 'a', 'm']);
    lemma_trimmed_between(before, content, after);
    lemma_any_value(content);
    lemma_group_read(before + content + after, seq![')'] + rest, rest);
}

/// Any other group is read as what it holds, without the white space around that, and what follows
/// its closing parenthesis is read on its own.
pub proof fn lemma_other_group(
    before: Seq<char>,
    content: Seq<char>,
    after: Seq<char>,
    rest: Seq<char>,
)
    requires
        all_blank(before),
        all_blank(after),
        no_blank_ends(content),
        !is_any_value(content),
        is_balanced(before + content + after),
    ensures
        pieces(seq!['('] + (before + content + after) + (seq![')'] + rest)) == pieces(content)
            + pieces(rest),
{
    lemma_trimmed_between(before, content, after);
    lemma_any_value(content);
    lemma_group_read(before + content + after, seq![')'] + rest, rest);
}

/// A group that is not closed goes on to the end of the text.
pub proof fn lemma_group_without_end(before: Seq<char>, content: Seq<char>, after: Seq<char>)
    requires
        all_blank(before),
        all_blank(after),
        no_blank_ends(content),
        closes_none(before + content + after),
    ensures
        pieces(seq!['('] + (before + content + after)) == if is_any_value(content) {
            one(Piece::Placeholder(seq!['p', 'a', 'r', 'a', 'm']))
        } else {
            pieces(content)
        },
{
    reveal_strlit("param");
    assert("param"@ =~= seq!['p', 'a', 'r', 'a', 'm']);
    let inner = before + content + after;
    let none = Seq::<char>::empty();
    lemma_trimmed_between(before, content, after);
    lemma_any_value(content);
    lemma_group_read(inner, none, none);
    assert(seq!['('] + inner + none =~= seq!['('] + inner);
    assert(group_pieces(content) + pieces(none) =~= group_pieces(content));
}

/// An empty pattern has no pieces, and nothing is shown or inserted for it.
pub proof fn lemma_empty_pattern(start: nat)
    ensures
        pieces(Seq::empty()) == Seq::<Piece>::empty(),
        plain_text(Seq::empty()) == Seq::<char>::empty(),
        snippet_text(Seq::empty(), start) == Seq::<char>::empty(),
        placeholder_count(Seq::empty()) == 0,
{
}

/// A character is shown and inserted as it is. A placeholder is shown in angle brackets, and
/// inserted as a tab stop with its number and its name.
pub proof fn lemma_one_piece(c: char, name: Seq<char>, start: nat)
    ensures
        plain_text(one(Piece::Literal(c))) == seq![c],
        snippet_text(one(Piece::Literal(c)), start) == seq![c],
        placeholder_count(one(Piece::Literal(c))) == 0,
        plain_text(one(Piece::Placeholder(name))) == seq!['<'] + name + seq!['>'],
        snippet_text(one(Piece::Placeholder(name)), start) == seq!['$', '{'] + decimal(start)
            + seq![':'] + name + seq!['}'],
        placeholder_count(one(Piece::Placeholder(name))) == 1,
{
    reveal_strlit("<");
    reveal_strlit(">");
    reveal_strlit("${");
    reveal_strlit(":");
    reveal_strlit("}");
    assert("<"@ =~= seq!['<']);
    assert(">"@ =~= seq!['>']);
    assert("${"@ =~= seq!['$', '{']);
    assert(":"@ =~= seq![':']);
    assert("}"@ =~= seq!['}']);
    lemma_single_piece(Piece::Literal(c), start);
    lemma_single_piece(Piece::Placeholder(name), start);
}

proof fn lemma_single_piece(p: Piece, start: nat)
    ensures
        plain_text(one(p)) == piece_plain(p),
        snippet_text(one(p), start) == piece_snippet(p, start),
        placeholder_count(one(p)) == if p is Placeholder {
            1nat
        } else {
            0
        },
{
    let ps = one(p);
    assert(ps.drop_last() =~= Seq::empty());
    assert(plain_text(ps.drop_last()) =~= Seq::empty());
    assert(snippet_text(ps.drop_last(), start) =~= Seq::empty());
    assert(plain_text(ps) =~= piece_plain(p));
    assert(snippet_text(ps, start) =~= piece_snippet(p, start));
}

proof fn lemma_literals(text: Seq<char>, start: nat)
    ensures
        plain_text(literals(text)) == text,
        snippet_text(literals(text), start) == text,
        placeholder_count(literals(text)) == 0,
    decreases text.len(),
{
    if text.len() == 0 {
        assert(text =~= Seq::empty());
    } else {
        let tail = text.skip(1);
        let first = one(Piece::Literal(text[0]));
        lemma_literals(tail, start);
        lemma_single_piece(Piece::Literal(text[0]), start);
        lemma_plain_text_add(first, literals(tail));
        lemma_snippet_text_add(first, literals(tail), start);
        lemma_count_add(first, literals(tail));
        assert(text =~= seq![text[0]] + tail);
    }
}

/// Two patterns in a row have the placeholders of both.
pub proof fn lemma_count_add(a: Seq<Piece>, b: Seq<Piece>)
    ensures
        placeholder_count(a + b) == placeholder_count(a) + placeholder_count(b),
    decreases b.len(),
{
    if b.len() == 0 {
        assert(a + b =~= a);
    } else {
        assert((a + b).drop_last() =~= a + b.drop_last());
        lemma_count_add(a, b.drop_last());
    }
}

/// What is shown and inserted for a text with a named placeholder in it: the text before the colon
/// as it is, the placeholder, and what is shown and inserted for the rest, with the tab stops
/// numbered on.
pub proof fn lemma_text_with_name(
    before: Seq<char>,
    name: Seq<char>,
    rest: Seq<char>,
    start: nat,
)
    requires
        !before.contains(':'),
        !before.contains('('),
        name.len() > 0,
        forall|i: int|
            0 <= i < name.len() ==> ('A' <= #[trigger] name[i] <= 'Z' || 'a' <= name[i] <= 'z'
                || '0' <= name[i] <= '9' || name[i] == '_'),
        rest.len() > 0 ==> !('A' <= rest[0] <= 'Z' || 'a' <= rest[0] <= 'z' || '0' <= rest[0]
            <= '9' || rest[0] == '_'),
    ensures
        plain_text(pieces(before + (seq![':'] + name + rest))) == before + (seq!['<'] + name
            + seq!['>']) + plain_text(pieces(rest)),
        snippet_text(pieces(before + (seq![':'] + name + rest)), start) == before + (seq!['$', '{']
            + decimal(start) + seq![':'] + name + seq!['}']) + snippet_text(
            pieces(rest),
            start + 1,
        ),
{
    let named = one(Piece::Placeholder(name));
    lemma_plain_start(before, seq![':'] + name + rest);
    lemma_named_placeholder(name, rest);
    lemma_literals(before, start);
    lemma_one_piece(':', name, start);
    lemma_plain_text_add(literals(before), named + pieces(rest));
    lemma_plain_text_add(named, pieces(rest));
    lemma_snippet_text_add(literals(before), named + pieces(rest), start);
    lemma_snippet_text_add(named, pieces(rest), start);
    assert(plain_text(pieces(before + (seq![':'] + name + rest))) =~= before + (seq!['<'] + name
        + seq!['>']) + plain_text(pieces(rest)));
    assert(snippet_text(pieces(before + (seq![':'] + name + rest)), start) =~= before + (seq![
        '$',
        '{',
    ] + decimal(start) + seq![':'] + name + seq!['}']) + snippet_text(pieces(rest), start + 1));
}

/// The slashes or hashes around a pattern go, and the white space outside of them does.
pub proof fn lemma_delimited(
    before: Seq<char>,
    delimiter: char,
    inner: Seq<char>,
    after: Seq<char>,
)
    requires
        delimiter == '/' || delimiter == '#',
        all_blank(before),
        all_blank(after),
    ensures
        unwrapped(before + (seq![delimiter] + inner + seq![delimiter]) + after) == Some(inner),
        step_pattern(before + (seq![delimiter] + inner + seq![delimiter]) + after) == inner,
{
    let t = seq![delimiter] + inner + seq![delimiter];
    lemma_trimmed_between(before, t, after);
    assert(t[0] == delimiter && t.last() == delimiter);
    assert(t.subrange(1, t.len() - 1) =~= inner);
}

/// A pattern without the same delimiter at both ends is left as it is, white space included.
pub proof fn lemma_not_delimited(before: Seq<char>, text: Seq<char>, after: Seq<char>)
    requires
        all_blank(before),
        all_blank(after),
        no_blank_ends(text),
        text.len() < 2 || text[0] != text[text.len() - 1] || (text[0] != '/' && text[0] != '#'),
    ensures
        unwrapped(before + text + after) is None,
        step_pattern(before + text + after) == before + text + after,
{
    lemma_trimmed_between(before, text, after);
}

} // verus!
