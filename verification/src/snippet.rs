//! Step patterns turned into what an editor shows and what it inserts.
//!
//! A pattern is read as a sequence of pieces: plain characters, and placeholders that the user
//! fills in. The shown text has a placeholder in angle brackets; the inserted text has it as a
//! numbered tab stop.

use vstd::prelude::*;
use vstd::string::StringExecFns;

use crate::text::{chars_of, decimal_of, same_text, string_of, strip_start, trim};

verus! {

use crate::text::{decimal, lemma_trimmed_len, trimmed, trimmed_end, trimmed_start};

/// One piece of a step pattern.
pub enum Piece {
    /// A character that stands for itself.
    Literal(char),
    /// A place that the user fills in, with the name shown for it.
    Placeholder(Seq<char>),
}

/// The characters that a named placeholder is made of: ASCII letters, digits and the underscore.
pub open spec fn is_name_char(c: char) -> bool {
    ||| '0' <= c <= '9'
    ||| 'A' <= c <= 'Z'
    ||| 'a' <= c <= 'z'
    ||| c == '_'
}

/// How many name characters `s` starts with.
pub open spec fn name_len(s: Seq<char>) -> nat
    decreases s.len(),
{
    if s.len() > 0 && is_name_char(s[0]) {
        1 + name_len(s.skip(1))
    } else {
        0
    }
}

/// How many characters of `s` stand before the parenthesis that closes the outermost of `depth`
/// groups that are open where `s` starts; all of them, where none closes it.
pub open spec fn group_len(s: Seq<char>, depth: nat) -> nat
    decreases s.len(),
{
    if s.len() == 0 {
        0
    } else if s[0] == '(' {
        1 + group_len(s.skip(1), depth + 1)
    } else if s[0] == ')' {
        if depth <= 1 {
            0
        } else {
            1 + group_len(s.skip(1), (depth - 1) as nat)
        }
    } else {
        1 + group_len(s.skip(1), depth)
    }
}

/// The groups that stand for one value, whatever it is.
pub open spec fn is_simple_placeholder(s: Seq<char>) -> bool {
    let t = trimmed(s);
    ||| t == ".*"@
    ||| t == ".+"@
    ||| t == "[^)]*"@
    ||| t == "[^\"]*"@
    ||| t == "[^']*"@
    ||| t == "[^ ]*"@
    ||| t == "[^/]*"@
    ||| "?:"@.is_prefix_of(t)
    ||| "?P<"@.is_prefix_of(t)
}

/// What the group that `s` starts with holds, where `s` starts behind its opening parenthesis.
pub open spec fn group_content(s: Seq<char>) -> Seq<char> {
    trimmed(s.take(group_len(s, 1) as int))
}

/// What follows the group that `s` starts with, where `s` starts behind its opening parenthesis.
pub open spec fn after_group(s: Seq<char>) -> Seq<char> {
    let n = group_len(s, 1);
    if n < s.len() {
        s.skip(n as int + 1)
    } else {
        Seq::empty()
    }
}

/// The pattern that has the one piece `p`.
pub open spec fn single(p: Piece) -> Seq<Piece> {
    seq![p]
}

/// The pieces of a step pattern: `:name` is a placeholder of that name, a group for any value is
/// a placeholder named `param`, another group stands for its own pieces, and any other character
/// stands for itself.
pub open spec fn pieces(s: Seq<char>) -> Seq<Piece>
    decreases s.len(),
{
    if s.len() == 0 {
        Seq::empty()
    } else if s[0] == ':' {
        let n = name_len(s.skip(1));
        if n == 0 {
            single(Piece::Literal(':')) + pieces(s.skip(1))
        } else {
            proof {
                lemma_name_len(s.skip(1));
            }
            single(Piece::Placeholder(s.subrange(1, 1 + n as int))) + pieces(s.skip(1 + n as int))
        }
    } else if s[0] == '(' {
        proof {
            lemma_group(s.skip(1));
        }
        let content = group_content(s.skip(1));
        let first = if is_simple_placeholder(content) {
            single(Piece::Placeholder("param"@))
        } else {
            pieces(content)
        };
        first + pieces(after_group(s.skip(1)))
    } else {
        single(Piece::Literal(s[0])) + pieces(s.skip(1))
    }
}

/// How many of `ps` are placeholders.
pub open spec fn placeholder_count(ps: Seq<Piece>) -> nat
    decreases ps.len(),
{
    if ps.len() == 0 {
        0
    } else {
        placeholder_count(ps.drop_last()) + if ps.last() is Placeholder {
            1nat
        } else {
            0
        }
    }
}

/// What the user is shown for a piece.
pub open spec fn piece_plain(p: Piece) -> Seq<char> {
    match p {
        Piece::Literal(c) => seq![c],
        Piece::Placeholder(name) => "<"@ + name + ">"@,
    }
}

/// What is inserted for a piece, where the next tab stop has the number `index`.
pub open spec fn piece_snippet(p: Piece, index: nat) -> Seq<char> {
    match p {
        Piece::Literal(c) => seq![c],
        Piece::Placeholder(name) => "${"@ + decimal(index) + ":"@ + name + "}"@,
    }
}

/// What the user is shown for a pattern.
pub open spec fn plain_text(ps: Seq<Piece>) -> Seq<char>
    decreases ps.len(),
{
    if ps.len() == 0 {
        Seq::empty()
    } else {
        plain_text(ps.drop_last()) + piece_plain(ps.last())
    }
}

/// What is inserted for a pattern whose tab stops are numbered in order from `start`.
pub open spec fn snippet_text(ps: Seq<Piece>, start: nat) -> Seq<char>
    decreases ps.len(),
{
    if ps.len() == 0 {
        Seq::empty()
    } else {
        snippet_text(ps.drop_last(), start) + piece_snippet(
            ps.last(),
            start + placeholder_count(ps.drop_last()),
        )
    }
}

/// What stands between the delimiters of a regular expression, where `s` is one: the first and
/// the last character, white space at either end aside, are both a slash or both a hash.
pub open spec fn unwrapped(s: Seq<char>) -> Option<Seq<char>> {
    let t = trimmed(s);
    if t.len() >= 2 && t[0] == t.last() && (t[0] == '/' || t[0] == '#') {
        Some(t.subrange(1, t.len() - 1))
    } else {
        None
    }
}

/// The pattern of a step text: the text itself, or what the delimiters of a regular expression
/// hold.
pub open spec fn step_pattern(s: Seq<char>) -> Seq<char> {
    match unwrapped(s) {
        Some(inner) => inner,
        None => s,
    }
}

/// The name that a text starts with is the longest run of name characters there.
pub proof fn lemma_name_len(s: Seq<char>)
    ensures
        name_len(s) <= s.len(),
        forall|i: int| 0 <= i < name_len(s) ==> is_name_char(s[i]),
        name_len(s) < s.len() ==> !is_name_char(s[name_len(s) as int]),
    decreases s.len(),
{
    if s.len() > 0 && is_name_char(s[0]) {
        lemma_name_len(s.skip(1));
        assert forall|i: int| 0 <= i < name_len(s) implies is_name_char(s[i]) by {
            if i > 0 {
                assert(s[i] == s.skip(1)[i - 1]);
            }
        }
    }
}

proof fn lemma_group_len(s: Seq<char>, depth: nat)
    ensures
        group_len(s, depth) <= s.len(),
    decreases s.len(),
{
    if s.len() > 0 {
        lemma_group_len(s.skip(1), depth + 1);
        if depth > 0 {
            lemma_group_len(s.skip(1), (depth - 1) as nat);
        }
        lemma_group_len(s.skip(1), depth);
    }
}

/// A group and what follows it lie within the text that they are read from.
pub proof fn lemma_group(s: Seq<char>)
    ensures
        group_len(s, 1) <= s.len(),
        group_content(s).len() <= group_len(s, 1),
        group_content(s).len() + after_group(s).len() <= s.len(),
{
    lemma_group_len(s, 1);
    lemma_trimmed_len(s.take(group_len(s, 1) as int));
}

proof fn lemma_count_add(a: Seq<Piece>, b: Seq<Piece>)
    ensures
        placeholder_count(a + b) == placeholder_count(a) + placeholder_count(b),
    decreases b.len(),
{
    if b.len() == 0 {
        assert(a + b =~= a);
    } else {
        assert((a + b).drop_last() =~= a + b.drop_last());
        lemma_count_add(a, b.drop_last());
    }
}

/// The shown text of two patterns in a row is what each of them shows, in a row.
pub proof fn lemma_plain_text_add(a: Seq<Piece>, b: Seq<Piece>)
    ensures
        plain_text(a + b) == plain_text(a) + plain_text(b),
    decreases b.len(),
{
    if b.len() == 0 {
        assert(a + b =~= a);
        assert(plain_text(a) + plain_text(b) =~= plain_text(a));
    } else {
        assert((a + b).drop_last() =~= a + b.drop_last());
        lemma_plain_text_add(a, b.drop_last());
        assert(plain_text(a + b) =~= plain_text(a) + plain_text(b));
    }
}

/// The inserted text of two patterns in a row is what each of them inserts, in a row, where the
/// second goes on with the numbers behind those of the first.
pub proof fn lemma_snippet_text_add(a: Seq<Piece>, b: Seq<Piece>, start: nat)
    ensures
        snippet_text(a + b, start) == snippet_text(a, start) + snippet_text(
            b,
            start + placeholder_count(a),
        ),
    decreases b.len(),
{
    if b.len() == 0 {
        assert(a + b =~= a);
        assert(snippet_text(a, start) + snippet_text(b, start + placeholder_count(a))
            =~= snippet_text(a, start));
    } else {
        assert((a + b).drop_last() =~= a + b.drop_last());
        lemma_snippet_text_add(a, b.drop_last(), start);
        lemma_count_add(a, b.drop_last());
        assert(snippet_text(a + b, start) =~= snippet_text(a, start) + snippet_text(
            b,
            start + placeholder_count(a),
        ));
    }
}

proof fn lemma_simple_placeholder_len(s: Seq<char>)
    requires
        is_simple_placeholder(s),
    ensures
        s.len() >= 1,
{
    reveal_strlit(".*");
    reveal_strlit(".+");
    reveal_strlit("[^)]*");
    reveal_strlit("[^\"]*");
    reveal_strlit("[^']*");
    reveal_strlit("[^ ]*");
    reveal_strlit("[^/]*");
    reveal_strlit("?:");
    reveal_strlit("?P<");
    lemma_trimmed_len(s);
}

proof fn lemma_count_one(p: Piece)
    ensures
        placeholder_count(single(p)) == if p is Placeholder {
            1nat
        } else {
            0
        },
        plain_text(single(p)) == piece_plain(p),
        forall|start: nat| #[trigger] snippet_text(single(p), start) == piece_snippet(p, start),
{
    let ps = single(p);
    assert(ps.drop_last() =~= Seq::empty());
    assert(placeholder_count(ps.drop_last()) == 0);
    assert(plain_text(ps.drop_last()) =~= Seq::empty());
    assert(plain_text(ps) =~= piece_plain(p));
    assert forall|start: nat| #[trigger] snippet_text(ps, start) == piece_snippet(p, start) by {
        assert(snippet_text(ps.drop_last(), start) =~= Seq::empty());
        assert(snippet_text(ps, start) =~= piece_snippet(p, start));
    }
}

/// A pattern has at most one placeholder for each two of its characters.
pub proof fn lemma_placeholder_count(s: Seq<char>)
    ensures
        2 * placeholder_count(pieces(s)) <= s.len(),
    decreases s.len(),
{
    if s.len() == 0 {
    } else if s[0] == ':' {
        let n = name_len(s.skip(1));
        lemma_name_len(s.skip(1));
        if n == 0 {
            lemma_count_one(Piece::Literal(':'));
            lemma_count_add(single(Piece::Literal(':')), pieces(s.skip(1)));
            lemma_placeholder_count(s.skip(1));
        } else {
            let p = Piece::Placeholder(s.subrange(1, 1 + n as int));
            lemma_count_one(p);
            lemma_count_add(single(p), pieces(s.skip(1 + n as int)));
            lemma_placeholder_count(s.skip(1 + n as int));
        }
    } else if s[0] == '(' {
        let content = group_content(s.skip(1));
        let rest = after_group(s.skip(1));
        lemma_group(s.skip(1));
        lemma_placeholder_count(content);
        lemma_placeholder_count(rest);
        if is_simple_placeholder(content) {
            lemma_simple_placeholder_len(content);
            lemma_count_one(Piece::Placeholder("param"@));
            lemma_count_add(single(Piece::Placeholder("param"@)), pieces(rest));
        } else {
            lemma_count_add(pieces(content), pieces(rest));
        }
    } else {
        lemma_count_one(Piece::Literal(s[0]));
        lemma_count_add(single(Piece::Literal(s[0])), pieces(s.skip(1)));
        lemma_placeholder_count(s.skip(1));
    }
}

/// A pattern without a colon or an opening parenthesis is shown and inserted as it stands.
pub proof fn lemma_plain_pattern(s: Seq<char>, start: nat)
    requires
        !s.contains(':'),
        !s.contains('('),
    ensures
        plain_text(pieces(s)) == s,
        snippet_text(pieces(s), start) == s,
        placeholder_count(pieces(s)) == 0,
    decreases s.len(),
{
    if s.len() > 0 {
        let t = s.skip(1);
        assert(s.contains(s[0]));
        assert forall|c: char| t.contains(c) implies s.contains(c) by {
            let i = choose|i: int| 0 <= i < t.len() && t[i] == c;
            assert(s[i + 1] == c);
        }
        lemma_plain_pattern(t, start);
        let first = single(Piece::Literal(s[0]));
        lemma_count_one(Piece::Literal(s[0]));
        lemma_count_add(first, pieces(t));
        lemma_plain_text_add(first, pieces(t));
        lemma_snippet_text_add(first, pieces(t), start);
        assert(seq![s[0]] + t =~= s);
    } else {
        assert(s =~= Seq::empty());
    }
}

/// The delimiters of a regular expression are taken off again, whatever they hold.
pub proof fn lemma_unwrapped_of_wrapped(delimiter: char, inner: Seq<char>)
    requires
        delimiter == '/' || delimiter == '#',
    ensures
        unwrapped(seq![delimiter] + inner + seq![delimiter]) == Some(inner),
{
    let s = seq![delimiter] + inner + seq![delimiter];
    assert(trimmed_start(s) == s);
    assert(trimmed_end(s) == s);
    assert(s.subrange(1, s.len() - 1) =~= inner);
}

/// Tells whether a character can stand in the name of a placeholder.
fn name_char(c: char) -> (r: bool)
    ensures
        r == is_name_char(c),
{
    ('0' <= c && c <= '9') || ('A' <= c && c <= 'Z') || ('a' <= c && c <= 'z') || c == '_'
}

/// Tells whether a group holds nothing but a pattern for any value.
pub fn is_simple_regex_placeholder(text: &str) -> (r: bool)
    ensures
        r == is_simple_placeholder(text@),
{
    let t = trim(text);
    let t = t.as_str();
    same_text(t, ".*") || same_text(t, ".+") || same_text(t, "[^)]*") || same_text(t, "[^\"]*")
        || same_text(t, "[^']*") || same_text(t, "[^ ]*") || same_text(t, "[^/]*") || strip_start(
        t,
        "?:",
    ).is_some() || strip_start(t, "?P<").is_some()
}

/// What the delimiters of a regular expression hold, where `text` has them.
pub fn strip_regex_wrappers(text: &str) -> (r: Option<String>)
    ensures
        r.deep_view() == unwrapped(text@),
{
    let t = trim(text);
    let chars = chars_of(t.as_str());
    let n: usize = chars.len();
    if n < 2 {
        return None;
    }
    let first: char = chars[0];
    let last: char = chars[n - 1];
    if (first == '/' || first == '#') && last == first {
        Some(string_of(&chars, 1, n - 1))
    } else {
        None
    }
}

/// Where the group ends that is open where `chars` has come to `from`: the position of the
/// parenthesis that closes it, or the end of `chars`.
fn find_group_end(chars: &Vec<char>, from: usize) -> (end: usize)
    requires
        1 <= from <= chars@.len(),
    ensures
        from <= end <= chars@.len(),
        end - from == group_len(chars@.skip(from as int), 1),
{
    let mut depth: usize = 1;
    let mut end: usize = from;
    while end < chars.len()
        invariant_except_break
            group_len(chars@.skip(from as int), 1) == (end - from) + group_len(
                chars@.skip(end as int),
                depth as nat,
            ),
            1 <= depth <= 1 + (end - from),
        invariant
            1 <= from <= end <= chars@.len(),
        ensures
            end - from == group_len(chars@.skip(from as int), 1),
        decreases chars@.len() - end,
    {
        assert(chars@.skip(end as int).skip(1) =~= chars@.skip(end + 1));
        if chars[end] == '(' {
            depth += 1;
        } else if chars[end] == ')' {
            depth -= 1;
            if depth == 0 {
                break;
            }
        }
        end += 1;
    }
    end
}

/// What is shown and what is inserted for a step text whose tab stops are numbered from
/// `start_index`, and the number behind the last of them. With `strip_regex` the delimiters of a
/// regular expression are taken off first.
pub fn build_step_snippet_inner(text: &str, start_index: usize, strip_regex: bool) -> (r: (
    String,
    String,
    usize,
))
    requires
        start_index + text@.len() / 2 <= usize::MAX,
    ensures
        ({
            let ps = pieces(
                if strip_regex {
                    step_pattern(text@)
                } else {
                    text@
                },
            );
            &&& r.0@ == plain_text(ps)
            &&& r.1@ == snippet_text(ps, start_index as nat)
            &&& r.2 == start_index + placeholder_count(ps)
        }),
    decreases text@.len(),
{
    let ghost pattern = if strip_regex {
        step_pattern(text@)
    } else {
        text@
    };
    proof {
        lemma_trimmed_len(text@);
    }
    let stripped = if strip_regex {
        strip_regex_wrappers(text)
    } else {
        None
    };
    let raw = match stripped {
        Some(inner) => chars_of(inner.as_str()),
        None => chars_of(text),
    };
    assert(raw@ == pattern);

    let mut plain = String::new();
    let mut snippet = String::new();
    let mut index: usize = start_index;
    let mut i: usize = 0;
    let ghost mut done: Seq<Piece> = Seq::empty();
    assert(raw@.skip(0) =~= raw@);
    assert(done + pieces(raw@.skip(0)) =~= pieces(raw@));

    while i < raw.len()
        invariant
            i <= raw@.len() <= text@.len(),
            pieces(raw@) == done + pieces(raw@.skip(i as int)),
            plain@ == plain_text(done),
            snippet@ == snippet_text(done, start_index as nat),
            index == start_index + placeholder_count(done),
            2 * placeholder_count(done) <= i,
            start_index + text@.len() / 2 <= usize::MAX,
        decreases raw@.len() - i,
    {
        let ch: char = raw[i];
        let ghost rest = raw@.skip(i as int);
        let ghost found: Seq<Piece>;
        let ghost before = i;
        assert(rest.skip(1) =~= raw@.skip(i + 1));
        if ch == ':' {
            let from: usize = i + 1;
            let mut to: usize = from;
            while to < raw.len() && name_char(raw[to])
                invariant
                    from <= to <= raw@.len(),
                    name_len(raw@.skip(from as int)) == (to - from) + name_len(
                        raw@.skip(to as int),
                    ),
                decreases raw@.len() - to,
            {
                assert(raw@.skip(to as int).skip(1) =~= raw@.skip(to + 1));
                to += 1;
            }
            assert(name_len(raw@.skip(to as int)) == 0);
            if to == from {
                plain.push(ch);
                snippet.push(ch);
                proof {
                    found = single(Piece::Literal(':'));
                    lemma_count_one(Piece::Literal(':'));
                }
            } else {
                let name = string_of(&raw, from, to);
                proof {
                    found = single(Piece::Placeholder(name@));
                    lemma_count_one(Piece::Placeholder(name@));
                    assert(rest.subrange(1, 1 + name_len(rest.skip(1)) as int) =~= name@);
                    assert(rest.skip(1 + name_len(rest.skip(1)) as int) =~= raw@.skip(to as int));
                }
                push_placeholder(&mut plain, &mut snippet, index, name.as_str());
                index += 1;
            }
            i = to;
        } else if ch == '(' {
            let from: usize = i + 1;
            let end = find_group_end(&raw, from);
            let inner = string_of(&raw, from, end);
            let trimmed_inner = trim(inner.as_str());
            proof {
                lemma_group(rest.skip(1));
                assert(rest.skip(1).take(group_len(rest.skip(1), 1) as int) =~= inner@);
                assert(trimmed_inner@ == group_content(rest.skip(1)));
                lemma_placeholder_count(trimmed_inner@);
            }
            if is_simple_regex_placeholder(trimmed_inner.as_str()) {
                proof {
                    lemma_simple_placeholder_len(trimmed_inner@);
                    found = single(Piece::Placeholder("param"@));
                    lemma_count_one(Piece::Placeholder("param"@));
                }
                push_placeholder(&mut plain, &mut snippet, index, "param");
                index += 1;
            } else {
                let (inner_plain, inner_snippet, new_index) = build_step_snippet_inner(
                    trimmed_inner.as_str(),
                    index,
                    false,
                );
                proof {
                    found = pieces(trimmed_inner@);
                }
                plain.append(inner_plain.as_str());
                snippet.append(inner_snippet.as_str());
                index = new_index;
            }
            i = if end < raw.len() {
                end + 1
            } else {
                end
            };
            proof {
                assert(raw@.skip(i as int) =~= after_group(rest.skip(1)));
            }
        } else {
            plain.push(ch);
            snippet.push(ch);
            i += 1;
            proof {
                found = single(Piece::Literal(ch));
                lemma_count_one(Piece::Literal(ch));
            }
        }
        proof {
            assert(pieces(rest) == found + pieces(raw@.skip(i as int)));
            assert(done + (found + pieces(raw@.skip(i as int))) =~= (done + found) + pieces(
                raw@.skip(i as int),
            ));
            lemma_plain_text_add(done, found);
            lemma_snippet_text_add(done, found, start_index as nat);
            lemma_count_add(done, found);
            assert(plain@ =~= plain_text(done + found));
            assert(snippet@ =~= snippet_text(done + found, start_index as nat));
            done = done + found;
        }
    }
    assert(raw@.skip(i as int) =~= Seq::<char>::empty());
    assert(done + pieces(raw@.skip(i as int)) =~= done);
    (plain, snippet, index)
}

/// Appends a placeholder to what is shown, and the tab stop `index` to what is inserted.
fn push_placeholder(plain: &mut String, snippet: &mut String, index: usize, name: &str)
    ensures
        final(plain)@ == old(plain)@ + piece_plain(Piece::Placeholder(name@)),
        final(snippet)@ == old(snippet)@ + piece_snippet(Piece::Placeholder(name@), index as nat),
{
    plain.append("<");
    plain.append(name);
    plain.append(">");
    snippet.append("${");
    let number = decimal_of(index);
    snippet.append(number.as_str());
    snippet.append(":");
    snippet.append(name);
    snippet.append("}");
    assert(plain@ =~= old(plain)@ + piece_plain(Piece::Placeholder(name@)));
    assert(snippet@ =~= old(snippet)@ + piece_snippet(Piece::Placeholder(name@), index as nat));
}

/// What is shown and what is inserted for a step text, with tab stops numbered from one.
pub fn build_step_snippet(text: &str) -> (r: (String, String))
    ensures
        r.0@ == plain_text(pieces(step_pattern(text@))),
        r.1@ == snippet_text(pieces(step_pattern(text@)), 1),
{
    let chars = chars_of(text);
    assert(chars.len() == text@.len());
    let (plain, snippet, _next) = build_step_snippet_inner(text, 1, true);
    (plain, snippet)
}

} // verus!
