//! The documents that are open, and places in them.

use dashmap::DashMap;
use vstd::prelude::*;

verus! {

use vstd::utf8::encode_utf8;

/// `dashmap::DashMap`, a map from keys to values.
#[verifier::external_type_specification]
#[verifier::external_body]
#[verifier::reject_recursive_types(K)]
#[verifier::reject_recursive_types(V)]
#[verifier::reject_recursive_types(S)]
pub struct ExDashMap<K, V, S>(DashMap<K, V, S>);

/// A place in a document: a line, and a byte in it.
#[derive(Clone, Copy, Debug, PartialEq, Eq, Structural)]
pub struct Position {
    pub line: u32,
    pub character: u32,
}

/// What stands from one place in a document up to another.
#[derive(Clone, Copy, Debug, PartialEq, Eq, Structural)]
pub struct Range {
    pub start: Position,
    pub end: Position,
}

/// The lines of a text: what stands before, between and behind its newlines.
pub open spec fn lines(text: Seq<u8>) -> Seq<Seq<u8>>
    decreases text.len(),
{
    if text.len() == 0 {
        seq![Seq::empty()]
    } else {
        let before = lines(text.drop_last());
        if text.last() == 0x0a {
            before.push(Seq::empty())
        } else {
            before.drop_last().push(before.last().push(text.last()))
        }
    }
}

/// A space, a tab, a newline, a form feed or a carriage return.
pub open spec fn is_ascii_space(byte: u8) -> bool {
    byte == 0x20 || byte == 0x09 || byte == 0x0a || byte == 0x0c || byte == 0x0d
}

/// Where the word that ends before the byte `end` of a line starts.
pub open spec fn word_start(line: Seq<u8>, end: nat) -> nat
    decreases end,
{
    if end == 0 || is_ascii_space(line[end - 1]) {
        end
    } else {
        word_start(line, (end - 1) as nat)
    }
}

/// The word before a position: none, where the document has no such position.
pub open spec fn word_before(text: Seq<u8>, position: Position) -> Option<Range> {
    let line = lines(text)[position.line as int];
    if position.line < lines(text).len() && position.character <= line.len() {
        Some(
            Range {
                start: Position {
                    line: position.line,
                    character: word_start(line, position.character as nat) as u32,
                },
                end: position,
            },
        )
    } else {
        None
    }
}

/// The word before a byte of a line has no white space in it, and what stands before the word is
/// white space.
pub proof fn lemma_word_start(line: Seq<u8>, end: nat)
    requires
        end <= line.len(),
    ensures
        word_start(line, end) <= end,
        forall|i: int| word_start(line, end) <= i < end ==> !is_ascii_space(line[i]),
        word_start(line, end) > 0 ==> is_ascii_space(line[word_start(line, end) - 1]),
    decreases end,
{
    if end > 0 && !is_ascii_space(line[end - 1]) {
        lemma_word_start(line, (end - 1) as nat);
    }
}

/// The word before a position ends there and starts in the same line, not behind it.
pub proof fn lemma_word_before(text: Seq<u8>, position: Position)
    ensures
        word_before(text, position) matches Some(range) ==> range.end == position
            && range.start.line == position.line && range.start.character <= position.character,
{
    if word_before(text, position) is Some {
        lemma_word_start(lines(text)[position.line as int], position.character as nat);
    }
}

/// Lines with a newline between each and the next.
pub open spec fn joined_lines(parts: Seq<Seq<u8>>) -> Seq<u8>
    decreases parts.len(),
{
    if parts.len() == 0 {
        Seq::empty()
    } else if parts.len() == 1 {
        parts[0]
    } else {
        joined_lines(parts.drop_last()).push(0x0a) + parts.last()
    }
}

/// A text is its lines with newlines between them, and no line has a newline in it.
pub proof fn lemma_lines(text: Seq<u8>)
    ensures
        lines(text).len() > 0,
        joined_lines(lines(text)) == text,
        forall|i: int| 0 <= i < lines(text).len() ==> !(#[trigger] lines(text)[i]).contains(0x0a),
    decreases text.len(),
{
    let all = lines(text);
    if text.len() == 0 {
        assert(all[0] =~= text);
    } else {
        let before = lines(text.drop_last());
        lemma_lines(text.drop_last());
        if text.last() == 0x0a {
            assert(all.drop_last() =~= before);
            assert(joined_lines(all) =~= text);
        } else {
            assert(all.drop_last() =~= before.drop_last());
            assert(joined_lines(all) =~= joined_lines(before).push(text.last()));
            assert(joined_lines(all) =~= text);
            assert forall|i: int| 0 <= i < all.len() implies !(#[trigger] all[i]).contains(
                0x0a,
            ) by {
                if i < before.len() - 1 {
                    assert(all[i] == before[i]);
                } else if all[i].contains(0x0a) {
                    let k = choose|k: int| 0 <= k < all[i].len() && all[i][k] == 0x0a;
                    assert(before.last()[k] == 0x0a);
                    assert(before[i].contains(0x0a));
                }
            }
        }
    }
}

/// Whether a sequence of lines is the start of another, but for what the last line may go on with.
spec fn lines_start(part: Seq<Seq<u8>>, whole: Seq<Seq<u8>>) -> bool {
    &&& 0 < part.len() <= whole.len()
    &&& forall|i: int| 0 <= i < part.len() - 1 ==> #[trigger] part[i] == whole[i]
}

proof fn lemma_lines_start(text: Seq<u8>, n: int)
    requires
        0 <= n <= text.len(),
    ensures
        lines_start(lines(text.take(n)), lines(text)),
    decreases text.len(),
{
    if n == text.len() {
        assert(text.take(n) =~= text);
        lemma_lines(text);
    } else {
        assert(text.drop_last().take(n) =~= text.take(n));
        lemma_lines_start(text.drop_last(), n);
        lemma_lines(text.drop_last());
    }
}

/// Where a line of a text starts, and where it ends: nowhere, where there is no such line.
fn find_line(bytes: &[u8], line: u32) -> (bounds: Option<(usize, usize)>)
    ensures
        match bounds {
            Some((from, to)) => from <= to <= bytes@.len() && line < lines(bytes@).len()
                && lines(bytes@)[line as int] == bytes@.subrange(from as int, to as int),
            None => line >= lines(bytes@).len(),
        },
{
    let mut current: u32 = 0;
    let mut from: usize = 0;
    let mut i: usize = 0;
    assert(bytes@.subrange(0, 0) =~= Seq::empty());
    assert(lines(bytes@.take(0)) == seq![Seq::<u8>::empty()]);
    while i < bytes.len()
        invariant
            from <= i <= bytes@.len(),
            current <= line,
            lines(bytes@.take(i as int)).len() == current + 1,
            lines(bytes@.take(i as int)).last() == bytes@.subrange(from as int, i as int),
        decreases bytes@.len() - i,
    {
        let ghost before = lines(bytes@.take(i as int));
        let ghost upto = bytes@.take(i + 1);
        assert(upto.drop_last() =~= bytes@.take(i as int));
        if bytes[i] == 0x0a {
            if current == line {
                proof {
                    lemma_lines_start(bytes@, i + 1);
                    assert(lines(upto) == before.push(Seq::empty()));
                    assert(lines(upto)[line as int] == before[line as int]);
                }
                return Some((from, i));
            }
            current += 1;
            from = i + 1;
            assert(bytes@.subrange(from as int, i + 1) =~= Seq::empty());
        } else {
            assert(bytes@.subrange(from as int, i + 1) =~= bytes@.subrange(
                from as int,
                i as int,
            ).push(bytes@[i as int]));
        }
        i += 1;
    }
    assert(bytes@.take(i as int) =~= bytes@);
    if current == line {
        Some((from, i))
    } else {
        None
    }
}

/// The word before a position, for a completion to replace.
pub fn word_replace_range(text: &str, position: Position) -> (range: Option<Range>)
    ensures
        range == word_before(encode_utf8(text@), position),
{
    let bytes = text.as_bytes();
    let (from, to) = match find_line(bytes, position.line) {
        Some(bounds) => bounds,
        None => {
            return None;
        },
    };
    let ghost line = bytes@.subrange(from as int, to as int);
    let end: usize = position.character as usize;
    if end > to - from {
        return None;
    }
    let mut start: usize = end;
    while start > 0 && !ascii_space(bytes[from + start - 1])
        invariant
            start <= end <= to - from,
            from <= to <= bytes@.len(),
            line == bytes@.subrange(from as int, to as int),
            word_start(line, start as nat) == word_start(line, end as nat),
        decreases start,
    {
        start -= 1;
    }
    Some(
        Range {
            start: Position { line: position.line, character: start as u32 },
            end: position,
        },
    )
}

/// Tells whether a byte is white space.
fn ascii_space(byte: u8) -> (r: bool)
    ensures
        r == is_ascii_space(byte),
{
    byte == 0x20 || byte == 0x09 || byte == 0x0a || byte == 0x0c || byte == 0x0d
}

/// What a `DashMap` holds: a text for each key.
pub uninterp spec fn held_texts(map: DashMap<String, String>) -> Map<Seq<char>, Seq<char>>;

/// No text for any key.
pub open spec fn no_texts() -> Map<Seq<char>, Seq<char>> {
    Map::empty()
}

/// `DashMap::new` makes a map that holds nothing.
#[verifier::external_body]
fn new_map() -> (map: DashMap<String, String>)
    ensures
        held_texts(map) == no_texts(),
{
    DashMap::new()
}

/// `DashMap::insert` puts a value under a key, in place of the one that is there, if any.
#[verifier::external_body]
fn insert_text(map: &mut DashMap<String, String>, key: String, text: String)
    ensures
        held_texts(*final(map)) == held_texts(*old(map)).insert(key@, text@),
{
    map.insert(key, text);
}

/// `DashMap::get` finds the value under a key, where there is one.
#[verifier::external_body]
fn get_text(map: &DashMap<String, String>, key: &str) -> (text: Option<String>)
    ensures
        text is Some <==> held_texts(*map).contains_key(key@),
        text matches Some(found) ==> found@ == held_texts(*map)[key@],
{
    map.get(key).map(|text| text.clone())
}

/// The documents that are open, by their URIs.
#[derive(Debug)]
pub struct OpenDocuments {
    texts: DashMap<String, String>,
}

impl View for OpenDocuments {
    type V = Map<Seq<char>, Seq<char>>;

    closed spec fn view(&self) -> Map<Seq<char>, Seq<char>> {
        held_texts(self.texts)
    }
}

/// The documents once one of them is changed: the first of the changes is its whole new text.
pub open spec fn changed_documents(
    documents: Map<Seq<char>, Seq<char>>,
    uri: Seq<char>,
    changes: Seq<Seq<char>>,
) -> Map<Seq<char>, Seq<char>> {
    if changes.len() == 0 {
        documents
    } else {
        documents.insert(uri, changes[0])
    }
}

/// The word before a position in an open document: none, where the document is not open.
pub open spec fn word_in_document(
    documents: Map<Seq<char>, Seq<char>>,
    uri: Seq<char>,
    position: Position,
) -> Option<Range> {
    if documents.contains_key(uri) {
        word_before(encode_utf8(documents[uri]), position)
    } else {
        None
    }
}

/// A change of one document leaves what is found in the others as it was.
pub proof fn lemma_change_of_another(
    documents: Map<Seq<char>, Seq<char>>,
    uri: Seq<char>,
    changes: Seq<Seq<char>>,
    other: Seq<char>,
    position: Position,
)
    requires
        uri != other,
    ensures
        word_in_document(changed_documents(documents, uri, changes), other, position)
            == word_in_document(documents, other, position),
{
}

/// What is found in a document goes by the text that came last, not by what the document was
/// before.
pub proof fn lemma_last_change(
    documents: Map<Seq<char>, Seq<char>>,
    uri: Seq<char>,
    changes: Seq<Seq<char>>,
    position: Position,
)
    requires
        changes.len() > 0,
    ensures
        word_in_document(changed_documents(documents, uri, changes), uri, position) == word_before(
            encode_utf8(changes[0]),
            position,
        ),
{
}

impl OpenDocuments {
    /// No document is open.
    pub fn new() -> (documents: OpenDocuments)
        ensures
            documents@ == no_texts(),
    {
        OpenDocuments { texts: new_map() }
    }

    /// A document is opened.
    pub fn did_open(&mut self, uri: String, text: String)
        ensures
            final(self)@ == old(self)@.insert(uri@, text@),
    {
        insert_text(&mut self.texts, uri, text);
    }

    /// A document is changed. Only the first change counts: it holds the whole new text.
    pub fn did_change(&mut self, uri: String, changes: &Vec<String>)
        ensures
            final(self)@ == changed_documents(old(self)@, uri@, changes.deep_view()),
    {
        if changes.len() > 0 {
            assert(changes.deep_view()[0] == changes@[0]@);
            let text = changes[0].clone();
            insert_text(&mut self.texts, uri, text);
        }
    }

    /// The word before a position in a document.
    pub fn replace_range(&self, uri: &str, position: Position) -> (range: Option<Range>)
        ensures
            range == word_in_document(self@, uri@, position),
    {
        match get_text(&self.texts, uri) {
            Some(text) => word_replace_range(text.as_str(), position),
            None => None,
        }
    }
}

} // verus!
