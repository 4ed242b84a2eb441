//! What the operations on text are for.

use vstd::prelude::*;

verus! {

use crate::text::{
    decimal, is_white_space, trimmed, trimmed_end, trimmed_start, with_slashes,
    without_leading_backslashes,
};

/// Whether `rest` is `name` behind all the backslashes that it starts with.
pub open spec fn is_stripped(name: Seq<char>, rest: Seq<char>) -> bool {
    &&& rest.len() <= name.len()
    &&& rest == name.skip(name.len() - rest.len())
    &&& forall|i: int| 0 <= i < name.len() - rest.len() ==> name[i] == '\\'
    &&& rest.len() > 0 ==> rest[0] != '\\'
}

/// Whether a character is one of those that Unicode calls white space.
pub open spec fn is_blank(c: char) -> bool {
    ||| c == ' ' || c == '\t' || c == '\n' || c == '\r' || c == '\u{b}' || c == '\u{c}'
    ||| c == '\u{85}' || c == '\u{a0}' || c == '\u{1680}'
    ||| '\u{2000}' <= c <= '\u{200a}'
    ||| c == '\u{2028}' || c == '\u{2029}' || c == '\u{202f}' || c == '\u{205f}'
    ||| c == '\u{3000}'
}

/// Whether all of `s` is white space.
pub open spec fn all_blank(s: Seq<char>) -> bool {
    forall|i: int| 0 <= i < s.len() ==> is_blank(#[trigger] s[i])
}

/// Whether `s` has no white space at either end.
pub open spec fn no_blank_ends(s: Seq<char>) -> bool {
    s.len() > 0 ==> !is_blank(s[0]) && !is_blank(s[s.len() - 1])
}

/// The number that digits stand for.
pub open spec fn number_of(digits: Seq<char>) -> int
    decreases digits.len(),
{
    if digits.len() == 0 {
        0
    } else {
        10 * number_of(digits.drop_last()) + (digits.last() as int - '0' as int)
    }
}

/// White space is what Unicode says it is.
pub proof fn lemma_white_space(c: char)
    ensures
        is_white_space(c) <==> is_blank(c),
{
}

/// The leading backslashes go, all of them, and nothing else does.
pub proof fn lemma_stripped(name: Seq<char>, rest: Seq<char>)
    ensures
        without_leading_backslashes(name) == rest <==> is_stripped(name, rest),
    decreases name.len(),
{
    if name.len() > 0 && name[0] == '\\' {
        let tail = name.skip(1);
        lemma_stripped(tail, rest);
        if is_stripped(tail, rest) {
            assert(rest =~= name.skip(name.len() - rest.len()));
            assert forall|i: int| 0 <= i < name.len() - rest.len() implies name[i] == '\\' by {
                if i > 0 {
                    assert(tail[i - 1] == '\\');
                }
            }
        }
        if is_stripped(name, rest) {
            if rest.len() == name.len() {
                assert(rest[0] == name[0]);
            }
            assert(rest =~= tail.skip(tail.len() - rest.len()));
            assert forall|i: int| 0 <= i < tail.len() - rest.len() implies tail[i] == '\\' by {
                assert(name[i + 1] == '\\');
            }
        }
    } else {
        assert(name.skip(0) =~= name);
        if is_stripped(name, rest) && rest.len() < name.len() {
            assert(name[0] == '\\');
        }
    }
}

/// What follows any number of backslashes is what is left, where it does not start with one.
pub proof fn lemma_backslashes_taken_off(count: nat, rest: Seq<char>)
    requires
        rest.len() > 0 ==> rest[0] != '\\',
    ensures
        without_leading_backslashes(Seq::new(count, |i: int| '\\') + rest) == rest,
{
    let name = Seq::new(count, |i: int| '\\') + rest;
    assert(rest =~= name.skip(name.len() - rest.len()));
    lemma_stripped(name, rest);
}

/// Every backslash turns into a slash, and every other character stays where it is.
pub proof fn lemma_slashes(s: Seq<char>)
    ensures
        with_slashes(s).len() == s.len(),
        !with_slashes(s).contains('\\'),
        forall|i: int|
            0 <= i < s.len() ==> #[trigger] with_slashes(s)[i] == if s[i] == '\\' {
                '/'
            } else {
                s[i]
            },
{
    let changed = with_slashes(s);
    if changed.contains('\\') {
        let i = choose|i: int| 0 <= i < changed.len() && changed[i] == '\\';
        assert(changed[i] == if s[i] == '\\' {
            '/'
        } else {
            s[i]
        });
    }
}

proof fn lemma_trimmed_start_between(before: Seq<char>, rest: Seq<char>)
    requires
        all_blank(before),
        rest.len() > 0 ==> !is_blank(rest[0]),
    ensures
        trimmed_start(before + rest) == rest,
    decreases before.len(),
{
    let s = before + rest;
    if before.len() > 0 {
        assert(is_blank(before[0]));
        assert(s[0] == before[0]);
        assert(s.skip(1) =~= before.skip(1) + rest);
        assert forall|i: int| 0 <= i < before.skip(1).len() implies is_blank(
            #[trigger] before.skip(1)[i],
        ) by {
            assert(is_blank(before[i + 1]));
        }
        lemma_white_space(s[0]);
        lemma_trimmed_start_between(before.skip(1), rest);
        assert(trimmed_start(s) == trimmed_start(s.skip(1)));
    } else {
        assert(s =~= rest);
        if rest.len() > 0 {
            lemma_white_space(rest[0]);
        }
        assert(trimmed_start(rest) == rest);
    }
}

proof fn lemma_trimmed_end_between(rest: Seq<char>, after: Seq<char>)
    requires
        all_blank(after),
        rest.len() > 0 ==> !is_blank(rest[rest.len() - 1]),
    ensures
        trimmed_end(rest + after) == rest,
    decreases after.len(),
{
    let s = rest + after;
    if after.len() > 0 {
        let init = after.drop_last();
        assert(is_blank(after[after.len() - 1]));
        assert(s.drop_last() =~= rest + init);
        assert forall|i: int| 0 <= i < init.len() implies is_blank(#[trigger] init[i]) by {
            assert(is_blank(after[i]));
        }
        lemma_white_space(s.last());
        lemma_trimmed_end_between(rest, init);
        assert(trimmed_end(s) == trimmed_end(s.drop_last()));
    } else {
        assert(s =~= rest);
        if rest.len() > 0 {
            lemma_white_space(rest.last());
        }
        assert(trimmed_end(rest) == rest);
    }
}

/// Trimming takes off the white space around a text, all of it, and nothing else.
pub proof fn lemma_trimmed_between(before: Seq<char>, inner: Seq<char>, after: Seq<char>)
    requires
        all_blank(before),
        all_blank(after),
        no_blank_ends(inner),
    ensures
        trimmed(before + inner + after) == inner,
{
    if inner.len() > 0 {
        assert(before + inner + after =~= before + (inner + after));
        lemma_trimmed_start_between(before, inner + after);
        lemma_trimmed_end_between(inner, after);
    } else {
        let all = before + after;
        assert(before + inner + after =~= all + inner);
        assert forall|i: int| 0 <= i < all.len() implies is_blank(#[trigger] all[i]) by {
            if i < before.len() {
                assert(is_blank(before[i]));
            } else {
                assert(is_blank(after[i - before.len()]));
            }
        }
        lemma_trimmed_start_between(all, inner);
        assert(trimmed_end(inner) =~= inner);
    }
}

/// A number written in decimal reads as that number, in digits of which the first is no zero unless
/// it is the only one.
pub proof fn lemma_decimal(n: nat)
    ensures
        number_of(decimal(n)) == n,
        decimal(n).len() > 0,
        forall|i: int| 0 <= i < decimal(n).len() ==> '0' <= #[trigger] decimal(n)[i] <= '9',
        decimal(n).len() > 1 ==> decimal(n)[0] != '0',
    decreases n,
{
    let s = decimal(n);
    if n < 10 {
        assert(s.drop_last() =~= Seq::empty());
        assert(number_of(s.drop_last()) == 0);
        assert(s.last() as int == 48 + n);
    } else {
        let init = decimal(n / 10);
        lemma_decimal(n / 10);
        assert(s.drop_last() =~= init);
        assert(s.last() as int == 48 + n % 10);
        assert forall|i: int| 0 <= i < s.len() implies '0' <= #[trigger] s[i] <= '9' by {
            if i < init.len() {
                assert(s[i] == init[i]);
            }
        }
        assert(s[0] == init[0]);
        if init.len() == 1 && init[0] == '0' {
            assert(init.drop_last() =~= Seq::empty());
            assert(number_of(init.drop_last()) == 0);
        }
    }
}

} // verus!
