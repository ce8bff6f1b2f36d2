//! Plain text: its characters, lower case, and whether one text holds another.

use vstd::prelude::*;
use vstd::string::*;
use crate::seqs::{first_index, lemma_first_index_is};

verus! {

/// The lower case of a text, as `str::to_lowercase` of std gives it.
pub uninterp spec fn lowercase_of(text: Seq<char>) -> Seq<char>;

/// Calls `str::to_lowercase`.
///
/// The contract gives the outcome its name and claims no more: what comes
/// back is `lowercase_of` the text.
#[verifier::external_body]
pub(crate) fn to_lowercase(text: &str) -> (r: String)
    ensures
        r@ == lowercase_of(text@),
{
    text.to_lowercase()
}

/// Whether `part` stands in `text` from the place `at` on.
pub open spec fn occurs_at(text: Seq<char>, part: Seq<char>, at: int) -> bool {
    &&& 0 <= at
    &&& at + part.len() <= text.len()
    &&& text.subrange(at, at + part.len()) == part
}

/// Whether `part` stands somewhere in `text`.
pub open spec fn holds_text(text: Seq<char>, part: Seq<char>) -> bool {
    exists|at: int| occurs_at(text, part, at)
}

/// The characters of a text, one by one.
pub fn chars_of(text: &str) -> (r: Vec<char>)
    ensures
        r@ == text@,
{
    let n = text.unicode_len();
    let mut chars: Vec<char> = Vec::new();
    let mut i: usize = 0;
    while i < n
        invariant
            i <= n == text@.len(),
            chars@ == text@.take(i as int),
        decreases n - i,
    {
        chars.push(text.get_char(i));
        proof {
            assert(text@.take(i + 1) == text@.take(i as int).push(text@[i as int]));
        }
        i += 1;
    }
    proof {
        assert(text@.take(i as int) == text@);
    }
    chars
}

/// Whether `part` stands in `text` from the place `at` on.
pub fn stands_at(text: &Vec<char>, part: &Vec<char>, at: usize) -> (r: bool)
    requires
        at + part@.len() <= text@.len(),
    ensures
        r == occurs_at(text@, part@, at as int),
{
    let size = text.len();
    let mut k: usize = 0;
    while k < part.len()
        invariant
            k <= part@.len(),
            at + part@.len() <= text@.len() == size,
            forall|j: int| 0 <= j < k ==> text@[at + j] == part@[j],
        decreases part@.len() - k,
    {
        if text[at + k] != part[k] {
            proof {
                assert(text@.subrange(at as int, at + part@.len())[k as int] == text@[at + k]);
            }
            return false;
        }
        k += 1;
    }
    proof {
        assert(text@.subrange(at as int, at + part@.len()) =~= part@);
    }
    true
}

/// Whether `part` stands somewhere in `text`.
pub fn contains_chars(text: &Vec<char>, part: &Vec<char>) -> (r: bool)
    ensures
        r == holds_text(text@, part@),
{
    if part.len() > text.len() {
        return false;
    }
    let last = text.len() - part.len();
    let mut at: usize = 0;
    loop
        invariant
            at <= last,
            last + part@.len() == text@.len(),
            forall|j: int| 0 <= j < at ==> !occurs_at(text@, part@, j),
        decreases last - at,
    {
        if stands_at(text, part, at) {
            return true;
        }
        if at == last {
            return false;
        }
        at += 1;
    }
}

/// Whether `part` stands somewhere in `text`.
pub fn contains_text(text: &str, part: &str) -> (r: bool)
    ensures
        r == holds_text(text@, part@),
{
    let text_chars = chars_of(text);
    let part_chars = chars_of(part);
    contains_chars(&text_chars, &part_chars)
}

/// A text without the white space at its ends, as `str::trim` of std gives
/// it.
pub uninterp spec fn trimmed_of(text: Seq<char>) -> Seq<char>;

/// Calls `str::trim`.
///
/// The contract gives the outcome its name and claims no more: what comes
/// back is `trimmed_of` the text.
#[verifier::external_body]
pub(crate) fn trimmed(text: &str) -> (r: &str)
    ensures
        r@ == trimmed_of(text@),
{
    text.trim()
}

/// Whether the two texts are the same.
pub fn same_text(a: &str, b: &str) -> (r: bool)
    ensures
        r == (a@ == b@),
{
    let first = chars_of(a);
    let second = chars_of(b);
    if first.len() != second.len() {
        return false;
    }
    let mut i: usize = 0;
    while i < first.len()
        invariant
            i <= first@.len() == second@.len(),
            first@ == a@,
            second@ == b@,
            forall|j: int| 0 <= j < i ==> first@[j] == second@[j],
        decreases first@.len() - i,
    {
        if first[i] != second[i] {
            return false;
        }
        i += 1;
    }
    proof {
        assert(first@ =~= second@);
    }
    true
}

/// Whether a character ends a line.
pub open spec fn ends_line() -> spec_fn(char) -> bool {
    |c: char| c == '\n'
}

/// The lines of a text: what stands between its line ends.
pub open spec fn lines_of(text: Seq<char>) -> Seq<Seq<char>>
    decreases text.len(),
{
    let end = first_index(text, ends_line());
    if end < 0 || end >= text.len() {
        seq![text]
    } else {
        seq![text.take(end)] + lines_of(text.skip(end + 1))
    }
}

/// Where the first character of the kind `wanted` stands in `text` from the
/// place `from` on; the length of `text` if there is none.
pub fn find_char(text: &Vec<char>, from: usize, wanted: char) -> (r: usize)
    requires
        from <= text@.len(),
    ensures
        from <= r <= text@.len(),
        r == from + first_index(text@.skip(from as int), |c: char| c == wanted),
{
    let mut i: usize = from;
    while i < text.len() && text[i] != wanted
        invariant
            from <= i <= text@.len(),
            forall|j: int| from <= j < i ==> text@[j] != wanted,
        decreases text@.len() - i,
    {
        i += 1;
    }
    proof {
        let rest = text@.skip(from as int);
        assert forall|j: int| 0 <= j < i - from implies !(|c: char| c
            == wanted)(#[trigger] rest[j]) by {
            assert(rest[j] == text@[from + j]);
        }
        lemma_first_index_is(rest, |c: char| c == wanted, i - from);
    }
    i
}

/// The lines of a text.
pub fn split_lines<'a>(text: &'a str) -> (r: Vec<&'a str>)
    ensures
        r.deep_view() == lines_of(text@),
{
    let chars = chars_of(text);
    let mut lines: Vec<&'a str> = Vec::new();
    let mut start: usize = 0;
    proof {
        assert(text@.skip(0) == text@);
        assert(lines.deep_view() =~= Seq::<Seq<char>>::empty());
    }
    loop
        invariant
            start <= chars@.len(),
            chars@ == text@,
            lines_of(text@) == lines.deep_view() + lines_of(text@.skip(start as int)),
        decreases chars@.len() - start,
    {
        let ghost rest = text@.skip(start as int);
        let ghost done = lines.deep_view();
        let end = find_char(&chars, start, '\n');
        proof {
            assert(first_index(rest, |c: char| c == '\n') == first_index(rest, ends_line())) by {
                assert((|c: char| c == '\n') =~= ends_line());
            }
            assert(rest.take(end - start) == text@.subrange(start as int, end as int));
        }
        let line = text.substring_char(start, end);
        lines.push(line);
        proof {
            assert(lines.deep_view() =~= done.push(line@));
        }
        if end == chars.len() {
            proof {
                assert(lines.deep_view() =~= done + seq![rest]);
            }
            return lines;
        }
        proof {
            assert(rest.skip(end - start + 1) == text@.skip(end + 1));
            assert(lines.deep_view() + lines_of(text@.skip(end + 1)) =~= done + (seq![
                rest.take(end - start),
            ] + lines_of(rest.skip(end - start + 1))));
        }
        start = end + 1;
    }
}

} // verus!
