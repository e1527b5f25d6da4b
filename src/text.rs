//! Characters, character classes and runs of them.
use vstd::prelude::*;
use vstd::std_specs::iter::IteratorSpec;

verus! {

broadcast use vstd::string::group_string_axioms;

/// The classes of characters that the directive and marker grammars use.
#[derive(Clone, Copy, PartialEq, Eq, Structural)]
pub enum Class {
    /// White space that does not break a line.
    Space,
    /// A character of a file path: a tag character, white space, `/` or `\`.
    Path,
    /// A character of a tag name: an ASCII letter or digit, `_`, `-` or `.`.
    Tag,
    /// Any character but a line feed.
    NotNewline,
}

/// A white-space character that does not break a line: tab, vertical tab,
/// form feed, carriage return, space, and the Unicode spaces U+00A0, U+1680,
/// U+2000 to U+200A, U+202F, U+205F and U+3000.
pub open spec fn is_space(c: char) -> bool {
    c == '\t' || c == '\u{0b}' || c == '\u{0c}' || c == '\r' || c == ' ' || c == '\u{a0}'
        || c == '\u{1680}' || ('\u{2000}' <= c && c <= '\u{200a}') || c == '\u{202f}'
        || c == '\u{205f}' || c == '\u{3000}'
}

pub open spec fn is_tag_char(c: char) -> bool {
    ('a' <= c && c <= 'z') || ('A' <= c && c <= 'Z') || ('0' <= c && c <= '9') || c == '_'
        || c == '-' || c == '.'
}

pub open spec fn is_path_char(c: char) -> bool {
    is_tag_char(c) || is_space(c) || c == '/' || c == '\\'
}

pub open spec fn in_class(c: char, cls: Class) -> bool {
    match cls {
        Class::Space => is_space(c),
        Class::Path => is_path_char(c),
        Class::Tag => is_tag_char(c),
        Class::NotNewline => c != '\n',
    }
}

/// The end of the longest run of characters of class `cls` that starts at `i`.
pub open spec fn run_end(s: Seq<char>, i: int, cls: Class) -> int
    decreases s.len() - i,
{
    if 0 <= i < s.len() && in_class(s[i], cls) {
        run_end(s, i + 1, cls)
    } else {
        i
    }
}

pub proof fn lemma_run_end_bounds(s: Seq<char>, i: int, cls: Class)
    requires
        0 <= i <= s.len(),
    ensures
        i <= run_end(s, i, cls) <= s.len(),
        forall|k: int| i <= k < run_end(s, i, cls) ==> in_class(#[trigger] s[k], cls),
        run_end(s, i, cls) < s.len() ==> !in_class(s[run_end(s, i, cls)], cls),
    decreases s.len() - i,
{
    if i < s.len() && in_class(s[i], cls) {
        lemma_run_end_bounds(s, i + 1, cls);
    }
}

pub proof fn lemma_run_end_exact(t: Seq<char>, a: int, e: int, cls: Class)
    requires
        0 <= a <= e <= t.len(),
        forall|x: int| a <= x < e ==> in_class(#[trigger] t[x], cls),
        e == t.len() || !in_class(t[e], cls),
    ensures
        run_end(t, a, cls) == e,
    decreases e - a,
{
    if a < e {
        lemma_run_end_exact(t, a + 1, e, cls);
    }
}

fn is_space_exec(c: char) -> (r: bool)
    ensures
        r == is_space(c),
{
    c == '\t' || c == '\u{0b}' || c == '\u{0c}' || c == '\r' || c == ' ' || c == '\u{a0}'
        || c == '\u{1680}' || ('\u{2000}' <= c && c <= '\u{200a}') || c == '\u{202f}'
        || c == '\u{205f}' || c == '\u{3000}'
}

fn is_tag_char_exec(c: char) -> (r: bool)
    ensures
        r == is_tag_char(c),
{
    ('a' <= c && c <= 'z') || ('A' <= c && c <= 'Z') || ('0' <= c && c <= '9') || c == '_'
        || c == '-' || c == '.'
}

pub fn char_in_class(c: char, cls: Class) -> (r: bool)
    ensures
        r == in_class(c, cls),
{
    match cls {
        Class::Space => is_space_exec(c),
        Class::Path => is_space_exec(c) || c == '/' || c == '\\' || is_tag_char_exec(c),
        Class::Tag => is_tag_char_exec(c),
        Class::NotNewline => c != '\n',
    }
}

/// Index of the first character at or after `i` that is not of class `cls`.
pub fn skip_run(s: &Vec<char>, i: usize, cls: Class) -> (r: usize)
    requires
        i <= s@.len(),
    ensures
        r == run_end(s@, i as int, cls),
{
    let mut k: usize = i;
    while k < s.len() && char_in_class(s[k], cls)
        invariant
            i <= k <= s@.len(),
            run_end(s@, i as int, cls) == run_end(s@, k as int, cls),
        decreases s@.len() - k,
    {
        k = k + 1;
    }
    k
}

/// The characters of `s`, one element each.
pub fn chars_of(s: &str) -> (r: Vec<char>)
    ensures
        r@ == s@,
{
    let mut it = s.chars();
    let mut r: Vec<char> = Vec::new();
    loop
        invariant
            IteratorSpec::obeys_prophetic_iter_laws(&it),
            r@ + IteratorSpec::remaining(&it) == s@,
            IteratorSpec::decrease(&it) is Some,
        decreases IteratorSpec::decrease(&it)->0,
    {
        match it.next() {
            Some(c) => {
                r.push(c);
            },
            None => {
                return r;
            },
        }
    }
}

/// Whether `s` holds `pat` at position `at`.
pub fn matches_at(s: &Vec<char>, at: usize, pat: &Vec<char>) -> (r: bool)
    ensures
        r == (at + pat@.len() <= s@.len() && s@.subrange(at as int, at + pat@.len()) == pat@),
{
    if at > s.len() || pat.len() > s.len() - at {
        return false;
    }
    let mut k: usize = 0;
    while k < pat.len()
        invariant
            at + pat@.len() <= s@.len(),
            s@.len() <= usize::MAX,
            k <= pat@.len(),
            forall|m: int| 0 <= m < k ==> s@[at + m] == pat@[m],
        decreases pat@.len() - k,
    {
        if s[at + k] != pat[k] {
            assert(s@.subrange(at as int, at + pat@.len())[k as int] != pat@[k as int]);
            return false;
        }
        k = k + 1;
    }
    assert(s@.subrange(at as int, at + pat@.len()) =~= pat@);
    true
}

} // verus!
