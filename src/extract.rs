//! Taking the lines between a tag's start and end markers out of a file.
use vstd::prelude::*;
use vstd::string::StrSliceExecFns;
use crate::error::ErrorKind;
use crate::text::{Class, chars_of, skip_run, matches_at, run_end, lemma_run_end_bounds, lemma_run_end_exact, is_tag_char, in_class};

verus! {

broadcast use vstd::string::group_string_axioms;

/// The marker text `@<marker> <word> <tag>`.
pub open spec fn marker_text(marker: Seq<char>, word: Seq<char>, tag: Seq<char>) -> Seq<char> {
    seq!['@'] + marker + seq![' '] + word + seq![' '] + tag
}

/// The end of the line that starts at `a`: the next line feed, or the end of `t`.
pub open spec fn line_end(t: Seq<char>, a: int) -> int {
    run_end(t, a, Class::NotNewline)
}

/// Whether `[a, e)` of `t` holds `m` followed by the end of that range or by
/// a character that cannot continue a tag.
pub open spec fn has_marker(t: Seq<char>, a: int, e: int, m: Seq<char>) -> bool {
    exists|k: int|
        a <= k && k + m.len() <= e && #[trigger] t.subrange(k, k + m.len()) == m && (k + m.len()
            == e || !is_tag_char(t[k + m.len()]))
}

/// The start of the first line at or after the line start `a` that holds `m`.
pub open spec fn find_line(t: Seq<char>, a: int, m: Seq<char>) -> Option<int>
    decreases t.len() - a,
    via find_line_decreases
{
    if a < 0 || a > t.len() {
        None
    } else if has_marker(t, a, line_end(t, a), m) {
        Some(a)
    } else if line_end(t, a) < t.len() {
        find_line(t, line_end(t, a) + 1, m)
    } else {
        None
    }
}

#[via_fn]
proof fn find_line_decreases(t: Seq<char>, a: int, m: Seq<char>) {
    if 0 <= a <= t.len() {
        lemma_run_end_bounds(t, a, Class::NotNewline);
    }
}

/// `s` without its last character if that is a carriage return.
pub open spec fn strip_cr(s: Seq<char>) -> Seq<char> {
    if s.len() > 0 && s.last() == '\r' {
        s.drop_last()
    } else {
        s
    }
}

/// What extraction of `tag` from the text `t` gives: the lines strictly
/// between the line of the first start marker and the line of the first end
/// marker, joined by the separators that stand between them in `t`. A line
/// ends at a line feed, or at a carriage return and line feed.
pub open spec fn extract_spec(marker: Seq<char>, t: Seq<char>, tag: Seq<char>) -> Result<
    Seq<char>,
    ErrorKind,
> {
    match find_line(t, 0, marker_text(marker, "start"@, tag)) {
        None => Err(ErrorKind::MissingStartTag),
        Some(s) => match find_line(t, 0, marker_text(marker, "end"@, tag)) {
            None => Err(ErrorKind::MissingEndTag),
            Some(e) => if e <= s {
                Err(ErrorKind::InvertedTagOrder)
            } else if e <= line_end(t, s) + 1 {
                Ok(seq![])
            } else {
                Ok(strip_cr(t.subrange(line_end(t, s) + 1, e - 1)))
            },
        },
    }
}

pub open spec fn is_line_start(t: Seq<char>, x: int) -> bool {
    x == 0 || (0 < x <= t.len() && t[x - 1] == '\n')
}

proof fn lemma_find_line_start(t: Seq<char>, a: int, m: Seq<char>)
    requires
        is_line_start(t, a),
        find_line(t, a, m) is Some,
    ensures
        is_line_start(t, find_line(t, a, m)->0),
        a <= find_line(t, a, m)->0,
    decreases t.len() - a,
{
    lemma_run_end_bounds(t, a, Class::NotNewline);
    if !has_marker(t, a, line_end(t, a), m) {
        lemma_find_line_start(t, line_end(t, a) + 1, m);
    }
}

fn has_marker_exec(t: &Vec<char>, a: usize, e: usize, m: &Vec<char>) -> (r: bool)
    requires
        a <= e <= t@.len(),
    ensures
        r == has_marker(t@, a as int, e as int, m@),
{
    if m.len() > e - a {
        return false;
    }
    let last = e - m.len();
    let mut k: usize = a;
    loop
        invariant
            a <= k <= last,
            last == e - m@.len(),
            m@.len() <= e - a,
            e <= t@.len(),
            forall|x: int|
                a <= x < k ==> !(x + m@.len() <= e && #[trigger] t@.subrange(x, x + m@.len())
                    == m@ && (x + m@.len() == e || !is_tag_char(t@[x + m@.len()]))),
        decreases last - k,
    {
        let end = k + m.len();
        if matches_at(t, k, m) && (end == e || !crate::text::char_in_class(t[end], Class::Tag)) {
            return true;
        }
        if k == last {
            return false;
        }
        k = k + 1;
    }
}

fn find_line_exec(t: &Vec<char>, m: &Vec<char>) -> (r: Option<usize>)
    ensures
        match r {
            None => find_line(t@, 0, m@) is None,
            Some(x) => find_line(t@, 0, m@) == Some(x as int),
        },
{
    let mut a: usize = 0;
    loop
        invariant
            a <= t@.len(),
            find_line(t@, 0, m@) == find_line(t@, a as int, m@),
        decreases t@.len() - a,
    {
        let e = skip_run(t, a, Class::NotNewline);
        proof {
            lemma_run_end_bounds(t@, a as int, Class::NotNewline);
        }
        if has_marker_exec(t, a, e, m) {
            return Some(a);
        }
        if e < t.len() {
            a = e + 1;
        } else {
            return None;
        }
    }
}

fn push_chars(v: &mut Vec<char>, s: &Vec<char>)
    ensures
        final(v)@ == old(v)@ + s@,
{
    let mut k: usize = 0;
    while k < s.len()
        invariant
            k <= s@.len(),
            v@ == old(v)@ + s@.subrange(0, k as int),
        decreases s@.len() - k,
    {
        v.push(s[k]);
        k = k + 1;
        assert(s@.subrange(0, k as int) == s@.subrange(0, k - 1) + seq![s@[k - 1]]);
    }
    assert(s@.subrange(0, s@.len() as int) == s@);
}

fn marker_chars(marker: &Vec<char>, word: &str, tag: &Vec<char>) -> (r: Vec<char>)
    ensures
        r@ == marker_text(marker@, word@, tag@),
{
    let mut r: Vec<char> = Vec::new();
    r.push('@');
    push_chars(&mut r, marker);
    r.push(' ');
    push_chars(&mut r, &chars_of(word));
    r.push(' ');
    push_chars(&mut r, tag);
    assert(r@ =~= marker_text(marker@, word@, tag@));
    r
}

/// The text of `content` between the line that holds `@<marker> start <tag>`
/// and the line that holds `@<marker> end <tag>`, both taken at their first
/// occurrence; the marker lines themselves are left out. A line ends at a
/// line feed, or at a carriage return and line feed; the lines between come
/// out joined by the separators that stand between them in the file.
pub fn extract(marker: &str, content: &str, tag: &str) -> (r: Result<String, ErrorKind>)
    ensures
        match r {
            Ok(s) => extract_spec(marker@, content@, tag@) == Ok::<Seq<char>, ErrorKind>(s@),
            Err(k) => extract_spec(marker@, content@, tag@) == Err::<Seq<char>, ErrorKind>(k),
        },
{
    let t = chars_of(content);
    let mk = chars_of(marker);
    let tg = chars_of(tag);
    let sm = marker_chars(&mk, "start", &tg);
    let em = marker_chars(&mk, "end", &tg);
    let s = match find_line_exec(&t, &sm) {
        None => return Err(ErrorKind::MissingStartTag),
        Some(s) => s,
    };
    let e = match find_line_exec(&t, &em) {
        None => return Err(ErrorKind::MissingEndTag),
        Some(e) => e,
    };
    if e <= s {
        return Err(ErrorKind::InvertedTagOrder);
    }
    proof {
        lemma_find_line_start(t@, 0, sm@);
        lemma_find_line_start(t@, 0, em@);
        lemma_run_end_bounds(t@, s as int, Class::NotNewline);
    }
    let le = skip_run(&t, s, Class::NotNewline);
    if e <= le + 1 {
        Ok(String::new())
    } else {
        let ghost region = t@.subrange(le + 1, e - 1);
        if e > le + 2 && t[e - 2] == '\r' {
            assert(region.last() == t@[e - 2]);
            assert(region.drop_last() == t@.subrange(le + 1, e - 2));
            Ok(content.substring_char(le + 1, e - 2).to_owned())
        } else {
            if e > le + 2 {
                assert(region.last() == t@[e - 2]);
            }
            Ok(content.substring_char(le + 1, e - 1).to_owned())
        }
    }
}

/// The lines `ls` joined by line feeds.
pub open spec fn join_lines(ls: Seq<Seq<char>>) -> Seq<char>
    decreases ls.len(),
{
    if ls.len() == 0 {
        seq![]
    } else if ls.len() == 1 {
        ls[0]
    } else {
        join_lines(ls.drop_last()) + seq!['\n'] + ls.last()
    }
}

/// No line of `ls` holds a line feed.
pub open spec fn no_newlines(ls: Seq<Seq<char>>) -> bool {
    forall|k: int, x: int| 0 <= k < ls.len() && 0 <= x < ls[k].len() ==> #[trigger] ls[k][x] != '\n'
}

/// Whether the line `l` holds the marker `m` (as [`has_marker`] reads it).
pub open spec fn line_holds(l: Seq<char>, m: Seq<char>) -> bool {
    has_marker(l, 0, l.len() as int, m)
}

/// Where line `k` of `join_lines(ls)` starts.
pub open spec fn offset(ls: Seq<Seq<char>>, k: int) -> int
    decreases k,
{
    if k <= 0 {
        0
    } else {
        offset(ls, k - 1) + ls[k - 1].len() + 1
    }
}

proof fn lemma_offset_prefix(ls: Seq<Seq<char>>, k: int)
    requires
        0 <= k < ls.len(),
    ensures
        offset(ls.drop_last(), k) == offset(ls, k),
    decreases k,
{
    if k > 0 {
        lemma_offset_prefix(ls, k - 1);
        assert(ls.drop_last()[k - 1] == ls[k - 1]);
    }
}

proof fn lemma_offset_grows(ls: Seq<Seq<char>>, a: int, b: int)
    requires
        0 <= a <= b,
    ensures
        offset(ls, a) + (b - a) <= offset(ls, b),
        0 <= offset(ls, a),
    decreases b,
{
    if b > a {
        lemma_offset_grows(ls, a, b - 1);
    } else {
        lemma_offset_nonneg(ls, a);
    }
}

proof fn lemma_offset_nonneg(ls: Seq<Seq<char>>, k: int)
    ensures
        0 <= offset(ls, k),
    decreases k,
{
    if k > 0 {
        lemma_offset_nonneg(ls, k - 1);
    }
}

proof fn lemma_join_layout(ls: Seq<Seq<char>>, k: int)
    requires
        no_newlines(ls),
        0 <= k < ls.len(),
    ensures
        offset(ls, k) + ls[k].len() <= join_lines(ls).len(),
        join_lines(ls).subrange(offset(ls, k), offset(ls, k) + ls[k].len()) == ls[k],
        k < ls.len() - 1 ==> join_lines(ls)[offset(ls, k) + ls[k].len()] == '\n',
        k == ls.len() - 1 ==> offset(ls, k) + ls[k].len() == join_lines(ls).len(),
    decreases ls.len(),
{
    lemma_offset_grows(ls, 0, k);
    let n = ls.len();
    if n > 1 {
        let lp = ls.drop_last();
        let jp = join_lines(lp);
        let t = join_lines(ls);
        assert(no_newlines(lp)) by {
            assert forall|a: int, x: int| 0 <= a < lp.len() && 0 <= x < lp[a].len() implies #[trigger] lp[a][x]
                != '\n' by {
                assert(lp[a] == ls[a]);
            }
        }
        lemma_join_layout(lp, n - 2);
        lemma_offset_prefix(ls, n - 2);
        assert(lp[n - 2] == ls[n - 2]);
        assert(t == jp + seq!['\n'] + ls.last());
        if k < n - 1 {
            lemma_join_layout(lp, k);
            lemma_offset_prefix(ls, k);
            assert(lp[k] == ls[k]);
            let o = offset(ls, k);
            assert(t.subrange(o, o + ls[k].len()) == jp.subrange(o, o + ls[k].len()));
        } else {
            let o = offset(ls, k);
            assert(o == jp.len() + 1);
            assert(t.subrange(o, o + ls[k].len()) == ls.last());
        }
    }
}

proof fn lemma_has_marker_shift(t: Seq<char>, o: int, l: Seq<char>, m: Seq<char>)
    requires
        0 <= o,
        o + l.len() <= t.len(),
        t.subrange(o, o + l.len()) == l,
        o + l.len() == t.len() || !is_tag_char(t[o + l.len()]),
    ensures
        has_marker(t, o, o + l.len(), m) == line_holds(l, m),
{
    let e = o + l.len();
    if has_marker(t, o, e, m) {
        let k = choose|k: int|
            o <= k && k + m.len() <= e && #[trigger] t.subrange(k, k + m.len()) == m && (k + m.len()
                == e || !is_tag_char(t[k + m.len()]));
        assert(l.subrange(k - o, k - o + m.len()) == t.subrange(k, k + m.len()));
        if k + m.len() < e {
            assert(l[k - o + m.len()] == t[k + m.len()]);
        }
        assert(line_holds(l, m));
    }
    if line_holds(l, m) {
        let k = choose|k: int|
            0 <= k && k + m.len() <= l.len() && #[trigger] l.subrange(k, k + m.len()) == m && (k
                + m.len() == l.len() || !is_tag_char(l[k + m.len()]));
        assert(t.subrange(o + k, o + k + m.len()) == l.subrange(k, k + m.len()));
        if k + m.len() < l.len() {
            assert(t[o + k + m.len()] == l[k + m.len()]);
        }
        assert(has_marker(t, o, e, m));
    }
}

proof fn lemma_line_facts(ls: Seq<Seq<char>>, k: int, m: Seq<char>)
    requires
        no_newlines(ls),
        0 <= k < ls.len(),
    ensures
        line_end(join_lines(ls), offset(ls, k)) == offset(ls, k) + ls[k].len(),
        has_marker(join_lines(ls), offset(ls, k), offset(ls, k) + ls[k].len(), m) == line_holds(ls[k], m),
        0 <= offset(ls, k) <= join_lines(ls).len(),
{
    let t = join_lines(ls);
    let o = offset(ls, k);
    lemma_join_layout(ls, k);
    lemma_offset_grows(ls, 0, k);
    assert forall|x: int| o <= x < o + ls[k].len() implies in_class(#[trigger] t[x], Class::NotNewline) by {
        assert(t[x] == t.subrange(o, o + ls[k].len())[x - o]);
        assert(ls[k][x - o] != '\n');
    }
    lemma_run_end_exact(t, o, o + ls[k].len(), Class::NotNewline);
    lemma_has_marker_shift(t, o, ls[k], m);
}

proof fn lemma_find_line_lines(ls: Seq<Seq<char>>, k: int, i: int, m: Seq<char>)
    requires
        no_newlines(ls),
        0 <= k <= i < ls.len(),
        line_holds(ls[i], m),
        forall|x: int| k <= x < i ==> !line_holds(#[trigger] ls[x], m),
    ensures
        find_line(join_lines(ls), offset(ls, k), m) == Some(offset(ls, i)),
    decreases i - k,
{
    lemma_line_facts(ls, k, m);
    if k < i {
        lemma_join_layout(ls, k);
        lemma_find_line_lines(ls, k + 1, i, m);
    }
}

proof fn lemma_join_between(ls: Seq<Seq<char>>, a: int, b: int)
    requires
        no_newlines(ls),
        0 <= a < b <= ls.len(),
    ensures
        offset(ls, a) <= offset(ls, b) - 1 <= join_lines(ls).len(),
        join_lines(ls).subrange(offset(ls, a), offset(ls, b) - 1) == join_lines(ls.subrange(a, b)),
    decreases b - a,
{
    let t = join_lines(ls);
    lemma_join_layout(ls, b - 1);
    lemma_offset_grows(ls, a, b - 1);
    if b == a + 1 {
        assert(ls.subrange(a, b).len() == 1);
        assert(ls.subrange(a, b)[0] == ls[a]);
    } else {
        lemma_join_between(ls, a, b - 1);
        lemma_join_layout(ls, b - 2);
        let sub = ls.subrange(a, b);
        assert(sub.drop_last() == ls.subrange(a, b - 1));
        assert(sub.last() == ls[b - 1]);
        let ob1 = offset(ls, b - 1);
        assert(t.subrange(offset(ls, a), offset(ls, b) - 1) == t.subrange(offset(ls, a), ob1 - 1)
            + seq!['\n'] + t.subrange(ob1, ob1 + ls[b - 1].len()));
    }
}

proof fn lemma_extract_lf(marker: Seq<char>, tag: Seq<char>, ls: Seq<Seq<char>>, i: int, j: int)
    requires
        no_newlines(ls),
        0 <= i < j < ls.len(),
        line_holds(ls[i], marker_text(marker, "start"@, tag)),
        forall|k: int| 0 <= k < i ==> !line_holds(#[trigger] ls[k], marker_text(marker, "start"@, tag)),
        line_holds(ls[j], marker_text(marker, "end"@, tag)),
        forall|k: int| 0 <= k < j ==> !line_holds(#[trigger] ls[k], marker_text(marker, "end"@, tag)),
    ensures
        extract_spec(marker, join_lines(ls), tag) == Ok::<Seq<char>, ErrorKind>(
            strip_cr(join_lines(ls.subrange(i + 1, j))),
        ),
{
    let t = join_lines(ls);
    let sm = marker_text(marker, "start"@, tag);
    let em = marker_text(marker, "end"@, tag);
    lemma_find_line_lines(ls, 0, i, sm);
    lemma_find_line_lines(ls, 0, j, em);
    lemma_line_facts(ls, i, sm);
    lemma_offset_grows(ls, i + 1, j);
    assert(offset(ls, i + 1) == offset(ls, i) + ls[i].len() + 1);
    if j == i + 1 {
        assert(ls.subrange(i + 1, j).len() == 0);
    } else {
        lemma_join_between(ls, i + 1, j);
    }
}

/// A file that holds the start marker of a tag but no end marker of it
/// fails with `MissingEndTag`.
pub proof fn lemma_missing_end_tag(marker: Seq<char>, t: Seq<char>, tag: Seq<char>)
    requires
        find_line(t, 0, marker_text(marker, "start"@, tag)) is Some,
        find_line(t, 0, marker_text(marker, "end"@, tag)) is None,
    ensures
        extract_spec(marker, t, tag) == Err::<Seq<char>, ErrorKind>(ErrorKind::MissingEndTag),
{
}

/// The lines `ls` joined by the separator `sep`.
pub open spec fn join_with(ls: Seq<Seq<char>>, sep: Seq<char>) -> Seq<char>
    decreases ls.len(),
{
    if ls.len() == 0 {
        seq![]
    } else if ls.len() == 1 {
        ls[0]
    } else {
        join_with(ls.drop_last(), sep) + sep + ls.last()
    }
}

/// The line separator: a carriage return and line feed, or a line feed.
pub open spec fn separator(crlf: bool) -> Seq<char> {
    if crlf {
        seq!['\r', '\n']
    } else {
        seq!['\n']
    }
}

/// Each line of `ls` with a carriage return after it.
spec fn all_cr(ls: Seq<Seq<char>>) -> Seq<Seq<char>> {
    Seq::new(ls.len(), |k: int| ls[k].push('\r'))
}

/// The lines of `ls` as a line-feed split reads them from `ls` joined by
/// carriage return and line feed: all but the last keep the carriage return.
spec fn cr_lines(ls: Seq<Seq<char>>) -> Seq<Seq<char>> {
    Seq::new(ls.len(), |k: int| if k < ls.len() - 1 { ls[k].push('\r') } else { ls[k] })
}

proof fn lemma_join_lf(ls: Seq<Seq<char>>)
    ensures
        join_with(ls, seq!['\n']) == join_lines(ls),
    decreases ls.len(),
{
    if ls.len() > 1 {
        lemma_join_lf(ls.drop_last());
    }
}

proof fn lemma_join_all_cr(ls: Seq<Seq<char>>)
    requires
        ls.len() > 0,
    ensures
        join_lines(all_cr(ls)) == join_with(ls, seq!['\r', '\n']).push('\r'),
    decreases ls.len(),
{
    if ls.len() > 1 {
        lemma_join_all_cr(ls.drop_last());
        assert(all_cr(ls).drop_last() == all_cr(ls.drop_last()));
        assert(join_lines(all_cr(ls)) =~= join_with(ls, seq!['\r', '\n']).push('\r'));
    }
}

proof fn lemma_join_cr_lines(ls: Seq<Seq<char>>)
    requires
        ls.len() > 0,
    ensures
        join_lines(cr_lines(ls)) == join_with(ls, seq!['\r', '\n']),
{
    if ls.len() > 1 {
        lemma_join_all_cr(ls.drop_last());
        assert(cr_lines(ls).drop_last() == all_cr(ls.drop_last()));
        assert(join_lines(cr_lines(ls)) =~= join_with(ls, seq!['\r', '\n']));
    }
}

proof fn lemma_holds_with_cr(l: Seq<char>, m: Seq<char>)
    requires
        m.len() > 0,
        m.last() != '\r',
    ensures
        line_holds(l.push('\r'), m) == line_holds(l, m),
{
    let lc = l.push('\r');
    if line_holds(l, m) {
        let k = choose|k: int|
            0 <= k && k + m.len() <= l.len() && #[trigger] l.subrange(k, k + m.len()) == m && (k
                + m.len() == l.len() || !is_tag_char(l[k + m.len()]));
        assert(lc.subrange(k, k + m.len()) == l.subrange(k, k + m.len()));
        if k + m.len() < l.len() {
            assert(lc[k + m.len()] == l[k + m.len()]);
        }
        assert(line_holds(lc, m));
    }
    if line_holds(lc, m) {
        let k = choose|k: int|
            0 <= k && k + m.len() <= lc.len() && #[trigger] lc.subrange(k, k + m.len()) == m && (k
                + m.len() == lc.len() || !is_tag_char(lc[k + m.len()]));
        if k + m.len() == lc.len() {
            assert(lc.subrange(k, k + m.len()).last() == '\r');
        }
        assert(l.subrange(k, k + m.len()) == lc.subrange(k, k + m.len()));
        if k + m.len() < l.len() {
            assert(l[k + m.len()] == lc[k + m.len()]);
        }
        assert(line_holds(l, m));
    }
}

proof fn lemma_cr_line_holds(ls: Seq<Seq<char>>, k: int, m: Seq<char>)
    requires
        0 <= k < ls.len(),
        m.len() > 0,
        m.last() != '\r',
    ensures
        line_holds(cr_lines(ls)[k], m) == line_holds(ls[k], m),
{
    if k < ls.len() - 1 {
        assert(cr_lines(ls)[k] == ls[k].push('\r'));
        lemma_holds_with_cr(ls[k], m);
    } else {
        assert(cr_lines(ls)[k] == ls[k]);
    }
}

proof fn lemma_marker_last(marker: Seq<char>, word: Seq<char>, tag: Seq<char>)
    requires
        forall|x: int| 0 <= x < tag.len() ==> is_tag_char(#[trigger] tag[x]),
    ensures
        marker_text(marker, word, tag).len() > 0,
        marker_text(marker, word, tag).last() != '\r',
{
    let m = marker_text(marker, word, tag);
    if tag.len() > 0 {
        assert(m.last() == tag.last());
        assert(is_tag_char(tag[tag.len() - 1]));
    } else {
        assert(m.last() == ' ');
    }
}

/// A file made of lines joined by a line feed, or by a carriage return and
/// line feed, with the first start marker of a tag on line `i` and the first
/// end marker on a later line `j`: extraction gives exactly lines `i + 1` to
/// `j - 1` joined by that same separator, whatever stands before line `i` and
/// after line `j`. With a bare line feed as separator, no line ends with a
/// carriage return: such a line would end with the other separator.
pub proof fn lemma_extract_lines(
    marker: Seq<char>,
    tag: Seq<char>,
    ls: Seq<Seq<char>>,
    i: int,
    j: int,
    crlf: bool,
)
    requires
        no_newlines(ls),
        !crlf ==> forall|k: int| 0 <= k < ls.len() && ls[k].len() > 0 ==> (#[trigger] ls[k]).last() != '\r',
        forall|x: int| 0 <= x < tag.len() ==> is_tag_char(#[trigger] tag[x]),
        0 <= i < j < ls.len(),
        line_holds(ls[i], marker_text(marker, "start"@, tag)),
        forall|k: int| 0 <= k < i ==> !line_holds(#[trigger] ls[k], marker_text(marker, "start"@, tag)),
        line_holds(ls[j], marker_text(marker, "end"@, tag)),
        forall|k: int| 0 <= k < j ==> !line_holds(#[trigger] ls[k], marker_text(marker, "end"@, tag)),
    ensures
        extract_spec(marker, join_with(ls, separator(crlf)), tag) == Ok::<Seq<char>, ErrorKind>(
            join_with(ls.subrange(i + 1, j), separator(crlf)),
        ),
{
    let sm = marker_text(marker, "start"@, tag);
    let em = marker_text(marker, "end"@, tag);
    let sub = ls.subrange(i + 1, j);
    if !crlf {
        lemma_extract_lf(marker, tag, ls, i, j);
        lemma_join_lf(ls);
        lemma_join_lf(sub);
        if sub.len() > 0 {
            let js = join_lines(sub);
            assert(sub.last() == ls[j - 1]);
            if sub.len() > 1 {
                assert(js == join_lines(sub.drop_last()) + seq!['\n'] + sub.last());
            }
            if js.len() > 0 {
                if sub.last().len() > 0 {
                    assert(js.last() == sub.last().last());
                } else {
                    assert(js.last() == '\n');
                }
            }
        }
    } else {
        let cl = cr_lines(ls);
        lemma_marker_last(marker, "start"@, tag);
        lemma_marker_last(marker, "end"@, tag);
        assert(no_newlines(cl)) by {
            assert forall|a: int, x: int| 0 <= a < cl.len() && 0 <= x < cl[a].len() implies #[trigger] cl[a][x]
                != '\n' by {
                if a < ls.len() - 1 && x == ls[a].len() {
                } else {
                    assert(cl[a][x] == ls[a][x]);
                }
            }
        }
        lemma_cr_line_holds(ls, i, sm);
        lemma_cr_line_holds(ls, j, em);
        assert forall|k: int| 0 <= k < i implies !line_holds(#[trigger] cl[k], sm) by {
            lemma_cr_line_holds(ls, k, sm);
        }
        assert forall|k: int| 0 <= k < j implies !line_holds(#[trigger] cl[k], em) by {
            lemma_cr_line_holds(ls, k, em);
        }
        lemma_extract_lf(marker, tag, cl, i, j);
        lemma_join_cr_lines(ls);
        assert(cl.subrange(i + 1, j) == all_cr(sub));
        if sub.len() > 0 {
            lemma_join_all_cr(sub);
            assert(strip_cr(join_with(sub, seq!['\r', '\n']).push('\r')) == join_with(sub, seq!['\r', '\n']));
        } else {
            assert(all_cr(sub).len() == 0);
        }
    }
}

} // verus!
