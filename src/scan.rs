//! Finding import directives, live and escaped, in a body of text.
use vstd::prelude::*;
use vstd::string::StrSliceExecFns;
use crate::text::{Class, chars_of, skip_run, matches_at, run_end, lemma_run_end_bounds, lemma_run_end_exact, in_class, is_space, is_path_char, is_tag_char};

verus! {

broadcast use vstd::string::group_string_axioms;

/// The words and the escape character of the directive and marker grammars.
#[derive(Debug)]
pub struct Syntax {
    /// The word after `#` in a directive: `{{#<keyword> file@tag}}`.
    pub keyword: String,
    /// The word after `@` in a marker line: `@<marker> start tag`.
    pub marker: String,
    /// The character that, written just before `{{`, escapes a directive.
    pub escape: char,
}

/// A [`Syntax`] as plain values.
pub struct SyntaxView {
    pub keyword: Seq<char>,
    pub marker: Seq<char>,
    pub escape: char,
}

impl View for Syntax {
    type V = SyntaxView;

    open spec fn view(&self) -> SyntaxView {
        SyntaxView { keyword: self.keyword@, marker: self.marker@, escape: self.escape }
    }
}

impl Syntax {
    /// A syntax with the given directive keyword, marker word and escape character.
    pub fn new(keyword: &str, marker: &str, escape: char) -> (r: Syntax)
        ensures
            r@ == (SyntaxView { keyword: keyword@, marker: marker@, escape }),
    {
        Syntax { keyword: keyword.to_owned(), marker: marker.to_owned(), escape }
    }

    /// The syntax of the book preprocessor: `{{#bookimport file@tag}}`, marker
    /// lines `@book start tag` and `@book end tag`, and `/` as escape.
    pub fn bookimport() -> (r: Syntax)
        ensures
            r@ == (SyntaxView { keyword: "bookimport"@, marker: "book"@, escape: '/' }),
    {
        Syntax::new("bookimport", "book", '/')
    }
}

/// A directive as found in a body: its span `[start, end)`, the text of that
/// span, the file and tag it names, and whether it is escaped.
pub struct Span {
    pub start: int,
    pub end: int,
    pub text: Seq<char>,
    pub file: Seq<char>,
    pub tag: Seq<char>,
    pub escaped: bool,
}

/// A directive found by [`scan`]. Positions count characters of the body.
#[derive(Debug)]
pub struct Directive {
    /// Where the directive starts, its escape character included.
    pub start: usize,
    /// Where the directive ends, just after its closing `}}`.
    pub end: usize,
    /// The text of the directive as it stands in the body.
    pub text: String,
    /// The path of the referenced file, relative to the node's directory.
    pub file: String,
    /// The name of the tagged region.
    pub tag: String,
    /// Whether the directive is escaped, and so left as it stands.
    pub escaped: bool,
}

impl View for Directive {
    type V = Span;

    open spec fn view(&self) -> Span {
        Span {
            start: self.start as int,
            end: self.end as int,
            text: self.text@,
            file: self.file@,
            tag: self.tag@,
            escaped: self.escaped,
        }
    }
}

/// Where the path of a directive starts, with `j` just after the keyword:
/// after all the white space that follows it, or, where that white space runs
/// straight into `@`, at its last character, so that the path is that one
/// white-space character.
pub open spec fn path_start(b: Seq<char>, j: int) -> int {
    let w = run_end(b, j, Class::Space);
    if 0 <= w < b.len() && b[w] == '@' {
        w - 1
    } else {
        w
    }
}

/// The live directive that starts at `p` in `b`, if there is one:
/// `{{`, white space, `#`, the keyword, one or more white-space characters, a
/// path of one or more path characters, `@`, a tag of one or more characters,
/// white space, `}}`. As in a greedy match, the white space after the keyword
/// takes all it can and leaves the path at least one character.
pub open spec fn live_at(kw: Seq<char>, b: Seq<char>, p: int) -> Option<Span> {
    let i = run_end(b, p + 2, Class::Space);
    let j = i + 1 + kw.len();
    let fs = path_start(b, j);
    let fe = run_end(b, fs, Class::Path);
    let ge = run_end(b, fe + 1, Class::Tag);
    let e = run_end(b, ge, Class::Space);
    if 0 <= p && p + 2 <= b.len() && b[p] == '{' && b[p + 1] == '{' && i < b.len() && b[i] == '#'
        && j <= b.len() && b.subrange(i + 1, j) == kw && fs > j && fe > fs && fe < b.len()
        && b[fe] == '@' && ge > fe + 1 && e + 2 <= b.len() && b[e] == '}' && b[e + 1] == '}' {
        Some(
            Span {
                start: p,
                end: e + 2,
                text: b.subrange(p, e + 2),
                file: b.subrange(fs, fe),
                tag: b.subrange(fe + 1, ge),
                escaped: false,
            },
        )
    } else {
        None
    }
}

pub proof fn lemma_live_at_bounds(kw: Seq<char>, b: Seq<char>, p: int)
    requires
        live_at(kw, b, p) is Some,
    ensures
        live_at(kw, b, p)->0.start == p,
        p + 2 <= live_at(kw, b, p)->0.end <= b.len(),
{
    let i = run_end(b, p + 2, Class::Space);
    let j = i + 1 + kw.len();
    let fs = path_start(b, j);
    let fe = run_end(b, fs, Class::Path);
    lemma_run_end_bounds(b, p + 2, Class::Space);
    lemma_run_end_bounds(b, fe + 1, Class::Tag);
    let ge = run_end(b, fe + 1, Class::Tag);
    lemma_run_end_bounds(b, ge, Class::Space);
}

/// The directives of `b` from position `p` on, left to right: at each
/// position an escaped directive (the escape character followed by a live
/// directive) is tried first, then a live one; scanning resumes after a match.
#[verifier::opaque]
pub open spec fn scan_from(syn: SyntaxView, b: Seq<char>, p: int) -> Seq<Span>
    decreases b.len() - p,
    via scan_from_decreases
{
    if p < 0 || p >= b.len() {
        seq![]
    } else if b[p] == syn.escape && live_at(syn.keyword, b, p + 1) is Some {
        let d = live_at(syn.keyword, b, p + 1)->0;
        seq![Span { start: p, text: b.subrange(p, d.end), escaped: true, ..d }] + scan_from(
            syn,
            b,
            d.end,
        )
    } else if live_at(syn.keyword, b, p) is Some {
        let d = live_at(syn.keyword, b, p)->0;
        seq![d] + scan_from(syn, b, d.end)
    } else {
        scan_from(syn, b, p + 1)
    }
}

#[via_fn]
proof fn scan_from_decreases(syn: SyntaxView, b: Seq<char>, p: int) {
    if p < 0 || p >= b.len() {
    } else if b[p] == syn.escape && live_at(syn.keyword, b, p + 1) is Some {
        lemma_live_at_bounds(syn.keyword, b, p + 1);
    } else if live_at(syn.keyword, b, p) is Some {
        lemma_live_at_bounds(syn.keyword, b, p);
    }
}

/// The directives of `b`, in order.
pub open spec fn scan_spec(syn: SyntaxView, b: Seq<char>) -> Seq<Span> {
    scan_from(syn, b, 0)
}

/// The spans of `ds` lie in `[p, n]`, each is non-empty, and each ends at or
/// before the next one starts.
pub open spec fn ordered_spans(ds: Seq<Span>, p: int, n: int) -> bool {
    &&& forall|i: int| 0 <= i < ds.len() ==> p <= #[trigger] ds[i].start < ds[i].end <= n
    &&& forall|i: int| 0 <= i < ds.len() - 1 ==> #[trigger] ds[i].end <= ds[i + 1].start
}

/// The text of each span of `ds` is the text of `b` that the span covers.
pub open spec fn texts_match(b: Seq<char>, ds: Seq<Span>) -> bool {
    forall|i: int| 0 <= i < ds.len() ==> #[trigger] ds[i].text == b.subrange(ds[i].start, ds[i].end)
}

/// Every scan yields non-empty spans in strictly ascending order that do not
/// overlap, all inside the body, each with the text that it covers.
pub proof fn lemma_scan_ordered(syn: SyntaxView, b: Seq<char>, p: int)
    requires
        0 <= p,
    ensures
        ordered_spans(scan_from(syn, b, p), p, b.len() as int),
        texts_match(b, scan_from(syn, b, p)),
    decreases b.len() - p,
{
    reveal(scan_from);
    if p >= b.len() {
    } else {
        let at_esc = b[p] == syn.escape && live_at(syn.keyword, b, p + 1) is Some;
        let at_live = live_at(syn.keyword, b, p) is Some;
        if at_esc || at_live {
            let q = if at_esc { p + 1 } else { p };
            lemma_live_at_bounds(syn.keyword, b, q);
            let d = live_at(syn.keyword, b, q)->0;
            lemma_scan_ordered(syn, b, d.end);
            let rest = scan_from(syn, b, d.end);
            let ds = scan_from(syn, b, p);
            assert(ds == seq![ds[0]] + rest);
            assert forall|i: int| 0 <= i < ds.len() - 1 implies #[trigger] ds[i].end <= ds[i
                + 1].start by {
                if i > 0 {
                    assert(ds[i] == rest[i - 1]);
                    assert(ds[i + 1] == rest[i]);
                } else if rest.len() > 0 {
                    assert(ds[1] == rest[0]);
                }
            }
            assert forall|i: int| 0 <= i < ds.len() implies p <= #[trigger] ds[i].start
                < ds[i].end <= b.len() by {
                if i > 0 {
                    assert(ds[i] == rest[i - 1]);
                }
            }
            assert forall|i: int| 0 <= i < ds.len() implies #[trigger] ds[i].text == b.subrange(
                ds[i].start,
                ds[i].end,
            ) by {
                if i > 0 {
                    assert(ds[i] == rest[i - 1]);
                }
            }
        } else {
            lemma_scan_ordered(syn, b, p + 1);
        }
    }
}

/// The live directive at `p`, as `(end, file start, file end, tag end)`.
fn parse_live(kw: &Vec<char>, b: &Vec<char>, p: usize) -> (r: Option<(usize, usize, usize, usize)>)
    ensures
        match r {
            None => live_at(kw@, b@, p as int) is None,
            Some((e, fs, fe, ge)) => live_at(kw@, b@, p as int) == Some(
                Span {
                    start: p as int,
                    end: e as int,
                    text: b@.subrange(p as int, e as int),
                    file: b@.subrange(fs as int, fe as int),
                    tag: b@.subrange(fe + 1, ge as int),
                    escaped: false,
                },
            ) && p <= fs <= fe < ge <= e <= b@.len(),
        },
{
    let n = b.len();
    if p > n || n - p < 2 || b[p] != '{' || b[p + 1] != '{' {
        return None;
    }
    let i = skip_run(b, p + 2, Class::Space);
    proof {
        lemma_run_end_bounds(b@, p + 2, Class::Space);
    }
    if i >= n || b[i] != '#' || !matches_at(b, i + 1, kw) {
        return None;
    }
    let j = i + 1 + kw.len();
    let w = skip_run(b, j, Class::Space);
    proof {
        lemma_run_end_bounds(b@, j as int, Class::Space);
    }
    let fs = if w < n && b[w] == '@' && w > j { w - 1 } else { w };
    if fs <= j {
        return None;
    }
    let fe = skip_run(b, fs, Class::Path);
    proof {
        lemma_run_end_bounds(b@, fs as int, Class::Path);
    }
    if fe == fs || fe >= n || b[fe] != '@' {
        return None;
    }
    let ge = skip_run(b, fe + 1, Class::Tag);
    proof {
        lemma_run_end_bounds(b@, fe + 1, Class::Tag);
    }
    if ge == fe + 1 {
        return None;
    }
    let e = skip_run(b, ge, Class::Space);
    proof {
        lemma_run_end_bounds(b@, ge as int, Class::Space);
    }
    if e >= n || n - e < 2 || b[e] != '}' || b[e + 1] != '}' {
        return None;
    }
    Some((e + 2, fs, fe, ge))
}

fn make_directive(body: &str, start: usize, end: usize, fs: usize, fe: usize, ge: usize, escaped: bool) -> (r: Directive)
    requires
        start <= fs <= fe < ge <= end <= body@.len(),
    ensures
        r@ == (Span {
            start: start as int,
            end: end as int,
            text: body@.subrange(start as int, end as int),
            file: body@.subrange(fs as int, fe as int),
            tag: body@.subrange(fe + 1, ge as int),
            escaped,
        }),
{
    Directive {
        start,
        end,
        text: body.substring_char(start, end).to_owned(),
        file: body.substring_char(fs, fe).to_owned(),
        tag: body.substring_char(fe + 1, ge).to_owned(),
        escaped,
    }
}

/// Finds every directive of `body`, escaped or live, left to right.
pub fn scan(syn: &Syntax, body: &str) -> (r: Vec<Directive>)
    ensures
        r@.len() == scan_spec(syn@, body@).len(),
        forall|i: int| 0 <= i < r@.len() ==> #[trigger] r@[i]@ == scan_spec(syn@, body@)[i],
        ordered_spans(scan_spec(syn@, body@), 0, body@.len() as int),
        texts_match(body@, scan_spec(syn@, body@)),
{
    let b = chars_of(body);
    let kw = chars_of(syn.keyword.as_str());
    let ghost sv = syn@;
    let ghost bv = body@;
    let mut r: Vec<Directive> = Vec::new();
    let mut p: usize = 0;
    let ghost mut found: Seq<Span> = seq![];
    while p < b.len()
        invariant
            b@ == bv,
            kw@ == sv.keyword,
            sv == syn@,
            bv == body@,
            p <= b@.len(),
            r@.len() == found.len(),
            forall|i: int| 0 <= i < r@.len() ==> #[trigger] r@[i]@ == found[i],
            scan_from(sv, bv, 0) == found + scan_from(sv, bv, p as int),
        decreases b@.len() - p,
    {
        let esc = if b[p] == syn.escape { parse_live(&kw, &b, p + 1) } else { None };
        match esc {
            Some((e, fs, fe, ge)) => {
                let d = make_directive(body, p, e, fs, fe, ge, true);
                proof {
                    reveal(scan_from);
                    assert(scan_from(sv, bv, p as int) == seq![d@] + scan_from(sv, bv, e as int));
                    found = found + seq![d@];
                }
                r.push(d);
                p = e;
            },
            None => {
                match parse_live(&kw, &b, p) {
                    Some((e, fs, fe, ge)) => {
                        let d = make_directive(body, p, e, fs, fe, ge, false);
                        proof {
                            reveal(scan_from);
                            assert(scan_from(sv, bv, p as int) == seq![d@] + scan_from(sv, bv, e as int));
                            found = found + seq![d@];
                        }
                        r.push(d);
                        p = e;
                    },
                    None => {
                        proof {
                            reveal(scan_from);
                        }
                        p = p + 1;
                    },
                }
            },
        }
    }
    proof {
        reveal(scan_from);
        assert(found + scan_from(sv, bv, p as int) == found);
        lemma_scan_ordered(sv, bv, 0);
    }
    r
}

/// The text of the directive `{{#<kw> <file>@<tag>}}`.
#[verifier::opaque]
pub open spec fn directive_text(kw: Seq<char>, file: Seq<char>, tag: Seq<char>) -> Seq<char> {
    seq!['{', '{', '#'] + kw + seq![' '] + file + seq!['@'] + tag + seq!['}', '}']
}

/// A file path and a tag that the grammar reads back as they are from
/// [`directive_text`]: a path of path characters that starts with a
/// non-space, and a tag of one or more tag characters.
pub open spec fn plain_target(file: Seq<char>, tag: Seq<char>) -> bool {
    &&& file.len() > 0
    &&& !is_space(file[0])
    &&& forall|x: int| 0 <= x < file.len() ==> is_path_char(#[trigger] file[x])
    &&& tag.len() > 0
    &&& forall|x: int| 0 <= x < tag.len() ==> is_tag_char(#[trigger] tag[x])
}

/// No directive, escaped or live, starts at `p` in `b`.
#[verifier::opaque]
pub open spec fn no_match_at(syn: SyntaxView, b: Seq<char>, p: int) -> bool {
    &&& !(b[p] == syn.escape && live_at(syn.keyword, b, p + 1) is Some)
    &&& live_at(syn.keyword, b, p) is None
}

/// No directive starts at any position of `[from, to)` in `b`.
pub open spec fn directive_free(syn: SyntaxView, b: Seq<char>, from: int, to: int) -> bool {
    forall|p: int| from <= p < to ==> #[trigger] no_match_at(syn, b, p)
}

pub proof fn lemma_scan_skip(syn: SyntaxView, b: Seq<char>, from: int, to: int)
    requires
        0 <= from <= to <= b.len(),
        directive_free(syn, b, from, to),
    ensures
        scan_from(syn, b, from) == scan_from(syn, b, to),
    decreases to - from,
{
    if from < to {
        assert(no_match_at(syn, b, from));
        reveal(no_match_at);
        reveal(scan_from);
        lemma_scan_skip(syn, b, from + 1, to);
    }
}

/// A live directive at `p` that no escaped one overlaps is the next one the
/// scan finds from `p`.
pub proof fn lemma_scan_step(syn: SyntaxView, b: Seq<char>, p: int)
    requires
        0 <= p < b.len(),
        live_at(syn.keyword, b, p) is Some,
        live_at(syn.keyword, b, p + 1) is None,
    ensures
        scan_from(syn, b, p) == seq![live_at(syn.keyword, b, p)->0] + scan_from(
            syn,
            b,
            live_at(syn.keyword, b, p)->0.end,
        ),
{
    reveal(scan_from);
}

/// The text of a directive, standing at `p` in `b`, is read as one live
/// directive with that file and tag.
pub proof fn lemma_live_directive(kw: Seq<char>, file: Seq<char>, tag: Seq<char>, b: Seq<char>, p: int)
    requires
        plain_target(file, tag),
        0 <= p,
        p + directive_text(kw, file, tag).len() <= b.len(),
        b.subrange(p, p + directive_text(kw, file, tag).len()) == directive_text(kw, file, tag),
    ensures
        live_at(kw, b, p) == Some(
            Span {
                start: p,
                end: p + directive_text(kw, file, tag).len(),
                text: directive_text(kw, file, tag),
                file,
                tag,
                escaped: false,
            },
        ),
        live_at(kw, b, p + 1) is None,
{
    reveal(directive_text);
    let d = directive_text(kw, file, tag);
    let i = p + 2;
    let j = p + 3 + kw.len();
    let fs = j + 1;
    let fe = fs + file.len();
    let ge = fe + 1 + tag.len();
    assert(d.len() == ge + 2 - p);
    assert forall|x: int| 0 <= x < d.len() implies b[p + x] == #[trigger] d[x] by {
        assert(b.subrange(p, p + d.len())[x] == b[p + x]);
    }
    assert(d[0] == '{' && d[1] == '{' && d[2] == '#');
    assert(b[p] == '{' && b[p + 1] == '{' && b[i] == '#');
    lemma_run_end_exact(b, i, i, Class::Space);
    assert(d.subrange(3, 3 + kw.len() as int) =~= kw);
    assert(b.subrange(i + 1, j) =~= d.subrange(3, 3 + kw.len() as int));
    assert(d[j - p] == ' ');
    assert(d[fs - p] == file[0]);
    assert(b[j] == ' ');
    assert(b[fs] == file[0]);
    assert(is_path_char(file[0]));
    lemma_run_end_exact(b, j, fs, Class::Space);
    assert(d.subrange(fs - p, fe - p) =~= file);
    assert forall|x: int| fs <= x < fe implies in_class(#[trigger] b[x], Class::Path) by {
        assert(b[x] == d[x - p]);
        assert(d[x - p] == file[x - fs]);
    }
    assert(d[fe - p] == '@');
    assert(b[fe] == '@');
    lemma_run_end_exact(b, fs, fe, Class::Path);
    assert(d.subrange(fe + 1 - p, ge - p) =~= tag);
    assert forall|x: int| fe + 1 <= x < ge implies in_class(#[trigger] b[x], Class::Tag) by {
        assert(b[x] == d[x - p]);
        assert(d[x - p] == tag[x - fe - 1]);
    }
    assert(d[ge - p] == '}' && d[ge + 1 - p] == '}');
    assert(b[ge] == '}' && b[ge + 1] == '}');
    lemma_run_end_exact(b, fe + 1, ge, Class::Tag);
    lemma_run_end_exact(b, ge, ge, Class::Space);
    assert(b.subrange(fs, fe) =~= file);
    assert(b.subrange(fe + 1, ge) =~= tag);
    assert(b[p + 2] != '{');
}

} // verus!
