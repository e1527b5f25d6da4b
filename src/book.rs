//! Documents as trees of nodes, the files their directives refer to, and the
//! rewriting of every node's body.
use vstd::prelude::*;
use vstd::string::{StrSliceExecFns, StringExecFns};
use crate::error::{ErrorKind, ImportError, ImportErrorView};
use crate::extract::{extract, extract_spec};
use crate::scan::{
    lemma_scan_step,
    Directive, Span, Syntax, SyntaxView, scan, scan_spec, scan_from, lemma_scan_ordered, ordered_spans,
    texts_match, directive_text, plain_target, directive_free, lemma_scan_skip, lemma_live_directive,
};
use crate::splice::{apply, replacement, spliced, spans_of, texts_of};
use crate::text::chars_of;

verus! {

broadcast use vstd::string::group_string_axioms;

/// A node of a document: a name, a body, the path of its source file, and
/// its children in order.
#[derive(Debug)]
pub struct DocumentNode {
    pub name: String,
    pub content: String,
    pub path: String,
    pub children: Vec<DocumentNode>,
}

/// What reading a file gave.
#[derive(Debug)]
pub enum FileContents {
    /// There is no such file.
    Missing,
    /// The file exists but is not valid UTF-8.
    NotText,
    /// The file's text.
    Text(String),
}

/// A file that directives may refer to, under the path they resolve to.
#[derive(Debug)]
pub struct SourceFile {
    pub path: String,
    pub contents: FileContents,
}

/// What reading `path` from `files` gives: the first entry under that path
/// decides; a path with no entry is not found.
pub open spec fn read_spec(files: Seq<SourceFile>, path: Seq<char>) -> Result<Seq<char>, ErrorKind>
    decreases files.len(),
{
    if files.len() == 0 {
        Err(ErrorKind::FileNotFound)
    } else if files[0].path@ == path {
        match files[0].contents {
            FileContents::Missing => Err(ErrorKind::FileNotFound),
            FileContents::NotText => Err(ErrorKind::InvalidEncoding),
            FileContents::Text(s) => Ok(s@),
        }
    } else {
        read_spec(files.drop_first(), path)
    }
}

/// `p` without its last component: everything before its last `/`, or
/// nothing if it has none.
pub open spec fn parent_dir(p: Seq<char>) -> Seq<char>
    decreases p.len(),
{
    if p.len() == 0 {
        p
    } else if p.last() == '/' {
        p.drop_last()
    } else {
        parent_dir(p.drop_last())
    }
}

/// `b` under the directory `a`.
pub open spec fn join_path(a: Seq<char>, b: Seq<char>) -> Seq<char> {
    if a.len() == 0 {
        b
    } else if a.last() == '/' {
        a + b
    } else {
        a + seq!['/'] + b
    }
}

/// The directory against which the directives of a node with source path
/// `path` resolve: the parent of `path`, under `base`.
pub open spec fn node_dir(base: Seq<char>, path: Seq<char>) -> Seq<char> {
    join_path(base, parent_dir(path))
}

/// The text that the directive `d` of node `name` resolves to, with `dir`
/// the node's directory; an escaped directive resolves to nothing and reads
/// no file.
pub open spec fn resolve_one(
    syn: SyntaxView,
    files: Seq<SourceFile>,
    dir: Seq<char>,
    name: Seq<char>,
    d: Span,
) -> Result<Seq<char>, ImportErrorView> {
    if d.escaped {
        Ok(seq![])
    } else {
        let path = join_path(dir, d.file);
        match read_spec(files, path) {
            Err(k) => Err(
                ImportErrorView { kind: k, node: name, directive: d.text, file: path, tag: d.tag },
            ),
            Ok(t) => match extract_spec(syn.marker, t, d.tag) {
                Err(k) => Err(
                    ImportErrorView {
                        kind: k,
                        node: name,
                        directive: d.text,
                        file: path,
                        tag: d.tag,
                    },
                ),
                Ok(r) => Ok(r),
            },
        }
    }
}

/// The texts of the directives `ds`, or the error of the first that fails.
pub open spec fn resolve_all(
    syn: SyntaxView,
    files: Seq<SourceFile>,
    dir: Seq<char>,
    name: Seq<char>,
    ds: Seq<Span>,
) -> Result<Seq<Seq<char>>, ImportErrorView>
    decreases ds.len(),
{
    if ds.len() == 0 {
        Ok(seq![])
    } else {
        match resolve_all(syn, files, dir, name, ds.drop_last()) {
            Err(e) => Err(e),
            Ok(rs) => match resolve_one(syn, files, dir, name, ds.last()) {
                Err(e) => Err(e),
                Ok(r) => Ok(rs.push(r)),
            },
        }
    }
}

/// The body `body` of node `name` with each live directive replaced by the
/// text it resolves to, or the error of the first directive that fails.
pub open spec fn rewrite_spec(
    syn: SyntaxView,
    files: Seq<SourceFile>,
    dir: Seq<char>,
    name: Seq<char>,
    body: Seq<char>,
) -> Result<Seq<char>, ImportErrorView> {
    let ds = scan_spec(syn, body);
    match resolve_all(syn, files, dir, name, ds) {
        Err(e) => Err(e),
        Ok(rs) => Ok(spliced(body, ds, rs)),
    }
}

/// The first error, in pre-order, of the node `n` and its descendants.
pub open spec fn node_error(
    syn: SyntaxView,
    files: Seq<SourceFile>,
    base: Seq<char>,
    n: DocumentNode,
) -> Option<ImportErrorView>
    decreases n, n.children@.len() + 1,
{
    match rewrite_spec(syn, files, node_dir(base, n.path@), n.name@, n.content@) {
        Err(e) => Some(e),
        Ok(_) => children_error(syn, files, base, n, 0),
    }
}

/// The first error, in pre-order, of the children of `n` from index `i` on.
pub open spec fn children_error(
    syn: SyntaxView,
    files: Seq<SourceFile>,
    base: Seq<char>,
    n: DocumentNode,
    i: int,
) -> Option<ImportErrorView>
    decreases n, n.children@.len() - i,
{
    if i < 0 || i >= n.children@.len() {
        None
    } else {
        match node_error(syn, files, base, n.children@[i]) {
            Some(e) => Some(e),
            None => children_error(syn, files, base, n, i + 1),
        }
    }
}

/// `m` is `n` with every body in it rewritten: names, paths and the shape of
/// the tree are kept.
pub open spec fn rewritten_node(
    syn: SyntaxView,
    files: Seq<SourceFile>,
    base: Seq<char>,
    n: DocumentNode,
    m: DocumentNode,
) -> bool
    decreases n,
{
    &&& m.name@ == n.name@
    &&& m.path@ == n.path@
    &&& rewrite_spec(syn, files, node_dir(base, n.path@), n.name@, n.content@) == Ok::<
        Seq<char>,
        ImportErrorView,
    >(m.content@)
    &&& m.children@.len() == n.children@.len()
    &&& forall|i: int|
        0 <= i < n.children@.len() ==> rewritten_node(
            syn,
            files,
            base,
            #[trigger] n.children@[i],
            m.children@[i],
        )
}

/// What reading `path` from `files` gives.
pub fn read_file(files: &Vec<SourceFile>, path: &String) -> (r: Result<String, ErrorKind>)
    ensures
        match r {
            Ok(t) => read_spec(files@, path@) == Ok::<Seq<char>, ErrorKind>(t@),
            Err(k) => read_spec(files@, path@) == Err::<Seq<char>, ErrorKind>(k),
        },
{
    let mut i: usize = 0;
    assert(files@.subrange(0, files@.len() as int) == files@);
    while i < files.len()
        invariant
            i <= files@.len(),
            read_spec(files@, path@) == read_spec(files@.subrange(i as int, files@.len() as int), path@),
        decreases files@.len() - i,
    {
        let f = &files[i];
        assert(files@.subrange(i as int, files@.len() as int).drop_first() == files@.subrange(i + 1, files@.len() as int));
        if f.path.eq(path) {
            return match &f.contents {
                FileContents::Missing => Err(ErrorKind::FileNotFound),
                FileContents::NotText => Err(ErrorKind::InvalidEncoding),
                FileContents::Text(t) => Ok(t.clone()),
            };
        }
        i = i + 1;
    }
    Err(ErrorKind::FileNotFound)
}

/// `p` without its last component.
pub fn parent_of(p: &str) -> (r: String)
    ensures
        r@ == parent_dir(p@),
{
    let c = chars_of(p);
    let mut k: usize = c.len();
    assert(p@.subrange(0, k as int) == p@);
    while k > 0 && c[k - 1] != '/'
        invariant
            k <= c@.len(),
            c@ == p@,
            parent_dir(p@) == parent_dir(p@.subrange(0, k as int)),
        decreases k,
    {
        assert(p@.subrange(0, k as int).drop_last() == p@.subrange(0, k - 1));
        k = k - 1;
    }
    if k == 0 {
        assert(p@.subrange(0, 0) == Seq::<char>::empty());
        String::new()
    } else {
        assert(p@.subrange(0, k as int).drop_last() == p@.subrange(0, k - 1));
        p.substring_char(0, k - 1).to_owned()
    }
}

/// `b` under the directory `a`.
pub fn join(a: &str, b: &str) -> (r: String)
    ensures
        r@ == join_path(a@, b@),
{
    let n = a.unicode_len();
    if n == 0 {
        return b.to_owned();
    }
    let mut r = a.to_owned();
    let last = a.get_char(n - 1);
    assert(a@.last() == last);
    if last != '/' {
        r.append("/");
        proof {
            reveal_strlit("/");
        }
        assert(r@ == a@ + seq!['/']);
    }
    r.append(b);
    r
}

fn error_at(kind: ErrorKind, name: &String, d: &Directive, path: &String) -> (r: ImportError)
    ensures
        r@ == (ImportErrorView { kind, node: name@, directive: d.text@, file: path@, tag: d.tag@ }),
{
    ImportError {
        kind,
        node: name.clone(),
        directive: d.text.clone(),
        file: path.clone(),
        tag: d.tag.clone(),
    }
}

fn resolve_directive(syn: &Syntax, files: &Vec<SourceFile>, dir: &String, name: &String, d: &Directive) -> (r: Result<String, ImportError>)
    ensures
        match r {
            Ok(t) => resolve_one(syn@, files@, dir@, name@, d@) == Ok::<Seq<char>, ImportErrorView>(t@),
            Err(e) => resolve_one(syn@, files@, dir@, name@, d@) == Err::<Seq<char>, ImportErrorView>(e@),
        },
{
    if d.escaped {
        return Ok(String::new());
    }
    let path = join(dir.as_str(), d.file.as_str());
    match read_file(files, &path) {
        Err(k) => Err(error_at(k, name, d, &path)),
        Ok(t) => match extract(syn.marker.as_str(), t.as_str(), d.tag.as_str()) {
            Err(k) => Err(error_at(k, name, d, &path)),
            Ok(r) => Ok(r),
        },
    }
}

proof fn lemma_resolve_all_fails(
    syn: SyntaxView,
    files: Seq<SourceFile>,
    dir: Seq<char>,
    name: Seq<char>,
    ds: Seq<Span>,
    k: int,
)
    requires
        0 <= k <= ds.len(),
        resolve_all(syn, files, dir, name, ds.subrange(0, k)) is Err,
    ensures
        resolve_all(syn, files, dir, name, ds) == resolve_all(syn, files, dir, name, ds.subrange(0, k)),
    decreases ds.len() - k,
{
    if k < ds.len() {
        assert(ds.subrange(0, k + 1).drop_last() == ds.subrange(0, k));
        lemma_resolve_all_fails(syn, files, dir, name, ds, k + 1);
    } else {
        assert(ds.subrange(0, k) == ds);
    }
}

/// Rewrites `body`, the body of the node `name` whose directives resolve
/// against `dir`: each live directive is replaced by the text between its
/// tag's markers in the file it names; escaped directives stay as they are.
pub fn rewrite_body(syn: &Syntax, files: &Vec<SourceFile>, dir: &String, name: &String, body: &String) -> (r: Result<String, ImportError>)
    ensures
        match r {
            Ok(t) => rewrite_spec(syn@, files@, dir@, name@, body@) == Ok::<Seq<char>, ImportErrorView>(t@),
            Err(e) => rewrite_spec(syn@, files@, dir@, name@, body@) == Err::<Seq<char>, ImportErrorView>(e@),
        },
{
    let ds = scan(syn, body.as_str());
    let ghost sp = scan_spec(syn@, body@);
    proof {
        assert(spans_of(ds@) =~= sp);
    }
    let mut reps: Vec<String> = Vec::new();
    let mut i: usize = 0;
    assert(sp.subrange(0, 0) == Seq::<Span>::empty());
    assert(texts_of(reps@) == Seq::<Seq<char>>::empty());
    while i < ds.len()
        invariant
            i <= ds@.len(),
            sp == spans_of(ds@),
            sp == scan_spec(syn@, body@),
            reps@.len() == i,
            resolve_all(syn@, files@, dir@, name@, sp.subrange(0, i as int)) == Ok::<Seq<Seq<char>>, ImportErrorView>(texts_of(reps@)),
        decreases ds@.len() - i,
    {
        let ghost pre = sp.subrange(0, i as int);
        assert(sp.subrange(0, i + 1).drop_last() == pre);
        assert(sp.subrange(0, i + 1).last() == ds@[i as int]@);
        match resolve_directive(syn, files, dir, name, &ds[i]) {
            Err(e) => {
                proof {
                    lemma_resolve_all_fails(syn@, files@, dir@, name@, sp, i + 1);
                }
                return Err(e);
            },
            Ok(t) => {
                let ghost before = reps@;
                reps.push(t);
                assert(texts_of(reps@) =~= texts_of(before).push(reps@[i as int]@));
            },
        }
        i = i + 1;
    }
    proof {
        assert(sp.subrange(0, i as int) == sp);
        lemma_scan_ordered(syn@, body@, 0);
    }
    Ok(apply(body.as_str(), &ds, &reps))
}

/// The directory against which the directives of a node with source path
/// `path` resolve.
pub fn directory_of(base: &str, path: &str) -> (r: String)
    ensures
        r@ == node_dir(base@, path@),
{
    let parent = parent_of(path);
    join(base, parent.as_str())
}

proof fn lemma_children_error_skip(
    syn: SyntaxView,
    files: Seq<SourceFile>,
    base: Seq<char>,
    n: DocumentNode,
    i: int,
)
    requires
        0 <= i < n.children@.len(),
        node_error(syn, files, base, n.children@[i]) is None,
    ensures
        children_error(syn, files, base, n, i) == children_error(syn, files, base, n, i + 1),
{
}

/// Rewrites the body of `node` and of every node under it, in pre-order;
/// `base` is the directory under which the nodes' source paths lie. The
/// first directive that fails stops the whole walk.
pub fn process_node(syn: &Syntax, files: &Vec<SourceFile>, base: &str, node: &DocumentNode) -> (r: Result<DocumentNode, ImportError>)
    ensures
        match r {
            Ok(m) => node_error(syn@, files@, base@, *node) is None && rewritten_node(syn@, files@, base@, *node, m),
            Err(e) => node_error(syn@, files@, base@, *node) == Some(e@),
        },
    decreases node,
{
    let dir = directory_of(base, node.path.as_str());
    let content = match rewrite_body(syn, files, &dir, &node.name, &node.content) {
        Ok(c) => c,
        Err(e) => return Err(e),
    };
    let mut kids: Vec<DocumentNode> = Vec::new();
    let mut i: usize = 0;
    while i < node.children.len()
        invariant
            i <= node.children@.len(),
            kids@.len() == i,
            forall|j: int| 0 <= j < i ==> rewritten_node(syn@, files@, base@, #[trigger] node.children@[j], kids@[j]),
            node_error(syn@, files@, base@, *node) == children_error(syn@, files@, base@, *node, i as int),
        decreases node.children@.len() - i,
    {
        match process_node(syn, files, base, &node.children[i]) {
            Ok(m) => {
                proof {
                    lemma_children_error_skip(syn@, files@, base@, *node, i as int);
                }
                kids.push(m);
            },
            Err(e) => {
                return Err(e);
            },
        }
        i = i + 1;
    }
    Ok(DocumentNode { name: node.name.clone(), content, path: node.path.clone(), children: kids })
}

/// The first error, in order, of the trees `ns` from index `i` on.
pub open spec fn book_error(
    syn: SyntaxView,
    files: Seq<SourceFile>,
    base: Seq<char>,
    ns: Seq<DocumentNode>,
    i: int,
) -> Option<ImportErrorView>
    decreases ns.len() - i,
{
    if i < 0 || i >= ns.len() {
        None
    } else {
        match node_error(syn, files, base, ns[i]) {
            Some(e) => Some(e),
            None => book_error(syn, files, base, ns, i + 1),
        }
    }
}

/// Rewrites every node of the trees `sections`, in order.
pub fn process_book(syn: &Syntax, files: &Vec<SourceFile>, base: &str, sections: &Vec<DocumentNode>) -> (r: Result<Vec<DocumentNode>, ImportError>)
    ensures
        match r {
            Ok(ms) => book_error(syn@, files@, base@, sections@, 0) is None && ms@.len() == sections@.len()
                && forall|j: int| 0 <= j < ms@.len() ==> rewritten_node(syn@, files@, base@, #[trigger] sections@[j], ms@[j]),
            Err(e) => book_error(syn@, files@, base@, sections@, 0) == Some(e@),
        },
{
    let mut out: Vec<DocumentNode> = Vec::new();
    let mut i: usize = 0;
    while i < sections.len()
        invariant
            i <= sections@.len(),
            out@.len() == i,
            forall|j: int| 0 <= j < i ==> rewritten_node(syn@, files@, base@, #[trigger] sections@[j], out@[j]),
            book_error(syn@, files@, base@, sections@, 0) == book_error(syn@, files@, base@, sections@, i as int),
        decreases sections@.len() - i,
    {
        match process_node(syn, files, base, &sections[i]) {
            Ok(m) => {
                out.push(m);
            },
            Err(e) => {
                return Err(e);
            },
        }
        i = i + 1;
    }
    Ok(out)
}

/// The paths, under `dir`, of the files that the live directives of `ds` name.
pub open spec fn live_paths(dir: Seq<char>, ds: Seq<Span>) -> Seq<Seq<char>>
    decreases ds.len(),
{
    if ds.len() == 0 {
        seq![]
    } else if ds.last().escaped {
        live_paths(dir, ds.drop_last())
    } else {
        live_paths(dir, ds.drop_last()).push(join_path(dir, ds.last().file))
    }
}

/// The paths of the files that the live directives of `n` and of the nodes
/// under it name, in pre-order.
pub open spec fn node_files(syn: SyntaxView, base: Seq<char>, n: DocumentNode) -> Seq<Seq<char>>
    decreases n, n.children@.len() + 1,
{
    live_paths(node_dir(base, n.path@), scan_spec(syn, n.content@)) + children_files(
        syn,
        base,
        n,
        0,
    )
}

/// The paths of the files that the children of `n` from index `i` on need.
pub open spec fn children_files(syn: SyntaxView, base: Seq<char>, n: DocumentNode, i: int) -> Seq<
    Seq<char>,
>
    decreases n, n.children@.len() - i,
{
    if i < 0 || i >= n.children@.len() {
        seq![]
    } else {
        node_files(syn, base, n.children@[i]) + children_files(syn, base, n, i + 1)
    }
}

/// The paths of the files that the trees `ns` from index `i` on need.
pub open spec fn book_files(syn: SyntaxView, base: Seq<char>, ns: Seq<DocumentNode>, i: int) -> Seq<
    Seq<char>,
>
    decreases ns.len() - i,
{
    if i < 0 || i >= ns.len() {
        seq![]
    } else {
        node_files(syn, base, ns[i]) + book_files(syn, base, ns, i + 1)
    }
}

/// Appends to `out` the paths of the files that `node` and the nodes under it
/// refer to through live directives.
pub fn collect_files(syn: &Syntax, base: &str, node: &DocumentNode, out: &mut Vec<String>)
    ensures
        texts_of(final(out)@) == texts_of(old(out)@) + node_files(syn@, base@, *node),
    decreases node,
{
    let dir = directory_of(base, node.path.as_str());
    let ds = scan(syn, node.content.as_str());
    let ghost sp = scan_spec(syn@, node.content@);
    let ghost start = texts_of(out@);
    let mut i: usize = 0;
    assert(sp.subrange(0, 0) == Seq::<Span>::empty());
    assert(start + Seq::<Seq<char>>::empty() == start);
    while i < ds.len()
        invariant
            i <= ds@.len(),
            ds@.len() == sp.len(),
            forall|j: int| 0 <= j < ds@.len() ==> #[trigger] ds@[j]@ == sp[j],
            texts_of(out@) == start + live_paths(dir@, sp.subrange(0, i as int)),
        decreases ds@.len() - i,
    {
        let d = &ds[i];
        assert(sp.subrange(0, i + 1).drop_last() == sp.subrange(0, i as int));
        assert(sp.subrange(0, i + 1).last() == d@);
        if !d.escaped {
            let path = join(dir.as_str(), d.file.as_str());
            let ghost before = out@;
            out.push(path);
            assert(texts_of(out@) =~= texts_of(before).push(out@[out@.len() - 1]@));
        }
        i = i + 1;
    }
    assert(sp.subrange(0, i as int) == sp);
    let ghost mid = texts_of(out@);
    let mut k: usize = 0;
    assert(mid + children_files(syn@, base@, *node, 0) == start + node_files(syn@, base@, *node));
    while k < node.children.len()
        invariant
            k <= node.children@.len(),
            texts_of(out@) + children_files(syn@, base@, *node, k as int) == start + node_files(syn@, base@, *node),
        decreases node.children@.len() - k,
    {
        let ghost before = texts_of(out@);
        collect_files(syn, base, &node.children[k], out);
        assert(before + children_files(syn@, base@, *node, k as int) == texts_of(out@) + children_files(syn@, base@, *node, k + 1));
        k = k + 1;
    }
    assert(texts_of(out@) + Seq::<Seq<char>>::empty() == texts_of(out@));
}

/// The paths of the files that the live directives of the trees `sections`
/// name, in order, with `base` the directory of the nodes' source paths.
pub fn required_files(syn: &Syntax, base: &str, sections: &Vec<DocumentNode>) -> (r: Vec<String>)
    ensures
        texts_of(r@) == book_files(syn@, base@, sections@, 0),
{
    let mut out: Vec<String> = Vec::new();
    let mut i: usize = 0;
    assert(texts_of(out@) == Seq::<Seq<char>>::empty());
    while i < sections.len()
        invariant
            i <= sections@.len(),
            texts_of(out@) + book_files(syn@, base@, sections@, i as int) == book_files(syn@, base@, sections@, 0),
        decreases sections@.len() - i,
    {
        let ghost before = texts_of(out@);
        collect_files(syn, base, &sections[i], &mut out);
        assert(before + book_files(syn@, base@, sections@, i as int) == texts_of(out@) + book_files(syn@, base@, sections@, i + 1));
        i = i + 1;
    }
    assert(texts_of(out@) + Seq::<Seq<char>>::empty() == texts_of(out@));
    out
}

/// Every directive of `ds` is escaped.
pub open spec fn all_escaped(ds: Seq<Span>) -> bool {
    forall|i: int| 0 <= i < ds.len() ==> (#[trigger] ds[i]).escaped
}

proof fn lemma_resolve_all_escaped(
    syn: SyntaxView,
    files: Seq<SourceFile>,
    dir: Seq<char>,
    name: Seq<char>,
    ds: Seq<Span>,
)
    requires
        all_escaped(ds),
    ensures
        resolve_all(syn, files, dir, name, ds) is Ok,
        resolve_all(syn, files, dir, name, ds)->Ok_0.len() == ds.len(),
    decreases ds.len(),
{
    if ds.len() > 0 {
        assert(ds.last() == ds[ds.len() - 1]);
        lemma_resolve_all_escaped(syn, files, dir, name, ds.drop_last());
    }
}

proof fn lemma_resolve_all_ok(
    syn: SyntaxView,
    files: Seq<SourceFile>,
    dir: Seq<char>,
    name: Seq<char>,
    ds: Seq<Span>,
)
    requires
        resolve_all(syn, files, dir, name, ds) is Ok,
    ensures
        resolve_all(syn, files, dir, name, ds)->Ok_0.len() == ds.len(),
        forall|i: int|
            0 <= i < ds.len() ==> resolve_one(syn, files, dir, name, #[trigger] ds[i]) == Ok::<
                Seq<char>,
                ImportErrorView,
            >(resolve_all(syn, files, dir, name, ds)->Ok_0[i]),
    decreases ds.len(),
{
    if ds.len() > 0 {
        let rest = ds.drop_last();
        lemma_resolve_all_ok(syn, files, dir, name, rest);
        assert forall|i: int| 0 <= i < ds.len() implies resolve_one(syn, files, dir, name, #[trigger] ds[i]) == Ok::<
                Seq<char>,
                ImportErrorView,
            >(resolve_all(syn, files, dir, name, ds)->Ok_0[i]) by {
            if i < rest.len() {
                assert(rest[i] == ds[i]);
            }
        }
    }
}

proof fn lemma_spliced_escaped(b: Seq<char>, ds: Seq<Span>, reps: Seq<Seq<char>>)
    requires
        all_escaped(ds),
        ordered_spans(ds, 0, b.len() as int),
        texts_match(b, ds),
        reps.len() == ds.len(),
    ensures
        spliced(b, ds, reps) == b,
    decreases ds.len(),
{
    reveal(spliced);
    if ds.len() > 0 {
        let k = ds.len() - 1;
        let s = ds[k].start;
        let e = ds[k].end;
        let pre = b.subrange(0, s);
        let rest = ds.drop_last();
        assert forall|i: int| 0 <= i < rest.len() implies 0 <= #[trigger] rest[i].start
            < rest[i].end <= pre.len() by {
            assert(rest[i] == ds[i]);
            assert(ds[i].start < ds[i].end);
            lemma_ordered_far(ds, b.len() as int, i, k);
        }
        assert forall|i: int| 0 <= i < rest.len() - 1 implies #[trigger] rest[i].end
            <= rest[i + 1].start by {
            assert(rest[i] == ds[i]);
            assert(rest[i + 1] == ds[i + 1]);
        }
        assert forall|i: int| 0 <= i < rest.len() implies #[trigger] rest[i].text
            == pre.subrange(rest[i].start, rest[i].end) by {
            assert(rest[i] == ds[i]);
            assert(ds[i].start < ds[i].end);
            lemma_ordered_far(ds, b.len() as int, i, k);
            assert(pre.subrange(rest[i].start, rest[i].end) == b.subrange(ds[i].start, ds[i].end));
        }
        assert(all_escaped(rest)) by {
            assert forall|i: int| 0 <= i < rest.len() implies (#[trigger] rest[i]).escaped by {
                assert(rest[i] == ds[i]);
            }
        }
        lemma_spliced_escaped(pre, rest, reps.drop_last());
        assert(ds[k].escaped);
        assert(ds[k].start < ds[k].end);
        assert(b == b.subrange(0, s) + b.subrange(s, e) + b.subrange(e, b.len() as int));
    }
}

proof fn lemma_ordered_far(ds: Seq<Span>, n: int, i: int, j: int)
    requires
        ordered_spans(ds, 0, n),
        0 <= i < j < ds.len(),
    ensures
        ds[i].end <= ds[j].start,
    decreases j - i,
{
    if j > i + 1 {
        lemma_ordered_far(ds, n, i, j - 1);
        assert(ds[j - 1].start < ds[j - 1].end);
        assert(ds[j - 1].end <= ds[j].start);
    } else {
        assert(ds[i].end <= ds[i + 1].start);
    }
}

/// A body whose directives are all escaped comes out of rewriting exactly as
/// it went in, whatever the files hold: no file is read for it.
pub proof fn lemma_escaped_body_unchanged(
    syn: SyntaxView,
    files: Seq<SourceFile>,
    dir: Seq<char>,
    name: Seq<char>,
    body: Seq<char>,
)
    requires
        all_escaped(scan_spec(syn, body)),
    ensures
        rewrite_spec(syn, files, dir, name, body) == Ok::<Seq<char>, ImportErrorView>(body),
{
    let ds = scan_spec(syn, body);
    lemma_scan_ordered(syn, body, 0);
    lemma_resolve_all_escaped(syn, files, dir, name, ds);
    lemma_spliced_escaped(body, ds, resolve_all(syn, files, dir, name, ds)->Ok_0);
}

/// Rewriting twice a body whose directives are all escaped gives the same
/// text both times: escape characters are never stripped.
pub proof fn lemma_escaped_rewrite_idempotent(
    syn: SyntaxView,
    files: Seq<SourceFile>,
    dir: Seq<char>,
    name: Seq<char>,
    body: Seq<char>,
)
    requires
        all_escaped(scan_spec(syn, body)),
    ensures
        rewrite_spec(syn, files, dir, name, body) is Ok,
        rewrite_spec(syn, files, dir, name, rewrite_spec(syn, files, dir, name, body)->Ok_0)
            == rewrite_spec(syn, files, dir, name, body),
{
    lemma_escaped_body_unchanged(syn, files, dir, name, body);
}

/// Two live directives of one body are resolved each on its own: each is
/// replaced by the region of its own file and tag, and the text around them
/// is kept.
pub proof fn lemma_two_directives_independent(
    syn: SyntaxView,
    files: Seq<SourceFile>,
    dir: Seq<char>,
    name: Seq<char>,
    body: Seq<char>,
)
    requires
        scan_spec(syn, body).len() == 2,
        !scan_spec(syn, body)[0].escaped,
        !scan_spec(syn, body)[1].escaped,
        rewrite_spec(syn, files, dir, name, body) is Ok,
    ensures
        ({
            let d0 = scan_spec(syn, body)[0];
            let d1 = scan_spec(syn, body)[1];
            &&& resolve_one(syn, files, dir, name, d0) is Ok
            &&& resolve_one(syn, files, dir, name, d1) is Ok
            &&& rewrite_spec(syn, files, dir, name, body)->Ok_0 == body.subrange(0, d0.start)
                + resolve_one(syn, files, dir, name, d0)->Ok_0 + body.subrange(d0.end, d1.start)
                + resolve_one(syn, files, dir, name, d1)->Ok_0 + body.subrange(
                d1.end,
                body.len() as int,
            )
        }),
{
    reveal(spliced);
    let ds = scan_spec(syn, body);
    lemma_scan_ordered(syn, body, 0);
    let d0 = ds[0];
    let d1 = ds[1];
    assert(ds.drop_last().drop_last() == Seq::<Span>::empty());
    assert(ds.drop_last().last() == d0);
    assert(ds.last() == d1);
    let rs = resolve_all(syn, files, dir, name, ds)->Ok_0;
    lemma_resolve_all_ok(syn, files, dir, name, ds);
    assert(resolve_one(syn, files, dir, name, ds[0]) is Ok);
    assert(resolve_one(syn, files, dir, name, ds[1]) is Ok);
    let pre = body.subrange(0, d1.start);
    assert(d0.start < d0.end <= d1.start < d1.end);
    assert(pre.subrange(0, d0.start) == body.subrange(0, d0.start));
    assert(pre.subrange(d0.end, pre.len() as int) == body.subrange(d0.end, d1.start));
    assert(rs.drop_last().drop_last().len() == 0);
    assert(spliced(pre.subrange(0, d0.start), ds.drop_last().drop_last(), rs.drop_last().drop_last())
        == pre.subrange(0, d0.start));
    assert(ds.drop_last()[0] == d0);
    assert(rs.drop_last()[0] == rs[0]);
    let ds1 = ds.drop_last();
    let rs1 = rs.drop_last();
    assert(ds1.len() - 1 == 0);
    assert(ds1[0] == d0);
    assert(spliced(pre, ds1, rs1) == pre.subrange(0, d0.start) + replacement(d0, rs[0])
        + pre.subrange(d0.end, pre.len() as int));
    assert(rewrite_spec(syn, files, dir, name, body)->Ok_0 == spliced(body, ds, rs));
    assert(spliced(body, ds, rs) == spliced(pre, ds1, rs1) + replacement(d1, rs[1]) + body.subrange(
        d1.end,
        body.len() as int,
    ));
}

/// In a tree of depth three (a root with two children, the first of which
/// has one child) where only the deepest node has directives, rewriting
/// leaves the root, the middle node and the sibling as they were, and
/// rewrites the deepest body against the directory of its own path. The walk
/// fails exactly when that body does, with its error.
pub proof fn lemma_only_deepest_rewritten(
    syn: SyntaxView,
    files: Seq<SourceFile>,
    base: Seq<char>,
    root: DocumentNode,
)
    requires
        root.children@.len() == 2,
        root.children@[0].children@.len() == 1,
        root.children@[1].children@.len() == 0,
        root.children@[0].children@[0].children@.len() == 0,
        scan_spec(syn, root.content@).len() == 0,
        scan_spec(syn, root.children@[0].content@).len() == 0,
        scan_spec(syn, root.children@[1].content@).len() == 0,
    ensures
        ({
            let mid = root.children@[0];
            let sib = root.children@[1];
            let deep = mid.children@[0];
            let deep_result = rewrite_spec(syn, files, node_dir(base, deep.path@), deep.name@, deep.content@);
            &&& node_error(syn, files, base, root) == match deep_result {
                Ok(_) => None,
                Err(e) => Some(e),
            }
            &&& forall|m: DocumentNode|
                #[trigger] rewritten_node(syn, files, base, root, m) ==> {
                    &&& m.content@ == root.content@
                    &&& m.children@[0].content@ == mid.content@
                    &&& m.children@[1].content@ == sib.content@
                    &&& deep_result == Ok::<Seq<char>, ImportErrorView>(m.children@[0].children@[0].content@)
                }
        }),
{
    let mid = root.children@[0];
    let sib = root.children@[1];
    let deep = mid.children@[0];
    lemma_escaped_body_unchanged(syn, files, node_dir(base, root.path@), root.name@, root.content@);
    lemma_escaped_body_unchanged(syn, files, node_dir(base, mid.path@), mid.name@, mid.content@);
    lemma_escaped_body_unchanged(syn, files, node_dir(base, sib.path@), sib.name@, sib.content@);
    assert(children_error(syn, files, base, deep, 0) == None::<ImportErrorView>);
    assert(children_error(syn, files, base, sib, 0) == None::<ImportErrorView>);
    assert(children_error(syn, files, base, mid, 1) == None::<ImportErrorView>);
    assert(children_error(syn, files, base, root, 2) == None::<ImportErrorView>);
    assert(node_error(syn, files, base, sib) == None::<ImportErrorView>);
    assert(children_error(syn, files, base, root, 1) == None::<ImportErrorView>);
    assert(children_error(syn, files, base, mid, 0) == node_error(syn, files, base, deep));
    assert(node_error(syn, files, base, mid) == node_error(syn, files, base, deep));
    assert forall|m: DocumentNode| #[trigger] rewritten_node(syn, files, base, root, m) implies {
        &&& m.content@ == root.content@
        &&& m.children@[0].content@ == mid.content@
        &&& m.children@[1].content@ == sib.content@
        &&& rewrite_spec(syn, files, node_dir(base, deep.path@), deep.name@, deep.content@) == Ok::<
            Seq<char>,
            ImportErrorView,
        >(m.children@[0].children@[0].content@)
    } by {
        assert(rewritten_node(syn, files, base, root.children@[0], m.children@[0]));
        assert(rewritten_node(syn, files, base, root.children@[1], m.children@[1]));
        assert(rewritten_node(syn, files, base, mid.children@[0], m.children@[0].children@[0]));
    }
}

proof fn lemma_five_parts(
    body: Seq<char>,
    a: Seq<char>,
    d1: Seq<char>,
    m: Seq<char>,
    d2: Seq<char>,
    c: Seq<char>,
)
    requires
        body == a + d1 + m + d2 + c,
    ensures
        body.len() == a.len() + d1.len() + m.len() + d2.len() + c.len(),
        body.subrange(0, a.len() as int) == a,
        body.subrange(a.len() as int, a.len() + d1.len() as int) == d1,
        body.subrange(a.len() + d1.len() as int, a.len() + d1.len() + m.len() as int) == m,
        body.subrange(a.len() + d1.len() + m.len() as int, a.len() + d1.len() + m.len() + d2.len() as int) == d2,
        body.subrange(a.len() + d1.len() + m.len() + d2.len() as int, body.len() as int) == c,
{
    let p1 = a.len() as int;
    let e1 = p1 + d1.len();
    let p2 = e1 + m.len();
    let e2 = p2 + d2.len();
    assert(body.subrange(0, p1) =~= a);
    assert(body.subrange(p1, e1) =~= d1);
    assert(body.subrange(e1, p2) =~= m);
    assert(body.subrange(p2, e2) =~= d2);
    assert(body.subrange(e2, body.len() as int) =~= c);
}

proof fn lemma_scan_two(
    syn: SyntaxView,
    body: Seq<char>,
    a: Seq<char>,
    m: Seq<char>,
    c: Seq<char>,
    file: Seq<char>,
    t1: Seq<char>,
    t2: Seq<char>,
)
    requires
        plain_target(file, t1),
        plain_target(file, t2),
        body == a + directive_text(syn.keyword, file, t1) + m + directive_text(syn.keyword, file, t2) + c,
        directive_free(syn, body, 0, a.len() as int),
        directive_free(
            syn,
            body,
            a.len() + directive_text(syn.keyword, file, t1).len() as int,
            a.len() + directive_text(syn.keyword, file, t1).len() + m.len() as int,
        ),
        directive_free(syn, body, body.len() - c.len() as int, body.len() as int),
    ensures
        ({
            let d1 = directive_text(syn.keyword, file, t1);
            let d2 = directive_text(syn.keyword, file, t2);
            let p1 = a.len() as int;
            let p2 = p1 + d1.len() + m.len();
            &&& scan_spec(syn, body) == seq![
                Span { start: p1, end: p1 + d1.len(), text: d1, file, tag: t1, escaped: false },
                Span { start: p2, end: p2 + d2.len(), text: d2, file, tag: t2, escaped: false },
            ]
            &&& body.subrange(0, p1) == a
            &&& body.subrange(p1 + d1.len(), p2) == m
            &&& body.subrange(p2 + d2.len(), body.len() as int) == c
        }),
{
    let kw = syn.keyword;
    let d1 = directive_text(kw, file, t1);
    let d2 = directive_text(kw, file, t2);
    let p1 = a.len() as int;
    let e1 = p1 + d1.len();
    let p2 = e1 + m.len();
    let e2 = p2 + d2.len();
    let n = body.len() as int;
    lemma_five_parts(body, a, d1, m, d2, c);
    lemma_live_directive(kw, file, t1, body, p1);
    lemma_live_directive(kw, file, t2, body, p2);
    let s1 = Span { start: p1, end: e1, text: d1, file, tag: t1, escaped: false };
    let s2 = Span { start: p2, end: e2, text: d2, file, tag: t2, escaped: false };
    lemma_scan_skip(syn, body, 0, p1);
    lemma_scan_skip(syn, body, e1, p2);
    lemma_scan_skip(syn, body, e2, n);
    assert(scan_from(syn, body, n) == Seq::<Span>::empty()) by {
        reveal(scan_from);
    }
    lemma_scan_step(syn, body, p1);
    lemma_scan_step(syn, body, p2);
    assert(scan_spec(syn, body) =~= seq![s1, s2]);
}

/// Two directives into the same file with tags `t1` and `t2`, in a body
/// `a`, first directive, `m`, second directive, `c`, where no directive starts
/// inside `a`, `m` or `c`: when the file reads and both tags extract, the
/// body becomes `a`, the region of `t1`, `m`, the region of `t2`, `c`. Each
/// directive gets the region of its own tag.
pub proof fn lemma_two_tags_one_file(
    syn: SyntaxView,
    files: Seq<SourceFile>,
    dir: Seq<char>,
    name: Seq<char>,
    body: Seq<char>,
    a: Seq<char>,
    m: Seq<char>,
    c: Seq<char>,
    file: Seq<char>,
    t1: Seq<char>,
    t2: Seq<char>,
)
    requires
        plain_target(file, t1),
        plain_target(file, t2),
        body == a + directive_text(syn.keyword, file, t1) + m + directive_text(syn.keyword, file, t2) + c,
        directive_free(syn, body, 0, a.len() as int),
        directive_free(
            syn,
            body,
            a.len() + directive_text(syn.keyword, file, t1).len() as int,
            a.len() + directive_text(syn.keyword, file, t1).len() + m.len() as int,
        ),
        directive_free(syn, body, body.len() - c.len() as int, body.len() as int),
        read_spec(files, join_path(dir, file)) is Ok,
        extract_spec(syn.marker, read_spec(files, join_path(dir, file))->Ok_0, t1) is Ok,
        extract_spec(syn.marker, read_spec(files, join_path(dir, file))->Ok_0, t2) is Ok,
    ensures
        rewrite_spec(syn, files, dir, name, body) == Ok::<Seq<char>, ImportErrorView>(
            a + extract_spec(syn.marker, read_spec(files, join_path(dir, file))->Ok_0, t1)->Ok_0 + m
                + extract_spec(syn.marker, read_spec(files, join_path(dir, file))->Ok_0, t2)->Ok_0 + c,
        ),
{
    let kw = syn.keyword;
    let d1 = directive_text(kw, file, t1);
    let d2 = directive_text(kw, file, t2);
    let p1 = a.len() as int;
    let e1 = p1 + d1.len();
    let p2 = e1 + m.len();
    let e2 = p2 + d2.len();
    let n = body.len() as int;
    lemma_scan_two(syn, body, a, m, c, file, t1, t2);
    let s1 = Span { start: p1, end: e1, text: d1, file, tag: t1, escaped: false };
    let s2 = Span { start: p2, end: e2, text: d2, file, tag: t2, escaped: false };
    let ds = scan_spec(syn, body);
    assert(ds =~= seq![s1, s2]);
    let ft = read_spec(files, join_path(dir, file))->Ok_0;
    let r1 = extract_spec(syn.marker, ft, t1)->Ok_0;
    let r2 = extract_spec(syn.marker, ft, t2)->Ok_0;
    assert(resolve_one(syn, files, dir, name, s1) == Ok::<Seq<char>, ImportErrorView>(r1));
    assert(resolve_one(syn, files, dir, name, s2) == Ok::<Seq<char>, ImportErrorView>(r2));
    assert(ds.drop_last() =~= seq![s1]);
    assert(ds.drop_last().drop_last() =~= Seq::<Span>::empty());
    assert(resolve_all(syn, files, dir, name, ds.drop_last()) == Ok::<Seq<Seq<char>>, ImportErrorView>(seq![r1])) by {
        assert(ds.drop_last().last() == s1);
        assert(resolve_all(syn, files, dir, name, ds.drop_last().drop_last()) == Ok::<
            Seq<Seq<char>>,
            ImportErrorView,
        >(Seq::<Seq<char>>::empty()));
        assert(Seq::<Seq<char>>::empty().push(r1) =~= seq![r1]);
    }
    assert(resolve_all(syn, files, dir, name, ds) is Ok);
    lemma_two_directives_independent(syn, files, dir, name, body);
    assert(a + r1 + m + r2 + c == body.subrange(0, p1) + r1 + body.subrange(e1, p2) + r2 + body.subrange(e2, n));
}

} // verus!
