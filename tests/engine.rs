use mdbook_bookimport::book::{
    directory_of, join, parent_of, process_node, read_file, rewrite_body, DocumentNode,
    FileContents, SourceFile,
};
use mdbook_bookimport::error::ErrorKind;
use mdbook_bookimport::extract::extract;
use mdbook_bookimport::scan::{scan, Syntax};

fn import_syntax() -> Syntax {
    Syntax::new("import", "import", '\\')
}

fn node(name: &str, content: &str, path: &str, children: Vec<DocumentNode>) -> DocumentNode {
    DocumentNode {
        name: name.to_string(),
        content: content.to_string(),
        path: path.to_string(),
        children,
    }
}

fn text_file(path: &str, text: &str) -> SourceFile {
    SourceFile { path: path.to_string(), contents: FileContents::Text(text.to_string()) }
}

const CSS: &str = "@import start cool-css\n.box { display:block; }\n@import end cool-css";

#[test]
fn scenario_tag_region_replaces_directive() {
    let n = node("Chapter", "{{#import ./fixture.css@cool-css }}", "ch/README.md", vec![]);
    let files = vec![text_file("ch/./fixture.css", CSS)];
    let out = process_node(&import_syntax(), &files, "", &n).unwrap();
    assert_eq!(out.content, ".box { display:block; }");
    assert_eq!(out.name, "Chapter");
    assert_eq!(out.path, "ch/README.md");
}

#[test]
fn scenario_escaped_directive_reads_no_file() {
    let body = "\\{{#import ./ignored.txt@foo-bar}}";
    let n = node("Escaped", body, "README.md", vec![]);
    let out = process_node(&import_syntax(), &vec![], "", &n).unwrap();
    assert_eq!(out.content, body);
}

#[test]
fn scenario_nested_tree_depth_three() {
    let deep = node("deep", "before {{#import box.css@cool-css}} after", "a/b/c/deep.md", vec![]);
    let mid = node("mid", "middle text", "a/b/mid.md", vec![deep]);
    let sibling = node("sibling", "sibling text", "a/sib.md", vec![]);
    let root = node("root", "root text", "a/root.md", vec![mid, sibling]);
    let files = vec![text_file("base/a/b/c/box.css", CSS)];
    let out = process_node(&import_syntax(), &files, "base", &root).unwrap();
    assert_eq!(out.content, "root text");
    assert_eq!(out.children.len(), 2);
    assert_eq!(out.children[0].content, "middle text");
    assert_eq!(out.children[1].content, "sibling text");
    assert_eq!(out.children[0].children[0].content, "before .box { display:block; } after");
}

#[test]
fn scan_spans_ascend_without_overlap() {
    let body = "a {{#import x@t}} b \\{{#import y@u}}{{#import z@v}} c";
    let ds = scan(&import_syntax(), body);
    assert_eq!(ds.len(), 3);
    for w in ds.windows(2) {
        assert!(w[0].start < w[0].end);
        assert!(w[0].end <= w[1].start);
    }
    assert!(!ds[0].escaped);
    assert!(ds[1].escaped);
    assert_eq!(ds[1].text, "\\{{#import y@u}}");
    assert_eq!(ds[1].file, "y");
    assert_eq!(ds[2].tag, "v");
    assert_eq!((ds[2].start, ds[2].end), (36, 51));
}

#[test]
fn scan_grammar_details() {
    let syn = import_syntax();
    let ds = scan(&syn, "{{  #import   dir/my file.txt@a_b.c-d   }}");
    assert_eq!(ds.len(), 1);
    assert_eq!(ds[0].file, "dir/my file.txt");
    assert_eq!(ds[0].tag, "a_b.c-d");
    assert_eq!(scan(&syn, "{{#importx@t}}").len(), 0);
    assert_eq!(scan(&syn, "{{#import x@}}").len(), 0);
    assert_eq!(scan(&syn, "{{#import x@t}").len(), 0);
    assert_eq!(scan(&syn, "{{#include x@t}}").len(), 0);
    assert_eq!(scan(&syn, "").len(), 0);
}

#[test]
fn white_space_path_is_read_as_in_a_greedy_match() {
    let syn = Syntax::bookimport();
    let ds = scan(&syn, "{{#bookimport  @t}}");
    assert_eq!(ds.len(), 1);
    assert_eq!(ds[0].file, " ");
    assert_eq!(ds[0].tag, "t");
    let ds = scan(&syn, "{{#bookimport   @t}}");
    assert_eq!(ds[0].file, " ");
    assert_eq!(scan(&syn, "{{#bookimport @t}}").len(), 0);
}

#[test]
fn white_space_beyond_space_and_tab() {
    let syn = import_syntax();
    let ds = scan(&syn, "{{\u{a0}#import\u{3000}a b\u{0c}.txt@t\r}}");
    assert_eq!(ds.len(), 1);
    assert_eq!(ds[0].file, "a b\u{0c}.txt");
    assert_eq!(ds[0].tag, "t");
    assert_eq!(scan(&syn, "{{#import\nx@t}}").len(), 0);
}

#[test]
fn escaped_body_rewrites_to_itself_twice() {
    let syn = import_syntax();
    let body = "x \\{{#import a.txt@t}} y".to_string();
    let once = rewrite_body(&syn, &vec![], &"d".to_string(), &"n".to_string(), &body).unwrap();
    let twice = rewrite_body(&syn, &vec![], &"d".to_string(), &"n".to_string(), &once).unwrap();
    assert_eq!(once, body);
    assert_eq!(twice, body);
}

#[test]
fn extraction_takes_lines_between_markers() {
    let file = "head\n@import start t\nl1\nl2\n@import end t\ntail";
    assert_eq!(extract("import", file, "t").unwrap(), "l1\nl2");
    let adjacent = "@import start t\n@import end t\n";
    assert_eq!(extract("import", adjacent, "t").unwrap(), "");
    let crlf = "@import start t\r\nl1\r\n@import end t\r\n";
    assert_eq!(extract("import", crlf, "t").unwrap(), "l1");
    let crlf_lines = "x\r\n@import start t\r\nl1\r\n\r\nl3\r\n@import end t\r\ny";
    assert_eq!(extract("import", crlf_lines, "t").unwrap(), "l1\r\n\r\nl3");
    let crlf_blank = "@import start t\r\n\r\n@import end t\r\n";
    assert_eq!(extract("import", crlf_blank, "t").unwrap(), "");
}

#[test]
fn two_tags_into_one_file_resolve_independently() {
    let file = "@import start one\nfirst\n@import end one\n@import start two\nsecond\n@import end two\n";
    let body = "A {{#import f.txt@one}} B {{#import f.txt@two}} C".to_string();
    let files = vec![text_file("d/f.txt", file)];
    let out = rewrite_body(&import_syntax(), &files, &"d".to_string(), &"n".to_string(), &body).unwrap();
    assert_eq!(out, "A first B second C");
}

#[test]
fn identical_directives_each_replaced() {
    let file = "@import start t\nX\n@import end t\n";
    let body = "{{#import f@t}}-{{#import f@t}}".to_string();
    let files = vec![text_file("f", file)];
    let out = rewrite_body(&import_syntax(), &files, &"".to_string(), &"n".to_string(), &body).unwrap();
    assert_eq!(out, "X-X");
}

#[test]
fn missing_end_tag_is_an_error() {
    assert_eq!(extract("import", "@import start t\nbody\n", "t"), Err(ErrorKind::MissingEndTag));
    let n = node("Ch", "{{#import f@t}}", "README.md", vec![]);
    let files = vec![text_file("f", "@import start t\nbody\n")];
    let err = process_node(&import_syntax(), &files, "", &n).err().unwrap();
    assert_eq!(err.kind, ErrorKind::MissingEndTag);
    assert_eq!(err.node, "Ch");
    assert_eq!(err.directive, "{{#import f@t}}");
    assert_eq!(err.file, "f");
    assert_eq!(err.tag, "t");
}

#[test]
fn missing_start_tag_is_an_error() {
    assert_eq!(extract("import", "@import end t\n", "t"), Err(ErrorKind::MissingStartTag));
}

#[test]
fn inverted_tag_order_is_an_error() {
    let file = "@import end t\nx\n@import start t\n";
    assert_eq!(extract("import", file, "t"), Err(ErrorKind::InvertedTagOrder));
}

#[test]
fn tag_that_prefixes_another_does_not_match_it() {
    let file = "@import start foo-bar\nlong\n@import end foo-bar\n@import start foo\nshort\n@import end foo\n";
    assert_eq!(extract("import", file, "foo").unwrap(), "short");
    assert_eq!(extract("import", file, "foo-bar").unwrap(), "long");
}

#[test]
fn file_not_found_and_invalid_encoding() {
    let syn = import_syntax();
    let n = node("Ch", "{{#import gone.txt@t}}", "README.md", vec![]);
    let err = process_node(&syn, &vec![], "", &n).err().unwrap();
    assert_eq!(err.kind, ErrorKind::FileNotFound);
    let files = vec![SourceFile { path: "gone.txt".to_string(), contents: FileContents::Missing }];
    assert_eq!(process_node(&syn, &files, "", &n).err().unwrap().kind, ErrorKind::FileNotFound);
    let files = vec![SourceFile { path: "gone.txt".to_string(), contents: FileContents::NotText }];
    assert_eq!(process_node(&syn, &files, "", &n).err().unwrap().kind, ErrorKind::InvalidEncoding);
}

#[test]
fn first_error_in_pre_order_stops_the_walk() {
    let syn = import_syntax();
    let child = node("child", "{{#import a@t}}", "c.md", vec![]);
    let root = node("root", "{{#import b@t}}", "r.md", vec![child]);
    let err = process_node(&syn, &vec![], "", &root).err().unwrap();
    assert_eq!(err.node, "root");
    assert_eq!(err.file, "b");
}

#[test]
fn read_file_uses_first_entry() {
    let files = vec![
        SourceFile { path: "p".to_string(), contents: FileContents::Text("one".to_string()) },
        SourceFile { path: "p".to_string(), contents: FileContents::Text("two".to_string()) },
    ];
    assert_eq!(read_file(&files, &"p".to_string()), Ok("one".to_string()));
    assert_eq!(read_file(&files, &"q".to_string()), Err(ErrorKind::FileNotFound));
}

#[test]
fn path_helpers() {
    assert_eq!(parent_of("a/b/c.md"), "a/b");
    assert_eq!(parent_of("c.md"), "");
    assert_eq!(join("a", "b"), "a/b");
    assert_eq!(join("a/", "b"), "a/b");
    assert_eq!(join("", "b"), "b");
    assert_eq!(directory_of("src", "ch/intro.md"), "src/ch");
    assert_eq!(directory_of("src", "intro.md"), "src/");
}
