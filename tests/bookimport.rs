use mdbook_bookimport::book::{DocumentNode, FileContents, SourceFile};
use mdbook_bookimport::extract::extract;
use mdbook_bookimport::scan::{scan, Syntax};
use mdbook_bookimport::Bookimport;

const TAG_IMPORT_README: &str = "# Tag Import\n\n```md\n{{#bookimport ./fixture.css@cool-css }}\n```\n";
const TAG_IMPORT_FIXTURE: &str = ".this-will-not-be-included {\n  display: none;\n}\n\n/* @book start cool-css */\n\n.this-will-be-included {\n  display: block;\n}\n\n/* @book end cool-css */\n";
const ESCAPED_README: &str = "# Escaped Bookimport\n\n```\n/{{#bookimport ./ignored.txt@foo-bar}}\n```\n";

fn leaf(name: &str, content: &str, path: &str) -> DocumentNode {
    DocumentNode {
        name: name.to_string(),
        content: content.to_string(),
        path: path.to_string(),
        children: vec![],
    }
}

fn text_file(path: &str, text: &str) -> SourceFile {
    SourceFile { path: path.to_string(), contents: FileContents::Text(text.to_string()) }
}

fn make_tag_import_chapter() -> DocumentNode {
    leaf("Tag Import", TAG_IMPORT_README, "book/src/test-cases/tag-import/README.md")
}

fn make_escaped_import_chapter() -> DocumentNode {
    leaf("Escaped", ESCAPED_README, "book/src/test-cases/escaped/README.md")
}

fn tag_import_files() -> Vec<SourceFile> {
    vec![text_file("book/src/test-cases/tag-import/./fixture.css", TAG_IMPORT_FIXTURE)]
}

#[test]
fn parse_simports_from_chapter() {
    let chapter = make_tag_import_chapter();
    let found = scan(&Syntax::bookimport(), &chapter.content);
    let live: Vec<_> = found.iter().filter(|d| !d.escaped).collect();
    assert_eq!(live.len(), 1);
    assert_eq!(live[0].file, "./fixture.css");
    assert_eq!(live[0].text, "{{#bookimport ./fixture.css@cool-css }}");
    assert_eq!(live[0].tag, "cool-css");
    assert_eq!(live[0].start, 20);
    assert_eq!(live[0].end, 59);
}

#[test]
fn ignore_escaped_simport() {
    let chapter = make_escaped_import_chapter();
    let found = scan(&Syntax::bookimport(), &chapter.content);
    assert_eq!(found.iter().filter(|d| !d.escaped).count(), 0);
}

#[test]
fn content_between_tags() {
    let content_between_tags = extract("book", TAG_IMPORT_FIXTURE, "cool-css");
    let expected_content = r#"
.this-will-be-included {
  display: block;
}
"#;
    assert_eq!(content_between_tags.unwrap(), expected_content);
}

#[test]
fn replace_chapter() {
    let sections = vec![make_tag_import_chapter()];
    let out = Bookimport.run(&sections, "", &tag_import_files()).unwrap();
    let expected_content = r#"# Tag Import

```md

.this-will-be-included {
  display: block;
}

```
"#;
    assert_eq!(out[0].content.as_str(), expected_content);
}

#[test]
fn replace_escaped_simport() {
    let expected_content = r#"# Escaped Bookimport

```
/{{#bookimport ./ignored.txt@foo-bar}}
```
"#;
    let sections = vec![make_escaped_import_chapter()];
    let out = Bookimport.run(&sections, "", &vec![]).unwrap();
    assert_eq!(out[0].content.as_str(), expected_content);
}

#[test]
fn preprocessor_name() {
    assert_eq!(Bookimport.name(), "mdbook-bookimport");
}

#[test]
fn required_files_lists_live_directives_only() {
    let mut parent = make_tag_import_chapter();
    parent.children.push(make_escaped_import_chapter());
    let files = Bookimport.required_files(&vec![parent], "src");
    assert_eq!(files, vec!["src/book/src/test-cases/tag-import/./fixture.css".to_string()]);
}
