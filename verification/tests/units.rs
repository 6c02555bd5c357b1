use css_table::escape::{escape_push, Escape};
use css_table::filepath::split_filepath;
use css_table::highlight::{lookup_syntax, SyntaxLookup};
use css_table::lines::split_lines;
use css_table::{close_row, close_table, health, open_row, open_table};
use css_table::{ClassStyle, ClassedTableGenerator};
use syntect::parsing::SyntaxSet;

#[test]
fn escape_replaces_the_five_specials() {
    let mut out: Vec<u8> = Vec::new();
    escape_push(&mut out, b"<>&'\"");
    assert_eq!(out, b"&lt;&gt;&amp;&#39;&quot;".to_vec());
}

#[test]
fn escape_leaves_other_bytes_alone() {
    let mut out: Vec<u8> = Vec::new();
    escape_push(&mut out, "plain text, caf\u{e9}!".as_bytes());
    assert_eq!(out, "plain text, caf\u{e9}!".as_bytes().to_vec());
}

#[test]
fn escape_wrapper_renders_string() {
    let e = Escape("a<b & c>d");
    assert_eq!(e.to_escaped_bytes(), b"a&lt;b &amp; c&gt;d".to_vec());
}

#[test]
fn table_and_row_markers() {
    let mut s: Vec<u8> = Vec::new();
    open_table(&mut s);
    open_row(&mut s, 122);
    close_row(&mut s);
    close_table(&mut s);
    assert_eq!(
        String::from_utf8(s).unwrap(),
        "<table><tbody><tr><td class=\"line\" data-line=\"123\"/>\
         <td class=\"code\"></td></tr></tbody></table>"
    );
}

#[test]
fn split_lines_keeps_newlines() {
    let lines = split_lines(b"a\nbc\n\nd");
    let expect: Vec<Vec<u8>> =
        vec![b"a\n".to_vec(), b"bc\n".to_vec(), b"\n".to_vec(), b"d".to_vec()];
    assert_eq!(lines, expect);
}

#[test]
fn split_lines_empty_and_terminated() {
    assert_eq!(split_lines(b""), Vec::<Vec<u8>>::new());
    assert_eq!(split_lines(b"x\n"), vec![b"x\n".to_vec()]);
}

#[test]
fn split_filepath_name_and_extension() {
    let (name, ext) = split_filepath("foo/myfile.go");
    assert_eq!(name, "myfile.go");
    assert_eq!(ext, "go");
    let (name, ext) = split_filepath("archive.tar.gz");
    assert_eq!(name, "archive.tar.gz");
    assert_eq!(ext, "gz");
    let (name, ext) = split_filepath("a/b/.hidden");
    assert_eq!(name, ".hidden");
    assert_eq!(ext, "");
    let (name, ext) = split_filepath("README");
    assert_eq!(name, "README");
    assert_eq!(ext, "");
}

#[test]
fn lookup_rejects_unknown_bare_extension() {
    let ss = SyntaxSet::load_defaults_newlines();
    let r = lookup_syntax(&ss, "", "zzznotreal", "no shebang here");
    assert!(matches!(r, SyntaxLookup::InvalidExtension));
}

#[test]
fn lookup_with_filepath_falls_back_to_plaintext() {
    let ss = SyntaxSet::load_defaults_newlines();
    let r = lookup_syntax(&ss, "data.zzznotreal", "", "no shebang here");
    assert!(matches!(r, SyntaxLookup::Plaintext(_)));
}

#[test]
fn health_reports_ok() {
    assert_eq!(health(), "OK");
}

#[test]
fn generator_renders_plain_text_spaced() {
    let ss = SyntaxSet::load_defaults_newlines();
    let sr = ss.find_syntax_plain_text();
    let out = ClassedTableGenerator::new(&ss, sr, "a\n", None, ClassStyle::Spaced).generate();
    assert_eq!(
        out,
        "<table><tbody><tr><td class=\"line\" data-line=\"1\"/><td class=\"code\">\
         <span class=\"text plain\">a\n</span></td></tr></tbody></table>"
    );
}

#[test]
fn escape_of_empty_is_empty() {
    let mut out: Vec<u8> = Vec::new();
    escape_push(&mut out, b"");
    assert_eq!(out, Vec::<u8>::new());
}

#[test]
fn split_filepath_trailing_separator() {
    let (name, ext) = split_filepath("foo/");
    assert_eq!(name, "foo");
    assert_eq!(ext, "");
    let (name, ext) = split_filepath("a/b.go//");
    assert_eq!(name, "b.go");
    assert_eq!(ext, "go");
    let (name, ext) = split_filepath("/");
    assert_eq!(name, "");
    assert_eq!(ext, "");
}

#[test]
fn lookup_reports_missing_plain_text() {
    let ss = SyntaxSet::new();
    let r = lookup_syntax(&ss, "x.zzznotreal", "", "no shebang here");
    assert!(matches!(r, SyntaxLookup::MissingPlainText));
}
