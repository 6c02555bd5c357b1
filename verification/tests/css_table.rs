use css_table::{css_table_highlight, CSSTableQuery};
use syntect::parsing::SyntaxSet;

fn test_css_table_highlight(query: CSSTableQuery, expected: &str) {
    let syntax_set = SyntaxSet::load_defaults_newlines();
    let output = css_table_highlight(&syntax_set, query);
    assert_eq!(expected, output.as_str());
}

#[test]
fn go_package_keyword_row() {
    let query = CSSTableQuery {
        filepath: "test.go".to_string(),
        code: "package main\n".to_string(),
        line_length_limit: None,
    };
    let expected = "<table>\
                        <tbody>\
                            <tr>\
                                <td class=\"line\" data-line=\"1\"/>\
                                <td class=\"code\">\
                                    <span class=\"hl-source hl-go\">\
                                        <span class=\"hl-keyword hl-control hl-go\">package</span> main\n\
                                    </span>\
                                </td>\
                            </tr>\
                        </tbody>\
                    </table>";
    test_css_table_highlight(query, expected)
}

#[test]
fn no_highlight_long_line() {
    let query = CSSTableQuery {
        filepath: "test.go".to_string(),
        code: "package main\n".to_string(),
        line_length_limit: Some(5),
    };
    let expected = "<table>\
                        <tbody>\
                            <tr>\
                                <td class=\"line\" data-line=\"1\"/>\
                                <td class=\"code\">package main\n</td>\
                            </tr>\
                        </tbody>\
                    </table>";
    test_css_table_highlight(query, expected)
}

#[test]
fn java_rows_carry_scope() {
    let query = CSSTableQuery {
        filepath: "test.java".to_string(),
        code: "package com.lwl.boot.model;\n\npublic class Item implements Serializable {}"
            .to_string(),
        line_length_limit: None,
    };
    let expected = "<table>\
                        <tbody>\
                            <tr>\
                                <td class=\"line\" data-line=\"1\"/>\
                                <td class=\"code\">\
                                    <span class=\"hl-source hl-java\">\
                                        <span class=\"hl-meta hl-package hl-java\">\
                                            <span class=\"hl-keyword hl-other hl-package hl-java\">package</span> \
                                            <span class=\"hl-support hl-other hl-package hl-java\">com.lwl.boot.model</span>\
                                            <span class=\"hl-punctuation hl-terminator hl-java\">;</span>\
                                        </span>\n\
                                    </span>\
                                </td>\
                            </tr>\
                            <tr>\
                                <td class=\"line\" data-line=\"2\"/>\
                                <td class=\"code\">\
                                    <span class=\"hl-source hl-java\">\n</span>\
                                </td>\
                            </tr>\
                            <tr>\
                                <td class=\"line\" data-line=\"3\"/>\
                                <td class=\"code\">\
                                    <span class=\"hl-source hl-java\">\
                                        <span class=\"hl-meta hl-class hl-java\">\
                                            <span class=\"hl-storage hl-modifier hl-java\">public</span> \
                                            <span class=\"hl-meta hl-class hl-identifier hl-java\">\
                                                <span class=\"hl-storage hl-type hl-java\">class</span> \
                                                <span class=\"hl-entity hl-name hl-class hl-java\">Item</span>\
                                            </span> \
                                            <span class=\"hl-meta hl-class hl-implements hl-java\">\
                                                <span class=\"hl-keyword hl-declaration hl-implements hl-java\">implements</span> \
                                                <span class=\"hl-entity hl-other hl-inherited-class hl-java\">Serializable</span>\
                                            </span> \
                                            <span class=\"hl-meta hl-class hl-body hl-java\">\
                                                <span class=\"hl-punctuation hl-section hl-block hl-begin hl-java\">{</span>\
                                                <span class=\"hl-punctuation hl-section hl-block hl-end hl-java\">}</span>\
                                            </span>\
                                        </span>\
                                    </span>\
                                </td>\
                            </tr>\
                        </tbody>\
                    </table>";
    test_css_table_highlight(query, expected)
}

#[test]
fn empty_code_gives_empty_table() {
    let query = CSSTableQuery {
        filepath: "test.go".to_string(),
        code: String::new(),
        line_length_limit: None,
    };
    test_css_table_highlight(query, "<table><tbody></tbody></table>")
}

#[test]
fn empty_syntax_set_renders_plain_rows() {
    let empty_set = SyntaxSet::new();
    let query = CSSTableQuery {
        filepath: "test.go".to_string(),
        code: "package main\n".to_string(),
        line_length_limit: None,
    };
    let output = css_table_highlight(&empty_set, query);
    assert_eq!(
        output,
        "<table><tbody><tr><td class=\"line\" data-line=\"1\"/>\
         <td class=\"code\">package main\n</td></tr></tbody></table>"
    );
}
