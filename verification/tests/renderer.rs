use css_table::{render_table, ClassStyle, LineOp, ScopeOp};

fn scope(atoms: &[&str]) -> Vec<Vec<u8>> {
    let mut v: Vec<Vec<u8>> = Vec::new();
    for a in atoms {
        v.push(a.as_bytes().to_vec());
    }
    v
}

fn push_at(offset: usize, atoms: &[&str]) -> LineOp {
    LineOp { offset, op: ScopeOp::Push(scope(atoms)) }
}

fn pop_at(offset: usize) -> LineOp {
    LineOp { offset, op: ScopeOp::Pop }
}

fn render_str(
    lines: &[&str],
    oplists: Vec<Vec<LineOp>>,
    style: &ClassStyle,
    max_line_len: Option<usize>,
) -> String {
    let line_vecs: Vec<Vec<u8>> = lines.iter().map(|l| l.as_bytes().to_vec()).collect();
    let out = render_table(&line_vecs, &oplists, style, max_line_len);
    String::from_utf8(out).unwrap()
}

#[test]
fn spaced_style_single_scope() {
    let out = render_str(
        &["ab\n"],
        vec![vec![push_at(0, &["source", "go"])]],
        &ClassStyle::Spaced,
        None,
    );
    assert_eq!(
        out,
        "<table><tbody><tr><td class=\"line\" data-line=\"1\"/><td class=\"code\">\
         <span class=\"source go\">ab\n</span></td></tr></tbody></table>"
    );
}

#[test]
fn prefixed_style_atoms() {
    let out = render_str(
        &["x"],
        vec![vec![push_at(0, &["keyword", "control"]), pop_at(1)]],
        &ClassStyle::SpacedPrefixed { prefix: "hl-".as_bytes().to_vec() },
        None,
    );
    assert_eq!(
        out,
        "<table><tbody><tr><td class=\"line\" data-line=\"1\"/><td class=\"code\">\
         <span class=\"hl-keyword hl-control\">x</span></td></tr></tbody></table>"
    );
}

#[test]
fn empty_span_elided() {
    let out = render_str(
        &["xy\n"],
        vec![vec![push_at(1, &["zero"]), pop_at(1)]],
        &ClassStyle::Spaced,
        None,
    );
    assert_eq!(
        out,
        "<table><tbody><tr><td class=\"line\" data-line=\"1\"/><td class=\"code\">\
         xy\n</td></tr></tbody></table>"
    );
}

#[test]
fn nested_empty_spans_elided() {
    let out = render_str(
        &["xy\n"],
        vec![vec![
            push_at(1, &["outer"]),
            push_at(1, &["inner"]),
            pop_at(1),
            pop_at(1),
        ]],
        &ClassStyle::Spaced,
        None,
    );
    assert_eq!(
        out,
        "<table><tbody><tr><td class=\"line\" data-line=\"1\"/><td class=\"code\">\
         xy\n</td></tr></tbody></table>"
    );
}

#[test]
fn span_with_content_kept() {
    let out = render_str(
        &["xy\n"],
        vec![vec![push_at(0, &["a"]), pop_at(2)]],
        &ClassStyle::Spaced,
        None,
    );
    assert_eq!(
        out,
        "<table><tbody><tr><td class=\"line\" data-line=\"1\"/><td class=\"code\">\
         <span class=\"a\">xy</span>\n</td></tr></tbody></table>"
    );
}

#[test]
fn literal_text_escaped() {
    let out = render_str(&["<&>\"'\n"], vec![vec![]], &ClassStyle::Spaced, None);
    assert_eq!(
        out,
        "<table><tbody><tr><td class=\"line\" data-line=\"1\"/><td class=\"code\">\
         &lt;&amp;&gt;&quot;&#39;\n</td></tr></tbody></table>"
    );
}

#[test]
fn carry_over_reopens_scope() {
    let out = render_str(
        &["a\n", "b"],
        vec![vec![push_at(0, &["s"])], vec![]],
        &ClassStyle::Spaced,
        None,
    );
    assert_eq!(
        out,
        "<table><tbody>\
         <tr><td class=\"line\" data-line=\"1\"/><td class=\"code\"><span class=\"s\">a\n</span></td></tr>\
         <tr><td class=\"line\" data-line=\"2\"/><td class=\"code\"><span class=\"s\">b</span></td></tr>\
         </tbody></table>"
    );
}

#[test]
fn carry_over_scope_popped_next_line() {
    let out = render_str(
        &["a\n", "bc\n"],
        vec![vec![push_at(0, &["s"])], vec![pop_at(1)]],
        &ClassStyle::Spaced,
        None,
    );
    assert_eq!(
        out,
        "<table><tbody>\
         <tr><td class=\"line\" data-line=\"1\"/><td class=\"code\"><span class=\"s\">a\n</span></td></tr>\
         <tr><td class=\"line\" data-line=\"2\"/><td class=\"code\"><span class=\"s\">b</span>c\n</td></tr>\
         </tbody></table>"
    );
}

#[test]
fn long_line_bypasses_markup_and_escaping() {
    let out = render_str(
        &["<long line>\n", "ok\n"],
        vec![vec![], vec![]],
        &ClassStyle::Spaced,
        Some(5),
    );
    assert_eq!(
        out,
        "<table><tbody>\
         <tr><td class=\"line\" data-line=\"1\"/><td class=\"code\"><long line>\n</td></tr>\
         <tr><td class=\"line\" data-line=\"2\"/><td class=\"code\">ok\n</td></tr>\
         </tbody></table>"
    );
}

#[test]
fn empty_source_renders_empty_table() {
    let out = render_str(&[], vec![], &ClassStyle::Spaced, None);
    assert_eq!(out, "<table><tbody></tbody></table>");
}

#[test]
fn line_numbers_count_up() {
    let lines: Vec<&str> = vec!["a\n"; 12];
    let oplists: Vec<Vec<LineOp>> = (0..12).map(|_| Vec::new()).collect();
    let out = render_str(&lines, oplists, &ClassStyle::Spaced, None);
    assert!(out.contains("data-line=\"1\""));
    assert!(out.contains("data-line=\"10\""));
    assert!(out.contains("data-line=\"12\""));
    assert!(!out.contains("data-line=\"13\""));
}

#[test]
fn opening_and_closing_tags_balance() {
    let out = render_str(
        &["a\n", "b\n", "c\n"],
        vec![
            vec![push_at(0, &["s"]), push_at(0, &["t"]), pop_at(1)],
            vec![],
            vec![pop_at(0), push_at(1, &["u"])],
        ],
        &ClassStyle::Spaced,
        None,
    );
    let opens = out.matches("<span").count();
    let closes = out.matches("</span>").count();
    assert_eq!(opens, closes);
}
