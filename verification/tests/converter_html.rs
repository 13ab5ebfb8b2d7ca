use md_html::converter::to_html;
use md_html::mdparser::{BlockToken, InlineToken, MdParser};

fn u(s: &str) -> InlineToken {
    InlineToken::Unformatted(s.to_string())
}

#[test]
fn paragraph_with_inline_kinds() {
    let blocks = vec![BlockToken::Paragraph(vec![
        u("a"),
        InlineToken::Bold("b".into()),
        InlineToken::Italics("i".into()),
        InlineToken::BoldItalics("bi".into()),
        InlineToken::Code("c".into()),
        InlineToken::Link { caption: "cap".into(), url: "http://u".into() },
        InlineToken::Image { caption: "alt".into(), url: "p.png".into() },
    ])];
    assert_eq!(
        to_html(&blocks),
        "<p>a<strong>b</strong><i>i</i><strong><i>bi</i></strong><code>c</code><a href=\"http://u\">cap</a><img src=\"p.png\">alt</img></p>\n"
    );
}

#[test]
fn headers_of_any_level() {
    let blocks = vec![
        BlockToken::Header { level: 2, content: vec![u("T")] },
        BlockToken::Header { level: 12, content: vec![] },
        BlockToken::Header { level: 200, content: vec![u("x")] },
        BlockToken::Header { level: 0, content: vec![] },
    ];
    assert_eq!(to_html(&blocks), "<h2>T</h2>\n<h12></h12>\n<h200>x</h200>\n<h0></h0>\n");
}

#[test]
fn list_is_opened_and_closed() {
    let blocks = vec![
        BlockToken::UnorderedListItem(vec![u("a")]),
        BlockToken::UnorderedListItem(vec![u("b")]),
        BlockToken::Line,
        BlockToken::UnorderedListItem(vec![u("c")]),
    ];
    assert_eq!(to_html(&blocks), "<ul>\n<li>a</li>\n<li>b</li>\n</ul>\n<hr><ul>\n<li>c</li>\n");
}

#[test]
fn code_and_line() {
    let blocks = vec![BlockToken::Code("x < y".into()), BlockToken::Line];
    assert_eq!(to_html(&blocks), "<pre><code>x < y</code></pre><hr>");
}

#[test]
fn list_closed_before_code_and_paragraph() {
    let blocks = vec![
        BlockToken::UnorderedListItem(vec![]),
        BlockToken::Code(String::new()),
        BlockToken::UnorderedListItem(vec![]),
        BlockToken::Paragraph(vec![]),
    ];
    assert_eq!(
        to_html(&blocks),
        "<ul>\n<li></li>\n</ul>\n<pre><code></code></pre><ul>\n<li></li>\n</ul>\n<p></p>\n"
    );
}

#[test]
fn empty_document() {
    assert_eq!(to_html(&vec![]), "");
}

#[test]
fn parsed_document_to_html() {
    let mut p = MdParser::default();
    let blocks = p.parse("# Hi\n- *a*\n- [b](c)\n\ntext");
    assert_eq!(
        to_html(&blocks),
        "<h1>Hi</h1>\n<ul>\n<li><i>a</i></li>\n<li><a href=\"c\">b</a></li>\n</ul>\n<p>text</p>\n"
    );
}
