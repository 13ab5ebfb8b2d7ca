use md_html::parser::{BlockToken, InlineToken, Parser};

fn u(s: &str) -> InlineToken {
    InlineToken::Unformatted(s.to_string())
}

#[test]
fn header_then_paragraph_ended_by_empty_line() {
    let mut p = Parser::default();
    assert_eq!(
        p.parse("# Title\nsome text\n\n"),
        vec![
            BlockToken::Header { level: 1, content: vec![u("Title")] },
            BlockToken::Paragraph(vec![u("some text")]),
        ]
    );
    assert_eq!(p.tokens.len(), 2);
}

#[test]
fn paragraph_without_ending_line_is_dropped() {
    let mut p = Parser::default();
    assert_eq!(p.parse("text without blank"), vec![]);
}

#[test]
fn single_dash_is_a_divider() {
    let mut p = Parser::default();
    assert_eq!(p.parse("-\n- \n- item"), vec![BlockToken::Line, BlockToken::Line, BlockToken::UnorderedListItem(vec![u("item")])]);
}

#[test]
fn header_without_content_is_text() {
    let mut p = Parser::default();
    assert_eq!(p.parse("# \n"), vec![BlockToken::Paragraph(vec![u("# ")])]);
}

#[test]
fn text_after_last_span_is_dropped() {
    let mut p = Parser::default();
    assert_eq!(
        p.parse("a *b* c\n"),
        vec![BlockToken::Paragraph(vec![u("a "), InlineToken::Italics("b".into())])]
    );
}

#[test]
fn named_link_span_ends_at_its_caption() {
    let mut p = Parser::default();
    assert_eq!(
        p.parse("[x](y) *b*\n"),
        vec![BlockToken::Paragraph(vec![
            InlineToken::Link { caption: "x".into(), url: "y".into() },
            u("(y) "),
            InlineToken::Italics("b".into()),
        ])]
    );
}

#[test]
fn code_block_state_spans_calls() {
    let mut p = Parser::default();
    assert_eq!(p.parse("```\ncode"), vec![]);
    assert_eq!(p.parse("more\n```"), vec![BlockToken::Code("more".into())]);
}

#[test]
fn fence_allows_one_trailing_space_only() {
    let mut p = Parser::default();
    assert_eq!(p.parse("``` \nx\n```\n"), vec![BlockToken::Code("x".into())]);
    let mut q = Parser::default();
    assert_eq!(q.parse("```  \n\n"), vec![BlockToken::Paragraph(vec![u("```  ")])]);
}

#[test]
fn overlapping_spans_stop_parsing() {
    let mut p = Parser::default();
    assert_eq!(p.try_parse("[*a*](u)\n"), None);
}

#[test]
fn angle_link_and_emphasis_kinds() {
    let mut p = Parser::default();
    assert_eq!(
        p.parse("<l> **b** ***c***\n"),
        vec![BlockToken::Paragraph(vec![
            InlineToken::Link { caption: "l".into(), url: "l".into() },
            u(" "),
            InlineToken::Bold("b".into()),
            InlineToken::BoldItalics("c".into()),
        ])]
    );
}
