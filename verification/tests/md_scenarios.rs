use md_html::mdparser::{BlockToken, InlineToken, MdParser};

fn u(s: &str) -> InlineToken {
    InlineToken::Unformatted(s.to_string())
}

fn parse(input: &str) -> Vec<BlockToken> {
    let mut p = MdParser::default();
    p.parse(input)
}

#[test]
fn header_blank_and_paragraph_with_italics() {
    assert_eq!(
        parse("# Title\n\nSome *text* here.\n"),
        vec![
            BlockToken::Header { level: 1, content: vec![u("Title")] },
            BlockToken::Paragraph(vec![u("Some "), InlineToken::Italics("text".into()), u("here.")]),
        ]
    );
}

#[test]
fn header_levels_and_seven_hashes() {
    assert_eq!(
        parse("###### six\n####### seven"),
        vec![
            BlockToken::Header { level: 6, content: vec![u("six")] },
            BlockToken::Paragraph(vec![u("####### seven")]),
        ]
    );
}

#[test]
fn code_block_keeps_lines() {
    assert_eq!(parse("```\nlet x = 1;\n  y\n```"), vec![BlockToken::Code("let x = 1;\n  y".into())]);
}

#[test]
fn fence_may_end_in_whitespace() {
    assert_eq!(parse("```  \t\n*a*\n```   "), vec![BlockToken::Code("*a*".into())]);
}

#[test]
fn header_inside_code_block_is_a_header() {
    assert_eq!(
        parse("```\n# x\n```"),
        vec![BlockToken::Header { level: 1, content: vec![u("x")] }, BlockToken::Code(String::new())]
    );
}

#[test]
fn unclosed_code_block_ends_as_paragraph() {
    assert_eq!(parse("```\nabc"), vec![BlockToken::Paragraph(vec![u("abc")])]);
}

#[test]
fn list_items_and_divider() {
    assert_eq!(
        parse("- one\n- two\n---\n* three"),
        vec![
            BlockToken::UnorderedListItem(vec![u("one")]),
            BlockToken::UnorderedListItem(vec![u("two")]),
            BlockToken::Line,
            BlockToken::UnorderedListItem(vec![u("three")]),
        ]
    );
}

#[test]
fn single_dash_is_no_divider() {
    assert_eq!(parse("-"), vec![BlockToken::Paragraph(vec![u("-")])]);
}

#[test]
fn blank_line_separates_paragraphs() {
    assert_eq!(
        parse("a\nb\n  \nc"),
        vec![BlockToken::Paragraph(vec![u("a\nb")]), BlockToken::Paragraph(vec![u("c")])]
    );
}

#[test]
fn crlf_line_endings() {
    assert_eq!(parse("a\r\nb\r\n"), vec![BlockToken::Paragraph(vec![u("a\nb")])]);
}

#[test]
fn bold_and_bold_italics() {
    assert_eq!(
        parse("**bold** and ***both***"),
        vec![BlockToken::Paragraph(vec![
            InlineToken::Bold("bold".into()),
            u("and "),
            InlineToken::BoldItalics("both".into()),
        ])]
    );
}

#[test]
fn four_asterisks_are_bold() {
    assert_eq!(parse("****x****"), vec![BlockToken::Paragraph(vec![InlineToken::Bold("x".into())])]);
}

#[test]
fn unequal_runs_use_the_shorter() {
    assert_eq!(parse("*x***"), vec![BlockToken::Paragraph(vec![InlineToken::Italics("x".into()), u("*")])]);
}

#[test]
fn named_link() {
    assert_eq!(
        parse("see [docs](http://x.y) now"),
        vec![BlockToken::Paragraph(vec![
            u("see "),
            InlineToken::Link { caption: "docs".into(), url: "http://x.y".into() },
            u(" now"),
        ])]
    );
}

#[test]
fn image_is_also_a_link() {
    assert_eq!(
        parse("![alt](p.png)"),
        vec![BlockToken::Paragraph(vec![
            u("!"),
            InlineToken::Link { caption: "alt".into(), url: "p.png".into() },
            InlineToken::Image { caption: "alt".into(), url: "p.png".into() },
        ])]
    );
}

#[test]
fn angle_link() {
    assert_eq!(
        parse("<https://a.b>"),
        vec![BlockToken::Paragraph(vec![InlineToken::Link {
            caption: "https://a.b".into(),
            url: "https://a.b".into(),
        }])]
    );
}

#[test]
fn list_item_with_markup() {
    assert_eq!(
        parse("* go to <x>"),
        vec![BlockToken::UnorderedListItem(vec![
            u("go to "),
            InlineToken::Link { caption: "x".into(), url: "x".into() },
        ])]
    );
}

#[test]
fn empty_input_gives_nothing() {
    assert_eq!(parse(""), vec![]);
}

#[test]
fn character_after_emphasis_split_in_two_stops_parsing() {
    let mut p = MdParser::default();
    assert_eq!(p.try_parse("*a*\u{e9}"), None);
    let mut q = MdParser::default();
    assert_eq!(
        q.try_parse("*a* \u{e9}"),
        Some(vec![BlockToken::Paragraph(vec![InlineToken::Italics("a".into()), u("\u{e9}")])])
    );
}

#[test]
fn non_ascii_text_elsewhere_is_fine() {
    assert_eq!(
        parse("# caf\u{e9}\n\u{2003}x"),
        vec![
            BlockToken::Header { level: 1, content: vec![u("caf\u{e9}")] },
            BlockToken::Paragraph(vec![u("\u{2003}x")]),
        ]
    );
}

#[test]
fn tokens_accumulate_over_calls() {
    let mut p = MdParser::default();
    assert_eq!(p.parse("# A"), vec![BlockToken::Header { level: 1, content: vec![u("A")] }]);
    assert_eq!(
        p.parse("# B"),
        vec![
            BlockToken::Header { level: 1, content: vec![u("A")] },
            BlockToken::Header { level: 1, content: vec![u("B")] },
        ]
    );
}
