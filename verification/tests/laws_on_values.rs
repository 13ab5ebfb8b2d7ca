//! The library's laws, each checked on concrete values.
use md_html::converter::to_html;
use md_html::mdparser::{BlockToken, InlineToken, MdParser};
use md_html::parser::{BlockToken as PBlock, Parser};
use md_html::text::{chars_of, string_of, sub_string};

fn u(s: &str) -> InlineToken {
    InlineToken::Unformatted(s.to_string())
}

#[test]
fn inline_html_of_concatenation() {
    let a = vec![u("x"), InlineToken::Bold("y".into())];
    let b = vec![InlineToken::Italics("z".into())];
    let mut ab = a.clone();
    ab.extend(b.clone());
    let html = |v: &Vec<InlineToken>| to_html(&vec![BlockToken::Paragraph(v.clone())]);
    let inner = |s: String| s["<p>".len()..s.len() - "</p>\n".len()].to_string();
    assert_eq!(inner(html(&ab)), inner(html(&a)) + &inner(html(&b)));
}

#[test]
fn block_html_of_concatenation() {
    let a = vec![BlockToken::Line, BlockToken::UnorderedListItem(vec![u("i")])];
    let b = vec![BlockToken::UnorderedListItem(vec![u("j")]), BlockToken::Line];
    let mut ab = a.clone();
    ab.extend(b.clone());
    // `a` ends with an open list, so `b` goes on in it.
    assert_eq!(to_html(&ab), to_html(&a) + "<li>j</li>\n</ul>\n<hr>");
    let c = vec![BlockToken::Code("k".into())];
    let mut ac = vec![BlockToken::Line];
    ac.extend(c.clone());
    assert_eq!(to_html(&ac), to_html(&vec![BlockToken::Line]) + &to_html(&c));
}

#[test]
fn parse_keeps_earlier_tokens() {
    let mut p = MdParser::default();
    let first = p.parse("# one\ntext");
    let second = p.parse("- item\n## two");
    assert_eq!(&second[..first.len()], &first[..]);
    let mut q = Parser::default();
    let first = q.parse("# one\n\n");
    let second = q.parse("####### seven\n# two\n");
    assert_eq!(&second[..first.len()], &first[..]);
    assert!(second.iter().all(|b| match b {
        PBlock::Header { level, .. } => (1..=6).contains(level),
        _ => true,
    }));
}

#[test]
fn plain_text_is_one_token() {
    let mut p = MdParser::default();
    assert_eq!(p.parse("no markup (here) > or ! \u{e9}"), vec![BlockToken::Paragraph(vec![u("no markup (here) > or ! \u{e9}")])]);
}

#[test]
fn one_byte_input_always_parses() {
    let pieces = ["*", "**", "[", "](", ")", "<", ">", "!", "a", " ", "\n", "- ", "# ", "```"];
    let mut state: u64 = 1;
    for _ in 0..5000 {
        let mut doc = String::new();
        for _ in 0..12 {
            state = state.wrapping_mul(6364136223846793005).wrapping_add(1442695040888963407);
            doc.push_str(pieces[(state >> 33) as usize % pieces.len()]);
        }
        let mut p = MdParser::default();
        assert!(p.try_parse(&doc).is_some(), "document {:?}", doc);
    }
}

#[test]
fn final_newline_changes_nothing() {
    let mut p = MdParser::default();
    let mut q = MdParser::default();
    assert_eq!(p.parse("# a\n*b*\n- c"), q.parse("# a\n*b*\n- c\n"));
}

#[test]
fn code_block_keeps_its_lines() {
    let mut p = MdParser::default();
    assert_eq!(
        p.parse("para\n```\n\nx *y*\n  - z\n```"),
        vec![BlockToken::Paragraph(vec![u("para")]), BlockToken::Code("x *y*\n  - z".into())]
    );
}

#[test]
fn sort_keeps_equal_starts_in_order() {
    // The named link and the image both start at the `[`; the link was found first.
    let mut p = MdParser::default();
    let blocks = p.parse("x![c](d)");
    assert_eq!(
        blocks,
        vec![BlockToken::Paragraph(vec![
            u("x!"),
            InlineToken::Link { caption: "c".into(), url: "d".into() },
            InlineToken::Image { caption: "c".into(), url: "d".into() },
        ])]
    );
}

#[test]
fn strings_are_built_from_characters() {
    let v = chars_of("h\u{e9}llo");
    assert_eq!(v, vec!['h', '\u{e9}', 'l', 'l', 'o']);
    assert_eq!(string_of(&v), "h\u{e9}llo");
    assert_eq!(sub_string(&v, 1, 3), "\u{e9}l");
}

#[test]
fn blank_line_separates_documents() {
    let a = "# h\n*x* y\n- l";
    let b = "z\n\n[c](d)";
    let joined = format!("{}\n\n{}", a, b);
    let mut whole = MdParser::default();
    let mut first = MdParser::default();
    let mut second = MdParser::default();
    let mut expected = first.parse(a);
    expected.extend(second.parse(b));
    assert_eq!(whole.parse(&joined), expected);
}

#[test]
fn ending_a_paragraph_twice_changes_nothing() {
    let mut p = MdParser::default();
    let mut q = MdParser::default();
    assert_eq!(p.parse("a\n\n"), q.parse("a\n\n\n\n"));
}

#[test]
fn each_line_adds_at_most_one_token() {
    let mut p = MdParser::default();
    let before = p.parse("# a");
    let after = p.parse("- b");
    assert_eq!(after.len(), before.len() + 1);
    assert_eq!(&after[..before.len()], &before[..]);
}

#[test]
fn paragraph_lines_are_joined_by_newlines() {
    let mut p = Parser::default();
    assert_eq!(
        p.parse("one\ntwo\nthree\n\n"),
        vec![PBlock::Paragraph(vec![md_html::parser::InlineToken::Unformatted("one\ntwo\nthree".into())])]
    );
    assert_eq!(p.tokens(), &p.tokens);
}
