//! Both parsers agree, on many generated documents, with a direct model that
//! matches lines and inline markup with the `regex` crate and slices the text
//! by byte offsets; the model answers `None` exactly where such a slice would
//! not fall on character boundaries or would run backwards.
use md_html::mdparser::{BlockToken as MdBlock, InlineToken as MdInline, MdParser};
use md_html::parser::{BlockToken as PBlock, InlineToken as PInline, Parser};
use regex::Regex;

struct Res {
    header: Regex,
    blank: Regex,
    fence: Regex,
    rule: Regex,
    ul: Regex,
    emph: Regex,
    named: Regex,
    unnamed: Regex,
    image: Regex,
}

fn md_res() -> Res {
    Res {
        header: Regex::new(r"(^#{1,6})\s+(.*)").unwrap(),
        blank: Regex::new(r"^\s*$").unwrap(),
        fence: Regex::new(r"^```\s*$").unwrap(),
        rule: Regex::new(r"^-{2,}\s*$").unwrap(),
        ul: Regex::new(r"^[-*]\s(.*)").unwrap(),
        emph: Regex::new(r"(\*+)([^\s*](?:[^*]*?[^\s*])?)(\*+)").unwrap(),
        named: Regex::new(r"\[(.+)]\((.+)\)").unwrap(),
        unnamed: Regex::new(r"<(.+)>").unwrap(),
        image: Regex::new(r"!\[(.+)]\((.+)\)").unwrap(),
    }
}

fn p_res() -> Res {
    Res {
        header: Regex::new(r"(^#{1,6})(\s+)(.*)").unwrap(),
        blank: Regex::new(r"^\s?$").unwrap(),
        fence: Regex::new(r"^```\s?$").unwrap(),
        rule: Regex::new(r"^-+\s?$").unwrap(),
        ul: Regex::new(r"^[-*]\s(.*)").unwrap(),
        emph: Regex::new(r"(\*+)([^\s*](?:[^*]*?[^\s*])?)(\*+)").unwrap(),
        named: Regex::new(r"\[(.+)]\((.+)\)").unwrap(),
        unnamed: Regex::new(r"<(.+)>").unwrap(),
        image: Regex::new(r"!\[(.+)]\((.+)\)").unwrap(),
    }
}

fn emph_token(n: usize, s: &str) -> MdInline {
    match n {
        1 => MdInline::Italics(s.to_string()),
        3 => MdInline::BoldItalics(s.to_string()),
        _ => MdInline::Bold(s.to_string()),
    }
}

fn md_spans(r: &Res, text: &str) -> Vec<(usize, usize, MdInline)> {
    let mut spans = Vec::new();
    for c in r.emph.captures_iter(text) {
        let inner = c.get(2).unwrap();
        let n = c.get(1).unwrap().len().min(c.get(3).unwrap().len());
        spans.push((inner.start() - n, inner.end() + n, emph_token(n, inner.as_str())));
    }
    for c in r.named.captures_iter(text) {
        let (a, b) = (c.get(1).unwrap(), c.get(2).unwrap());
        spans.push((a.start() - 1, b.end(), MdInline::Link { caption: a.as_str().into(), url: b.as_str().into() }));
    }
    for c in r.image.captures_iter(text) {
        let (a, b) = (c.get(1).unwrap(), c.get(2).unwrap());
        spans.push((a.start() - 1, b.end(), MdInline::Image { caption: a.as_str().into(), url: b.as_str().into() }));
    }
    for c in r.unnamed.captures_iter(text) {
        let a = c.get(1).unwrap();
        spans.push((a.start() - 1, a.end(), MdInline::Link { caption: a.as_str().into(), url: a.as_str().into() }));
    }
    spans
}

fn md_inline(r: &Res, text: &str) -> Option<Vec<MdInline>> {
    let mut spans = md_spans(r, text);
    if spans.is_empty() {
        return Some(vec![MdInline::Unformatted(text.to_string())]);
    }
    spans.sort_by_key(|s| s.0);
    let mut out = Vec::new();
    let mut cursor = 0;
    for (start, end, tok) in spans {
        if cursor < start {
            out.push(MdInline::Unformatted(text.get(cursor..start)?.to_string()));
        }
        out.push(tok);
        cursor = end + 1;
    }
    if cursor < text.len() {
        out.push(MdInline::Unformatted(text.get(cursor..)?.to_string()));
    }
    Some(out)
}

fn add_line(buf: &mut String, line: &str) {
    if !buf.is_empty() {
        buf.push('\n');
    }
    buf.push_str(line);
}

struct MdModel {
    tokens: Vec<MdBlock>,
    in_code: bool,
    pending: String,
}

impl MdModel {
    fn flush(&mut self, r: &Res) -> Option<()> {
        if !self.pending.is_empty() {
            let c = md_inline(r, &self.pending)?;
            self.tokens.push(MdBlock::Paragraph(c));
            self.pending.clear();
        }
        Some(())
    }

    fn line(&mut self, r: &Res, line: &str) -> Option<()> {
        if let Some(c) = r.header.captures(line) {
            let content = md_inline(r, &c[2])?;
            self.tokens.push(MdBlock::Header { level: c[1].len() as u8, content });
        } else if r.fence.is_match(line) {
            if self.in_code {
                self.tokens.push(MdBlock::Code(std::mem::take(&mut self.pending)));
                self.in_code = false;
            } else {
                self.flush(r)?;
                self.in_code = true;
            }
        } else if self.in_code {
            add_line(&mut self.pending, line);
        } else if r.rule.is_match(line) {
            self.tokens.push(MdBlock::Line);
        } else if let Some(c) = r.ul.captures(line) {
            let content = md_inline(r, &c[1])?;
            self.tokens.push(MdBlock::UnorderedListItem(content));
        } else if r.blank.is_match(line) {
            self.flush(r)?;
        } else {
            add_line(&mut self.pending, line);
        }
        Some(())
    }

    fn parse(&mut self, r: &Res, input: &str) -> Option<Vec<MdBlock>> {
        for line in input.lines() {
            self.line(r, line)?;
        }
        self.flush(r)?;
        Some(self.tokens.clone())
    }
}

fn p_inline(r: &Res, text: &str) -> Option<Vec<PInline>> {
    let mut spans: Vec<(usize, usize, PInline)> = Vec::new();
    for c in r.emph.captures_iter(text) {
        let inner = c.get(2).unwrap();
        let n = c.get(1).unwrap().len().min(c.get(3).unwrap().len());
        let s = inner.as_str().to_string();
        let tok = match n {
            1 => PInline::Italics(s),
            3 => PInline::BoldItalics(s),
            _ => PInline::Bold(s),
        };
        spans.push((inner.start() - n, inner.end() + n, tok));
    }
    for c in r.named.captures_iter(text) {
        let (a, b) = (c.get(1).unwrap(), c.get(2).unwrap());
        spans.push((a.start() - 1, a.end(), PInline::Link { caption: a.as_str().into(), url: b.as_str().into() }));
    }
    for c in r.unnamed.captures_iter(text) {
        let a = c.get(1).unwrap();
        spans.push((a.start() - 1, a.end(), PInline::Link { caption: a.as_str().into(), url: a.as_str().into() }));
    }
    if spans.is_empty() {
        return Some(vec![PInline::Unformatted(text.to_string())]);
    }
    spans.sort_by(|a, b| a.0.cmp(&b.0));
    let mut out = Vec::new();
    let mut last = 0;
    for (start, end, tok) in spans {
        if last > start {
            return None;
        }
        let plain = text.get(last..start)?;
        if !plain.is_empty() {
            out.push(PInline::Unformatted(plain.to_string()));
        }
        out.push(tok);
        last = end + 1;
    }
    Some(out)
}

struct PModel {
    tokens: Vec<PBlock>,
    in_code: bool,
}

impl PModel {
    fn flush(&mut self, r: &Res, temp: &mut String) -> Option<()> {
        if !temp.is_empty() {
            let c = p_inline(r, temp)?;
            self.tokens.push(PBlock::Paragraph(c));
        }
        temp.clear();
        Some(())
    }

    fn line(&mut self, r: &Res, line: &str, temp: &mut String) -> Option<()> {
        if let Some(c) = r.header.captures(line) {
            if !c[3].is_empty() {
                let content = p_inline(r, &c[3])?;
                self.tokens.push(PBlock::Header { level: c[1].len() as u8, content });
                return Some(());
            }
        }
        if r.fence.is_match(line) {
            if self.in_code {
                self.tokens.push(PBlock::Code(temp.clone()));
                temp.clear();
                self.in_code = false;
            } else {
                self.flush(r, temp)?;
                self.in_code = true;
            }
        } else if self.in_code {
            add_line(temp, line);
        } else if r.rule.is_match(line) {
            self.tokens.push(PBlock::Line);
        } else if let Some(c) = r.ul.captures(line) {
            let content = p_inline(r, &c[1])?;
            self.tokens.push(PBlock::UnorderedListItem(content));
        } else if r.blank.is_match(line) {
            self.flush(r, temp)?;
        } else {
            add_line(temp, line);
        }
        Some(())
    }

    fn parse(&mut self, r: &Res, input: &str) -> Option<Vec<PBlock>> {
        let mut temp = String::new();
        for line in input.split('\n') {
            self.line(r, line, &mut temp)?;
        }
        Some(self.tokens.clone())
    }
}

/// Pseudo-random documents built from markdown-like fragments.
fn documents(count: usize, seed: u64) -> Vec<String> {
    let fragments = [
        "# ", "## ", "####### ", "#", "```", "``` ", "--", "---", "-", "- ", "* ", "*", "**", "***",
        "a", "bc", " ", "  ", "\t", "\n", "\n", "\n", "\r\n", "[", "]", "(", ")", "](", "<", ">", "!",
        "\u{e9}", "\u{2003}", "x y", "[t](u)", "<v>", "*w*", "**z**",
    ];
    let mut state = seed;
    let mut next = move || {
        state = state.wrapping_mul(6364136223846793005).wrapping_add(1442695040888963407);
        (state >> 33) as usize
    };
    (0..count)
        .map(|_| {
            let n = next() % 14;
            (0..n).map(|_| fragments[next() % fragments.len()]).collect::<String>()
        })
        .collect()
}

#[test]
fn md_parser_agrees_with_model() {
    let r = md_res();
    let mut checked = 0;
    for doc in documents(30000, 3) {
        let mut p = MdParser::default();
        let mut m = MdModel { tokens: Vec::new(), in_code: false, pending: String::new() };
        let got = p.try_parse(&doc);
        let want = m.parse(&r, &doc);
        assert_eq!(got, want, "document {:?}", doc);
        if got.is_some() {
            checked += 1;
            let again = p.try_parse(&doc);
            let want_again = m.parse(&r, &doc);
            assert_eq!(again, want_again, "second parse of {:?}", doc);
        }
    }
    assert!(checked > 20000);
}

#[test]
fn parser_agrees_with_model() {
    let r = p_res();
    let mut checked = 0;
    for doc in documents(30000, 9) {
        let mut p = Parser::default();
        let mut m = PModel { tokens: Vec::new(), in_code: false };
        let got = p.try_parse(&doc);
        let want = m.parse(&r, &doc);
        assert_eq!(got, want, "document {:?}", doc);
        if got.is_some() {
            checked += 1;
            let again = p.try_parse(&doc);
            let want_again = m.parse(&r, &doc);
            assert_eq!(again, want_again, "second parse of {:?}", doc);
            assert_eq!(p.tokens, m.tokens);
        }
    }
    assert!(checked > 10000);
}
