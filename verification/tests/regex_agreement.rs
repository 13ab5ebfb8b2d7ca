//! The verified matchers agree with the `regex` crate on the patterns that
//! the markdown grammar is written in, over many generated texts.
use md_html::inline_scan::{match_at_exec, scan_exec, Pattern};
use md_html::patterns::{
    blank_line_exec, dash_line_exec, fence_any_ws_tail_exec, fence_one_ws_tail_exec,
    header_match_exec, list_item_match_exec, near_blank_line_exec, rule_line_exec,
};
use md_html::text::chars_of;
use regex::Regex;

/// Every text over `alphabet` of length at most `max_len`.
fn all_texts(alphabet: &[char], max_len: usize) -> Vec<String> {
    let mut out = vec![String::new()];
    let mut frontier = vec![String::new()];
    for _ in 0..max_len {
        let mut next = Vec::new();
        for t in &frontier {
            for c in alphabet {
                let mut u = t.clone();
                u.push(*c);
                next.push(u);
            }
        }
        out.extend(next.iter().cloned());
        frontier = next;
    }
    out
}

/// Pseudo-random texts over `alphabet`, of length `min_len..=max_len`.
fn random_texts(alphabet: &[char], count: usize, min_len: usize, max_len: usize, seed: u64) -> Vec<String> {
    let mut state = seed;
    let mut next = move || {
        state = state.wrapping_mul(6364136223846793005).wrapping_add(1442695040888963407);
        (state >> 33) as usize
    };
    (0..count)
        .map(|_| {
            let len = min_len + next() % (max_len - min_len + 1);
            (0..len).map(|_| alphabet[next() % alphabet.len()]).collect()
        })
        .collect()
}

/// Character index of byte offset `b` in `s`.
fn ci(s: &str, b: usize) -> usize {
    s[..b].chars().count()
}

const LINE_ALPHABET: [char; 9] = ['#', ' ', '-', '*', '`', 'a', '\t', '\u{e9}', '\u{2003}'];

#[test]
fn header_pattern_agrees_with_regex() {
    let re = Regex::new(r"(^#{1,6})\s+(.*)").unwrap();
    let mut texts = all_texts(&LINE_ALPHABET, 5);
    texts.extend(random_texts(&['#', ' ', 'a', '\t'], 3000, 6, 12, 7));
    for t in texts {
        let expected = re.captures(&t).map(|c| {
            let g1 = c.get(1).unwrap();
            let g2 = c.get(2).unwrap();
            (ci(&t, g1.end()), ci(&t, g2.start()), ci(&t, g2.end()))
        });
        assert_eq!(header_match_exec(&chars_of(&t)), expected, "text {:?}", t);
    }
}

#[test]
fn list_item_pattern_agrees_with_regex() {
    let re = Regex::new(r"^[-*]\s(.*)").unwrap();
    for t in all_texts(&LINE_ALPHABET, 5) {
        let expected = re
            .captures(&t)
            .map(|c| (ci(&t, c.get(1).unwrap().start()), ci(&t, c.get(1).unwrap().end())));
        assert_eq!(list_item_match_exec(&chars_of(&t)), expected, "text {:?}", t);
    }
}

#[test]
fn whole_line_patterns_agree_with_regex() {
    let fence_any = Regex::new(r"^```\s*$").unwrap();
    let fence_one = Regex::new(r"^```\s?$").unwrap();
    let rule = Regex::new(r"^-{2,}\s*$").unwrap();
    let dash = Regex::new(r"^-+\s?$").unwrap();
    let blank = Regex::new(r"^\s*$").unwrap();
    let near_blank = Regex::new(r"^\s?$").unwrap();
    let ws: Vec<char> = (0u32..0x3100).filter_map(char::from_u32).filter(|c| c.is_whitespace()).collect();
    let mut alphabet = LINE_ALPHABET.to_vec();
    alphabet.push('\n');
    alphabet.push('\r');
    let mut texts = all_texts(&alphabet, 5);
    for w in &ws {
        for pre in ["", "```", "--", "-", "a"] {
            texts.push(format!("{}{}", pre, w));
            texts.push(format!("{}{}{}", pre, w, w));
        }
    }
    for t in texts {
        let v = chars_of(&t);
        assert_eq!(fence_any_ws_tail_exec(&v), fence_any.is_match(&t), "text {:?}", t);
        assert_eq!(fence_one_ws_tail_exec(&v), fence_one.is_match(&t), "text {:?}", t);
        assert_eq!(rule_line_exec(&v), rule.is_match(&t), "text {:?}", t);
        assert_eq!(dash_line_exec(&v), dash.is_match(&t), "text {:?}", t);
        assert_eq!(blank_line_exec(&v), blank.is_match(&t), "text {:?}", t);
        assert_eq!(near_blank_line_exec(&v), near_blank.is_match(&t), "text {:?}", t);
    }
}

fn check_scan(pat: Pattern, re: &Regex, t: &str) {
    let v = chars_of(t);
    let expected: Vec<(usize, usize, usize, usize)> = re
        .captures_iter(t)
        .map(|c| {
            let m = c.get(0).unwrap();
            match pat {
                Pattern::Emphasis => (
                    ci(t, m.start()),
                    ci(t, c.get(2).unwrap().start()),
                    ci(t, c.get(2).unwrap().end()),
                    ci(t, m.end()),
                ),
                Pattern::AngleLink => (
                    ci(t, m.start()),
                    ci(t, c.get(1).unwrap().end()),
                    ci(t, c.get(1).unwrap().end()),
                    ci(t, m.end()),
                ),
                _ => (
                    ci(t, m.start()),
                    ci(t, c.get(1).unwrap().end()),
                    ci(t, c.get(2).unwrap().end()),
                    ci(t, m.end()),
                ),
            }
        })
        .collect();
    assert_eq!(scan_exec(&v, pat), expected, "pattern {:?} text {:?}", pat_name(pat), t);
    if let Some(first) = expected.first() {
        assert_eq!(match_at_exec(&v, first.0, pat), Some(*first));
    }
}

fn pat_name(p: Pattern) -> &'static str {
    match p {
        Pattern::Emphasis => "emphasis",
        Pattern::NamedLink => "named link",
        Pattern::Image => "image",
        Pattern::AngleLink => "angle link",
    }
}

#[test]
fn emphasis_scan_agrees_with_regex() {
    let re = Regex::new(r"(\*+)([^\s*](?:[^*]*?[^\s*])?)(\*+)").unwrap();
    let alphabet = ['*', 'a', ' ', '\n', '\u{e9}'];
    let mut texts = all_texts(&alphabet, 7);
    texts.extend(random_texts(&alphabet, 20000, 8, 20, 11));
    for t in texts {
        check_scan(Pattern::Emphasis, &re, &t);
    }
}

#[test]
fn link_scans_agree_with_regex() {
    let named = Regex::new(r"\[(.+)]\((.+)\)").unwrap();
    let image = Regex::new(r"!\[(.+)]\((.+)\)").unwrap();
    let angle = Regex::new(r"<(.+)>").unwrap();
    let alphabet = ['[', ']', '(', ')', 'a', '!', '\n'];
    let mut texts = all_texts(&alphabet, 6);
    texts.extend(random_texts(&['[', ']', '(', ')', 'a', '!', '\n', '<', '>'], 20000, 7, 24, 5));
    let angle_alphabet = ['<', '>', 'a', '\n', '\u{e9}'];
    let mut angle_texts = all_texts(&angle_alphabet, 7);
    angle_texts.extend(texts.iter().cloned());
    for t in &texts {
        check_scan(Pattern::NamedLink, &named, t);
        check_scan(Pattern::Image, &image, t);
    }
    for t in &angle_texts {
        check_scan(Pattern::AngleLink, &angle, t);
    }
}
