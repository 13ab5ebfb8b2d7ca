//! The inline patterns shared by both dialects, and the left-to-right search
//! for their successive non-overlapping matches in a text.
//!
//! A match is reported as four character positions `(start, x, y, end)`:
//! - `Emphasis` (`*text*`, `**text**`, ...): the opening run of `*` is
//!   `start..x`, the content is `x..y`, the closing run of `*` is `y..end`;
//! - `NamedLink` (`[caption](url)`): `[` at `start`, `](` at `x`, `)` at `y`,
//!   and `end == y + 1`;
//! - `Image` (`![caption](url)`): `!` at `start`, `[` at `start + 1`, `](` at
//!   `x`, `)` at `y`, and `end == y + 1`;
//! - `AngleLink` (`<url>`): `<` at `start`, `>` at `x == y`, `end == y + 1`.
//!
//! Captions, urls and angle-link targets do not cross a newline, and each of
//! them takes as much of its line as the rest of the pattern allows.
use vstd::prelude::*;
use crate::text::{
    is_ws, run_end, find_char, last_char, char_is_ws, run_end_exec, find_char_exec,
    last_char_exec, lemma_run_end, lemma_find_char, lemma_last_char,
};

verus! {

/// The inline patterns.
#[derive(Clone, Copy, PartialEq, Eq)]
pub enum Pattern {
    Emphasis,
    NamedLink,
    Image,
    AngleLink,
}

/// Last index `i` in `lo..hi` where `s[i] == ']'` and `s[i + 1] == '('`, or `-1`.
pub open spec fn last_link_joint(s: Seq<char>, lo: int, hi: int) -> int
    decreases hi - lo,
{
    if hi <= lo {
        -1
    } else if s[hi - 1] == ']' && s[hi] == '(' {
        hi - 1
    } else {
        last_link_joint(s, lo, hi - 1)
    }
}

/// `last_link_joint` is the last joint below `hi`.
pub proof fn lemma_last_link_joint_at(s: Seq<char>, lo: int, hi: int, k: int)
    requires
        lo <= k < hi,
        s[k] == ']' && s[k + 1] == '(',
        forall|i: int| k < i < hi ==> s[i] != ']',
    ensures
        last_link_joint(s, lo, hi) == k,
    decreases hi - k,
{
    if k < hi - 1 {
        lemma_last_link_joint_at(s, lo, hi - 1, k);
    }
}

/// `[caption](url)` with `[` at `p`: gives `(p, x, y)` with `](` at `x` and `)` at `y`.
pub open spec fn bracket_link_at(s: Seq<char>, p: int) -> Option<(int, int, int)> {
    if 0 <= p < s.len() && s[p] == '[' {
        let nl = find_char(s, '\n', p + 1);
        let y = last_char(s, ')', p + 1, nl);
        let x = last_link_joint(s, p + 2, y - 2);
        if y >= 0 && x >= 0 {
            Some((p, x, y))
        } else {
            None
        }
    } else {
        None
    }
}

/// The match of `pat` that starts at `p`, if there is one.
pub open spec fn match_at(s: Seq<char>, p: int, pat: Pattern) -> Option<(int, int, int, int)> {
    if p < 0 || p >= s.len() {
        None
    } else {
        match pat {
            Pattern::Emphasis => {
                if s[p] == '*' {
                    let c = run_end(s, '*', p);
                    if c < s.len() && !is_ws(s[c]) {
                        let f = find_char(s, '*', c + 1);
                        if f < s.len() && (f == c + 1 || !is_ws(s[f - 1])) {
                            Some((p, c, f, run_end(s, '*', f)))
                        } else {
                            None
                        }
                    } else {
                        None
                    }
                } else {
                    None
                }
            },
            Pattern::NamedLink => match bracket_link_at(s, p) {
                Some((q, x, y)) => Some((q, x, y, y + 1)),
                None => None,
            },
            Pattern::Image => {
                if s[p] == '!' {
                    match bracket_link_at(s, p + 1) {
                        Some((q, x, y)) => Some((p, x, y, y + 1)),
                        None => None,
                    }
                } else {
                    None
                }
            },
            Pattern::AngleLink => {
                if s[p] == '<' {
                    let y = last_char(s, '>', p + 2, find_char(s, '\n', p + 1));
                    if y >= 0 {
                        Some((p, y, y, y + 1))
                    } else {
                        None
                    }
                } else {
                    None
                }
            },
        }
    }
}

pub proof fn lemma_last_link_joint(s: Seq<char>, lo: int, hi: int)
    requires
        0 <= lo,
        hi < s.len(),
    ensures
        last_link_joint(s, lo, hi) == -1 || (lo <= last_link_joint(s, lo, hi) < hi
            && s[last_link_joint(s, lo, hi)] == ']' && s[last_link_joint(s, lo, hi) + 1] == '('),
    decreases hi - lo,
{
    if hi > lo && !(s[hi - 1] == ']' && s[hi] == '(') {
        lemma_last_link_joint(s, lo, hi - 1);
    }
}

pub proof fn lemma_bracket_link_at(s: Seq<char>, p: int)
    ensures
        bracket_link_at(s, p) matches Some((q, x, y)) ==> {
            &&& q == p
            &&& 0 <= p
            &&& s[p] == '['
            &&& p + 2 <= x
            &&& x + 3 <= y
            &&& y < s.len()
            &&& s[x] == ']'
            &&& s[x + 1] == '('
            &&& s[y] == ')'
        },
{
    if 0 <= p < s.len() && s[p] == '[' {
        let nl = find_char(s, '\n', p + 1);
        lemma_find_char(s, '\n', p + 1);
        let y = last_char(s, ')', p + 1, nl);
        lemma_last_char(s, ')', p + 1, nl);
        if y >= 0 {
            lemma_last_link_joint(s, p + 2, y - 2);
        }
    }
}

/// Positions of a match are ordered and within the text, and it is not empty.
pub proof fn lemma_match_at(s: Seq<char>, p: int, pat: Pattern)
    ensures
        match_at(s, p, pat) matches Some((a, x, y, e)) ==> {
            &&& a == p
            &&& 0 <= a < x <= y < e <= s.len()
            &&& pat == Pattern::Emphasis ==> {
                &&& s[a] == '*'
                &&& s[y] == '*'
                &&& run_end(s, '*', a) == x
                &&& run_end(s, '*', y) == e
                &&& x < y
            }
            &&& pat == Pattern::NamedLink ==> s[a] == '[' && a + 2 <= x && x + 3 <= y && e == y + 1
            &&& pat == Pattern::Image ==> s[a] == '!' && a + 3 <= x && x + 3 <= y && e == y + 1
            &&& pat == Pattern::AngleLink ==> s[a] == '<' && a + 2 <= y && x == y && e == y + 1
        },
{
    if 0 <= p < s.len() {
        match pat {
            Pattern::Emphasis => {
                if s[p] == '*' {
                    lemma_run_end(s, '*', p);
                    let c = run_end(s, '*', p);
                    if c < s.len() && !is_ws(s[c]) {
                        lemma_find_char(s, '*', c + 1);
                        let f = find_char(s, '*', c + 1);
                        if f < s.len() {
                            lemma_run_end(s, '*', f);
                        }
                    }
                }
            },
            Pattern::NamedLink => {
                lemma_bracket_link_at(s, p);
            },
            Pattern::Image => {
                lemma_bracket_link_at(s, p + 1);
            },
            Pattern::AngleLink => {
                if s[p] == '<' {
                    lemma_find_char(s, '\n', p + 1);
                    lemma_last_char(s, '>', p + 2, find_char(s, '\n', p + 1));
                }
            },
        }
    }
}

/// The successive matches of `pat` in `s`, searching from `pos`: the leftmost
/// match, then the leftmost one from its end, and so on.
pub open spec fn scan(s: Seq<char>, pos: int, pat: Pattern) -> Seq<(int, int, int, int)>
    decreases s.len() - pos,
{
    if pos < 0 || pos >= s.len() {
        seq![]
    } else {
        match match_at(s, pos, pat) {
            Some(m) => {
                proof {
                    lemma_match_at(s, pos, pat);
                }
                seq![m] + scan(s, m.3, pat)
            },
            None => scan(s, pos + 1, pat),
        }
    }
}

/// Each match that `scan` reports is the match at its own start.
pub proof fn lemma_scan(s: Seq<char>, pos: int, pat: Pattern)
    ensures
        forall|k: int|
            0 <= k < scan(s, pos, pat).len() ==> match_at(s, #[trigger] scan(s, pos, pat)[k].0, pat)
                == Some(scan(s, pos, pat)[k]),
    decreases s.len() - pos,
{
    if 0 <= pos < s.len() {
        match match_at(s, pos, pat) {
            Some(m) => {
                lemma_match_at(s, pos, pat);
                lemma_scan(s, m.3, pat);
                let rest = scan(s, m.3, pat);
                assert forall|k: int| 0 <= k < scan(s, pos, pat).len() implies match_at(
                    s,
                    #[trigger] scan(s, pos, pat)[k].0,
                    pat,
                ) == Some(scan(s, pos, pat)[k]) by {
                    if k > 0 {
                        assert(scan(s, pos, pat)[k] == rest[k - 1]);
                    }
                }
            },
            None => {
                lemma_scan(s, pos + 1, pat);
            },
        }
    }
}

/// Where no match of `pat` starts at or after `pos`, the search finds none.
pub proof fn lemma_scan_none(s: Seq<char>, pos: int, pat: Pattern)
    requires
        forall|p: int| pos <= p < s.len() ==> #[trigger] match_at(s, p, pat) is None,
    ensures
        scan(s, pos, pat) == Seq::<(int, int, int, int)>::empty(),
    decreases s.len() - pos,
{
    if 0 <= pos < s.len() {
        assert(match_at(s, pos, pat) is None);
        lemma_scan_none(s, pos + 1, pat);
    } else if pos < 0 {
    }
}

/// A character that a plain caption or url may hold: no newline, bracket,
/// parenthesis, `*`, `<`, `>` or `!`.
pub open spec fn plain_link_char(ch: char) -> bool {
    ch != '\n' && ch != '[' && ch != ']' && ch != '(' && ch != ')' && ch != '*' && ch != '<'
        && ch != '>' && ch != '!'
}

/// The integer view of executable match positions.
pub open spec fn found_view(v: Seq<(usize, usize, usize, usize)>) -> Seq<(int, int, int, int)> {
    v.map_values(|m: (usize, usize, usize, usize)| (m.0 as int, m.1 as int, m.2 as int, m.3 as int))
}

fn last_link_joint_exec(s: &Vec<char>, lo: usize, hi: usize) -> (r: Option<usize>)
    requires
        hi < s.len(),
    ensures
        match r {
            Some(i) => i as int == last_link_joint(s@, lo as int, hi as int),
            None => last_link_joint(s@, lo as int, hi as int) == -1,
        },
{
    let mut h = hi;
    while h > lo && !(s[h - 1] == ']' && s[h] == '(')
        invariant
            h <= hi < s.len(),
            last_link_joint(s@, lo as int, hi as int) == last_link_joint(s@, lo as int, h as int),
        decreases h,
    {
        h = h - 1;
    }
    if h > lo {
        Some(h - 1)
    } else {
        None
    }
}

fn bracket_link_at_exec(s: &Vec<char>, p: usize) -> (r: Option<(usize, usize, usize)>)
    ensures
        match r {
            Some((q, x, y)) => bracket_link_at(s@, p as int) == Some((q as int, x as int, y as int)),
            None => bracket_link_at(s@, p as int) is None,
        },
{
    if p < s.len() && s[p] == '[' {
        let nl = find_char_exec(s, '\n', p + 1);
        match last_char_exec(s, ')', p + 1, nl) {
            Some(y) => {
                proof {
                    lemma_last_char(s@, ')', p + 1, nl as int);
                }
                if y >= 2 {
                    match last_link_joint_exec(s, p + 2, y - 2) {
                        Some(x) => Some((p, x, y)),
                        None => None,
                    }
                } else {
                    assert(last_link_joint(s@, p + 2, y - 2) == -1);
                    None
                }
            },
            None => None,
        }
    } else {
        None
    }
}

/// Executable `match_at`.
pub fn match_at_exec(s: &Vec<char>, p: usize, pat: Pattern) -> (r: Option<(usize, usize, usize, usize)>)
    ensures
        match r {
            Some(m) => match_at(s@, p as int, pat) == Some((m.0 as int, m.1 as int, m.2 as int, m.3 as int)),
            None => match_at(s@, p as int, pat) is None,
        },
{
    proof {
        lemma_match_at(s@, p as int, pat);
    }
    if p >= s.len() {
        return None;
    }
    match pat {
        Pattern::Emphasis => {
            if s[p] == '*' {
                let c = run_end_exec(s, '*', p);
                if c < s.len() && !char_is_ws(s[c]) {
                    let f = find_char_exec(s, '*', c + 1);
                    if f < s.len() && (f == c + 1 || !char_is_ws(s[f - 1])) {
                        let g = run_end_exec(s, '*', f);
                        Some((p, c, f, g))
                    } else {
                        None
                    }
                } else {
                    None
                }
            } else {
                None
            }
        },
        Pattern::NamedLink => match bracket_link_at_exec(s, p) {
            Some((q, x, y)) => {
                proof {
                    lemma_bracket_link_at(s@, p as int);
                }
                Some((q, x, y, y + 1))
            },
            None => None,
        },
        Pattern::Image => {
            if s[p] == '!' && p + 1 < s.len() {
                match bracket_link_at_exec(s, p + 1) {
                    Some((q, x, y)) => {
                        proof {
                            lemma_bracket_link_at(s@, p + 1);
                        }
                        Some((p, x, y, y + 1))
                    },
                    None => None,
                }
            } else {
                None
            }
        },
        Pattern::AngleLink => {
            if s[p] == '<' {
                let nl = find_char_exec(s, '\n', p + 1);
                if nl - p < 2 {
                    return None;
                }
                match last_char_exec(s, '>', p + 2, nl) {
                    Some(y) => {
                        proof {
                            lemma_last_char(s@, '>', p + 2, nl as int);
                        }
                        Some((p, y, y, y + 1))
                    },
                    None => None,
                }
            } else {
                None
            }
        },
    }
}

/// All successive matches of `pat` in `s`.
pub fn scan_exec(s: &Vec<char>, pat: Pattern) -> (r: Vec<(usize, usize, usize, usize)>)
    ensures
        found_view(r@) == scan(s@, 0, pat),
{
    let mut r: Vec<(usize, usize, usize, usize)> = Vec::new();
    let mut pos: usize = 0;
    while pos < s.len()
        invariant
            pos <= s.len(),
            scan(s@, 0, pat) == found_view(r@) + scan(s@, pos as int, pat),
        decreases s.len() - pos,
    {
        match match_at_exec(s, pos, pat) {
            Some(m) => {
                proof {
                    lemma_match_at(s@, pos as int, pat);
                    assert(found_view(r@.push(m)) == found_view(r@).push(
                        (m.0 as int, m.1 as int, m.2 as int, m.3 as int),
                    ));
                }
                r.push(m);
                pos = m.3;
            },
            None => {
                pos = pos + 1;
            },
        }
    }
    proof {
        assert(scan(s@, pos as int, pat) == Seq::<(int, int, int, int)>::empty());
    }
    r
}

} // verus!
