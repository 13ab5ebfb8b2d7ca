//! The line patterns of the two markdown dialects: each is stated as a spec
//! function over the characters of one line and decided by an executable
//! function with the same name and the suffix `_exec`.
use vstd::prelude::*;
use crate::text::{
    is_ws, run_end, ws_end, find_char, run_end_exec, ws_end_exec, find_char_exec, char_is_ws,
    lemma_run_end, lemma_ws_end, lemma_find_char,
};

verus! {

/// A header line: one to six `#`, at least one whitespace character, then the
/// content up to the first newline.  Gives the level and the content's bounds.
pub open spec fn header_match(s: Seq<char>) -> Option<(int, int, int)> {
    let r = run_end(s, '#', 0);
    if 1 <= r <= 6 && r < s.len() && is_ws(s[r]) {
        let w = ws_end(s, r);
        Some((r, w, find_char(s, '\n', w)))
    } else {
        None
    }
}

/// An unordered list item: `-` or `*`, one whitespace character, then the
/// content up to the first newline.  Gives the content's bounds.
pub open spec fn list_item_match(s: Seq<char>) -> Option<(int, int)> {
    if s.len() >= 2 && (s[0] == '-' || s[0] == '*') && is_ws(s[1]) {
        Some((2, find_char(s, '\n', 2)))
    } else {
        None
    }
}

/// The line starts with three backquotes.
pub open spec fn starts_with_fence(s: Seq<char>) -> bool {
    s.len() >= 3 && s[0] == '`' && s[1] == '`' && s[2] == '`'
}

/// A fence line that may end in any amount of whitespace.
pub open spec fn fence_any_ws_tail(s: Seq<char>) -> bool {
    starts_with_fence(s) && ws_end(s, 3) == s.len()
}

/// A fence line that may end in at most one whitespace character.
pub open spec fn fence_one_ws_tail(s: Seq<char>) -> bool {
    starts_with_fence(s) && (s.len() == 3 || (s.len() == 4 && is_ws(s[3])))
}

/// A divider: two or more `-`, then only whitespace.
pub open spec fn rule_line(s: Seq<char>) -> bool {
    let d = run_end(s, '-', 0);
    d >= 2 && ws_end(s, d) == s.len()
}

/// A divider: one or more `-`, then at most one whitespace character.
pub open spec fn dash_line(s: Seq<char>) -> bool {
    let d = run_end(s, '-', 0);
    d >= 1 && (s.len() == d || (s.len() == d + 1 && is_ws(s[d])))
}

/// A line of whitespace only (the empty line included).
pub open spec fn blank_line(s: Seq<char>) -> bool {
    ws_end(s, 0) == s.len()
}

/// An empty line, or a line of one whitespace character.
pub open spec fn near_blank_line(s: Seq<char>) -> bool {
    s.len() == 0 || (s.len() == 1 && is_ws(s[0]))
}

pub fn header_match_exec(s: &Vec<char>) -> (r: Option<(usize, usize, usize)>)
    ensures
        match r {
            Some((l, a, b)) => header_match(s@) == Some((l as int, a as int, b as int)),
            None => header_match(s@) is None,
        },
{
    let r = run_end_exec(s, '#', 0);
    if 1 <= r && r <= 6 && r < s.len() && char_is_ws(s[r]) {
        let w = ws_end_exec(s, r);
        let e = find_char_exec(s, '\n', w);
        Some((r, w, e))
    } else {
        None
    }
}

pub fn list_item_match_exec(s: &Vec<char>) -> (r: Option<(usize, usize)>)
    ensures
        match r {
            Some((a, b)) => list_item_match(s@) == Some((a as int, b as int)),
            None => list_item_match(s@) is None,
        },
{
    if s.len() >= 2 && (s[0] == '-' || s[0] == '*') && char_is_ws(s[1]) {
        Some((2, find_char_exec(s, '\n', 2)))
    } else {
        None
    }
}

fn starts_with_fence_exec(s: &Vec<char>) -> (r: bool)
    ensures
        r == starts_with_fence(s@),
{
    s.len() >= 3 && s[0] == '`' && s[1] == '`' && s[2] == '`'
}

pub fn fence_any_ws_tail_exec(s: &Vec<char>) -> (r: bool)
    ensures
        r == fence_any_ws_tail(s@),
{
    starts_with_fence_exec(s) && ws_end_exec(s, 3) == s.len()
}

pub fn fence_one_ws_tail_exec(s: &Vec<char>) -> (r: bool)
    ensures
        r == fence_one_ws_tail(s@),
{
    starts_with_fence_exec(s) && (s.len() == 3 || (s.len() == 4 && char_is_ws(s[3])))
}

pub fn rule_line_exec(s: &Vec<char>) -> (r: bool)
    ensures
        r == rule_line(s@),
{
    let d = run_end_exec(s, '-', 0);
    d >= 2 && ws_end_exec(s, d) == s.len()
}

pub fn dash_line_exec(s: &Vec<char>) -> (r: bool)
    ensures
        r == dash_line(s@),
{
    let d = run_end_exec(s, '-', 0);
    d >= 1 && (s.len() == d || (s.len() == d + 1 && char_is_ws(s[d])))
}

pub fn blank_line_exec(s: &Vec<char>) -> (r: bool)
    ensures
        r == blank_line(s@),
{
    ws_end_exec(s, 0) == s.len()
}

pub fn near_blank_line_exec(s: &Vec<char>) -> (r: bool)
    ensures
        r == near_blank_line(s@),
{
    s.len() == 0 || (s.len() == 1 && char_is_ws(s[0]))
}

pub proof fn lemma_header_match(s: Seq<char>)
    ensures
        header_match(s) matches Some((l, a, b)) ==> 1 <= l <= 6 && l < a <= b <= s.len(),
{
    lemma_run_end(s, '#', 0);
    let r = run_end(s, '#', 0);
    if 1 <= r <= 6 && r < s.len() && is_ws(s[r]) {
        lemma_ws_end(s, r);
        lemma_find_char(s, '\n', ws_end(s, r));
    }
}

pub proof fn lemma_list_item_match(s: Seq<char>)
    ensures
        list_item_match(s) matches Some((a, b)) ==> a == 2 && 2 <= b <= s.len(),
{
    if s.len() >= 2 {
        lemma_find_char(s, '\n', 2);
    }
}

} // verus!
