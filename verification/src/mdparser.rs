//! The markdown dialect of `MdParser`: block tokens for headers, code blocks,
//! divider lines, unordered list items and paragraphs, with emphasis, links
//! and images inside them.
use vstd::prelude::*;
use crate::text::{
    run_end, ws_end, sub_vec, sub_string, string_of, chars_of, lines_of, lines_from, line_at, strip_cr, find_char,
    lemma_find_char, law_final_newline_lines, with_line, with_lines, append_line, prepend,
    law_lines_concat, joined, law_with_lines_joined, lemma_run_end_at, lemma_ws_end_at,
    lemma_find_char_none, is_ws, lemma_find_char_at, lemma_last_char_at,
};
use crate::patterns::{
    header_match, list_item_match, fence_any_ws_tail, rule_line, blank_line, header_match_exec,
    list_item_match_exec, fence_any_ws_tail_exec, rule_line_exec, blank_line_exec,
    lemma_header_match, lemma_list_item_match,
};
use crate::inline_scan::{
    Pattern, scan, scan_exec, found_view, lemma_scan, lemma_match_at, match_at, lemma_scan_none,
    bracket_link_at, lemma_last_link_joint_at, plain_link_char,
};
use crate::spans::{
    Span, span_views, sort_by_start, sort_spans, Cursor, CursorExec, cursor_after,
    cursor_after_exec, spans_within, lemma_sort_within, is_one_byte,
};

verus! {

#[derive(Debug, Clone, PartialEq, Eq)]
pub enum BlockToken {
    Paragraph(Vec<InlineToken>),
    Header { level: u8, content: Vec<InlineToken> },
    Code(String),
    Line,
    UnorderedListItem(Vec<InlineToken>),
}

#[derive(Debug, Clone, PartialEq, Eq)]
pub enum InlineToken {
    Unformatted(String),
    Bold(String),
    Italics(String),
    BoldItalics(String),
    Code(String),
    Link { caption: String, url: String },
    Image { caption: String, url: String },
}

/// What an inline token stands for.
pub enum Inline {
    Unformatted(Seq<char>),
    Bold(Seq<char>),
    Italics(Seq<char>),
    BoldItalics(Seq<char>),
    Code(Seq<char>),
    Link { caption: Seq<char>, url: Seq<char> },
    Image { caption: Seq<char>, url: Seq<char> },
}

/// What a block token stands for.
pub enum Block {
    Paragraph(Seq<Inline>),
    Header { level: int, content: Seq<Inline> },
    Code(Seq<char>),
    Line,
    UnorderedListItem(Seq<Inline>),
}

impl View for InlineToken {
    type V = Inline;

    open spec fn view(&self) -> Inline {
        match self {
            InlineToken::Unformatted(s) => Inline::Unformatted(s@),
            InlineToken::Bold(s) => Inline::Bold(s@),
            InlineToken::Italics(s) => Inline::Italics(s@),
            InlineToken::BoldItalics(s) => Inline::BoldItalics(s@),
            InlineToken::Code(s) => Inline::Code(s@),
            InlineToken::Link { caption, url } => Inline::Link { caption: caption@, url: url@ },
            InlineToken::Image { caption, url } => Inline::Image { caption: caption@, url: url@ },
        }
    }
}

pub open spec fn inlines_view(v: Seq<InlineToken>) -> Seq<Inline> {
    v.map_values(|t: InlineToken| t@)
}

impl View for BlockToken {
    type V = Block;

    open spec fn view(&self) -> Block {
        match self {
            BlockToken::Paragraph(c) => Block::Paragraph(inlines_view(c@)),
            BlockToken::Header { level, content } => Block::Header {
                level: *level as int,
                content: inlines_view(content@),
            },
            BlockToken::Code(s) => Block::Code(s@),
            BlockToken::Line => Block::Line,
            BlockToken::UnorderedListItem(c) => Block::UnorderedListItem(inlines_view(c@)),
        }
    }
}

pub open spec fn blocks_view(v: Seq<BlockToken>) -> Seq<Block> {
    v.map_values(|b: BlockToken| b@)
}

fn copy_inline(t: &InlineToken) -> (r: InlineToken)
    ensures
        r@ == t@,
{
    match t {
        InlineToken::Unformatted(s) => InlineToken::Unformatted(s.clone()),
        InlineToken::Bold(s) => InlineToken::Bold(s.clone()),
        InlineToken::Italics(s) => InlineToken::Italics(s.clone()),
        InlineToken::BoldItalics(s) => InlineToken::BoldItalics(s.clone()),
        InlineToken::Code(s) => InlineToken::Code(s.clone()),
        InlineToken::Link { caption, url } => InlineToken::Link {
            caption: caption.clone(),
            url: url.clone(),
        },
        InlineToken::Image { caption, url } => InlineToken::Image {
            caption: caption.clone(),
            url: url.clone(),
        },
    }
}

fn copy_inlines(v: &Vec<InlineToken>) -> (r: Vec<InlineToken>)
    ensures
        inlines_view(r@) == inlines_view(v@),
{
    let mut r: Vec<InlineToken> = Vec::new();
    let mut i: usize = 0;
    while i < v.len()
        invariant
            i <= v.len(),
            inlines_view(r@) == inlines_view(v@).take(i as int),
        decreases v.len() - i,
    {
        let t = copy_inline(&v[i]);
        let ghost old_r = r@;
        r.push(t);
        assert(inlines_view(r@) =~= inlines_view(old_r).push(t@));
        i = i + 1;
        assert(inlines_view(v@).take(i as int) =~= inlines_view(v@).take(i - 1).push(v@[i - 1]@));
    }
    assert(inlines_view(v@).take(i as int) =~= inlines_view(v@));
    r
}

fn copy_block(b: &BlockToken) -> (r: BlockToken)
    ensures
        r@ == b@,
{
    match b {
        BlockToken::Paragraph(c) => BlockToken::Paragraph(copy_inlines(c)),
        BlockToken::Header { level, content } => BlockToken::Header {
            level: *level,
            content: copy_inlines(content),
        },
        BlockToken::Code(s) => BlockToken::Code(s.clone()),
        BlockToken::Line => BlockToken::Line,
        BlockToken::UnorderedListItem(c) => BlockToken::UnorderedListItem(copy_inlines(c)),
    }
}

fn copy_blocks(v: &Vec<BlockToken>) -> (r: Vec<BlockToken>)
    ensures
        blocks_view(r@) == blocks_view(v@),
{
    let mut r: Vec<BlockToken> = Vec::new();
    let mut i: usize = 0;
    while i < v.len()
        invariant
            i <= v.len(),
            blocks_view(r@) == blocks_view(v@).take(i as int),
        decreases v.len() - i,
    {
        let b = copy_block(&v[i]);
        let ghost old_r = r@;
        r.push(b);
        assert(blocks_view(r@) =~= blocks_view(old_r).push(b@));
        i = i + 1;
        assert(blocks_view(v@).take(i as int) =~= blocks_view(v@).take(i - 1).push(v@[i - 1]@));
    }
    assert(blocks_view(v@).take(i as int) =~= blocks_view(v@));
    r
}

// ---------------------------------------------------------------------------
// Inline spans
// ---------------------------------------------------------------------------

/// The token of an emphasis whose shorter run of `*` has `n` characters.
pub open spec fn emphasis_token(n: int, content: Seq<char>) -> Inline {
    if n == 1 {
        Inline::Italics(content)
    } else if n == 3 {
        Inline::BoldItalics(content)
    } else {
        Inline::Bold(content)
    }
}

/// The span that a match of `pat` in `s` gives.
pub open spec fn span_of(s: Seq<char>, pat: Pattern, m: (int, int, int, int)) -> (int, int, Inline) {
    match pat {
        Pattern::Emphasis => {
            let n = if m.1 - m.0 <= m.3 - m.2 { m.1 - m.0 } else { m.3 - m.2 };
            (m.1 - n, m.2 + n, emphasis_token(n, s.subrange(m.1, m.2)))
        },
        Pattern::NamedLink => (m.0, m.2, Inline::Link {
            caption: s.subrange(m.0 + 1, m.1),
            url: s.subrange(m.1 + 2, m.2),
        }),
        Pattern::Image => (m.0 + 1, m.2, Inline::Image {
            caption: s.subrange(m.0 + 2, m.1),
            url: s.subrange(m.1 + 2, m.2),
        }),
        Pattern::AngleLink => (m.0, m.2, Inline::Link {
            caption: s.subrange(m.0 + 1, m.2),
            url: s.subrange(m.0 + 1, m.2),
        }),
    }
}

/// The spans of all matches of `pat` in `s`, in the order found.
pub open spec fn spans_of(s: Seq<char>, pat: Pattern) -> Seq<(int, int, Inline)> {
    scan(s, 0, pat).map_values(|m: (int, int, int, int)| span_of(s, pat, m))
}

/// All spans of `s`: emphasis, then named links, then images, then angle links.
pub open spec fn collected_spans(s: Seq<char>) -> Seq<(int, int, Inline)> {
    spans_of(s, Pattern::Emphasis) + spans_of(s, Pattern::NamedLink) + spans_of(s, Pattern::Image)
        + spans_of(s, Pattern::AngleLink)
}

fn span_from_match(text: &Vec<char>, pat: Pattern, m: (usize, usize, usize, usize)) -> (r: Span<
    InlineToken,
>)
    requires
        match_at(text@, m.0 as int, pat) == Some((m.0 as int, m.1 as int, m.2 as int, m.3 as int)),
    ensures
        r@ == span_of(text@, pat, (m.0 as int, m.1 as int, m.2 as int, m.3 as int)),
{
    proof {
        lemma_match_at(text@, m.0 as int, pat);
    }
    match pat {
        Pattern::Emphasis => {
            let n = if m.1 - m.0 <= m.3 - m.2 {
                m.1 - m.0
            } else {
                m.3 - m.2
            };
            let content = sub_string(text, m.1, m.2);
            let token = if n == 1 {
                InlineToken::Italics(content)
            } else if n == 3 {
                InlineToken::BoldItalics(content)
            } else {
                InlineToken::Bold(content)
            };
            Span { start: m.1 - n, end: m.2 + n, token }
        },
        Pattern::NamedLink => Span {
            start: m.0,
            end: m.2,
            token: InlineToken::Link {
                caption: sub_string(text, m.0 + 1, m.1),
                url: sub_string(text, m.1 + 2, m.2),
            },
        },
        Pattern::Image => Span {
            start: m.0 + 1,
            end: m.2,
            token: InlineToken::Image {
                caption: sub_string(text, m.0 + 2, m.1),
                url: sub_string(text, m.1 + 2, m.2),
            },
        },
        Pattern::AngleLink => Span {
            start: m.0,
            end: m.2,
            token: InlineToken::Link {
                caption: sub_string(text, m.0 + 1, m.2),
                url: sub_string(text, m.0 + 1, m.2),
            },
        },
    }
}

fn push_spans(text: &Vec<char>, pat: Pattern, spans: &mut Vec<Span<InlineToken>>)
    ensures
        span_views(final(spans)@) == span_views(old(spans)@) + spans_of(text@, pat),
{
    let found = scan_exec(text, pat);
    let ghost prefix = span_views(spans@);
    let ghost all = spans_of(text@, pat);
    proof {
        lemma_scan(text@, 0, pat);
        assert(all.len() == found@.len());
    }
    let mut i: usize = 0;
    while i < found.len()
        invariant
            i <= found.len(),
            all.len() == found@.len(),
            all == spans_of(text@, pat),
            found_view(found@) == scan(text@, 0, pat),
            forall|k: int|
                0 <= k < scan(text@, 0, pat).len() ==> match_at(
                    text@,
                    #[trigger] scan(text@, 0, pat)[k].0,
                    pat,
                ) == Some(scan(text@, 0, pat)[k]),
            span_views(spans@) == prefix + all.take(i as int),
        decreases found.len() - i,
    {
        let m = found[i];
        proof {
            assert(found_view(found@)[i as int] == (m.0 as int, m.1 as int, m.2 as int, m.3 as int));
        }
        let sp = span_from_match(text, pat, m);
        assert(sp@ == all[i as int]);
        let ghost old_spans = spans@;
        spans.push(sp);
        assert(span_views(spans@) =~= span_views(old_spans).push(sp@));
        i = i + 1;
        proof {
            assert(all.take(i as int) =~= all.take(i - 1).push(all[i - 1]));
            assert(span_views(spans@) =~= prefix + all.take(i as int));
        }
    }
    proof {
        assert(all.take(i as int) =~= all);
    }
}

/// The spans of `text`, as `collected_spans` orders them.
fn collect_inline_spans(text: &Vec<char>) -> (r: Vec<Span<InlineToken>>)
    ensures
        span_views(r@) == collected_spans(text@),
{
    let mut spans: Vec<Span<InlineToken>> = Vec::new();
    assert(span_views(spans@) =~= Seq::<(int, int, Inline)>::empty());
    push_spans(text, Pattern::Emphasis, &mut spans);
    push_spans(text, Pattern::NamedLink, &mut spans);
    push_spans(text, Pattern::Image, &mut spans);
    push_spans(text, Pattern::AngleLink, &mut spans);
    assert(span_views(spans@) =~= collected_spans(text@));
    spans
}

pub proof fn lemma_spans_of_within(s: Seq<char>, pat: Pattern)
    ensures
        spans_within(spans_of(s, pat), s.len() as int),
{
    lemma_scan(s, 0, pat);
    let found = scan(s, 0, pat);
    assert forall|j: int| 0 <= j < spans_of(s, pat).len() implies 0 <= #[trigger] spans_of(
        s,
        pat,
    )[j].0 < s.len() && spans_of(s, pat)[j].0 <= spans_of(s, pat)[j].1 <= s.len() by {
        assert(match_at(s, found[j].0, pat) == Some(found[j]));
        lemma_match_at(s, found[j].0, pat);
    }
}

pub proof fn lemma_collected_within(s: Seq<char>)
    ensures
        spans_within(collected_spans(s), s.len() as int),
{
    lemma_spans_of_within(s, Pattern::Emphasis);
    lemma_spans_of_within(s, Pattern::NamedLink);
    lemma_spans_of_within(s, Pattern::Image);
    lemma_spans_of_within(s, Pattern::AngleLink);
    let a = spans_of(s, Pattern::Emphasis);
    let b = spans_of(s, Pattern::NamedLink);
    let c = spans_of(s, Pattern::Image);
    let d = spans_of(s, Pattern::AngleLink);
    let all = collected_spans(s);
    assert forall|j: int| 0 <= j < all.len() implies 0 <= #[trigger] all[j].0 < s.len()
        && all[j].0 <= all[j].1 <= s.len() by {
        if j < a.len() {
            assert(all[j] == a[j]);
        } else if j < a.len() + b.len() {
            assert(all[j] == b[j - a.len()]);
        } else if j < a.len() + b.len() + c.len() {
            assert(all[j] == c[j - a.len() - b.len()]);
        } else {
            assert(all[j] == d[j - a.len() - b.len() - c.len()]);
        }
    }
}

/// The tokens that reading up to and over a span adds: the plain text between
/// the cursor and the span when the cursor is before it, then the span's
/// token.  `None` where that plain text would have to start inside a character.
pub open spec fn piece(s: Seq<char>, cur: Cursor, sp: (int, int, Inline)) -> Option<Seq<Inline>> {
    match cur {
        Cursor::At(k) => if k < sp.0 {
            Some(seq![Inline::Unformatted(s.subrange(k, sp.0)), sp.2])
        } else {
            Some(seq![sp.2])
        },
        Cursor::Mid(e) => if e < sp.0 {
            None
        } else {
            Some(seq![sp.2])
        },
        Cursor::Past => Some(seq![sp.2]),
    }
}

/// The plain text after the last span, if any; `None` where it would have to
/// start inside a character.
pub open spec fn tail(s: Seq<char>, cur: Cursor) -> Option<Seq<Inline>> {
    match cur {
        Cursor::At(k) => if k < s.len() {
            Some(seq![Inline::Unformatted(s.subrange(k, s.len() as int))])
        } else {
            Some(seq![])
        },
        Cursor::Mid(e) => if e < s.len() {
            None
        } else {
            Some(seq![])
        },
        Cursor::Past => Some(seq![]),
    }
}

/// Reading the spans in order from the cursor, then the tail.
pub open spec fn read_spans(s: Seq<char>, spans: Seq<(int, int, Inline)>, cur: Cursor) -> Option<
    Seq<Inline>,
>
    decreases spans.len(),
{
    if spans.len() == 0 {
        tail(s, cur)
    } else {
        match piece(s, cur, spans[0]) {
            None => None,
            Some(p) => match read_spans(s, spans.drop_first(), cursor_after(s, spans[0].1)) {
                None => None,
                Some(r) => Some(p + r),
            },
        }
    }
}

/// The inline tokens of a text: one plain token when no pattern matches;
/// otherwise the spans read in order of their start.  `None` where the
/// reading would have to start inside a character.
pub open spec fn inline_tokens(s: Seq<char>) -> Option<Seq<Inline>> {
    let spans = collected_spans(s);
    if spans.len() == 0 {
        Some(seq![Inline::Unformatted(s)])
    } else {
        read_spans(s, sort_by_start(spans), Cursor::At(0))
    }
}

pub open spec fn opt_inlines(r: Option<Vec<InlineToken>>) -> Option<Seq<Inline>> {
    match r {
        Some(v) => Some(inlines_view(v@)),
        None => None,
    }
}

fn push_inline(tokens: &mut Vec<InlineToken>, t: InlineToken)
    ensures
        inlines_view(final(tokens)@) == inlines_view(old(tokens)@).push(t@),
{
    tokens.push(t);
    assert(inlines_view(tokens@) =~= inlines_view(old(tokens)@).push(t@));
}

/// The inline tokens of `text`; `None` where reading it would split a character.
fn parse_inline(text: &Vec<char>) -> (r: Option<Vec<InlineToken>>)
    ensures
        opt_inlines(r) == inline_tokens(text@),
{
    let spans = collect_inline_spans(text);
    let mut tokens: Vec<InlineToken> = Vec::new();
    if spans.len() == 0 {
        push_inline(&mut tokens, InlineToken::Unformatted(string_of(text)));
        assert(inlines_view(tokens@) =~= seq![Inline::Unformatted(text@)]);
        return Some(tokens);
    }
    proof {
        lemma_collected_within(text@);
        lemma_sort_within(collected_spans(text@), text@.len() as int);
    }
    let spans = sort_spans(spans);
    let ghost sorted = span_views(spans@);
    let mut cursor = CursorExec::At(0);
    let mut i: usize = 0;
    assert(inlines_view(tokens@) =~= Seq::<Inline>::empty());
    assert(sorted.skip(0) =~= sorted);
    while i < spans.len()
        invariant
            i <= spans.len(),
            sorted == span_views(spans@),
            spans_within(sorted, text@.len() as int),
            cursor matches CursorExec::At(k) ==> k <= text@.len(),
            inline_tokens(text@) == prepend(
                inlines_view(tokens@),
                read_spans(text@, sorted.skip(i as int), cursor@),
            ),
        decreases spans.len() - i,
    {
        let ghost rest = sorted.skip(i as int);
        assert(rest[0] == sorted[i as int]);
        assert(rest.drop_first() =~= sorted.skip(i + 1));
        assert(sorted[i as int] == spans[i as int]@);
        let ghost before = inlines_view(tokens@);
        match cursor {
            CursorExec::At(k) => {
                if k < spans[i].start {
                    let plain = sub_string(text, k, spans[i].start);
                    push_inline(&mut tokens, InlineToken::Unformatted(plain));
                }
            },
            CursorExec::Mid(e) => {
                if e < spans[i].start {
                    return None;
                }
            },
            CursorExec::Past => {},
        }
        let t = copy_inline(&spans[i].token);
        push_inline(&mut tokens, t);
        proof {
            let p = piece(text@, cursor@, sorted[i as int]);
            assert(p is Some);
            assert(inlines_view(tokens@) =~= before + p->0);
        }
        cursor = cursor_after_exec(text, spans[i].end);
        i = i + 1;
    }
    match cursor {
        CursorExec::At(k) => {
            if k < text.len() {
                let plain = sub_string(text, k, text.len());
                push_inline(&mut tokens, InlineToken::Unformatted(plain));
            }
        },
        CursorExec::Mid(e) => {
            if e < text.len() {
                return None;
            }
        },
        CursorExec::Past => {},
    }
    proof {
        assert(sorted.skip(i as int) =~= Seq::<(int, int, Inline)>::empty());
    }
    Some(tokens)
}

// ---------------------------------------------------------------------------
// Blocks
// ---------------------------------------------------------------------------

/// What the parser holds between lines: the block tokens so far, whether a
/// code block is open, and the text of the paragraph or code block being read.
pub struct MdState {
    pub tokens: Seq<Block>,
    pub in_code: bool,
    pub pending: Seq<char>,
}

/// The state of a new parser.
pub open spec fn initial_state() -> MdState {
    MdState { tokens: seq![], in_code: false, pending: seq![] }
}

/// `st` with one more block token.
pub open spec fn emit(st: MdState, b: Block) -> MdState {
    MdState { tokens: st.tokens.push(b), in_code: st.in_code, pending: st.pending }
}

/// Ending a paragraph: its text, if any, becomes a paragraph token.
pub open spec fn flush(st: MdState) -> Option<MdState> {
    if st.pending.len() > 0 {
        match inline_tokens(st.pending) {
            Some(c) => Some(
                MdState { tokens: st.tokens.push(Block::Paragraph(c)), in_code: st.in_code, pending: seq![] },
            ),
            None => None,
        }
    } else {
        Some(st)
    }
}

/// Reading one line.  A header line is a header wherever it stands; a fence
/// line opens or closes a code block; inside a code block every other line is
/// code; outside, a divider, a list item, a blank line (which ends the
/// paragraph) or a line of paragraph text.
pub open spec fn step(st: MdState, line: Seq<char>) -> Option<MdState> {
    match header_match(line) {
        Some((l, a, b)) => match inline_tokens(line.subrange(a, b)) {
            Some(c) => Some(emit(st, Block::Header { level: l, content: c })),
            None => None,
        },
        None => if fence_any_ws_tail(line) {
            if st.in_code {
                Some(MdState { tokens: st.tokens.push(Block::Code(st.pending)), in_code: false, pending: seq![] })
            } else {
                match flush(st) {
                    Some(f) => Some(MdState { tokens: f.tokens, in_code: true, pending: f.pending }),
                    None => None,
                }
            }
        } else if st.in_code {
            Some(MdState { tokens: st.tokens, in_code: true, pending: with_line(st.pending, line) })
        } else if rule_line(line) {
            Some(emit(st, Block::Line))
        } else {
            match list_item_match(line) {
                Some((a, b)) => match inline_tokens(line.subrange(a, b)) {
                    Some(c) => Some(emit(st, Block::UnorderedListItem(c))),
                    None => None,
                },
                None => if blank_line(line) {
                    flush(st)
                } else {
                    Some(
                        MdState { tokens: st.tokens, in_code: st.in_code, pending: with_line(st.pending, line) },
                    )
                },
            }
        },
    }
}

/// Reading lines one after the other.
pub open spec fn run(st: MdState, lines: Seq<Seq<char>>) -> Option<MdState>
    decreases lines.len(),
{
    if lines.len() == 0 {
        Some(st)
    } else {
        match step(st, lines[0]) {
            Some(n) => run(n, lines.drop_first()),
            None => None,
        }
    }
}

/// Parsing a text: reading its lines, then ending the last paragraph.
/// `None` where the parser would stop on a character split in two.
pub open spec fn parse_outcome(st: MdState, input: Seq<char>) -> Option<MdState> {
    match run(st, lines_of(input)) {
        Some(r) => flush(r),
        None => None,
    }
}

enum BlockState {
    InParagraph,
    InCode,
}

pub struct MdParser {
    tokens: Vec<BlockToken>,
    state: BlockState,
    // Accumulates raw text while inside a paragraph or code block.
    pending: Vec<char>,
}

impl View for MdParser {
    type V = MdState;

    closed spec fn view(&self) -> MdState {
        MdState {
            tokens: blocks_view(self.tokens@),
            in_code: self.state is InCode,
            pending: self.pending@,
        }
    }
}

impl Default for MdParser {
    fn default() -> (r: Self)
        ensures
            r@ == initial_state(),
    {
        let r = MdParser { tokens: Vec::new(), state: BlockState::InParagraph, pending: Vec::new() };
        assert(blocks_view(r.tokens@) =~= Seq::<Block>::empty());
        r
    }
}

proof fn lemma_run_cons(st: MdState, line: Seq<char>, rest: Seq<Seq<char>>)
    ensures
        run(st, seq![line] + rest) == match step(st, line) {
            Some(n) => run(n, rest),
            None => None,
        },
{
    assert((seq![line] + rest)[0] == line);
    assert((seq![line] + rest).drop_first() =~= rest);
}

impl MdParser {
    fn push_block(&mut self, b: BlockToken)
        ensures
            final(self)@ == emit(old(self)@, b@),
    {
        self.tokens.push(b);
        assert(blocks_view(self.tokens@) =~= blocks_view(old(self).tokens@).push(b@));
    }

    /// Ends the paragraph being read; `false` where parsing stops.
    fn flush_paragraph(&mut self) -> (ok: bool)
        ensures
            flush(old(self)@) matches Some(n) ==> ok && final(self)@ == n,
            flush(old(self)@) is None ==> !ok,
    {
        if self.pending.len() > 0 {
            match parse_inline(&self.pending) {
                Some(content) => {
                    self.push_block(BlockToken::Paragraph(content));
                    self.pending = Vec::new();
                    assert(self.pending@ =~= Seq::<char>::empty());
                    true
                },
                None => false,
            }
        } else {
            true
        }
    }

    /// Reads one line; `false` where parsing stops.
    fn process_line(&mut self, line: &Vec<char>) -> (ok: bool)
        ensures
            step(old(self)@, line@) matches Some(n) ==> ok && final(self)@ == n,
            step(old(self)@, line@) is None ==> !ok,
    {
        proof {
            lemma_header_match(line@);
            lemma_list_item_match(line@);
        }
        // ----------- Header --------------------
        if let Some((level, a, b)) = header_match_exec(line) {
            let text = sub_vec(line, a, b);
            match parse_inline(&text) {
                Some(content) => {
                    self.push_block(BlockToken::Header { level: level as u8, content });
                    return true;
                },
                None => {
                    return false;
                },
            }
        }
        // ------------ Code Block ----------------

        if fence_any_ws_tail_exec(line) {
            match self.state {
                BlockState::InCode => {
                    let code = string_of(&self.pending);
                    self.push_block(BlockToken::Code(code));
                    self.pending = Vec::new();
                    self.state = BlockState::InParagraph;
                    assert(self.pending@ =~= Seq::<char>::empty());
                },
                BlockState::InParagraph => {
                    if !self.flush_paragraph() {
                        return false;
                    }
                    self.state = BlockState::InCode;
                },
            }
            return true;
        }
        if let BlockState::InCode = self.state {
            append_line(&mut self.pending, line);
            return true;
        }
        // -- Line --
        if rule_line_exec(line) {
            self.push_block(BlockToken::Line);
            return true;
        }
        // -- Unordered list item --
        if let Some((a, b)) = list_item_match_exec(line) {
            let text = sub_vec(line, a, b);
            match parse_inline(&text) {
                Some(content) => {
                    self.push_block(BlockToken::UnorderedListItem(content));
                    return true;
                },
                None => {
                    return false;
                },
            }
        }
        // -- Blank line ends a paragraph --
        if blank_line_exec(line) {
            return self.flush_paragraph();
        }
        append_line(&mut self.pending, line);
        true
    }

    /// Parses `input`, as `parse` does; `None` exactly where `parse` would
    /// split a character of the input in two.
    pub fn try_parse(&mut self, input: &str) -> (r: Option<Vec<BlockToken>>)
        ensures
            parse_outcome(old(self)@, input@) matches Some(n) ==> r matches Some(v)
                && final(self)@ == n && blocks_view(v@) == n.tokens,
            parse_outcome(old(self)@, input@) is None ==> r is None,
    {
        let s = chars_of(input);
        let mut pos: usize = 0;
        while pos < s.len()
            invariant
                pos <= s.len(),
                s@ == input@,
                run(old(self)@, lines_of(s@)) == run(self@, lines_from(s@, pos as int)),
            decreases s.len() - pos,
        {
            let (line, e) = line_at(&s, pos, true);
            let next: usize = if e < s.len() {
                e + 1
            } else {
                s.len()
            };
            proof {
                assert(lines_from(s@, pos as int) == seq![line@] + lines_from(s@, next as int));
                lemma_run_cons(self@, line@, lines_from(s@, next as int));
            }
            if !self.process_line(&line) {
                return None;
            }
            pos = next;
        }
        if !self.flush_paragraph() {
            return None;
        }
        Some(copy_blocks(&self.tokens))
    }

    /// Parses `input` line by line, ends the last paragraph, and returns all
    /// block tokens this parser has produced so far.
    pub fn parse(&mut self, input: &str) -> (r: Vec<BlockToken>)
        requires
            parse_outcome(old(self)@, input@) is Some,
        ensures
            parse_outcome(old(self)@, input@) == Some(final(self)@),
            blocks_view(r@) == final(self)@.tokens,
    {
        match self.try_parse(input) {
            Some(v) => v,
            None => Vec::new(),
        }
    }
}

// ---------------------------------------------------------------------------
// Laws
// ---------------------------------------------------------------------------

/// `b` keeps `a` as its beginning, and each token after it that is a header
/// has a level from 1 to 6.
pub open spec fn grows(a: Seq<Block>, b: Seq<Block>) -> bool {
    &&& a.len() <= b.len()
    &&& b.subrange(0, a.len() as int) == a
    &&& forall|i: int|
        a.len() <= i < b.len() ==> (#[trigger] b[i] matches Block::Header { level, .. } ==> 1 <= level
            <= 6)
}

proof fn lemma_grows_push(a: Seq<Block>, b: Block)
    requires
        b matches Block::Header { level, .. } ==> 1 <= level <= 6,
    ensures
        grows(a, a.push(b)),
{
    assert(a.push(b).subrange(0, a.len() as int) =~= a);
}

proof fn lemma_grows_trans(a: Seq<Block>, b: Seq<Block>, c: Seq<Block>)
    requires
        grows(a, b),
        grows(b, c),
    ensures
        grows(a, c),
{
    assert(c.subrange(0, a.len() as int) =~= b.subrange(0, a.len() as int));
    assert forall|i: int| a.len() <= i < c.len() implies (#[trigger] c[i] matches Block::Header {
        level,
        ..
    } ==> 1 <= level <= 6) by {
        if i < b.len() {
            assert(c[i] == c.subrange(0, b.len() as int)[i]);
        }
    }
}

proof fn lemma_grows_refl(a: Seq<Block>)
    ensures
        grows(a, a),
{
    assert(a.subrange(0, a.len() as int) =~= a);
}

proof fn lemma_flush_grows(st: MdState)
    ensures
        flush(st) matches Some(n) ==> grows(st.tokens, n.tokens),
{
    lemma_grows_refl(st.tokens);
    if st.pending.len() > 0 {
        if let Some(c) = inline_tokens(st.pending) {
            lemma_grows_push(st.tokens, Block::Paragraph(c));
        }
    }
}

proof fn lemma_step_grows(st: MdState, line: Seq<char>)
    ensures
        step(st, line) matches Some(n) ==> grows(st.tokens, n.tokens),
{
    lemma_header_match(line);
    lemma_grows_refl(st.tokens);
    lemma_flush_grows(st);
    match header_match(line) {
        Some((l, a, b)) => {
            if let Some(c) = inline_tokens(line.subrange(a, b)) {
                lemma_grows_push(st.tokens, Block::Header { level: l, content: c });
            }
        },
        None => {
            lemma_grows_push(st.tokens, Block::Line);
            lemma_grows_push(st.tokens, Block::Code(st.pending));
            if let Some((a, b)) = list_item_match(line) {
                if let Some(c) = inline_tokens(line.subrange(a, b)) {
                    lemma_grows_push(st.tokens, Block::UnorderedListItem(c));
                }
            }
        },
    }
}

proof fn lemma_run_grows(st: MdState, lines: Seq<Seq<char>>)
    ensures
        run(st, lines) matches Some(n) ==> grows(st.tokens, n.tokens),
    decreases lines.len(),
{
    lemma_grows_refl(st.tokens);
    if lines.len() > 0 {
        lemma_step_grows(st, lines[0]);
        if let Some(m) = step(st, lines[0]) {
            lemma_run_grows(m, lines.drop_first());
            if let Some(n) = run(m, lines.drop_first()) {
                lemma_grows_trans(st.tokens, m.tokens, n.tokens);
            }
        }
    }
}

/// Parsing keeps every token the parser already held, in place, and every
/// header it adds has a level from 1 to 6.
pub proof fn law_parse_keeps_tokens(st: MdState, input: Seq<char>)
    ensures
        parse_outcome(st, input) matches Some(n) ==> {
            &&& st.tokens.len() <= n.tokens.len()
            &&& n.tokens.subrange(0, st.tokens.len() as int) == st.tokens
            &&& forall|i: int|
                st.tokens.len() <= i < n.tokens.len() ==> (#[trigger] n.tokens[i] matches Block::Header {
                    level,
                    ..
                } ==> 1 <= level <= 6)
        },
{
    lemma_run_grows(st, lines_of(input));
    if let Some(m) = run(st, lines_of(input)) {
        lemma_flush_grows(m);
        if let Some(n) = flush(m) {
            lemma_grows_trans(st.tokens, m.tokens, n.tokens);
        }
    }
}

/// A text with none of `*`, `[` and `<` is one plain token.
pub proof fn law_plain_text(s: Seq<char>)
    requires
        forall|i: int| 0 <= i < s.len() ==> #[trigger] s[i] != '*' && s[i] != '[' && s[i] != '<',
    ensures
        inline_tokens(s) == Some(seq![Inline::Unformatted(s)]),
{
    assert forall|p: int| 0 <= p < s.len() implies #[trigger] match_at(s, p, Pattern::Emphasis) is None
        && match_at(s, p, Pattern::NamedLink) is None && match_at(s, p, Pattern::Image) is None
        && match_at(s, p, Pattern::AngleLink) is None by {
        assert(bracket_link_at(s, p) is None);
        assert(bracket_link_at(s, p + 1) is None);
    }
    lemma_scan_none(s, 0, Pattern::Emphasis);
    lemma_scan_none(s, 0, Pattern::NamedLink);
    lemma_scan_none(s, 0, Pattern::Image);
    lemma_scan_none(s, 0, Pattern::AngleLink);
    assert(collected_spans(s) =~= Seq::<(int, int, Inline)>::empty());
}

/// Every character of `s` is encoded in one byte.
pub open spec fn one_byte_text(s: Seq<char>) -> bool {
    forall|i: int| 0 <= i < s.len() ==> is_one_byte(#[trigger] s[i])
}

proof fn lemma_read_spans_one_byte(s: Seq<char>, spans: Seq<(int, int, Inline)>, cur: Cursor)
    requires
        one_byte_text(s),
        !(cur is Mid),
        spans_within(spans, s.len() as int),
    ensures
        read_spans(s, spans, cur) is Some,
    decreases spans.len(),
{
    if spans.len() > 0 {
        let e = spans[0].1;
        assert(spans_within(spans.drop_first(), s.len() as int)) by {
            assert forall|j: int| 0 <= j < spans.drop_first().len() implies 0 <= #[trigger] spans.drop_first()[j].0 < s.len()
                && spans.drop_first()[j].0 <= spans.drop_first()[j].1 <= s.len() by {
                assert(spans.drop_first()[j] == spans[j + 1]);
            }
        }
        if 0 <= e < s.len() {
            assert(is_one_byte(s[e]));
        }
        lemma_read_spans_one_byte(s, spans.drop_first(), cursor_after(s, e));
    }
}

/// The inline tokens of a text whose characters are each one byte are always
/// defined.
pub proof fn law_one_byte_inline(s: Seq<char>)
    requires
        one_byte_text(s),
    ensures
        inline_tokens(s) is Some,
{
    let spans = collected_spans(s);
    if spans.len() > 0 {
        lemma_collected_within(s);
        lemma_sort_within(spans, s.len() as int);
        lemma_read_spans_one_byte(s, sort_by_start(spans), Cursor::At(0));
    }
}

proof fn lemma_with_line_one_byte(buf: Seq<char>, line: Seq<char>)
    requires
        one_byte_text(buf),
        one_byte_text(line),
    ensures
        one_byte_text(with_line(buf, line)),
{
    let w = with_line(buf, line);
    assert forall|i: int| 0 <= i < w.len() implies is_one_byte(#[trigger] w[i]) by {
        if buf.len() > 0 {
            if i < buf.len() {
                assert(w[i] == buf[i]);
            } else if i > buf.len() {
                assert(w[i] == line[i - buf.len() - 1]);
            }
        }
    }
}

proof fn lemma_sub_one_byte(s: Seq<char>, a: int, b: int)
    requires
        one_byte_text(s),
        0 <= a <= b <= s.len(),
    ensures
        one_byte_text(s.subrange(a, b)),
{
    assert forall|i: int| 0 <= i < b - a implies is_one_byte(#[trigger] s.subrange(a, b)[i]) by {
        assert(s.subrange(a, b)[i] == s[a + i]);
    }
}

proof fn lemma_step_one_byte(st: MdState, line: Seq<char>)
    requires
        one_byte_text(st.pending),
        one_byte_text(line),
    ensures
        step(st, line) matches Some(n) && one_byte_text(n.pending),
{
    lemma_header_match(line);
    lemma_list_item_match(line);
    law_one_byte_inline(st.pending);
    lemma_with_line_one_byte(st.pending, line);
    if let Some((l, a, b)) = header_match(line) {
        lemma_sub_one_byte(line, a, b);
        law_one_byte_inline(line.subrange(a, b));
    }
    if let Some((a, b)) = list_item_match(line) {
        lemma_sub_one_byte(line, a, b);
        law_one_byte_inline(line.subrange(a, b));
    }
}

proof fn lemma_lines_one_byte(s: Seq<char>, start: int)
    requires
        one_byte_text(s),
    ensures
        forall|i: int|
            0 <= i < lines_from(s, start).len() ==> one_byte_text(#[trigger] lines_from(s, start)[i]),
    decreases s.len() - start,
{
    if 0 <= start < s.len() {
        let e = find_char(s, '\n', start);
        lemma_find_char(s, '\n', start);
        lemma_sub_one_byte(s, start, e);
        let line = s.subrange(start, e);
        assert(one_byte_text(strip_cr(line))) by {
            if line.len() > 0 && line.last() == '\r' {
                lemma_sub_one_byte(line, 0, line.len() - 1);
                assert(line.drop_last() =~= line.subrange(0, line.len() - 1));
            }
        }
        if e < s.len() {
            lemma_lines_one_byte(s, e + 1);
            let rest = lines_from(s, e + 1);
            assert forall|i: int| 0 <= i < lines_from(s, start).len() implies one_byte_text(
                #[trigger] lines_from(s, start)[i],
            ) by {
                if i > 0 {
                    assert(lines_from(s, start)[i] == rest[i - 1]);
                }
            }
        }
    }
}

proof fn lemma_run_one_byte(st: MdState, lines: Seq<Seq<char>>)
    requires
        one_byte_text(st.pending),
        forall|i: int| 0 <= i < lines.len() ==> one_byte_text(#[trigger] lines[i]),
    ensures
        run(st, lines) matches Some(n) && one_byte_text(n.pending),
    decreases lines.len(),
{
    if lines.len() > 0 {
        lemma_step_one_byte(st, lines[0]);
        let n = step(st, lines[0])->0;
        assert forall|i: int| 0 <= i < lines.drop_first().len() implies one_byte_text(
            #[trigger] lines.drop_first()[i],
        ) by {
            assert(lines.drop_first()[i] == lines[i + 1]);
        }
        lemma_run_one_byte(n, lines.drop_first());
    }
}

/// Parsing never stops on a text whose characters are each one byte, when
/// the parser holds no text of more-than-one-byte characters.
pub proof fn law_one_byte_parse(st: MdState, input: Seq<char>)
    requires
        one_byte_text(st.pending),
        one_byte_text(input),
    ensures
        parse_outcome(st, input) is Some,
{
    lemma_lines_one_byte(input, 0);
    lemma_run_one_byte(st, lines_of(input));
    law_one_byte_inline(run(st, lines_of(input))->0.pending);
}

/// A final line ending changes nothing in what parsing a text gives, when the
/// text does not already end in one (nor in a carriage return).
pub proof fn law_final_newline(st: MdState, s: Seq<char>)
    requires
        s.len() > 0,
        s.last() != '\n',
        s.last() != '\r',
    ensures
        parse_outcome(st, s.push('\n')) == parse_outcome(st, s),
{
    law_final_newline_lines(s);
}

/// A line that a code block keeps as it is.
pub open spec fn code_line(line: Seq<char>) -> bool {
    header_match(line) is None && !fence_any_ws_tail(line)
}

proof fn lemma_run_code(st: MdState, body: Seq<Seq<char>>)
    requires
        st.in_code,
        forall|i: int| 0 <= i < body.len() ==> code_line(#[trigger] body[i]),
    ensures
        run(st, body) == Some(
            MdState { tokens: st.tokens, in_code: true, pending: with_lines(st.pending, body) },
        ),
    decreases body.len(),
{
    if body.len() > 0 {
        assert(code_line(body[0]));
        let n = MdState { tokens: st.tokens, in_code: true, pending: with_line(st.pending, body[0]) };
        assert(step(st, body[0]) == Some(n));
        assert forall|i: int| 0 <= i < body.drop_first().len() implies code_line(
            #[trigger] body.drop_first()[i],
        ) by {
            assert(body.drop_first()[i] == body[i + 1]);
        }
        lemma_run_code(n, body.drop_first());
    }
}

/// A fenced code block keeps its lines as they are: reading an opening fence,
/// lines that are neither headers nor fences, and a closing fence ends the
/// paragraph before it and adds one code token, the lines joined by newlines.
pub proof fn law_code_block(
    st: MdState,
    opening: Seq<char>,
    body: Seq<Seq<char>>,
    closing: Seq<char>,
)
    requires
        !st.in_code,
        flush(st) is Some,
        fence_any_ws_tail(opening),
        fence_any_ws_tail(closing),
        forall|i: int| 0 <= i < body.len() ==> code_line(#[trigger] body[i]),
    ensures
        run(st, seq![opening] + body + seq![closing]) == Some(
            MdState {
                tokens: flush(st)->0.tokens.push(Block::Code(with_lines(seq![], body))),
                in_code: false,
                pending: seq![],
            },
        ),
{
    let f = flush(st)->0;
    assert(header_match(opening) is None);
    assert(header_match(closing) is None);
    assert(f.pending == Seq::<char>::empty());
    let opened = MdState { tokens: f.tokens, in_code: true, pending: f.pending };
    assert(step(st, opening) == Some(opened));
    lemma_run_code(opened, body);
    let filled = MdState { tokens: f.tokens, in_code: true, pending: with_lines(seq![], body) };
    let lines = seq![opening] + body + seq![closing];
    assert(lines[0] == opening);
    assert(lines.drop_first() =~= body + seq![closing]);
    lemma_run_append(opened, body, seq![closing]);
    assert(run(filled, seq![closing]) == run(
        MdState { tokens: f.tokens.push(Block::Code(filled.pending)), in_code: false, pending: seq![] },
        seq![closing].drop_first(),
    ));
}

/// Reading `a` then `b` is reading `a + b`.
proof fn lemma_run_append(st: MdState, a: Seq<Seq<char>>, b: Seq<Seq<char>>)
    ensures
        run(st, a + b) == match run(st, a) {
            Some(n) => run(n, b),
            None => None,
        },
    decreases a.len(),
{
    if a.len() == 0 {
        assert(a + b =~= b);
    } else {
        assert((a + b)[0] == a[0]);
        assert((a + b).drop_first() =~= a.drop_first() + b);
        if let Some(n) = step(st, a[0]) {
            lemma_run_append(n, a.drop_first(), b);
        }
    }
}

/// Reading one line adds at most one block token and changes none before it.
pub proof fn law_step_adds_at_most_one(st: MdState, line: Seq<char>)
    ensures
        step(st, line) matches Some(n) ==> {
            &&& st.tokens.len() <= n.tokens.len() <= st.tokens.len() + 1
            &&& n.tokens.subrange(0, st.tokens.len() as int) == st.tokens
        },
{
    lemma_step_grows(st, line);
}

/// Ending a paragraph a second time right after the first changes nothing.
pub proof fn law_flush_twice(st: MdState)
    ensures
        flush(st) matches Some(n) ==> flush(n) == Some(n),
{
}

/// `st` with `t` in front of its tokens.
pub open spec fn shifted(t: Seq<Block>, st: MdState) -> MdState {
    MdState { tokens: t + st.tokens, in_code: st.in_code, pending: st.pending }
}

pub open spec fn opt_shifted(t: Seq<Block>, o: Option<MdState>) -> Option<MdState> {
    match o {
        Some(n) => Some(shifted(t, n)),
        None => None,
    }
}

proof fn lemma_emit_shifted(t: Seq<Block>, st: MdState, b: Block)
    ensures
        emit(shifted(t, st), b) == shifted(t, emit(st, b)),
{
    assert((t + st.tokens).push(b) =~= t + st.tokens.push(b));
}

proof fn lemma_flush_shifted(t: Seq<Block>, st: MdState)
    ensures
        flush(shifted(t, st)) == opt_shifted(t, flush(st)),
{
    if st.pending.len() > 0 {
        if let Some(c) = inline_tokens(st.pending) {
            assert((t + st.tokens).push(Block::Paragraph(c)) =~= t + st.tokens.push(Block::Paragraph(c)));
        }
    }
}

proof fn lemma_step_shifted(t: Seq<Block>, st: MdState, line: Seq<char>)
    ensures
        step(shifted(t, st), line) == opt_shifted(t, step(st, line)),
{
    lemma_flush_shifted(t, st);
    lemma_emit_shifted(t, st, Block::Line);
    assert((t + st.tokens).push(Block::Code(st.pending)) =~= t + st.tokens.push(Block::Code(st.pending)));
    if let Some((l, a, b)) = header_match(line) {
        if let Some(c) = inline_tokens(line.subrange(a, b)) {
            lemma_emit_shifted(t, st, Block::Header { level: l, content: c });
        }
    }
    if let Some((a, b)) = list_item_match(line) {
        if let Some(c) = inline_tokens(line.subrange(a, b)) {
            lemma_emit_shifted(t, st, Block::UnorderedListItem(c));
        }
    }
}

proof fn lemma_run_shifted(t: Seq<Block>, st: MdState, lines: Seq<Seq<char>>)
    ensures
        run(shifted(t, st), lines) == opt_shifted(t, run(st, lines)),
    decreases lines.len(),
{
    if lines.len() > 0 {
        lemma_step_shifted(t, st, lines[0]);
        if let Some(n) = step(st, lines[0]) {
            lemma_run_shifted(t, n, lines.drop_first());
        }
    }
}

proof fn lemma_run_no_fence(st: MdState, lines: Seq<Seq<char>>)
    requires
        !st.in_code,
        forall|i: int| 0 <= i < lines.len() ==> !fence_any_ws_tail(#[trigger] lines[i]),
    ensures
        run(st, lines) matches Some(n) ==> !n.in_code,
    decreases lines.len(),
{
    if lines.len() > 0 {
        assert(!fence_any_ws_tail(lines[0]));
        if let Some(n) = step(st, lines[0]) {
            assert forall|i: int| 0 <= i < lines.drop_first().len() implies !fence_any_ws_tail(
                #[trigger] lines.drop_first()[i],
            ) by {
                assert(lines.drop_first()[i] == lines[i + 1]);
            }
            lemma_run_no_fence(n, lines.drop_first());
        }
    }
}

proof fn lemma_blank_step(st: MdState)
    requires
        !st.in_code,
    ensures
        step(st, seq![]) == flush(st),
{
    let e = Seq::<char>::empty();
    assert(run_end(e, '#', 0) == 0);
    assert(ws_end(e, 0) == 0);
    assert(run_end(e, '-', 0) == 0);
}

proof fn lemma_lines_of_newline()
    ensures
        lines_of(seq!['\n']) == seq![Seq::<char>::empty()],
{
    let nl = seq!['\n'];
    assert(nl[0] == '\n');
    assert(find_char(nl, '\n', 0) == 0);
    assert(lines_from(nl, 1) =~= Seq::<Seq<char>>::empty());
    assert(nl.subrange(0, 0) =~= Seq::<char>::empty());
    assert(strip_cr(Seq::<char>::empty()) =~= Seq::<char>::empty());
    assert(seq![Seq::<char>::empty()] + Seq::<Seq<char>>::empty() =~= seq![Seq::<char>::empty()]);
}

proof fn lemma_run_one_blank(st: MdState)
    requires
        !st.in_code,
    ensures
        run(st, seq![Seq::<char>::empty()]) == flush(st),
{
    let one_blank = seq![Seq::<char>::empty()];
    lemma_blank_step(st);
    assert(one_blank[0] == Seq::<char>::empty());
    assert(one_blank.drop_first() =~= Seq::<Seq<char>>::empty());
    if let Some(n) = flush(st) {
        assert(run(n, one_blank.drop_first()) == Some(n));
    }
}

/// Parsing two texts separated by an empty line gives the tokens of the first
/// followed by those of the second, when no line of the first is a fence line
/// and the first does not end in a carriage return; and it stops exactly when
/// parsing either text alone stops.
pub proof fn law_blank_line_separates(a: Seq<char>, b: Seq<char>)
    requires
        forall|i: int| 0 <= i < lines_of(a).len() ==> !fence_any_ws_tail(#[trigger] lines_of(a)[i]),
        a.len() == 0 || a.last() != '\r',
    ensures
        parse_outcome(initial_state(), a + seq!['\n', '\n'] + b) is Some <==> (parse_outcome(
            initial_state(),
            a,
        ) is Some && parse_outcome(initial_state(), b) is Some),
        parse_outcome(initial_state(), a + seq!['\n', '\n'] + b) matches Some(n) ==> n.tokens
            == parse_outcome(initial_state(), a)->0.tokens + parse_outcome(
            initial_state(),
            b,
        )->0.tokens,
{
    let init = initial_state();
    let nl = seq!['\n'];
    let x0 = a + nl;
    let x1 = x0 + nl;
    let s = a + seq!['\n', '\n'] + b;
    assert(s =~= x1 + b);
    law_lines_concat(x1, b);
    law_lines_concat(x0, nl);
    let one_blank = seq![Seq::<char>::empty()];
    lemma_lines_of_newline();
    // The lines of `s` are those of `a`, one or two empty lines, and those of `b`.
    let blanks = if a.len() > 0 && a.last() != '\n' {
        law_final_newline_lines(a);
        assert(a.push('\n') =~= x0);
        one_blank
    } else {
        if a.len() == 0 {
            assert(x0 =~= nl);
            assert(lines_of(a) =~= Seq::<Seq<char>>::empty());
            assert(lines_of(x0) =~= lines_of(a) + one_blank);
        } else {
            law_lines_concat(a, nl);
        }
        one_blank + one_blank
    };
    assert(lines_of(x1) =~= lines_of(a) + blanks);
    let lines = lines_of(a) + blanks + lines_of(b);
    assert(lines_of(s) =~= lines);
    lemma_run_append(init, lines_of(a) + blanks, lines_of(b));
    lemma_run_append(init, lines_of(a), blanks);
    lemma_run_no_fence(init, lines_of(a));
    match run(init, lines_of(a)) {
        None => {},
        Some(m) => {
            lemma_blank_step(m);
            law_flush_twice(m);
            lemma_run_one_blank(m);
            match flush(m) {
                None => {
                    assert(run(m, blanks) is None) by {
                        assert(blanks[0] == Seq::<char>::empty());
                    }
                },
                Some(f) => {
                    assert(!f.in_code);
                    lemma_blank_step(f);
                    assert(run(m, blanks) == Some(f)) by {
                        if blanks.len() == 2 {
                            lemma_run_append(m, one_blank, one_blank);
                            assert(blanks =~= one_blank + one_blank);
                            lemma_run_one_blank(f);
                        }
                    }
                    assert(f.pending =~= Seq::<char>::empty());
                    assert(shifted(f.tokens, init) == f) by {
                        assert(f.tokens + Seq::<Block>::empty() =~= f.tokens);
                    }
                    lemma_run_shifted(f.tokens, init, lines_of(b));
                    if let Some(rb) = run(init, lines_of(b)) {
                        lemma_flush_shifted(f.tokens, rb);
                    }
                },
            }
        },
    }
}

/// A line of paragraph text: neither a header, a fence, a divider, a list
/// item nor a blank line.
pub open spec fn text_line(line: Seq<char>) -> bool {
    &&& header_match(line) is None
    &&& !fence_any_ws_tail(line)
    &&& !rule_line(line)
    &&& list_item_match(line) is None
    &&& !blank_line(line)
}

/// A paragraph keeps all its lines: outside a code block, reading lines of
/// paragraph text adds each of them, whatever its length, to the text held,
/// and adds no token.
pub proof fn law_paragraph_lines(st: MdState, lines: Seq<Seq<char>>)
    requires
        !st.in_code,
        forall|i: int| 0 <= i < lines.len() ==> text_line(#[trigger] lines[i]),
    ensures
        run(st, lines) == Some(
            MdState { tokens: st.tokens, in_code: false, pending: with_lines(st.pending, lines) },
        ),
    decreases lines.len(),
{
    if lines.len() > 0 {
        assert(text_line(lines[0]));
        let n = MdState { tokens: st.tokens, in_code: false, pending: with_line(st.pending, lines[0]) };
        assert(step(st, lines[0]) == Some(n));
        assert forall|i: int| 0 <= i < lines.drop_first().len() implies text_line(
            #[trigger] lines.drop_first()[i],
        ) by {
            assert(lines.drop_first()[i] == lines[i + 1]);
        }
        law_paragraph_lines(n, lines.drop_first());
    }
}

/// A document of paragraph text lines only is one paragraph: its token holds
/// the inline tokens of the lines joined by newlines, whatever their length.
pub proof fn law_paragraph_document(input: Seq<char>)
    requires
        lines_of(input).len() >= 1,
        forall|i: int| 0 <= i < lines_of(input).len() ==> text_line(#[trigger] lines_of(input)[i]),
    ensures
        parse_outcome(initial_state(), input) == match inline_tokens(joined(lines_of(input))) {
            Some(c) => Some(MdState { tokens: seq![Block::Paragraph(c)], in_code: false, pending: seq![] }),
            None => None,
        },
{
    let lines = lines_of(input);
    law_paragraph_lines(initial_state(), lines);
    assert(text_line(lines[0]));
    assert(lines[0].len() > 0) by {
        if lines[0].len() == 0 {
            assert(ws_end(lines[0], 0) == 0);
        }
    }
    law_with_lines_joined(lines);
    assert(Seq::<Block>::empty().push(Block::Paragraph(inline_tokens(joined(lines))->0)) =~= seq![
        Block::Paragraph(inline_tokens(joined(lines))->0),
    ]);
}

/// Where reading spans from a cursor leaves the cursor.
pub open spec fn end_cursor(s: Seq<char>, spans: Seq<(int, int, Inline)>, cur: Cursor) -> Cursor
    decreases spans.len(),
{
    if spans.len() == 0 {
        cur
    } else {
        end_cursor(s, spans.drop_first(), cursor_after(s, spans[0].1))
    }
}

/// The text after the last span is kept: when reading ends at a character
/// before the end of the text, the last token is the plain text from there to
/// the end, whatever the text's length.
pub proof fn law_read_keeps_tail(s: Seq<char>, spans: Seq<(int, int, Inline)>, cur: Cursor)
    ensures
        read_spans(s, spans, cur) matches Some(ts) ==> (end_cursor(s, spans, cur) matches Cursor::At(
            k,
        ) ==> (0 <= k < s.len() ==> ts.len() >= 1 && ts.last() == Inline::Unformatted(
            s.subrange(k, s.len() as int),
        ))),
    decreases spans.len(),
{
    if spans.len() > 0 {
        law_read_keeps_tail(s, spans.drop_first(), cursor_after(s, spans[0].1));
        if let Some(p) = piece(s, cur, spans[0]) {
            if let Some(r) = read_spans(s, spans.drop_first(), cursor_after(s, spans[0].1)) {
                if r.len() >= 1 {
                    assert((p + r).last() == r.last());
                }
            }
        }
    }
}

/// Plain text before a span is kept: reading from a character before the
/// first span's start gives first the plain text up to that start, then the
/// span's token, whatever the text's length.
pub proof fn law_read_keeps_text_before_span(s: Seq<char>, spans: Seq<(int, int, Inline)>, k: int)
    requires
        spans.len() > 0,
        0 <= k < spans[0].0,
    ensures
        read_spans(s, spans, Cursor::At(k)) matches Some(ts) ==> ts.len() >= 2 && ts[0]
            == Inline::Unformatted(s.subrange(k, spans[0].0)) && ts[1] == spans[0].2,
{
    if let Some(r) = read_spans(s, spans.drop_first(), cursor_after(s, spans[0].1)) {
        let p = seq![Inline::Unformatted(s.subrange(k, spans[0].0)), spans[0].2];
        assert((p + r)[0] == p[0]);
        assert((p + r)[1] == p[1]);
    }
}

/// The inline tokens of a text keep the plain text before its first span and
/// after its last one.
pub proof fn law_inline_keeps_plain_ends(s: Seq<char>)
    ensures
        collected_spans(s).len() == 0 ==> inline_tokens(s) == Some(seq![Inline::Unformatted(s)]),
        collected_spans(s).len() > 0 ==> ({
            let sorted = sort_by_start(collected_spans(s));
            inline_tokens(s) matches Some(ts) ==> {
                &&& sorted[0].0 > 0 ==> ts[0] == Inline::Unformatted(s.subrange(0, sorted[0].0))
                &&& end_cursor(s, sorted, Cursor::At(0)) matches Cursor::At(k) ==> (0 <= k < s.len()
                    ==> ts.last() == Inline::Unformatted(s.subrange(k, s.len() as int)))
            }
        }),
{
    let spans = collected_spans(s);
    if spans.len() > 0 {
        let sorted = sort_by_start(spans);
        lemma_collected_within(s);
        lemma_sort_within(spans, s.len() as int);
        crate::spans::lemma_sort_len(spans);
        law_read_keeps_tail(s, sorted, Cursor::At(0));
        if sorted[0].0 > 0 {
            law_read_keeps_text_before_span(s, sorted, 0);
        }
    }
}

/// `n` copies of `c`.
pub open spec fn repeated(c: char, n: nat) -> Seq<char> {
    Seq::new(n, |i: int| c)
}

/// A header line is a header wherever it stands: one to six `#`, a space,
/// then text with no newline that does not start with whitespace, gives a
/// header of that level holding the inline tokens of that text, whatever its
/// length.
pub proof fn law_header_line(st: MdState, level: nat, rest: Seq<char>)
    requires
        1 <= level <= 6,
        forall|i: int| 0 <= i < rest.len() ==> rest[i] != '\n',
        rest.len() == 0 || !is_ws(rest[0]),
    ensures
        step(st, repeated('#', level) + seq![' '] + rest) == match inline_tokens(rest) {
            Some(c) => Some(emit(st, Block::Header { level: level as int, content: c })),
            None => None,
        },
{
    let line = repeated('#', level) + seq![' '] + rest;
    let l = level as int;
    assert(line[l] == ' ');
    assert forall|i: int| 0 <= i < l implies line[i] == '#' by {}
    lemma_run_end_at(line, '#', 0, l);
    assert(is_ws(' '));
    if rest.len() > 0 {
        assert(line[l + 1] == rest[0]);
    }
    lemma_ws_end_at(line, l, l + 1);
    assert forall|i: int| l + 1 <= i < line.len() implies line[i] != '\n' by {
        assert(line[i] == rest[i - l - 1]);
    }
    lemma_find_char_none(line, '\n', l + 1);
    assert(line.subrange(l + 1, line.len() as int) =~= rest);
}

/// A list item line outside a code block is a list item: `-` or `*`, a
/// space, then text with no newline, gives a list item holding the inline
/// tokens of that text, whatever its length.
pub proof fn law_list_item_line(st: MdState, marker: char, rest: Seq<char>)
    requires
        !st.in_code,
        marker == '-' || marker == '*',
        forall|i: int| 0 <= i < rest.len() ==> rest[i] != '\n',
    ensures
        step(st, seq![marker, ' '] + rest) == match inline_tokens(rest) {
            Some(c) => Some(emit(st, Block::UnorderedListItem(c))),
            None => None,
        },
{
    let line = seq![marker, ' '] + rest;
    assert(line[0] == marker);
    assert(line[1] == ' ');
    assert(is_ws(' '));
    lemma_run_end_at(line, '#', 0, 0);
    if marker == '-' {
        lemma_run_end_at(line, '-', 0, 1);
    } else {
        lemma_run_end_at(line, '-', 0, 0);
    }
    assert forall|i: int| 2 <= i < line.len() implies line[i] != '\n' by {
        assert(line[i] == rest[i - 2]);
    }
    lemma_find_char_none(line, '\n', 2);
    assert(line.subrange(2, line.len() as int) =~= rest);
}

/// With one span, the inline tokens are what reading that span from the start
/// gives.
proof fn lemma_one_span(s: Seq<char>, sp: (int, int, Inline))
    requires
        collected_spans(s) == seq![sp],
    ensures
        inline_tokens(s) == read_spans(s, seq![sp], Cursor::At(0)),
{
    let e = Seq::<(int, int, Inline)>::empty();
    let one = seq![sp];
    assert(one.drop_last() =~= e);
    assert(sort_by_start(e) == e);
    assert(e.insert(0, sp) =~= one);
    assert(sort_by_start(one) == one);
}

/// Reading one span that covers the whole text, ending on a one-byte
/// character or past the text, gives its token alone.
proof fn lemma_read_whole_span(s: Seq<char>, sp: (int, int, Inline))
    requires
        sp.0 == 0,
        0 <= sp.1,
        sp.1 >= s.len() - 1,
        sp.1 < s.len() ==> is_one_byte(s[sp.1]),
    ensures
        read_spans(s, seq![sp], Cursor::At(0)) == Some(seq![sp.2]),
{
    let one = seq![sp];
    assert(one[0] == sp);
    assert(one.drop_first() =~= Seq::<(int, int, Inline)>::empty());
    let cur = cursor_after(s, sp.1);
    assert(tail(s, cur) == Some(Seq::<Inline>::empty()));
    assert(read_spans(s, one.drop_first(), cur) == Some(Seq::<Inline>::empty()));
    assert(piece(s, Cursor::At(0), sp) == Some(seq![sp.2]));
    assert(seq![sp.2] + Seq::<Inline>::empty() =~= seq![sp.2]);
}

/// No pattern other than emphasis matches a text with no `[` and no `<`, and
/// no emphasis one with no `*`.
proof fn lemma_no_links(s: Seq<char>)
    requires
        forall|i: int| 0 <= i < s.len() ==> s[i] != '[' && s[i] != '<',
    ensures
        scan(s, 0, Pattern::NamedLink) == Seq::<(int, int, int, int)>::empty(),
        scan(s, 0, Pattern::Image) == Seq::<(int, int, int, int)>::empty(),
        scan(s, 0, Pattern::AngleLink) == Seq::<(int, int, int, int)>::empty(),
{
    assert forall|p: int| 0 <= p < s.len() implies #[trigger] match_at(s, p, Pattern::NamedLink) is None
        && match_at(s, p, Pattern::Image) is None && match_at(s, p, Pattern::AngleLink) is None by {
        assert(bracket_link_at(s, p) is None);
        assert(bracket_link_at(s, p + 1) is None);
    }
    lemma_scan_none(s, 0, Pattern::NamedLink);
    lemma_scan_none(s, 0, Pattern::Image);
    lemma_scan_none(s, 0, Pattern::AngleLink);
}

/// Text between equal runs of `*` is emphasis: one `*` on each side gives
/// italics, three bold italics, and two or more than three bold, holding the
/// text, whatever its length.
pub proof fn law_emphasis_text(n: nat, w: Seq<char>)
    requires
        n >= 1,
        w.len() >= 1,
        !is_ws(w[0]),
        !is_ws(w.last()),
        forall|i: int| 0 <= i < w.len() ==> w[i] != '*' && w[i] != '[' && w[i] != '<',
    ensures
        inline_tokens(repeated('*', n) + w + repeated('*', n)) == Some(
            seq![
                if n == 1 {
                    Inline::Italics(w)
                } else if n == 3 {
                    Inline::BoldItalics(w)
                } else {
                    Inline::Bold(w)
                },
            ],
        ),
{
    let s = repeated('*', n) + w + repeated('*', n);
    let k = n as int;
    let l = w.len() as int;
    assert forall|i: int| 0 <= i < k implies #[trigger] s[i] == '*' by {}
    assert forall|i: int| 0 <= i < l implies s[k + i] == w[i] by {}
    assert(s.len() == 2 * k + l);
    lemma_run_end_at(s, '*', 0, k);
    if l == 1 {
        lemma_find_char_at(s, '*', k + 1, k + 1);
    } else {
        assert forall|i: int| k + 1 <= i < k + l implies s[i] != '*' by {
            assert(s[i] == w[i - k]);
        }
        lemma_find_char_at(s, '*', k + 1, k + l);
    }
    assert(s[k + l - 1] == w.last());
    assert forall|i: int| k + l <= i < 2 * k + l implies #[trigger] s[i] == '*' by {}
    lemma_run_end_at(s, '*', k + l, 2 * k + l);
    let m = (0int, k, k + l, 2 * k + l);
    assert(match_at(s, 0, Pattern::Emphasis) == Some(m));
    assert(scan(s, 2 * k + l, Pattern::Emphasis) == Seq::<(int, int, int, int)>::empty());
    assert(scan(s, 0, Pattern::Emphasis) =~= seq![m]);
    assert forall|i: int| 0 <= i < s.len() implies s[i] != '[' && s[i] != '<' by {
        if k <= i < k + l {
            assert(s[i] == w[i - k]);
        }
    }
    lemma_no_links(s);
    assert(s.subrange(k, k + l) =~= w);
    let sp = span_of(s, Pattern::Emphasis, m);
    assert(spans_of(s, Pattern::Emphasis) =~= seq![sp]);
    assert(collected_spans(s) =~= seq![sp]);
    lemma_one_span(s, sp);
    lemma_read_whole_span(s, sp);
}

/// `[caption](url)` alone is a link with that caption and url, whatever
/// their length, when neither holds a newline, a bracket, a parenthesis, `*`
/// or `<`.
pub proof fn law_named_link_text(c: Seq<char>, u: Seq<char>)
    requires
        c.len() >= 1,
        u.len() >= 1,
        forall|i: int| 0 <= i < c.len() ==> plain_link_char(#[trigger] c[i]),
        forall|i: int| 0 <= i < u.len() ==> plain_link_char(#[trigger] u[i]),
    ensures
        inline_tokens(seq!['['] + c + seq![']', '('] + u + seq![')']) == Some(
            seq![Inline::Link { caption: c, url: u }],
        ),
{
    let s = seq!['['] + c + seq![']', '('] + u + seq![')'];
    let a = c.len() as int;
    let b = u.len() as int;
    let n = a + b + 4;
    assert(s.len() == n);
    assert(s[0] == '[');
    assert forall|i: int| 0 <= i < a implies s[1 + i] == c[i] by {}
    assert(s[a + 1] == ']' && s[a + 2] == '(');
    assert forall|i: int| 0 <= i < b implies s[a + 3 + i] == u[i] by {}
    assert(s[n - 1] == ')');
    assert forall|i: int| 0 <= i < n implies s[i] != '\n' && s[i] != '*' && s[i] != '<' by {
        if 1 <= i < a + 1 {
            assert(s[i] == c[i - 1]);
            assert(plain_link_char(c[i - 1]));
        } else if a + 3 <= i < n - 1 {
            assert(s[i] == u[i - a - 3]);
            assert(plain_link_char(u[i - a - 3]));
        }
    }
    lemma_find_char_none(s, '\n', 1);
    lemma_last_char_at(s, ')', 1, n, n - 1);
    assert forall|i: int| a + 1 < i < n - 3 implies s[i] != ']' by {
        if a + 3 <= i {
            assert(s[i] == u[i - a - 3]);
            assert(plain_link_char(u[i - a - 3]));
        }
    }
    lemma_last_link_joint_at(s, 2, n - 3, a + 1);
    let m = (0int, a + 1, n - 1, n);
    assert(bracket_link_at(s, 0) == Some((0int, a + 1, n - 1)));
    assert(match_at(s, 0, Pattern::NamedLink) == Some(m));
    assert(scan(s, n, Pattern::NamedLink) == Seq::<(int, int, int, int)>::empty());
    assert(scan(s, 0, Pattern::NamedLink) =~= seq![m]);
    assert forall|p: int| 0 <= p < n implies #[trigger] match_at(s, p, Pattern::Emphasis) is None
        && match_at(s, p, Pattern::Image) is None && match_at(s, p, Pattern::AngleLink) is None by {
        if 1 <= p < a + 1 {
            assert(s[p] == c[p - 1]);
            assert(plain_link_char(c[p - 1]));
        } else if a + 3 <= p < n - 1 {
            assert(s[p] == u[p - a - 3]);
            assert(plain_link_char(u[p - a - 3]));
        }
    }
    lemma_scan_none(s, 0, Pattern::Emphasis);
    lemma_scan_none(s, 0, Pattern::Image);
    lemma_scan_none(s, 0, Pattern::AngleLink);
    assert(s.subrange(1, a + 1) =~= c);
    assert(s.subrange(a + 3, n - 1) =~= u);
    let sp = span_of(s, Pattern::NamedLink, m);
    assert(spans_of(s, Pattern::NamedLink) =~= seq![sp]);
    assert(collected_spans(s) =~= seq![sp]);
    lemma_one_span(s, sp);
    assert(is_one_byte(s[n - 1]));
    lemma_read_whole_span(s, sp);
}

/// `<url>` alone is a link whose caption and url are both the url, whatever
/// its length, when it holds no newline, bracket, parenthesis, `*`, `<` or
/// `>`.
pub proof fn law_angle_link_text(u: Seq<char>)
    requires
        u.len() >= 1,
        forall|i: int| 0 <= i < u.len() ==> plain_link_char(#[trigger] u[i]),
    ensures
        inline_tokens(seq!['<'] + u + seq!['>']) == Some(seq![Inline::Link { caption: u, url: u }]),
{
    let s = seq!['<'] + u + seq!['>'];
    let b = u.len() as int;
    let n = b + 2;
    assert(s.len() == n);
    assert(s[0] == '<' && s[n - 1] == '>');
    assert forall|i: int| 0 <= i < b implies s[1 + i] == u[i] by {}
    assert forall|i: int| 1 <= i < n - 1 implies s[i] != '\n' && s[i] != '>' && plain_link_char(s[i]) by {
        assert(s[i] == u[i - 1]);
    }
    lemma_find_char_none(s, '\n', 1);
    lemma_last_char_at(s, '>', 2, n, n - 1);
    let m = (0int, n - 1, n - 1, n);
    assert(match_at(s, 0, Pattern::AngleLink) == Some(m));
    assert(scan(s, n, Pattern::AngleLink) == Seq::<(int, int, int, int)>::empty());
    assert(scan(s, 0, Pattern::AngleLink) =~= seq![m]);
    assert forall|p: int| 0 <= p < n implies #[trigger] match_at(s, p, Pattern::Emphasis) is None
        && match_at(s, p, Pattern::Image) is None && match_at(s, p, Pattern::NamedLink) is None by {
        assert(bracket_link_at(s, p) is None);
        assert(bracket_link_at(s, p + 1) is None);
    }
    lemma_scan_none(s, 0, Pattern::Emphasis);
    lemma_scan_none(s, 0, Pattern::Image);
    lemma_scan_none(s, 0, Pattern::NamedLink);
    assert(s.subrange(1, n - 1) =~= u);
    let sp = span_of(s, Pattern::AngleLink, m);
    assert(spans_of(s, Pattern::AngleLink) =~= seq![sp]);
    assert(collected_spans(s) =~= seq![sp]);
    lemma_one_span(s, sp);
    assert(is_one_byte(s[n - 1]));
    lemma_read_whole_span(s, sp);
}

} // verus!
