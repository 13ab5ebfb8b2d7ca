//! The markdown dialect of `Parser`: block tokens for headers, code blocks,
//! divider lines, unordered list items and paragraphs, with emphasis and links
//! inside them.  Paragraph text is kept only until the end of one `parse` call.
use vstd::prelude::*;
use crate::text::{
    sub_vec, sub_string, string_of, chars_of, split_newlines, pieces_from, line_at, with_line,
    append_line, prepend, with_lines, lemma_run_end_at, lemma_ws_end_at, lemma_find_char_none,
    is_ws, lemma_find_char_at, lemma_last_char_at,
};
use crate::patterns::{
    header_match, list_item_match, fence_one_ws_tail, dash_line, near_blank_line,
    header_match_exec, list_item_match_exec, fence_one_ws_tail_exec, dash_line_exec,
    near_blank_line_exec, lemma_header_match, lemma_list_item_match,
};
use crate::inline_scan::{
    Pattern, scan, scan_exec, found_view, lemma_scan, lemma_match_at, match_at, lemma_scan_none,
    bracket_link_at, lemma_last_link_joint_at, plain_link_char,
};
use crate::spans::{
    Span, span_views, sort_by_start, sort_spans, Cursor, CursorExec, cursor_after,
    cursor_after_exec, spans_within, lemma_sort_within,
};

verus! {

#[derive(Debug, Clone, PartialEq, Eq)]
pub enum BlockToken {
    Paragraph(Vec<InlineToken>),
    Header { level: u8, content: Vec<InlineToken> },
    Code(String),
    Line,
    UnorderedListItem(Vec<InlineToken>),
}

#[derive(Debug, Clone, PartialEq, Eq)]
pub enum InlineToken {
    Unformatted(String),
    Bold(String),
    Italics(String),
    BoldItalics(String),
    Code(String),
    Link { caption: String, url: String },
}

/// What an inline token stands for.
pub enum Inline {
    Unformatted(Seq<char>),
    Bold(Seq<char>),
    Italics(Seq<char>),
    BoldItalics(Seq<char>),
    Code(Seq<char>),
    Link { caption: Seq<char>, url: Seq<char> },
}

/// What a block token stands for.
pub enum Block {
    Paragraph(Seq<Inline>),
    Header { level: int, content: Seq<Inline> },
    Code(Seq<char>),
    Line,
    UnorderedListItem(Seq<Inline>),
}

impl View for InlineToken {
    type V = Inline;

    open spec fn view(&self) -> Inline {
        match self {
            InlineToken::Unformatted(s) => Inline::Unformatted(s@),
            InlineToken::Bold(s) => Inline::Bold(s@),
            InlineToken::Italics(s) => Inline::Italics(s@),
            InlineToken::BoldItalics(s) => Inline::BoldItalics(s@),
            InlineToken::Code(s) => Inline::Code(s@),
            InlineToken::Link { caption, url } => Inline::Link { caption: caption@, url: url@ },
        }
    }
}

pub open spec fn inlines_view(v: Seq<InlineToken>) -> Seq<Inline> {
    v.map_values(|t: InlineToken| t@)
}

impl View for BlockToken {
    type V = Block;

    open spec fn view(&self) -> Block {
        match self {
            BlockToken::Paragraph(c) => Block::Paragraph(inlines_view(c@)),
            BlockToken::Header { level, content } => Block::Header {
                level: *level as int,
                content: inlines_view(content@),
            },
            BlockToken::Code(s) => Block::Code(s@),
            BlockToken::Line => Block::Line,
            BlockToken::UnorderedListItem(c) => Block::UnorderedListItem(inlines_view(c@)),
        }
    }
}

pub open spec fn blocks_view(v: Seq<BlockToken>) -> Seq<Block> {
    v.map_values(|b: BlockToken| b@)
}

fn copy_inline(t: &InlineToken) -> (r: InlineToken)
    ensures
        r@ == t@,
{
    match t {
        InlineToken::Unformatted(s) => InlineToken::Unformatted(s.clone()),
        InlineToken::Bold(s) => InlineToken::Bold(s.clone()),
        InlineToken::Italics(s) => InlineToken::Italics(s.clone()),
        InlineToken::BoldItalics(s) => InlineToken::BoldItalics(s.clone()),
        InlineToken::Code(s) => InlineToken::Code(s.clone()),
        InlineToken::Link { caption, url } => InlineToken::Link {
            caption: caption.clone(),
            url: url.clone(),
        },
    }
}

fn copy_inlines(v: &Vec<InlineToken>) -> (r: Vec<InlineToken>)
    ensures
        inlines_view(r@) == inlines_view(v@),
{
    let mut r: Vec<InlineToken> = Vec::new();
    let mut i: usize = 0;
    while i < v.len()
        invariant
            i <= v.len(),
            inlines_view(r@) == inlines_view(v@).take(i as int),
        decreases v.len() - i,
    {
        let t = copy_inline(&v[i]);
        let ghost old_r = r@;
        r.push(t);
        assert(inlines_view(r@) =~= inlines_view(old_r).push(t@));
        i = i + 1;
        assert(inlines_view(v@).take(i as int) =~= inlines_view(v@).take(i - 1).push(v@[i - 1]@));
    }
    assert(inlines_view(v@).take(i as int) =~= inlines_view(v@));
    r
}

fn copy_block(b: &BlockToken) -> (r: BlockToken)
    ensures
        r@ == b@,
{
    match b {
        BlockToken::Paragraph(c) => BlockToken::Paragraph(copy_inlines(c)),
        BlockToken::Header { level, content } => BlockToken::Header {
            level: *level,
            content: copy_inlines(content),
        },
        BlockToken::Code(s) => BlockToken::Code(s.clone()),
        BlockToken::Line => BlockToken::Line,
        BlockToken::UnorderedListItem(c) => BlockToken::UnorderedListItem(copy_inlines(c)),
    }
}

fn copy_blocks(v: &Vec<BlockToken>) -> (r: Vec<BlockToken>)
    ensures
        blocks_view(r@) == blocks_view(v@),
{
    let mut r: Vec<BlockToken> = Vec::new();
    let mut i: usize = 0;
    while i < v.len()
        invariant
            i <= v.len(),
            blocks_view(r@) == blocks_view(v@).take(i as int),
        decreases v.len() - i,
    {
        let b = copy_block(&v[i]);
        let ghost old_r = r@;
        r.push(b);
        assert(blocks_view(r@) =~= blocks_view(old_r).push(b@));
        i = i + 1;
        assert(blocks_view(v@).take(i as int) =~= blocks_view(v@).take(i - 1).push(v@[i - 1]@));
    }
    assert(blocks_view(v@).take(i as int) =~= blocks_view(v@));
    r
}

// ---------------------------------------------------------------------------
// Inline spans
// ---------------------------------------------------------------------------

/// The token of an emphasis whose shorter run of `*` has `n` characters.
pub open spec fn emphasis_token(n: int, content: Seq<char>) -> Inline {
    if n == 1 {
        Inline::Italics(content)
    } else if n == 3 {
        Inline::BoldItalics(content)
    } else {
        Inline::Bold(content)
    }
}

/// The span that a match of `pat` in `s` gives.  A named link's span ends at
/// its `](`, an angle link's at its `>`.
pub open spec fn span_of(s: Seq<char>, pat: Pattern, m: (int, int, int, int)) -> (int, int, Inline) {
    match pat {
        Pattern::Emphasis => {
            let n = if m.1 - m.0 <= m.3 - m.2 { m.1 - m.0 } else { m.3 - m.2 };
            (m.1 - n, m.2 + n, emphasis_token(n, s.subrange(m.1, m.2)))
        },
        Pattern::NamedLink => (m.0, m.1, Inline::Link {
            caption: s.subrange(m.0 + 1, m.1),
            url: s.subrange(m.1 + 2, m.2),
        }),
        _ => (m.0, m.2, Inline::Link {
            caption: s.subrange(m.0 + 1, m.2),
            url: s.subrange(m.0 + 1, m.2),
        }),
    }
}

/// The spans of all matches of `pat` in `s`, in the order found.
pub open spec fn spans_of(s: Seq<char>, pat: Pattern) -> Seq<(int, int, Inline)> {
    scan(s, 0, pat).map_values(|m: (int, int, int, int)| span_of(s, pat, m))
}

/// All spans of `s`: emphasis, then named links, then angle links.
pub open spec fn collected_spans(s: Seq<char>) -> Seq<(int, int, Inline)> {
    spans_of(s, Pattern::Emphasis) + spans_of(s, Pattern::NamedLink) + spans_of(s, Pattern::AngleLink)
}

fn span_from_match(text: &Vec<char>, pat: Pattern, m: (usize, usize, usize, usize)) -> (r: Span<
    InlineToken,
>)
    requires
        match_at(text@, m.0 as int, pat) == Some((m.0 as int, m.1 as int, m.2 as int, m.3 as int)),
        pat != Pattern::Image,
    ensures
        r@ == span_of(text@, pat, (m.0 as int, m.1 as int, m.2 as int, m.3 as int)),
{
    proof {
        lemma_match_at(text@, m.0 as int, pat);
    }
    match pat {
        Pattern::Emphasis => {
            let n = if m.1 - m.0 <= m.3 - m.2 {
                m.1 - m.0
            } else {
                m.3 - m.2
            };
            let content = sub_string(text, m.1, m.2);
            let token = if n == 1 {
                InlineToken::Italics(content)
            } else if n == 3 {
                InlineToken::BoldItalics(content)
            } else {
                InlineToken::Bold(content)
            };
            Span { start: m.1 - n, end: m.2 + n, token }
        },
        Pattern::NamedLink => Span {
            start: m.0,
            end: m.1,
            token: InlineToken::Link {
                caption: sub_string(text, m.0 + 1, m.1),
                url: sub_string(text, m.1 + 2, m.2),
            },
        },
        _ => Span {
            start: m.0,
            end: m.2,
            token: InlineToken::Link {
                caption: sub_string(text, m.0 + 1, m.2),
                url: sub_string(text, m.0 + 1, m.2),
            },
        },
    }
}

fn push_spans(text: &Vec<char>, pat: Pattern, spans: &mut Vec<Span<InlineToken>>)
    requires
        pat != Pattern::Image,
    ensures
        span_views(final(spans)@) == span_views(old(spans)@) + spans_of(text@, pat),
{
    let found = scan_exec(text, pat);
    let ghost prefix = span_views(spans@);
    let ghost all = spans_of(text@, pat);
    proof {
        lemma_scan(text@, 0, pat);
        assert(all.len() == found@.len());
    }
    let mut i: usize = 0;
    while i < found.len()
        invariant
            i <= found.len(),
            pat != Pattern::Image,
            all.len() == found@.len(),
            all == spans_of(text@, pat),
            found_view(found@) == scan(text@, 0, pat),
            forall|k: int|
                0 <= k < scan(text@, 0, pat).len() ==> match_at(
                    text@,
                    #[trigger] scan(text@, 0, pat)[k].0,
                    pat,
                ) == Some(scan(text@, 0, pat)[k]),
            span_views(spans@) == prefix + all.take(i as int),
        decreases found.len() - i,
    {
        let m = found[i];
        proof {
            assert(found_view(found@)[i as int] == (m.0 as int, m.1 as int, m.2 as int, m.3 as int));
        }
        let sp = span_from_match(text, pat, m);
        assert(sp@ == all[i as int]);
        let ghost old_spans = spans@;
        spans.push(sp);
        assert(span_views(spans@) =~= span_views(old_spans).push(sp@));
        i = i + 1;
        proof {
            assert(all.take(i as int) =~= all.take(i - 1).push(all[i - 1]));
            assert(span_views(spans@) =~= prefix + all.take(i as int));
        }
    }
    proof {
        assert(all.take(i as int) =~= all);
    }
}

/// The spans of `text`, as `collected_spans` orders them.
fn collect_inline_spans(text: &Vec<char>) -> (r: Vec<Span<InlineToken>>)
    ensures
        span_views(r@) == collected_spans(text@),
{
    let mut spans: Vec<Span<InlineToken>> = Vec::new();
    assert(span_views(spans@) =~= Seq::<(int, int, Inline)>::empty());
    push_spans(text, Pattern::Emphasis, &mut spans);
    push_spans(text, Pattern::NamedLink, &mut spans);
    push_spans(text, Pattern::AngleLink, &mut spans);
    assert(span_views(spans@) =~= collected_spans(text@));
    spans
}

pub proof fn lemma_spans_of_within(s: Seq<char>, pat: Pattern)
    requires
        pat != Pattern::Image,
    ensures
        spans_within(spans_of(s, pat), s.len() as int),
{
    lemma_scan(s, 0, pat);
    let found = scan(s, 0, pat);
    assert forall|j: int| 0 <= j < spans_of(s, pat).len() implies 0 <= #[trigger] spans_of(
        s,
        pat,
    )[j].0 < s.len() && spans_of(s, pat)[j].0 <= spans_of(s, pat)[j].1 <= s.len() by {
        assert(match_at(s, found[j].0, pat) == Some(found[j]));
        lemma_match_at(s, found[j].0, pat);
    }
}

pub proof fn lemma_collected_within(s: Seq<char>)
    ensures
        spans_within(collected_spans(s), s.len() as int),
{
    lemma_spans_of_within(s, Pattern::Emphasis);
    lemma_spans_of_within(s, Pattern::NamedLink);
    lemma_spans_of_within(s, Pattern::AngleLink);
    let a = spans_of(s, Pattern::Emphasis);
    let b = spans_of(s, Pattern::NamedLink);
    let d = spans_of(s, Pattern::AngleLink);
    let all = collected_spans(s);
    assert forall|j: int| 0 <= j < all.len() implies 0 <= #[trigger] all[j].0 < s.len()
        && all[j].0 <= all[j].1 <= s.len() by {
        if j < a.len() {
            assert(all[j] == a[j]);
        } else if j < a.len() + b.len() {
            assert(all[j] == b[j - a.len()]);
        } else {
            assert(all[j] == d[j - a.len() - b.len()]);
        }
    }
}

/// The tokens that reading up to and over a span adds: the plain text from the
/// cursor to the span, when not empty, then the span's token.  `None` where
/// the cursor is past the span's start or inside a character.
pub open spec fn piece(s: Seq<char>, cur: Cursor, sp: (int, int, Inline)) -> Option<Seq<Inline>> {
    match cur {
        Cursor::At(k) => if k < sp.0 {
            Some(seq![Inline::Unformatted(s.subrange(k, sp.0)), sp.2])
        } else if k == sp.0 {
            Some(seq![sp.2])
        } else {
            None
        },
        _ => None,
    }
}

/// Reading the spans in order from the cursor; the text after the last span
/// is not read.
pub open spec fn read_spans(s: Seq<char>, spans: Seq<(int, int, Inline)>, cur: Cursor) -> Option<
    Seq<Inline>,
>
    decreases spans.len(),
{
    if spans.len() == 0 {
        Some(seq![])
    } else {
        match piece(s, cur, spans[0]) {
            None => None,
            Some(p) => match read_spans(s, spans.drop_first(), cursor_after(s, spans[0].1)) {
                None => None,
                Some(r) => Some(p + r),
            },
        }
    }
}

/// The inline tokens of a text: one plain token when no pattern matches;
/// otherwise the spans read in order of their start.  `None` where the
/// reading would go backwards or split a character.
pub open spec fn inline_tokens(s: Seq<char>) -> Option<Seq<Inline>> {
    let spans = collected_spans(s);
    if spans.len() == 0 {
        Some(seq![Inline::Unformatted(s)])
    } else {
        read_spans(s, sort_by_start(spans), Cursor::At(0))
    }
}

pub open spec fn opt_inlines(r: Option<Vec<InlineToken>>) -> Option<Seq<Inline>> {
    match r {
        Some(v) => Some(inlines_view(v@)),
        None => None,
    }
}

fn push_inline(tokens: &mut Vec<InlineToken>, t: InlineToken)
    ensures
        inlines_view(final(tokens)@) == inlines_view(old(tokens)@).push(t@),
{
    tokens.push(t);
    assert(inlines_view(tokens@) =~= inlines_view(old(tokens)@).push(t@));
}

impl Parser {
    /// The inline tokens of `text`; `None` where reading them would go back or
    /// split a character.
    fn process_inline(&self, text: &Vec<char>) -> (r: Option<Vec<InlineToken>>)
        ensures
            opt_inlines(r) == inline_tokens(text@),
    {
        let spans = collect_inline_spans(text);
        let mut tokens: Vec<InlineToken> = Vec::new();
        if spans.len() == 0 {
            push_inline(&mut tokens, InlineToken::Unformatted(string_of(text)));
            assert(inlines_view(tokens@) =~= seq![Inline::Unformatted(text@)]);
            return Some(tokens);
        }
        proof {
            lemma_collected_within(text@);
            lemma_sort_within(collected_spans(text@), text@.len() as int);
        }
        let spans = sort_spans(spans);
        let ghost sorted = span_views(spans@);
        let mut cursor = CursorExec::At(0);
        let mut i: usize = 0;
        assert(inlines_view(tokens@) =~= Seq::<Inline>::empty());
        assert(sorted.skip(0) =~= sorted);
        while i < spans.len()
            invariant
                i <= spans.len(),
                sorted == span_views(spans@),
                spans_within(sorted, text@.len() as int),
                cursor matches CursorExec::At(k) ==> k <= text@.len(),
                inline_tokens(text@) == prepend(
                    inlines_view(tokens@),
                    read_spans(text@, sorted.skip(i as int), cursor@),
                ),
            decreases spans.len() - i,
        {
            let ghost rest = sorted.skip(i as int);
            assert(rest[0] == sorted[i as int]);
            assert(rest.drop_first() =~= sorted.skip(i + 1));
            assert(sorted[i as int] == spans[i as int]@);
            let ghost before = inlines_view(tokens@);
            match cursor {
                CursorExec::At(k) => {
                    if k > spans[i].start {
                        return None;
                    }
                    if k < spans[i].start {
                        let plain = sub_string(text, k, spans[i].start);
                        push_inline(&mut tokens, InlineToken::Unformatted(plain));
                    }
                },
                _ => {
                    return None;
                },
            }
            let t = copy_inline(&spans[i].token);
            push_inline(&mut tokens, t);
            proof {
                let p = piece(text@, cursor@, sorted[i as int]);
                assert(p is Some);
                assert(inlines_view(tokens@) =~= before + p->0);
            }
            cursor = cursor_after_exec(text, spans[i].end);
            i = i + 1;
        }
        proof {
            assert(sorted.skip(i as int) =~= Seq::<(int, int, Inline)>::empty());
            assert(inlines_view(tokens@) + Seq::<Inline>::empty() =~= inlines_view(tokens@));
        }
        Some(tokens)
    }
}

// ---------------------------------------------------------------------------
// Blocks
// ---------------------------------------------------------------------------

/// What the parser keeps between calls: the block tokens so far and whether
/// a code block is open.
pub struct ParserState {
    pub tokens: Seq<Block>,
    pub in_code: bool,
}

/// The state of a new parser.
pub open spec fn initial_state() -> ParserState {
    ParserState { tokens: seq![], in_code: false }
}

/// `st` with one more block token.
pub open spec fn emit(st: ParserState, b: Block) -> ParserState {
    ParserState { tokens: st.tokens.push(b), in_code: st.in_code }
}

/// Ending a paragraph whose text so far is `text`: a paragraph token when
/// the text is not empty, and no text after.
pub open spec fn flush(st: ParserState, text: Seq<char>) -> Option<(ParserState, Seq<char>)> {
    if text.len() > 0 {
        match inline_tokens(text) {
            Some(c) => Some((emit(st, Block::Paragraph(c)), seq![])),
            None => None,
        }
    } else {
        Some((st, seq![]))
    }
}

/// Reading one line, with `text` the paragraph or code read so far.  A header
/// line with content is a header wherever it stands; a fence line opens or
/// closes a code block; inside a code block every other line is code; outside,
/// a divider, a list item, a (nearly) empty line ending the paragraph, or a
/// line of paragraph text.
pub open spec fn step(st: ParserState, text: Seq<char>, line: Seq<char>) -> Option<
    (ParserState, Seq<char>),
> {
    match header_match(line) {
        Some((l, a, b)) if a < b => match inline_tokens(line.subrange(a, b)) {
            Some(c) => Some((emit(st, Block::Header { level: l, content: c }), text)),
            None => None,
        },
        _ => step_not_header(st, text, line),
    }
}

/// `step` on a line that is no header with content.
pub open spec fn step_not_header(st: ParserState, text: Seq<char>, line: Seq<char>) -> Option<
    (ParserState, Seq<char>),
> {
    if fence_one_ws_tail(line) {
        if st.in_code {
            Some((ParserState { tokens: st.tokens.push(Block::Code(text)), in_code: false }, seq![]))
        } else {
            match flush(st, text) {
                Some((f, t)) => Some((ParserState { tokens: f.tokens, in_code: true }, t)),
                None => None,
            }
        }
    } else if st.in_code {
        Some((st, with_line(text, line)))
    } else if dash_line(line) {
        Some((emit(st, Block::Line), text))
    } else {
        match list_item_match(line) {
            Some((a, b)) => match inline_tokens(line.subrange(a, b)) {
                Some(c) => Some((emit(st, Block::UnorderedListItem(c)), text)),
                None => None,
            },
            None => if near_blank_line(line) {
                flush(st, text)
            } else {
                Some((st, with_line(text, line)))
            },
        }
    }
}

/// Reading lines one after the other.
pub open spec fn run(st: ParserState, text: Seq<char>, lines: Seq<Seq<char>>) -> Option<
    (ParserState, Seq<char>),
>
    decreases lines.len(),
{
    if lines.len() == 0 {
        Some((st, text))
    } else {
        match step(st, text, lines[0]) {
            Some((n, t)) => run(n, t, lines.drop_first()),
            None => None,
        }
    }
}

/// Parsing a text: reading its pieces between newlines with no paragraph text
/// at first; what paragraph or code text is left at the end is dropped.
/// `None` where the parser would stop.
pub open spec fn parse_outcome(st: ParserState, input: Seq<char>) -> Option<ParserState> {
    match run(st, seq![], split_newlines(input)) {
        Some((r, _)) => Some(r),
        None => None,
    }
}

enum BlockState {
    IsInParagraph,
    IsInCode,
}

pub struct Parser {
    pub tokens: Vec<BlockToken>,
    state: BlockState,
}

impl View for Parser {
    type V = ParserState;

    closed spec fn view(&self) -> ParserState {
        ParserState { tokens: blocks_view(self.tokens@), in_code: self.state is IsInCode }
    }
}

/// Adds `new_line` to `orig_text` as its last line.
fn push_with_nl(orig_text: &mut Vec<char>, new_line: &Vec<char>)
    ensures
        final(orig_text)@ == with_line(old(orig_text)@, new_line@),
{
    append_line(orig_text, new_line);
}

proof fn lemma_run_cons(st: ParserState, text: Seq<char>, line: Seq<char>, rest: Seq<Seq<char>>)
    ensures
        run(st, text, seq![line] + rest) == match step(st, text, line) {
            Some((n, t)) => run(n, t, rest),
            None => None,
        },
{
    assert((seq![line] + rest)[0] == line);
    assert((seq![line] + rest).drop_first() =~= rest);
}

impl Parser {
    /// A parser with no tokens, outside any code block.
    pub fn default() -> (r: Self)
        ensures
            r@ == initial_state(),
    {
        let r = Parser { tokens: Vec::new(), state: BlockState::IsInParagraph };
        assert(blocks_view(r.tokens@) =~= Seq::<Block>::empty());
        r
    }

    /// The block tokens this parser has produced so far (its `tokens` field).
    pub fn tokens(&self) -> (r: &Vec<BlockToken>)
        ensures
            blocks_view(r@) == self@.tokens,
    {
        &self.tokens
    }

    fn push_block(&mut self, b: BlockToken)
        ensures
            final(self)@ == emit(old(self)@, b@),
    {
        self.tokens.push(b);
        assert(blocks_view(self.tokens@) =~= blocks_view(old(self).tokens@).push(b@));
    }

    /// Ends the paragraph held in `temp_content`; `false` where parsing stops.
    fn flush_paragraph(&mut self, temp_content: &mut Vec<char>) -> (ok: bool)
        ensures
            flush(old(self)@, old(temp_content)@) matches Some((n, t)) ==> ok && final(self)@ == n
                && final(temp_content)@ == t,
            flush(old(self)@, old(temp_content)@) is None ==> !ok,
    {
        if temp_content.len() > 0 {
            match self.process_inline(temp_content) {
                Some(content) => {
                    self.push_block(BlockToken::Paragraph(content));
                },
                None => {
                    return false;
                },
            }
        }
        *temp_content = Vec::new();
        assert(temp_content@ =~= Seq::<char>::empty());
        true
    }

    /// Reads one line; `false` where parsing stops.
    fn get_block_token(&mut self, line: &Vec<char>, temp_block_content: &mut Vec<char>) -> (ok:
        bool)
        ensures
            step(old(self)@, old(temp_block_content)@, line@) matches Some((n, t)) ==> ok
                && final(self)@ == n && final(temp_block_content)@ == t,
            step(old(self)@, old(temp_block_content)@, line@) is None ==> !ok,
    {
        proof {
            lemma_header_match(line@);
            lemma_list_item_match(line@);
        }
        // ------------ Header ------------------
        if let Some((level, a, b)) = header_match_exec(line) {
            if a < b {
                let text = sub_vec(line, a, b);
                match self.process_inline(&text) {
                    Some(content) => {
                        self.push_block(BlockToken::Header { level: level as u8, content });
                        return true;
                    },
                    None => {
                        return false;
                    },
                }
            }
        }
        // ----------- Code Block ------------------

        if fence_one_ws_tail_exec(line) {
            match self.state {
                BlockState::IsInCode => {
                    let code = string_of(temp_block_content);
                    self.push_block(BlockToken::Code(code));
                    *temp_block_content = Vec::new();
                    assert(temp_block_content@ =~= Seq::<char>::empty());
                    self.state = BlockState::IsInParagraph;
                },
                _ => {
                    if !self.flush_paragraph(temp_block_content) {
                        return false;
                    }
                    self.state = BlockState::IsInCode;
                },
            }
            return true;
        }
        if let BlockState::IsInCode = self.state {
            push_with_nl(temp_block_content, line);
            return true;
        }
        // ---------- Divider line ---------------

        if dash_line_exec(line) {
            self.push_block(BlockToken::Line);
            return true;
        }
        // ----------- Unordered List -------------

        if let Some((a, b)) = list_item_match_exec(line) {
            let text = sub_vec(line, a, b);
            match self.process_inline(&text) {
                Some(content) => {
                    self.push_block(BlockToken::UnorderedListItem(content));
                    return true;
                },
                None => {
                    return false;
                },
            }
        }
        // ----------- Paragraph ------------------

        if near_blank_line_exec(line) {
            return self.flush_paragraph(temp_block_content);
        }
        push_with_nl(temp_block_content, line);
        true
    }

    /// Parses `input`, as `parse` does; `None` exactly where `parse` would
    /// slice its input out of order or inside a character.
    pub fn try_parse(&mut self, input: &str) -> (r: Option<Vec<BlockToken>>)
        ensures
            parse_outcome(old(self)@, input@) matches Some(n) ==> r matches Some(v)
                && final(self)@ == n && blocks_view(v@) == n.tokens,
            parse_outcome(old(self)@, input@) is None ==> r is None,
    {
        let s = chars_of(input);
        let mut temp_block_content: Vec<char> = Vec::new();
        let mut pos: usize = 0;
        loop
            invariant_except_break
                pos <= s.len(),
                s@ == input@,
                run(old(self)@, seq![], split_newlines(s@)) == run(
                    self@,
                    temp_block_content@,
                    pieces_from(s@, pos as int),
                ),
            ensures
                s@ == input@,
                run(old(self)@, seq![], split_newlines(s@)) == run(
                    self@,
                    temp_block_content@,
                    seq![],
                ),
            decreases s.len() - pos,
        {
            let (line, e) = line_at(&s, pos, false);
            if e < s.len() {
                proof {
                    assert(pieces_from(s@, pos as int) == seq![line@] + pieces_from(s@, e + 1));
                    lemma_run_cons(self@, temp_block_content@, line@, pieces_from(s@, e + 1));
                }
                if !self.get_block_token(&line, &mut temp_block_content) {
                    return None;
                }
                pos = e + 1;
            } else {
                proof {
                    assert(pieces_from(s@, pos as int) == seq![line@] + Seq::<Seq<char>>::empty());
                    lemma_run_cons(self@, temp_block_content@, line@, seq![]);
                }
                if !self.get_block_token(&line, &mut temp_block_content) {
                    return None;
                }
                break;
            }
        }
        Some(copy_blocks(&self.tokens))
    }

    /// Parses `input`, one piece between newlines at a time, and returns all
    /// block tokens this parser has produced so far.
    pub fn parse(&mut self, input: &str) -> (r: Vec<BlockToken>)
        requires
            parse_outcome(old(self)@, input@) is Some,
        ensures
            parse_outcome(old(self)@, input@) == Some(final(self)@),
            blocks_view(r@) == final(self)@.tokens,
    {
        match self.try_parse(input) {
            Some(v) => v,
            None => Vec::new(),
        }
    }
}

// ---------------------------------------------------------------------------
// Laws
// ---------------------------------------------------------------------------

/// `b` keeps `a` as its beginning, and each token after it that is a header
/// has a level from 1 to 6.
pub open spec fn grows(a: Seq<Block>, b: Seq<Block>) -> bool {
    &&& a.len() <= b.len()
    &&& b.subrange(0, a.len() as int) == a
    &&& forall|i: int|
        a.len() <= i < b.len() ==> (#[trigger] b[i] matches Block::Header { level, .. } ==> 1 <= level
            <= 6)
}

proof fn lemma_grows_push(a: Seq<Block>, b: Block)
    requires
        b matches Block::Header { level, .. } ==> 1 <= level <= 6,
    ensures
        grows(a, a.push(b)),
{
    assert(a.push(b).subrange(0, a.len() as int) =~= a);
}

proof fn lemma_grows_trans(a: Seq<Block>, b: Seq<Block>, c: Seq<Block>)
    requires
        grows(a, b),
        grows(b, c),
    ensures
        grows(a, c),
{
    assert(c.subrange(0, a.len() as int) =~= b.subrange(0, a.len() as int));
    assert forall|i: int| a.len() <= i < c.len() implies (#[trigger] c[i] matches Block::Header {
        level,
        ..
    } ==> 1 <= level <= 6) by {
        if i < b.len() {
            assert(c[i] == c.subrange(0, b.len() as int)[i]);
        }
    }
}

proof fn lemma_grows_refl(a: Seq<Block>)
    ensures
        grows(a, a),
{
    assert(a.subrange(0, a.len() as int) =~= a);
}

proof fn lemma_flush_grows(st: ParserState, text: Seq<char>)
    ensures
        flush(st, text) matches Some((n, _)) ==> grows(st.tokens, n.tokens),
{
    lemma_grows_refl(st.tokens);
    if text.len() > 0 {
        if let Some(c) = inline_tokens(text) {
            lemma_grows_push(st.tokens, Block::Paragraph(c));
        }
    }
}

proof fn lemma_step_grows(st: ParserState, text: Seq<char>, line: Seq<char>)
    ensures
        step(st, text, line) matches Some((n, _)) ==> grows(st.tokens, n.tokens),
{
    lemma_header_match(line);
    lemma_grows_refl(st.tokens);
    lemma_flush_grows(st, text);
    lemma_grows_push(st.tokens, Block::Line);
    lemma_grows_push(st.tokens, Block::Code(text));
    if let Some((l, a, b)) = header_match(line) {
        if let Some(c) = inline_tokens(line.subrange(a, b)) {
            lemma_grows_push(st.tokens, Block::Header { level: l, content: c });
        }
    }
    if let Some((a, b)) = list_item_match(line) {
        if let Some(c) = inline_tokens(line.subrange(a, b)) {
            lemma_grows_push(st.tokens, Block::UnorderedListItem(c));
        }
    }
}

proof fn lemma_run_grows(st: ParserState, text: Seq<char>, lines: Seq<Seq<char>>)
    ensures
        run(st, text, lines) matches Some((n, _)) ==> grows(st.tokens, n.tokens),
    decreases lines.len(),
{
    lemma_grows_refl(st.tokens);
    if lines.len() > 0 {
        lemma_step_grows(st, text, lines[0]);
        if let Some((m, t)) = step(st, text, lines[0]) {
            lemma_run_grows(m, t, lines.drop_first());
            if let Some((n, _)) = run(m, t, lines.drop_first()) {
                lemma_grows_trans(st.tokens, m.tokens, n.tokens);
            }
        }
    }
}

/// Parsing keeps every token the parser already held, in place, and every
/// header it adds has a level from 1 to 6.
pub proof fn law_parse_keeps_tokens(st: ParserState, input: Seq<char>)
    ensures
        parse_outcome(st, input) matches Some(n) ==> {
            &&& st.tokens.len() <= n.tokens.len()
            &&& n.tokens.subrange(0, st.tokens.len() as int) == st.tokens
            &&& forall|i: int|
                st.tokens.len() <= i < n.tokens.len() ==> (#[trigger] n.tokens[i] matches Block::Header {
                    level,
                    ..
                } ==> 1 <= level <= 6)
        },
{
    lemma_run_grows(st, seq![], split_newlines(input));
}

/// A text with none of `*`, `[` and `<` is one plain token.
pub proof fn law_plain_text(s: Seq<char>)
    requires
        forall|i: int| 0 <= i < s.len() ==> #[trigger] s[i] != '*' && s[i] != '[' && s[i] != '<',
    ensures
        inline_tokens(s) == Some(seq![Inline::Unformatted(s)]),
{
    assert forall|p: int| 0 <= p < s.len() implies #[trigger] match_at(s, p, Pattern::Emphasis) is None
        && match_at(s, p, Pattern::NamedLink) is None && match_at(s, p, Pattern::AngleLink) is None by {
        assert(bracket_link_at(s, p) is None);
    }
    lemma_scan_none(s, 0, Pattern::Emphasis);
    lemma_scan_none(s, 0, Pattern::NamedLink);
    lemma_scan_none(s, 0, Pattern::AngleLink);
    assert(collected_spans(s) =~= Seq::<(int, int, Inline)>::empty());
}

/// Reading one line adds at most one block token and changes none before it.
pub proof fn law_step_adds_at_most_one(st: ParserState, text: Seq<char>, line: Seq<char>)
    ensures
        step(st, text, line) matches Some((n, _)) ==> {
            &&& st.tokens.len() <= n.tokens.len() <= st.tokens.len() + 1
            &&& n.tokens.subrange(0, st.tokens.len() as int) == st.tokens
        },
{
    lemma_step_grows(st, text, line);
}

/// Ending a paragraph a second time right after the first changes nothing.
pub proof fn law_flush_twice(st: ParserState, text: Seq<char>)
    ensures
        flush(st, text) matches Some((n, t)) ==> flush(n, t) == Some((n, t)),
{
}

/// A line that a code block keeps as it is: no header with content and no
/// fence line.
pub open spec fn code_line(line: Seq<char>) -> bool {
    &&& !(header_match(line) matches Some((l, a, b)) && a < b)
    &&& !fence_one_ws_tail(line)
}

proof fn lemma_run_code(st: ParserState, text: Seq<char>, body: Seq<Seq<char>>)
    requires
        st.in_code,
        forall|i: int| 0 <= i < body.len() ==> code_line(#[trigger] body[i]),
    ensures
        run(st, text, body) == Some((st, with_lines(text, body))),
    decreases body.len(),
{
    if body.len() > 0 {
        assert(code_line(body[0]));
        assert(step(st, text, body[0]) == Some((st, with_line(text, body[0]))));
        assert forall|i: int| 0 <= i < body.drop_first().len() implies code_line(
            #[trigger] body.drop_first()[i],
        ) by {
            assert(body.drop_first()[i] == body[i + 1]);
        }
        lemma_run_code(st, with_line(text, body[0]), body.drop_first());
    }
}

proof fn lemma_run_append(st: ParserState, text: Seq<char>, a: Seq<Seq<char>>, b: Seq<Seq<char>>)
    ensures
        run(st, text, a + b) == match run(st, text, a) {
            Some((n, t)) => run(n, t, b),
            None => None,
        },
    decreases a.len(),
{
    if a.len() == 0 {
        assert(a + b =~= b);
    } else {
        assert((a + b)[0] == a[0]);
        assert((a + b).drop_first() =~= a.drop_first() + b);
        if let Some((n, t)) = step(st, text, a[0]) {
            lemma_run_append(n, t, a.drop_first(), b);
        }
    }
}

/// A fenced code block keeps its lines as they are, whatever their length:
/// reading an opening fence, lines that are neither headers with content nor
/// fences, and a closing fence ends the paragraph before it and adds one code
/// token, the lines joined by newlines.
pub proof fn law_code_block(
    st: ParserState,
    text: Seq<char>,
    opening: Seq<char>,
    body: Seq<Seq<char>>,
    closing: Seq<char>,
)
    requires
        !st.in_code,
        flush(st, text) is Some,
        fence_one_ws_tail(opening),
        fence_one_ws_tail(closing),
        forall|i: int| 0 <= i < body.len() ==> code_line(#[trigger] body[i]),
    ensures
        run(st, text, seq![opening] + body + seq![closing]) == Some(
            (
                ParserState {
                    tokens: (flush(st, text)->0).0.tokens.push(Block::Code(with_lines(seq![], body))),
                    in_code: false,
                },
                Seq::<char>::empty(),
            ),
        ),
{
    let f = flush(st, text)->0;
    assert(header_match(opening) is None);
    assert(header_match(closing) is None);
    assert(f.1 == Seq::<char>::empty());
    let opened = ParserState { tokens: f.0.tokens, in_code: true };
    assert(step(st, text, opening) == Some((opened, f.1)));
    lemma_run_code(opened, f.1, body);
    let lines = seq![opening] + body + seq![closing];
    assert(lines[0] == opening);
    assert(lines.drop_first() =~= body + seq![closing]);
    lemma_run_append(opened, f.1, body, seq![closing]);
    let filled = with_lines(seq![], body);
    assert(step(opened, filled, closing) == Some(
        (ParserState { tokens: f.0.tokens.push(Block::Code(filled)), in_code: false }, Seq::<char>::empty()),
    ));
    assert(seq![closing][0] == closing);
    assert(seq![closing].drop_first() =~= Seq::<Seq<char>>::empty());
    let done = (ParserState { tokens: f.0.tokens.push(Block::Code(filled)), in_code: false }, Seq::<char>::empty());
    assert(run(done.0, done.1, seq![closing].drop_first()) == Some(done));
    assert(run(opened, filled, seq![closing]) == Some(done));
    assert(run(opened, f.1, body) == Some((opened, filled)));
    assert(run(opened, f.1, body + seq![closing]) == Some(done));
    assert(run(st, text, lines) == run(opened, f.1, lines.drop_first()));
}

/// Plain text before a span is kept: reading from a character before the
/// first span's start gives first the plain text up to that start, then the
/// span's token, whatever the text's length.
pub proof fn law_read_keeps_text_before_span(s: Seq<char>, spans: Seq<(int, int, Inline)>, k: int)
    requires
        spans.len() > 0,
        0 <= k < spans[0].0,
    ensures
        read_spans(s, spans, Cursor::At(k)) matches Some(ts) ==> ts.len() >= 2 && ts[0]
            == Inline::Unformatted(s.subrange(k, spans[0].0)) && ts[1] == spans[0].2,
{
    if let Some(r) = read_spans(s, spans.drop_first(), cursor_after(s, spans[0].1)) {
        let p = seq![Inline::Unformatted(s.subrange(k, spans[0].0)), spans[0].2];
        assert((p + r)[0] == p[0]);
        assert((p + r)[1] == p[1]);
    }
}

/// Reading from the start of the first span's start adds no plain text
/// before it: the first token is the span's.
pub proof fn law_read_span_at_cursor(s: Seq<char>, spans: Seq<(int, int, Inline)>, k: int)
    requires
        spans.len() > 0,
        k == spans[0].0,
    ensures
        read_spans(s, spans, Cursor::At(k)) matches Some(ts) ==> ts.len() >= 1 && ts[0] == spans[0].2,
{
    if let Some(r) = read_spans(s, spans.drop_first(), cursor_after(s, spans[0].1)) {
        let p = seq![spans[0].2];
        assert((p + r)[0] == p[0]);
    }
}

/// The inline tokens of a text keep the plain text before its first span.
pub proof fn law_inline_keeps_text_before_first_span(s: Seq<char>)
    ensures
        collected_spans(s).len() == 0 ==> inline_tokens(s) == Some(seq![Inline::Unformatted(s)]),
        collected_spans(s).len() > 0 ==> ({
            let sorted = sort_by_start(collected_spans(s));
            inline_tokens(s) matches Some(ts) ==> (sorted[0].0 > 0 ==> ts[0]
                == Inline::Unformatted(s.subrange(0, sorted[0].0)) && ts[1] == sorted[0].2)
        }),
{
    let spans = collected_spans(s);
    if spans.len() > 0 {
        let sorted = sort_by_start(spans);
        crate::spans::lemma_sort_len(spans);
        if sorted[0].0 > 0 {
            law_read_keeps_text_before_span(s, sorted, 0);
        }
    }
}

/// A line of paragraph text: neither a header with content, a fence, a
/// divider, a list item nor a (nearly) empty line.
pub open spec fn text_line(line: Seq<char>) -> bool {
    &&& !(header_match(line) matches Some((l, a, b)) && a < b)
    &&& !fence_one_ws_tail(line)
    &&& !dash_line(line)
    &&& list_item_match(line) is None
    &&& !near_blank_line(line)
}

/// A paragraph keeps all its lines: outside a code block, reading lines of
/// paragraph text adds each of them, whatever its length, to the text held,
/// and adds no token.
pub proof fn law_paragraph_lines(st: ParserState, text: Seq<char>, lines: Seq<Seq<char>>)
    requires
        !st.in_code,
        forall|i: int| 0 <= i < lines.len() ==> text_line(#[trigger] lines[i]),
    ensures
        run(st, text, lines) == Some((st, with_lines(text, lines))),
    decreases lines.len(),
{
    if lines.len() > 0 {
        assert(text_line(lines[0]));
        assert(step(st, text, lines[0]) == Some((st, with_line(text, lines[0]))));
        assert forall|i: int| 0 <= i < lines.drop_first().len() implies text_line(
            #[trigger] lines.drop_first()[i],
        ) by {
            assert(lines.drop_first()[i] == lines[i + 1]);
        }
        law_paragraph_lines(st, with_line(text, lines[0]), lines.drop_first());
    }
}

/// `n` copies of `c`.
pub open spec fn repeated(c: char, n: nat) -> Seq<char> {
    Seq::new(n, |i: int| c)
}

/// A header line with content is a header wherever it stands: one to six
/// `#`, a space, then non-empty text with no newline that does not start with
/// whitespace, gives a header of that level holding the inline tokens of that
/// text, whatever its length; the paragraph text held is left as it is.
pub proof fn law_header_line(st: ParserState, text: Seq<char>, level: nat, rest: Seq<char>)
    requires
        1 <= level <= 6,
        rest.len() > 0,
        forall|i: int| 0 <= i < rest.len() ==> rest[i] != '\n',
        !is_ws(rest[0]),
    ensures
        step(st, text, repeated('#', level) + seq![' '] + rest) == match inline_tokens(rest) {
            Some(c) => Some((emit(st, Block::Header { level: level as int, content: c }), text)),
            None => None,
        },
{
    let line = repeated('#', level) + seq![' '] + rest;
    let l = level as int;
    assert(line[l] == ' ');
    assert forall|i: int| 0 <= i < l implies line[i] == '#' by {}
    lemma_run_end_at(line, '#', 0, l);
    assert(is_ws(' '));
    assert(line[l + 1] == rest[0]);
    lemma_ws_end_at(line, l, l + 1);
    assert forall|i: int| l + 1 <= i < line.len() implies line[i] != '\n' by {
        assert(line[i] == rest[i - l - 1]);
    }
    lemma_find_char_none(line, '\n', l + 1);
    assert(line.subrange(l + 1, line.len() as int) =~= rest);
}

/// A list item line outside a code block is a list item: `-` or `*`, a
/// space, then non-empty text with no newline, gives a list item holding the
/// inline tokens of that text, whatever its length; the paragraph text held
/// is left as it is.
pub proof fn law_list_item_line(st: ParserState, text: Seq<char>, marker: char, rest: Seq<char>)
    requires
        !st.in_code,
        marker == '-' || marker == '*',
        rest.len() > 0,
        forall|i: int| 0 <= i < rest.len() ==> rest[i] != '\n',
    ensures
        step(st, text, seq![marker, ' '] + rest) == match inline_tokens(rest) {
            Some(c) => Some((emit(st, Block::UnorderedListItem(c)), text)),
            None => None,
        },
{
    let line = seq![marker, ' '] + rest;
    assert(line[0] == marker);
    assert(line[1] == ' ');
    assert(is_ws(' '));
    lemma_run_end_at(line, '#', 0, 0);
    if marker == '-' {
        lemma_run_end_at(line, '-', 0, 1);
    } else {
        lemma_run_end_at(line, '-', 0, 0);
    }
    assert forall|i: int| 2 <= i < line.len() implies line[i] != '\n' by {
        assert(line[i] == rest[i - 2]);
    }
    lemma_find_char_none(line, '\n', 2);
    assert(line.subrange(2, line.len() as int) =~= rest);
}

/// With one span, the inline tokens are what reading that span from the start
/// gives.
proof fn lemma_one_span(s: Seq<char>, sp: (int, int, Inline))
    requires
        collected_spans(s) == seq![sp],
    ensures
        inline_tokens(s) == read_spans(s, seq![sp], Cursor::At(0)),
{
    let e = Seq::<(int, int, Inline)>::empty();
    let one = seq![sp];
    assert(one.drop_last() =~= e);
    assert(sort_by_start(e) == e);
    assert(e.insert(0, sp) =~= one);
    assert(sort_by_start(one) == one);
}

/// Reading one span that starts the text gives its token alone.
proof fn lemma_read_whole_span(s: Seq<char>, sp: (int, int, Inline))
    requires
        sp.0 == 0,
    ensures
        read_spans(s, seq![sp], Cursor::At(0)) == Some(seq![sp.2]),
{
    let one = seq![sp];
    assert(one[0] == sp);
    assert(one.drop_first() =~= Seq::<(int, int, Inline)>::empty());
    assert(piece(s, Cursor::At(0), sp) == Some(seq![sp.2]));
    assert(read_spans(s, one.drop_first(), cursor_after(s, sp.1)) == Some(Seq::<Inline>::empty()));
    assert(seq![sp.2] + Seq::<Inline>::empty() =~= seq![sp.2]);
}

/// No pattern other than emphasis matches a text with no `[` and no `<`, and
/// no emphasis one with no `*`.
proof fn lemma_no_links(s: Seq<char>)
    requires
        forall|i: int| 0 <= i < s.len() ==> s[i] != '[' && s[i] != '<',
    ensures
        scan(s, 0, Pattern::NamedLink) == Seq::<(int, int, int, int)>::empty(),
        scan(s, 0, Pattern::Image) == Seq::<(int, int, int, int)>::empty(),
        scan(s, 0, Pattern::AngleLink) == Seq::<(int, int, int, int)>::empty(),
{
    assert forall|p: int| 0 <= p < s.len() implies #[trigger] match_at(s, p, Pattern::NamedLink) is None
        && match_at(s, p, Pattern::Image) is None && match_at(s, p, Pattern::AngleLink) is None by {
        assert(bracket_link_at(s, p) is None);
        assert(bracket_link_at(s, p + 1) is None);
    }
    lemma_scan_none(s, 0, Pattern::NamedLink);
    lemma_scan_none(s, 0, Pattern::Image);
    lemma_scan_none(s, 0, Pattern::AngleLink);
}

/// Text between equal runs of `*` is emphasis: one `*` on each side gives
/// italics, three bold italics, and two or more than three bold, holding the
/// text, whatever its length.
pub proof fn law_emphasis_text(n: nat, w: Seq<char>)
    requires
        n >= 1,
        w.len() >= 1,
        !is_ws(w[0]),
        !is_ws(w.last()),
        forall|i: int| 0 <= i < w.len() ==> w[i] != '*' && w[i] != '[' && w[i] != '<',
    ensures
        inline_tokens(repeated('*', n) + w + repeated('*', n)) == Some(
            seq![
                if n == 1 {
                    Inline::Italics(w)
                } else if n == 3 {
                    Inline::BoldItalics(w)
                } else {
                    Inline::Bold(w)
                },
            ],
        ),
{
    let s = repeated('*', n) + w + repeated('*', n);
    let k = n as int;
    let l = w.len() as int;
    assert forall|i: int| 0 <= i < k implies #[trigger] s[i] == '*' by {}
    assert forall|i: int| 0 <= i < l implies s[k + i] == w[i] by {}
    assert(s.len() == 2 * k + l);
    lemma_run_end_at(s, '*', 0, k);
    if l == 1 {
        lemma_find_char_at(s, '*', k + 1, k + 1);
    } else {
        assert forall|i: int| k + 1 <= i < k + l implies s[i] != '*' by {
            assert(s[i] == w[i - k]);
        }
        lemma_find_char_at(s, '*', k + 1, k + l);
    }
    assert(s[k + l - 1] == w.last());
    assert forall|i: int| k + l <= i < 2 * k + l implies #[trigger] s[i] == '*' by {}
    lemma_run_end_at(s, '*', k + l, 2 * k + l);
    let m = (0int, k, k + l, 2 * k + l);
    assert(match_at(s, 0, Pattern::Emphasis) == Some(m));
    assert(scan(s, 2 * k + l, Pattern::Emphasis) == Seq::<(int, int, int, int)>::empty());
    assert(scan(s, 0, Pattern::Emphasis) =~= seq![m]);
    assert forall|i: int| 0 <= i < s.len() implies s[i] != '[' && s[i] != '<' by {
        if k <= i < k + l {
            assert(s[i] == w[i - k]);
        }
    }
    lemma_no_links(s);
    assert(s.subrange(k, k + l) =~= w);
    let sp = span_of(s, Pattern::Emphasis, m);
    assert(spans_of(s, Pattern::Emphasis) =~= seq![sp]);
    assert(collected_spans(s) =~= seq![sp]);
    lemma_one_span(s, sp);
    lemma_read_whole_span(s, sp);
}

/// `[caption](url)` alone is a link with that caption and url, whatever
/// their length, when neither holds a newline, a bracket, a parenthesis, `*`
/// or `<`.
pub proof fn law_named_link_text(c: Seq<char>, u: Seq<char>)
    requires
        c.len() >= 1,
        u.len() >= 1,
        forall|i: int| 0 <= i < c.len() ==> plain_link_char(#[trigger] c[i]),
        forall|i: int| 0 <= i < u.len() ==> plain_link_char(#[trigger] u[i]),
    ensures
        inline_tokens(seq!['['] + c + seq![']', '('] + u + seq![')']) == Some(
            seq![Inline::Link { caption: c, url: u }],
        ),
{
    let s = seq!['['] + c + seq![']', '('] + u + seq![')'];
    let a = c.len() as int;
    let b = u.len() as int;
    let n = a + b + 4;
    assert(s.len() == n);
    assert(s[0] == '[');
    assert forall|i: int| 0 <= i < a implies s[1 + i] == c[i] by {}
    assert(s[a + 1] == ']' && s[a + 2] == '(');
    assert forall|i: int| 0 <= i < b implies s[a + 3 + i] == u[i] by {}
    assert(s[n - 1] == ')');
    assert forall|i: int| 0 <= i < n implies s[i] != '\n' && s[i] != '*' && s[i] != '<' by {
        if 1 <= i < a + 1 {
            assert(s[i] == c[i - 1]);
            assert(plain_link_char(c[i - 1]));
        } else if a + 3 <= i < n - 1 {
            assert(s[i] == u[i - a - 3]);
            assert(plain_link_char(u[i - a - 3]));
        }
    }
    lemma_find_char_none(s, '\n', 1);
    lemma_last_char_at(s, ')', 1, n, n - 1);
    assert forall|i: int| a + 1 < i < n - 3 implies s[i] != ']' by {
        if a + 3 <= i {
            assert(s[i] == u[i - a - 3]);
            assert(plain_link_char(u[i - a - 3]));
        }
    }
    lemma_last_link_joint_at(s, 2, n - 3, a + 1);
    let m = (0int, a + 1, n - 1, n);
    assert(bracket_link_at(s, 0) == Some((0int, a + 1, n - 1)));
    assert(match_at(s, 0, Pattern::NamedLink) == Some(m));
    assert(scan(s, n, Pattern::NamedLink) == Seq::<(int, int, int, int)>::empty());
    assert(scan(s, 0, Pattern::NamedLink) =~= seq![m]);
    assert forall|p: int| 0 <= p < n implies #[trigger] match_at(s, p, Pattern::Emphasis) is None
        && match_at(s, p, Pattern::Image) is None && match_at(s, p, Pattern::AngleLink) is None by {
        if 1 <= p < a + 1 {
            assert(s[p] == c[p - 1]);
            assert(plain_link_char(c[p - 1]));
        } else if a + 3 <= p < n - 1 {
            assert(s[p] == u[p - a - 3]);
            assert(plain_link_char(u[p - a - 3]));
        }
    }
    lemma_scan_none(s, 0, Pattern::Emphasis);
    lemma_scan_none(s, 0, Pattern::Image);
    lemma_scan_none(s, 0, Pattern::AngleLink);
    assert(s.subrange(1, a + 1) =~= c);
    assert(s.subrange(a + 3, n - 1) =~= u);
    let sp = span_of(s, Pattern::NamedLink, m);
    assert(spans_of(s, Pattern::NamedLink) =~= seq![sp]);
    assert(collected_spans(s) =~= seq![sp]);
    lemma_one_span(s, sp);
    lemma_read_whole_span(s, sp);
}

/// `<url>` alone is a link whose caption and url are both the url, whatever
/// its length, when it holds no newline, bracket, parenthesis, `*`, `<` or
/// `>`.
pub proof fn law_angle_link_text(u: Seq<char>)
    requires
        u.len() >= 1,
        forall|i: int| 0 <= i < u.len() ==> plain_link_char(#[trigger] u[i]),
    ensures
        inline_tokens(seq!['<'] + u + seq!['>']) == Some(seq![Inline::Link { caption: u, url: u }]),
{
    let s = seq!['<'] + u + seq!['>'];
    let b = u.len() as int;
    let n = b + 2;
    assert(s.len() == n);
    assert(s[0] == '<' && s[n - 1] == '>');
    assert forall|i: int| 0 <= i < b implies s[1 + i] == u[i] by {}
    assert forall|i: int| 1 <= i < n - 1 implies s[i] != '\n' && s[i] != '>' && plain_link_char(s[i]) by {
        assert(s[i] == u[i - 1]);
    }
    lemma_find_char_none(s, '\n', 1);
    lemma_last_char_at(s, '>', 2, n, n - 1);
    let m = (0int, n - 1, n - 1, n);
    assert(match_at(s, 0, Pattern::AngleLink) == Some(m));
    assert(scan(s, n, Pattern::AngleLink) == Seq::<(int, int, int, int)>::empty());
    assert(scan(s, 0, Pattern::AngleLink) =~= seq![m]);
    assert forall|p: int| 0 <= p < n implies #[trigger] match_at(s, p, Pattern::Emphasis) is None
        && match_at(s, p, Pattern::Image) is None && match_at(s, p, Pattern::NamedLink) is None by {
        assert(bracket_link_at(s, p) is None);
        assert(bracket_link_at(s, p + 1) is None);
    }
    lemma_scan_none(s, 0, Pattern::Emphasis);
    lemma_scan_none(s, 0, Pattern::Image);
    lemma_scan_none(s, 0, Pattern::NamedLink);
    assert(s.subrange(1, n - 1) =~= u);
    let sp = span_of(s, Pattern::AngleLink, m);
    assert(spans_of(s, Pattern::AngleLink) =~= seq![sp]);
    assert(collected_spans(s) =~= seq![sp]);
    lemma_one_span(s, sp);
    lemma_read_whole_span(s, sp);
}

/// A paragraph ends at an empty line as one paragraph token: outside a code
/// block, lines of paragraph text and then an empty line add one paragraph
/// holding the inline tokens of all the text held and those lines, joined by
/// newlines, whatever their length.
pub proof fn law_paragraph_block(st: ParserState, text: Seq<char>, lines: Seq<Seq<char>>)
    requires
        !st.in_code,
        forall|i: int| 0 <= i < lines.len() ==> text_line(#[trigger] lines[i]),
        with_lines(text, lines).len() > 0,
    ensures
        run(st, text, lines.push(Seq::<char>::empty())) == match inline_tokens(with_lines(text, lines)) {
            Some(c) => Some((emit(st, Block::Paragraph(c)), Seq::<char>::empty())),
            None => None,
        },
{
    let e = Seq::<char>::empty();
    law_paragraph_lines(st, text, lines);
    lemma_run_append(st, text, lines, seq![e]);
    assert(lines.push(e) =~= lines + seq![e]);
    let held = with_lines(text, lines);
    lemma_run_end_at(e, '#', 0, 0);
    lemma_run_end_at(e, '-', 0, 0);
    assert(step(st, held, e) == flush(st, held));
    assert(seq![e][0] == e);
    assert(seq![e].drop_first() =~= Seq::<Seq<char>>::empty());
    if let Some((n, t)) = flush(st, held) {
        assert(run(n, t, seq![e].drop_first()) == Some((n, t)));
    }
    assert(run(st, held, seq![e]) == flush(st, held));
}

} // verus!
