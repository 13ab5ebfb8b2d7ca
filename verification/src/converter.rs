//! HTML rendering of the block tokens of `MdParser`.
use vstd::prelude::*;
use crate::mdparser::{BlockToken, InlineToken, Block, Inline, blocks_view, inlines_view};

verus! {

/// The HTML of one inline token.
pub open spec fn inline_html(t: Inline) -> Seq<char> {
    match t {
        Inline::Bold(c) => "<strong>"@ + c + "</strong>"@,
        Inline::Italics(c) => "<i>"@ + c + "</i>"@,
        Inline::BoldItalics(c) => "<strong><i>"@ + c + "</i></strong>"@,
        Inline::Code(c) => "<code>"@ + c + "</code>"@,
        Inline::Link { caption, url } => "<a href=\""@ + url + "\">"@ + caption + "</a>"@,
        Inline::Image { caption, url } => "<img src=\""@ + url + "\">"@ + caption + "</img>"@,
        Inline::Unformatted(c) => c,
    }
}

/// The HTML of inline tokens: theirs, one after the other.
pub open spec fn inlines_html(ts: Seq<Inline>) -> Seq<char>
    decreases ts.len(),
{
    if ts.len() == 0 {
        seq![]
    } else {
        inlines_html(ts.drop_last()) + inline_html(ts.last())
    }
}

/// The character of a decimal digit.
pub open spec fn digit(d: int) -> char {
    (48 + d) as char
}

/// The decimal digits of `n`.
pub open spec fn decimal(n: nat) -> Seq<char>
    decreases n,
{
    if n < 10 {
        seq![digit(n as int)]
    } else {
        decimal(n / 10).push(digit((n % 10) as int))
    }
}

/// What closes an open list before a block that is no list item.
pub open spec fn close_list(in_list: bool) -> Seq<char> {
    if in_list {
        "</ul>\n"@
    } else {
        seq![]
    }
}

pub open spec fn is_list_item(b: Block) -> bool {
    b is UnorderedListItem
}

/// The HTML of one block, `in_list` telling whether a list is open before it.
pub open spec fn block_html(b: Block, in_list: bool) -> Seq<char> {
    match b {
        Block::Paragraph(c) => close_list(in_list) + "<p>"@ + inlines_html(c) + "</p>\n"@,
        Block::Header { level, content } => close_list(in_list) + "<h"@ + decimal(level as nat)
            + ">"@ + inlines_html(content) + "</h"@ + decimal(level as nat) + ">\n"@,
        Block::Code(c) => close_list(in_list) + "<pre><code>"@ + c + "</code></pre>"@,
        Block::Line => close_list(in_list) + "<hr>"@,
        Block::UnorderedListItem(c) => (if in_list {
            seq![]
        } else {
            "<ul>\n"@
        }) + "<li>"@ + inlines_html(c) + "</li>\n"@,
    }
}

/// The HTML of blocks, one after the other: a list is opened before the first
/// of consecutive list items and closed before the next block that is none.
pub open spec fn blocks_html(bs: Seq<Block>, in_list: bool) -> Seq<char>
    decreases bs.len(),
{
    if bs.len() == 0 {
        seq![]
    } else {
        block_html(bs[0], in_list) + blocks_html(bs.drop_first(), is_list_item(bs[0]))
    }
}

/// The HTML of a document.
pub open spec fn document_html(bs: Seq<Block>) -> Seq<char> {
    blocks_html(bs, false)
}

/// Whether a list is open after `bs`, when `in_list` told it before them.
pub open spec fn list_open_after(bs: Seq<Block>, in_list: bool) -> bool {
    if bs.len() == 0 {
        in_list
    } else {
        is_list_item(bs.last())
    }
}

/// The HTML of inline tokens side by side is the HTML of each part, side by side.
pub proof fn law_inlines_html_concat(a: Seq<Inline>, b: Seq<Inline>)
    ensures
        inlines_html(a + b) == inlines_html(a) + inlines_html(b),
    decreases b.len(),
{
    if b.len() == 0 {
        assert(a + b =~= a);
        assert(inlines_html(a) + Seq::<char>::empty() =~= inlines_html(a));
    } else {
        assert((a + b).drop_last() =~= a + b.drop_last());
        assert((a + b).last() == b.last());
        law_inlines_html_concat(a, b.drop_last());
        assert(inlines_html(a + b) =~= inlines_html(a) + inlines_html(b));
    }
}

/// The HTML of blocks side by side is the HTML of the first part followed by
/// that of the second, rendered with the list left open or closed by the first.
pub proof fn law_blocks_html_concat(a: Seq<Block>, b: Seq<Block>, in_list: bool)
    ensures
        blocks_html(a + b, in_list) == blocks_html(a, in_list) + blocks_html(
            b,
            list_open_after(a, in_list),
        ),
    decreases a.len(),
{
    if a.len() == 0 {
        assert(a + b =~= b);
        assert(Seq::<char>::empty() + blocks_html(b, in_list) =~= blocks_html(b, in_list));
    } else {
        assert((a + b)[0] == a[0]);
        assert((a + b).drop_first() =~= a.drop_first() + b);
        law_blocks_html_concat(a.drop_first(), b, is_list_item(a[0]));
        if a.len() > 1 {
            assert(a.drop_first().last() == a.last());
        }
        assert(blocks_html(a + b, in_list) =~= blocks_html(a, in_list) + blocks_html(
            b,
            list_open_after(a, in_list),
        ));
    }
}

/// A document with no list item renders as its blocks' HTML, one after the
/// other, each rendered with no list open: adding a block adds its HTML.
pub proof fn law_document_without_lists(bs: Seq<Block>)
    requires
        forall|i: int| 0 <= i < bs.len() ==> !is_list_item(#[trigger] bs[i]),
    ensures
        bs.len() > 0 ==> document_html(bs) == document_html(bs.drop_last()) + block_html(
            bs.last(),
            false,
        ),
{
    if bs.len() > 0 {
        let a = bs.drop_last();
        let b = seq![bs.last()];
        assert(a + b =~= bs);
        law_blocks_html_concat(a, b, false);
        if a.len() > 0 {
            assert(!is_list_item(bs[a.len() - 1]));
        }
        assert(b[0] == bs.last());
        assert(b.drop_first() =~= Seq::<Block>::empty());
        assert(blocks_html(b.drop_first(), is_list_item(b[0])) == Seq::<char>::empty());
        assert(blocks_html(b, false) =~= block_html(bs.last(), false));
    }
}

/// A list is closed before every block that is not a list item: such a
/// block, rendered with a list open, is `</ul>` and a newline followed by the
/// block rendered with no list open.
pub proof fn law_list_closed_before_block(b: Block)
    requires
        !is_list_item(b),
    ensures
        block_html(b, true) == "</ul>\n"@ + block_html(b, false),
{
    assert(block_html(b, true) =~= "</ul>\n"@ + block_html(b, false));
}

/// A list item followed by a block that is none renders as the list item
/// alone, then `</ul>` and a newline, then the block alone.
pub proof fn law_list_then_block(c: Seq<Inline>, b: Block)
    requires
        !is_list_item(b),
    ensures
        document_html(seq![Block::UnorderedListItem(c), b]) == document_html(
            seq![Block::UnorderedListItem(c)],
        ) + "</ul>\n"@ + document_html(seq![b]),
{
    let li = Block::UnorderedListItem(c);
    law_list_closed_before_block(b);
    let e = Seq::<Block>::empty();
    assert(seq![li, b][0] == li);
    assert(seq![li, b].drop_first() =~= seq![b]);
    assert(seq![li][0] == li);
    assert(seq![li].drop_first() =~= e);
    assert(seq![b][0] == b);
    assert(seq![b].drop_first() =~= e);
    assert(blocks_html(e, true) == Seq::<char>::empty());
    assert(blocks_html(e, is_list_item(b)) == Seq::<char>::empty());
    assert(document_html(seq![b]) =~= block_html(b, false));
    assert(document_html(seq![li]) =~= block_html(li, false));
    assert(is_list_item(li));
    assert(blocks_html(seq![b], true) =~= block_html(b, true));
    assert(document_html(seq![li, b]) =~= block_html(li, false) + block_html(b, true));
    assert(document_html(seq![li, b]) =~= document_html(seq![li]) + "</ul>\n"@ + document_html(
        seq![b],
    ));
}

/// The number that decimal digits stand for.
pub open spec fn digits_value(ds: Seq<char>) -> int
    decreases ds.len(),
{
    if ds.len() == 0 {
        0
    } else {
        digits_value(ds.drop_last()) * 10 + (ds.last() as int - 48)
    }
}

/// The decimal digits of `n` are digits, start with no zero unless `n` is
/// zero, and stand for `n`.
pub proof fn law_decimal(n: nat)
    ensures
        decimal(n).len() >= 1,
        forall|i: int| 0 <= i < decimal(n).len() ==> '0' <= #[trigger] decimal(n)[i] <= '9',
        n > 0 ==> decimal(n)[0] != '0',
        digits_value(decimal(n)) == n,
    decreases n,
{
    if n >= 10 {
        law_decimal(n / 10);
        let d = decimal(n / 10);
        let x = decimal(n);
        assert(x == d.push(digit((n % 10) as int)));
        assert(x.drop_last() =~= d);
        assert(digit((n % 10) as int) as int == 48 + n % 10);
        assert forall|i: int| 0 <= i < x.len() implies '0' <= #[trigger] x[i] <= '9' by {
            if i < d.len() {
                assert(x[i] == d[i]);
            }
        }
        assert(x[0] == d[0]);
        assert(x.last() == digit((n % 10) as int));
        assert((n / 10) * 10 + n % 10 == n);
        assert(digits_value(x) == digits_value(d) * 10 + (x.last() as int - 48));
    } else {
        assert(digit(n as int) as int == 48 + n);
        let x = decimal(n);
        assert(x.drop_last() =~= Seq::<char>::empty());
        assert(x.last() == digit(n as int));
        assert(digits_value(x) == digits_value(x.drop_last()) * 10 + (x.last() as int - 48));
    }
}

/// Plain text renders as itself, and each inline kind wraps its text in
/// its own tags.
pub proof fn law_inline_html_wraps(c: Seq<char>, u: Seq<char>)
    ensures
        inlines_html(seq![Inline::Unformatted(c)]) == c,
        inline_html(Inline::Bold(c)) == "<strong>"@ + c + "</strong>"@,
        inline_html(Inline::Italics(c)) == "<i>"@ + c + "</i>"@,
        inline_html(Inline::BoldItalics(c)) == "<strong><i>"@ + c + "</i></strong>"@,
        inline_html(Inline::Code(c)) == "<code>"@ + c + "</code>"@,
        inline_html(Inline::Link { caption: c, url: u }) == "<a href=\""@ + u + "\">"@ + c + "</a>"@,
        inline_html(Inline::Image { caption: c, url: u }) == "<img src=\""@ + u + "\">"@ + c
            + "</img>"@,
{
    let one = seq![Inline::Unformatted(c)];
    assert(one.drop_last() =~= Seq::<Inline>::empty());
    assert(one.last() == Inline::Unformatted(c));
    assert(inline_html(Inline::Unformatted(c)) == c);
    assert(inlines_html(one) == inlines_html(one.drop_last()) + inline_html(one.last()));
    assert(Seq::<char>::empty() + c =~= c);
}

/// Each block kind wraps the HTML of its content in its own tags: a
/// paragraph in `<p>`, a header in `<h` and its level, a list item in `<li>`
/// (after opening a list when none is open), code in `<pre><code>`.
pub proof fn law_block_html_wraps(c: Seq<Inline>, level: int, code: Seq<char>)
    requires
        level >= 0,
    ensures
        block_html(Block::Paragraph(c), false) == "<p>"@ + inlines_html(c) + "</p>\n"@,
        block_html(Block::Header { level, content: c }, false) == "<h"@ + decimal(level as nat) + ">"@
            + inlines_html(c) + "</h"@ + decimal(level as nat) + ">\n"@,
        block_html(Block::UnorderedListItem(c), true) == "<li>"@ + inlines_html(c) + "</li>\n"@,
        block_html(Block::UnorderedListItem(c), false) == "<ul>\n"@ + block_html(
            Block::UnorderedListItem(c),
            true,
        ),
        block_html(Block::Code(code), false) == "<pre><code>"@ + code + "</code></pre>"@,
        block_html(Block::Line, false) == "<hr>"@,
{
    assert(block_html(Block::Paragraph(c), false) =~= "<p>"@ + inlines_html(c) + "</p>\n"@);
    assert(block_html(Block::Header { level, content: c }, false) =~= "<h"@ + decimal(level as nat)
        + ">"@ + inlines_html(c) + "</h"@ + decimal(level as nat) + ">\n"@);
    assert(block_html(Block::UnorderedListItem(c), true) =~= "<li>"@ + inlines_html(c) + "</li>\n"@);
    assert(block_html(Block::UnorderedListItem(c), false) =~= "<ul>\n"@ + block_html(
        Block::UnorderedListItem(c),
        true,
    ));
    assert(block_html(Block::Code(code), false) =~= "<pre><code>"@ + code + "</code></pre>"@);
    assert(block_html(Block::Line, false) =~= "<hr>"@);
}

fn push_digit(html: &mut String, d: u8)
    requires
        d < 10,
    ensures
        final(html)@ == old(html)@.push(digit(d as int)),
{
    crate::text::push_char(html, (48u8 + d) as char);
}

/// Appends the decimal digits of `n`.
fn push_decimal(html: &mut String, n: u8)
    ensures
        final(html)@ == old(html)@ + decimal(n as nat),
{
    if n >= 100 {
        push_digit(html, n / 100);
        push_digit(html, (n / 10) % 10);
        push_digit(html, n % 10);
        proof {
            assert(decimal(n as nat) == decimal((n / 10) as nat).push(digit((n % 10) as int)));
            assert(decimal((n / 10) as nat) == decimal((n / 100) as nat).push(
                digit(((n / 10) % 10) as int),
            ));
            assert(decimal((n / 100) as nat) == seq![digit((n / 100) as int)]);
        }
    } else if n >= 10 {
        push_digit(html, n / 10);
        push_digit(html, n % 10);
        proof {
            assert(decimal(n as nat) == decimal((n / 10) as nat).push(digit((n % 10) as int)));
            assert(decimal((n / 10) as nat) == seq![digit((n / 10) as int)]);
        }
    } else {
        push_digit(html, n);
    }
    assert(html@ =~= old(html)@ + decimal(n as nat));
}

/// Appends `s`.
fn push_str(html: &mut String, s: &str)
    ensures
        final(html)@ == old(html)@ + s@,
{
    html.append(s);
}

fn inline_to_html(inline_tokens: &Vec<InlineToken>) -> (r: String)
    ensures
        r@ == inlines_html(inlines_view(inline_tokens@)),
{
    let ghost ts = inlines_view(inline_tokens@);
    let mut html = String::new();
    let mut i: usize = 0;
    while i < inline_tokens.len()
        invariant
            i <= inline_tokens.len(),
            ts == inlines_view(inline_tokens@),
            html@ == inlines_html(ts.take(i as int)),
        decreases inline_tokens.len() - i,
    {
        let ghost before = html@;
        match &inline_tokens[i] {
            InlineToken::Bold(inner) => {
                push_str(&mut html, "<strong>");
                push_str(&mut html, inner.as_str());
                push_str(&mut html, "</strong>");
            },
            InlineToken::Italics(inner) => {
                push_str(&mut html, "<i>");
                push_str(&mut html, inner.as_str());
                push_str(&mut html, "</i>");
            },
            InlineToken::BoldItalics(inner) => {
                push_str(&mut html, "<strong><i>");
                push_str(&mut html, inner.as_str());
                push_str(&mut html, "</i></strong>");
            },
            InlineToken::Code(inner) => {
                push_str(&mut html, "<code>");
                push_str(&mut html, inner.as_str());
                push_str(&mut html, "</code>");
            },
            InlineToken::Link { caption, url } => {
                push_str(&mut html, "<a href=\"");
                push_str(&mut html, url.as_str());
                push_str(&mut html, "\">");
                push_str(&mut html, caption.as_str());
                push_str(&mut html, "</a>");
            },
            InlineToken::Image { caption, url } => {
                push_str(&mut html, "<img src=\"");
                push_str(&mut html, url.as_str());
                push_str(&mut html, "\">");
                push_str(&mut html, caption.as_str());
                push_str(&mut html, "</img>");
            },
            InlineToken::Unformatted(unformatted) => {
                push_str(&mut html, unformatted.as_str());
            },
        }
        proof {
            assert(ts[i as int] == inline_tokens@[i as int]@);
            assert(html@ =~= before + inline_html(ts[i as int]));
            assert(ts.take(i + 1).drop_last() =~= ts.take(i as int));
        }
        i = i + 1;
    }
    assert(ts.take(i as int) =~= ts);
    html
}

/// Appends the HTML of `block`, with `is_in_ul` telling whether a list is open
/// before it; tells whether a list is open after it.
fn push_block_html(html: &mut String, block: &BlockToken, is_in_ul: bool) -> (out: bool)
    ensures
        final(html)@ == old(html)@ + block_html(block@, is_in_ul),
        out == is_list_item(block@),
{
    match block {
        BlockToken::Paragraph(content) => {
            if is_in_ul {
                push_str(html, "</ul>\n");
            }
            push_str(html, "<p>");
            let inner = inline_to_html(content);
            push_str(html, inner.as_str());
            push_str(html, "</p>\n");
            assert(html@ =~= old(html)@ + block_html(block@, is_in_ul));
            false
        },
        BlockToken::Header { level, content } => {
            if is_in_ul {
                push_str(html, "</ul>\n");
            }
            push_str(html, "<h");
            push_decimal(html, *level);
            push_str(html, ">");
            let inner = inline_to_html(content);
            push_str(html, inner.as_str());
            push_str(html, "</h");
            push_decimal(html, *level);
            push_str(html, ">\n");
            assert(html@ =~= old(html)@ + block_html(block@, is_in_ul));
            false
        },
        BlockToken::Code(content) => {
            if is_in_ul {
                push_str(html, "</ul>\n");
            }
            push_str(html, "<pre><code>");
            push_str(html, content.as_str());
            push_str(html, "</code></pre>");
            assert(html@ =~= old(html)@ + block_html(block@, is_in_ul));
            false
        },
        BlockToken::Line => {
            if is_in_ul {
                push_str(html, "</ul>\n");
            }
            push_str(html, "<hr>");
            assert(html@ =~= old(html)@ + block_html(block@, is_in_ul));
            false
        },
        BlockToken::UnorderedListItem(content) => {
            if !is_in_ul {
                push_str(html, "<ul>\n");
            }
            push_str(html, "<li>");
            let inner = inline_to_html(content);
            push_str(html, inner.as_str());
            push_str(html, "</li>\n");
            assert(html@ =~= old(html)@ + block_html(block@, is_in_ul));
            true
        },
    }
}

/// The HTML of a sequence of block tokens.
pub fn to_html(block_tokens: &Vec<BlockToken>) -> (r: String)
    ensures
        r@ == document_html(blocks_view(block_tokens@)),
{
    let ghost bs = blocks_view(block_tokens@);
    let mut html = String::new();
    let mut is_in_ul = false;
    let mut i: usize = 0;
    assert(bs.skip(0) =~= bs);
    assert(html@ + blocks_html(bs, false) =~= blocks_html(bs, false));
    while i < block_tokens.len()
        invariant
            i <= block_tokens.len(),
            bs == blocks_view(block_tokens@),
            document_html(bs) == html@ + blocks_html(bs.skip(i as int), is_in_ul),
        decreases block_tokens.len() - i,
    {
        let ghost before = html@;
        let ghost was_in_ul = is_in_ul;
        is_in_ul = push_block_html(&mut html, &block_tokens[i], is_in_ul);
        proof {
            let rest = bs.skip(i as int);
            assert(rest[0] == bs[i as int]);
            assert(bs[i as int] == block_tokens@[i as int]@);
            assert(rest.drop_first() =~= bs.skip(i + 1));
            assert(before + blocks_html(rest, was_in_ul) =~= html@ + blocks_html(bs.skip(i + 1), is_in_ul));
        }
        i = i + 1;
    }
    assert(bs.skip(i as int) =~= Seq::<Block>::empty());
    assert(html@ + Seq::<char>::empty() =~= html@);
    html
}

} // verus!
