use vstd::prelude::*;

verus! {

/// The characters that the pattern class `\s` stands for: Unicode `White_Space`.
pub open spec fn is_ws(c: char) -> bool {
    let u = c as u32;
    ||| (9 <= u && u <= 13)
    ||| u == 32
    ||| u == 0x85
    ||| u == 0xa0
    ||| u == 0x1680
    ||| (0x2000 <= u && u <= 0x200a)
    ||| u == 0x2028
    ||| u == 0x2029
    ||| u == 0x202f
    ||| u == 0x205f
    ||| u == 0x3000
}

/// Whether `c` is whitespace in the sense of `is_ws`.
pub fn char_is_ws(c: char) -> (r: bool)
    ensures
        r == is_ws(c),
{
    let u = c as u32;
    (9 <= u && u <= 13) || u == 32 || u == 0x85 || u == 0xa0 || u == 0x1680 || (0x2000 <= u
        && u <= 0x200a) || u == 0x2028 || u == 0x2029 || u == 0x202f || u == 0x205f || u == 0x3000
}

/// Calls `String::push`; the contract claims that the string's characters
/// become the old ones followed by `c`, as the method's documentation says.
#[verifier::external_body]
pub(crate) fn push_char(s: &mut String, c: char)
    ensures
        final(s)@ == old(s)@.push(c),
{
    s.push(c);
}

/// The characters of `s`, in order.
pub fn chars_of(s: &str) -> (v: Vec<char>)
    ensures
        v@ == s@,
{
    let mut v: Vec<char> = Vec::new();
    for c in iter: s.chars()
        invariant
            iter.seq() == s@,
            v@ == iter.seq().take(iter.index() as int),
    {
        v.push(c);
    }
    v
}

/// First index at or after `from` that holds `c`, or `s.len()` when there is none.
pub open spec fn find_char(s: Seq<char>, c: char, from: int) -> int
    decreases s.len() - from,
{
    if from >= s.len() {
        s.len() as int
    } else if s[from] == c {
        from
    } else {
        find_char(s, c, from + 1)
    }
}

/// First index at or after `from` that does not hold `c`, or `s.len()`:
/// the end of the run of `c` that starts at `from`.
pub open spec fn run_end(s: Seq<char>, c: char, from: int) -> int
    decreases s.len() - from,
{
    if from >= s.len() {
        s.len() as int
    } else if s[from] != c {
        from
    } else {
        run_end(s, c, from + 1)
    }
}

/// First index at or after `from` that does not hold whitespace, or `s.len()`.
pub open spec fn ws_end(s: Seq<char>, from: int) -> int
    decreases s.len() - from,
{
    if from >= s.len() {
        s.len() as int
    } else if !is_ws(s[from]) {
        from
    } else {
        ws_end(s, from + 1)
    }
}

/// Last index in `lo..hi` that holds `c`, or `-1` when there is none.
pub open spec fn last_char(s: Seq<char>, c: char, lo: int, hi: int) -> int
    decreases hi - lo,
{
    if hi <= lo {
        -1
    } else if s[hi - 1] == c {
        hi - 1
    } else {
        last_char(s, c, lo, hi - 1)
    }
}

pub proof fn lemma_find_char(s: Seq<char>, c: char, from: int)
    requires
        0 <= from <= s.len(),
    ensures
        from <= find_char(s, c, from) <= s.len(),
        find_char(s, c, from) < s.len() ==> s[find_char(s, c, from)] == c,
        forall|i: int| from <= i < find_char(s, c, from) ==> s[i] != c,
    decreases s.len() - from,
{
    if from < s.len() && s[from] != c {
        lemma_find_char(s, c, from + 1);
    }
}

pub proof fn lemma_run_end(s: Seq<char>, c: char, from: int)
    requires
        0 <= from <= s.len(),
    ensures
        from <= run_end(s, c, from) <= s.len(),
        run_end(s, c, from) < s.len() ==> s[run_end(s, c, from)] != c,
        forall|i: int| from <= i < run_end(s, c, from) ==> s[i] == c,
    decreases s.len() - from,
{
    if from < s.len() && s[from] == c {
        lemma_run_end(s, c, from + 1);
    }
}

pub proof fn lemma_ws_end(s: Seq<char>, from: int)
    requires
        0 <= from <= s.len(),
    ensures
        from <= ws_end(s, from) <= s.len(),
        ws_end(s, from) < s.len() ==> !is_ws(s[ws_end(s, from)]),
        forall|i: int| from <= i < ws_end(s, from) ==> is_ws(s[i]),
    decreases s.len() - from,
{
    if from < s.len() && is_ws(s[from]) {
        lemma_ws_end(s, from + 1);
    }
}

pub proof fn lemma_last_char(s: Seq<char>, c: char, lo: int, hi: int)
    requires
        0 <= lo,
        hi <= s.len(),
    ensures
        last_char(s, c, lo, hi) == -1 || (lo <= last_char(s, c, lo, hi) < hi && s[last_char(
            s,
            c,
            lo,
            hi,
        )] == c),
        forall|i: int| last_char(s, c, lo, hi) < i < hi && lo <= i ==> s[i] != c,
    decreases hi - lo,
{
    if hi > lo && s[hi - 1] != c {
        lemma_last_char(s, c, lo, hi - 1);
    }
}

/// `run_end` is the first position from `from` that does not hold `c`.
pub proof fn lemma_run_end_at(s: Seq<char>, c: char, from: int, k: int)
    requires
        0 <= from <= k <= s.len(),
        forall|i: int| from <= i < k ==> s[i] == c,
        k == s.len() || s[k] != c,
    ensures
        run_end(s, c, from) == k,
    decreases k - from,
{
    if from < k {
        lemma_run_end_at(s, c, from + 1, k);
    }
}

/// `ws_end` is the first position from `from` that does not hold whitespace.
pub proof fn lemma_ws_end_at(s: Seq<char>, from: int, k: int)
    requires
        0 <= from <= k <= s.len(),
        forall|i: int| from <= i < k ==> is_ws(s[i]),
        k == s.len() || !is_ws(s[k]),
    ensures
        ws_end(s, from) == k,
    decreases k - from,
{
    if from < k {
        lemma_ws_end_at(s, from + 1, k);
    }
}

/// With no `c` from `from` on, `find_char` gives the length.
pub proof fn lemma_find_char_none(s: Seq<char>, c: char, from: int)
    requires
        0 <= from <= s.len(),
        forall|i: int| from <= i < s.len() ==> s[i] != c,
    ensures
        find_char(s, c, from) == s.len(),
    decreases s.len() - from,
{
    if from < s.len() {
        lemma_find_char_none(s, c, from + 1);
    }
}

/// Executable `find_char`.
pub fn find_char_exec(s: &Vec<char>, c: char, from: usize) -> (r: usize)
    requires
        from <= s.len(),
    ensures
        from <= r <= s.len(),
        r == find_char(s@, c, from as int),
{
    let mut i = from;
    while i < s.len() && s[i] != c
        invariant
            from <= i <= s.len(),
            find_char(s@, c, from as int) == find_char(s@, c, i as int),
        decreases s.len() - i,
    {
        i = i + 1;
    }
    i
}

/// Executable `run_end`.
pub fn run_end_exec(s: &Vec<char>, c: char, from: usize) -> (r: usize)
    requires
        from <= s.len(),
    ensures
        from <= r <= s.len(),
        r == run_end(s@, c, from as int),
{
    let mut i = from;
    while i < s.len() && s[i] == c
        invariant
            from <= i <= s.len(),
            run_end(s@, c, from as int) == run_end(s@, c, i as int),
        decreases s.len() - i,
    {
        i = i + 1;
    }
    i
}

/// Executable `ws_end`.
pub fn ws_end_exec(s: &Vec<char>, from: usize) -> (r: usize)
    requires
        from <= s.len(),
    ensures
        from <= r <= s.len(),
        r == ws_end(s@, from as int),
{
    let mut i = from;
    while i < s.len() && char_is_ws(s[i])
        invariant
            from <= i <= s.len(),
            ws_end(s@, from as int) == ws_end(s@, i as int),
        decreases s.len() - i,
    {
        i = i + 1;
    }
    i
}

/// Executable `last_char`; `None` stands for `-1`.
pub fn last_char_exec(s: &Vec<char>, c: char, lo: usize, hi: usize) -> (r: Option<usize>)
    requires
        hi <= s.len(),
    ensures
        match r {
            Some(i) => i as int == last_char(s@, c, lo as int, hi as int),
            None => last_char(s@, c, lo as int, hi as int) == -1,
        },
{
    let mut h = hi;
    while h > lo && s[h - 1] != c
        invariant
            h <= hi <= s.len(),
            last_char(s@, c, lo as int, hi as int) == last_char(s@, c, lo as int, h as int),
        decreases h,
    {
        h = h - 1;
    }
    if h > lo {
        Some(h - 1)
    } else {
        None
    }
}

/// The characters `s[from..to]` as a string.
pub fn sub_string(s: &Vec<char>, from: usize, to: usize) -> (r: String)
    requires
        from <= to <= s.len(),
    ensures
        r@ == s@.subrange(from as int, to as int),
{
    let mut r = String::new();
    let mut i = from;
    while i < to
        invariant
            from <= i <= to <= s.len(),
            r@ == s@.subrange(from as int, i as int),
        decreases to - i,
    {
        push_char(&mut r, s[i]);
        i = i + 1;
        assert(r@ == s@.subrange(from as int, i as int));
    }
    r
}

/// The characters `s[from..to]` as a vector.
pub fn sub_vec(s: &Vec<char>, from: usize, to: usize) -> (r: Vec<char>)
    requires
        from <= to <= s.len(),
    ensures
        r@ == s@.subrange(from as int, to as int),
{
    let mut r: Vec<char> = Vec::new();
    let mut i = from;
    while i < to
        invariant
            from <= i <= to <= s.len(),
            r@ == s@.subrange(from as int, i as int),
        decreases to - i,
    {
        r.push(s[i]);
        i = i + 1;
        assert(r@ == s@.subrange(from as int, i as int));
    }
    r
}

/// The string whose characters are those of `s`.
pub fn string_of(s: &Vec<char>) -> (r: String)
    ensures
        r@ == s@,
{
    let r = sub_string(s, 0, s.len());
    assert(s@.subrange(0, s@.len() as int) == s@);
    r
}

/// `l` without one final carriage return.
pub open spec fn strip_cr(l: Seq<char>) -> Seq<char> {
    if l.len() > 0 && l.last() == '\r' {
        l.drop_last()
    } else {
        l
    }
}

/// The lines of `s` from `start` on, as `str::lines` gives them: split at each
/// `\n`, a `\r` just before a `\n` dropped, and no last empty line after a
/// final `\n`.
pub open spec fn lines_from(s: Seq<char>, start: int) -> Seq<Seq<char>>
    decreases s.len() - start,
{
    if start < 0 || start >= s.len() {
        seq![]
    } else {
        let e = find_char(s, '\n', start);
        proof {
            lemma_find_char(s, '\n', start);
        }
        if e >= s.len() {
            seq![s.subrange(start, s.len() as int)]
        } else {
            seq![strip_cr(s.subrange(start, e))] + lines_from(s, e + 1)
        }
    }
}

/// The lines of `s`, as `str::lines` gives them.
pub open spec fn lines_of(s: Seq<char>) -> Seq<Seq<char>> {
    lines_from(s, 0)
}

/// The pieces of `s` from `start` on between `\n` characters, as
/// `str::split("\n")` gives them: an empty piece after a final `\n` included.
pub open spec fn pieces_from(s: Seq<char>, start: int) -> Seq<Seq<char>>
    decreases s.len() + 1 - start,
{
    if start < 0 || start > s.len() {
        seq![]
    } else {
        let e = find_char(s, '\n', start);
        proof {
            lemma_find_char(s, '\n', start);
        }
        if e >= s.len() {
            seq![s.subrange(start, s.len() as int)]
        } else {
            seq![s.subrange(start, e)] + pieces_from(s, e + 1)
        }
    }
}

/// The pieces of `s` between `\n` characters, as `str::split("\n")` gives them.
pub open spec fn split_newlines(s: Seq<char>) -> Seq<Seq<char>> {
    pieces_from(s, 0)
}

proof fn lemma_find_char_push(s: Seq<char>, c: char, from: int)
    requires
        0 <= from <= s.len(),
    ensures
        find_char(s, c, from) < s.len() ==> find_char(s.push(c), c, from) == find_char(s, c, from),
        find_char(s, c, from) == s.len() ==> find_char(s.push(c), c, from) == s.len(),
    decreases s.len() - from,
{
    if from < s.len() {
        assert(s.push(c)[from] == s[from]);
        lemma_find_char_push(s, c, from + 1);
    } else {
        assert(s.push(c)[from] == c);
    }
}

proof fn lemma_lines_push_newline(s: Seq<char>, start: int)
    requires
        0 <= start < s.len(),
        s.last() != '\n',
        s.last() != '\r',
    ensures
        lines_from(s.push('\n'), start) == lines_from(s, start),
    decreases s.len() - start,
{
    let t = s.push('\n');
    lemma_find_char(s, '\n', start);
    lemma_find_char_push(s, '\n', start);
    let e = find_char(s, '\n', start);
    assert(t.subrange(start, e) =~= s.subrange(start, e));
    if e < s.len() {
        assert(e != s.len() - 1);
        lemma_lines_push_newline(s, e + 1);
    } else {
        assert(lines_from(t, e + 1) == Seq::<Seq<char>>::empty());
        let line = s.subrange(start, s.len() as int);
        assert(line.last() == s.last());
        assert(strip_cr(line) == line);
    }
}

/// A final line ending changes nothing in the lines of a text that does not
/// already end in one (nor in a carriage return).
pub proof fn law_final_newline_lines(s: Seq<char>)
    requires
        s.len() > 0,
        s.last() != '\n',
        s.last() != '\r',
    ensures
        lines_of(s.push('\n')) == lines_of(s),
{
    lemma_lines_push_newline(s, 0);
}

/// The characters from `pos` to the next `\n` (or the end), and the position
/// of that `\n` (or the length).  With `strip`, one final `\r` is dropped when
/// a `\n` follows.
pub fn line_at(s: &Vec<char>, pos: usize, strip: bool) -> (r: (Vec<char>, usize))
    requires
        pos <= s.len(),
    ensures
        r.1 as int == find_char(s@, '\n', pos as int),
        pos <= r.1 <= s.len(),
        r.0@ == (if strip && r.1 < s.len() {
            strip_cr(s@.subrange(pos as int, r.1 as int))
        } else {
            s@.subrange(pos as int, r.1 as int)
        }),
{
    let e = find_char_exec(s, '\n', pos);
    let mut line = sub_vec(s, pos, e);
    if strip && e < s.len() && line.len() > 0 && line[line.len() - 1] == '\r' {
        line.pop();
    }
    (line, e)
}

proof fn lemma_find_char_concat_tail(x: Seq<char>, r: Seq<char>, c: char, j: int)
    requires
        0 <= j <= r.len(),
    ensures
        find_char(x + r, c, x.len() + j) == x.len() + find_char(r, c, j),
    decreases r.len() - j,
{
    if j < r.len() {
        assert((x + r)[x.len() + j] == r[j]);
        lemma_find_char_concat_tail(x, r, c, j + 1);
    }
}

proof fn lemma_find_char_concat_head(x: Seq<char>, r: Seq<char>, c: char, i: int)
    requires
        0 <= i < x.len(),
        x.last() == c,
    ensures
        find_char(x + r, c, i) == find_char(x, c, i),
        find_char(x, c, i) < x.len(),
    decreases x.len() - i,
{
    assert((x + r)[i] == x[i]);
    if x[i] != c {
        lemma_find_char_concat_head(x, r, c, i + 1);
    }
}

proof fn lemma_lines_concat_tail(x: Seq<char>, r: Seq<char>, j: int)
    requires
        0 <= j,
    ensures
        lines_from(x + r, x.len() + j) == lines_from(r, j),
    decreases r.len() - j,
{
    if j < r.len() {
        lemma_find_char_concat_tail(x, r, '\n', j);
        lemma_find_char(r, '\n', j);
        let e = find_char(r, '\n', j);
        assert((x + r).subrange(x.len() + j, x.len() + e) =~= r.subrange(j, e));
        assert((x + r).subrange(x.len() + j, (x + r).len() as int) =~= r.subrange(j, r.len() as int));
        if e < r.len() {
            lemma_lines_concat_tail(x, r, e + 1);
        }
    }
}

proof fn lemma_lines_concat_head(x: Seq<char>, r: Seq<char>, i: int)
    requires
        0 <= i <= x.len(),
        x.len() > 0,
        x.last() == '\n',
    ensures
        lines_from(x + r, i) == lines_from(x, i) + lines_from(x + r, x.len() as int),
    decreases x.len() - i,
{
    if i < x.len() {
        lemma_find_char_concat_head(x, r, '\n', i);
        lemma_find_char(x, '\n', i);
        let e = find_char(x, '\n', i);
        assert((x + r).subrange(i, e) =~= x.subrange(i, e));
        lemma_lines_concat_head(x, r, e + 1);
        assert(lines_from(x + r, i) =~= lines_from(x, i) + lines_from(x + r, x.len() as int));
    } else {
        assert(lines_from(x, i) =~= Seq::<Seq<char>>::empty());
        assert(lines_from(x + r, i) =~= lines_from(x, i) + lines_from(x + r, x.len() as int));
    }
}

/// The lines of a text cut just after a line ending are the lines of the
/// first part followed by those of the second.
pub proof fn law_lines_concat(x: Seq<char>, r: Seq<char>)
    requires
        x.len() > 0,
        x.last() == '\n',
    ensures
        lines_of(x + r) == lines_of(x) + lines_of(r),
{
    lemma_lines_concat_head(x, r, 0);
    lemma_lines_concat_tail(x, r, 0);
}

/// `last_char` is the last position below `hi` that holds `c`.
pub proof fn lemma_last_char_at(s: Seq<char>, c: char, lo: int, hi: int, k: int)
    requires
        lo <= k < hi,
        s[k] == c,
        forall|i: int| k < i < hi ==> s[i] != c,
    ensures
        last_char(s, c, lo, hi) == k,
    decreases hi - k,
{
    if k < hi - 1 {
        lemma_last_char_at(s, c, lo, hi - 1, k);
    }
}

pub proof fn lemma_find_char_at(s: Seq<char>, c: char, from: int, k: int)
    requires
        0 <= from <= k < s.len(),
        forall|i: int| from <= i < k ==> s[i] != c,
        s[k] == c,
    ensures
        find_char(s, c, from) == k,
    decreases k - from,
{
    if from < k {
        lemma_find_char_at(s, c, from + 1, k);
    }
}

proof fn lemma_pieces_concat_tail(x: Seq<char>, r: Seq<char>, j: int)
    requires
        0 <= j <= r.len(),
    ensures
        pieces_from(x + r, x.len() + j) == pieces_from(r, j),
    decreases r.len() + 1 - j,
{
    lemma_find_char_concat_tail(x, r, '\n', j);
    lemma_find_char(r, '\n', j);
    let e = find_char(r, '\n', j);
    assert((x + r).subrange(x.len() + j, x.len() + e) =~= r.subrange(j, e));
    assert((x + r).subrange(x.len() + j, (x + r).len() as int) =~= r.subrange(j, r.len() as int));
    if e < r.len() {
        lemma_pieces_concat_tail(x, r, e + 1);
    }
}

/// A line ending splits off the line before it: the lines of `x`, a newline,
/// then `r`, where `x` holds no newline, are `x` (less a final carriage
/// return) followed by the lines of `r`, whatever their lengths.
pub proof fn law_lines_first(x: Seq<char>, r: Seq<char>)
    requires
        forall|i: int| 0 <= i < x.len() ==> x[i] != '\n',
    ensures
        lines_of(x + seq!['\n'] + r) == seq![strip_cr(x)] + lines_of(r),
{
    let p = x + seq!['\n'];
    let s = p + r;
    assert(s[x.len() as int] == '\n');
    assert forall|i: int| 0 <= i < x.len() implies s[i] != '\n' by {
        assert(s[i] == x[i]);
    }
    lemma_find_char_at(s, '\n', 0, x.len() as int);
    assert(s.subrange(0, x.len() as int) =~= x);
    lemma_lines_concat_tail(p, r, 0);
}

/// A text with no newline and not empty is one line, whatever its length.
pub proof fn law_single_line(s: Seq<char>)
    requires
        s.len() > 0,
        forall|i: int| 0 <= i < s.len() ==> s[i] != '\n',
    ensures
        lines_of(s) == seq![s],
{
    lemma_find_char_none(s, '\n', 0);
    assert(s.subrange(0, s.len() as int) =~= s);
}

/// A newline splits off the piece before it: the pieces of `x`, a newline,
/// then `r`, where `x` holds no newline, are `x` followed by the pieces of
/// `r`; a text with no newline is one piece, whatever its length.
pub proof fn law_pieces(x: Seq<char>, r: Seq<char>)
    requires
        forall|i: int| 0 <= i < x.len() ==> x[i] != '\n',
    ensures
        split_newlines(x + seq!['\n'] + r) == seq![x] + split_newlines(r),
        split_newlines(x) == seq![x],
{
    let p = x + seq!['\n'];
    let s = p + r;
    assert(s[x.len() as int] == '\n');
    assert forall|i: int| 0 <= i < x.len() implies s[i] != '\n' by {
        assert(s[i] == x[i]);
    }
    lemma_find_char_at(s, '\n', 0, x.len() as int);
    assert(s.subrange(0, x.len() as int) =~= x);
    lemma_pieces_concat_tail(p, r, 0);
    lemma_find_char_none(x, '\n', 0);
    assert(x.subrange(0, x.len() as int) =~= x);
}

/// `o` with `acc` in front of what it holds.
pub open spec fn prepend<T>(acc: Seq<T>, o: Option<Seq<T>>) -> Option<Seq<T>> {
    match o {
        Some(r) => Some(acc + r),
        None => None,
    }
}

/// `buf` with `line` added as its last line: after a newline when `buf` is
/// not empty.
pub open spec fn with_line(buf: Seq<char>, line: Seq<char>) -> Seq<char> {
    if buf.len() > 0 {
        buf.push('\n') + line
    } else {
        line
    }
}

/// `buf` with `lines` added, each as its last line.
pub open spec fn with_lines(buf: Seq<char>, lines: Seq<Seq<char>>) -> Seq<char>
    decreases lines.len(),
{
    if lines.len() == 0 {
        buf
    } else {
        with_lines(with_line(buf, lines[0]), lines.drop_first())
    }
}

/// `lines` joined by newlines.
pub open spec fn joined(lines: Seq<Seq<char>>) -> Seq<char>
    decreases lines.len(),
{
    if lines.len() == 0 {
        seq![]
    } else if lines.len() == 1 {
        lines[0]
    } else {
        lines[0].push('\n') + joined(lines.drop_first())
    }
}

proof fn lemma_with_lines_nonempty(buf: Seq<char>, lines: Seq<Seq<char>>)
    requires
        buf.len() > 0,
    ensures
        with_lines(buf, lines) == (if lines.len() == 0 {
            buf
        } else {
            buf.push('\n') + joined(lines)
        }),
    decreases lines.len(),
{
    if lines.len() > 0 {
        let next = with_line(buf, lines[0]);
        assert(next == buf.push('\n') + lines[0]);
        lemma_with_lines_nonempty(next, lines.drop_first());
        if lines.len() > 1 {
            assert(buf.push('\n') + (lines[0].push('\n') + joined(lines.drop_first())) =~= (
            buf.push('\n') + lines[0]).push('\n') + joined(lines.drop_first()));
        } else {
            assert(lines.drop_first().len() == 0);
        }
    }
}

/// Adding lines one after the other to an empty text, the first of them not
/// empty, joins them by newlines.
pub proof fn law_with_lines_joined(lines: Seq<Seq<char>>)
    requires
        lines.len() >= 1,
        lines[0].len() > 0,
    ensures
        with_lines(seq![], lines) == joined(lines),
{
    assert(with_line(seq![], lines[0]) == lines[0]);
    lemma_with_lines_nonempty(lines[0], lines.drop_first());
}

/// Adds `line` to `buf` as its last line.
pub fn append_line(buf: &mut Vec<char>, line: &Vec<char>)
    ensures
        final(buf)@ == with_line(old(buf)@, line@),
{
    if buf.len() > 0 {
        buf.push('\n');
    }
    let ghost start = buf@;
    let mut i: usize = 0;
    while i < line.len()
        invariant
            i <= line.len(),
            buf@ == start + line@.take(i as int),
        decreases line.len() - i,
    {
        buf.push(line[i]);
        i = i + 1;
        assert(buf@ =~= start + line@.take(i as int));
    }
    assert(line@.take(i as int) =~= line@);
    assert(old(buf)@.len() == 0 ==> start + line@ =~= line@);
}

} // verus!
