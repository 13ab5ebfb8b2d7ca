//! Spans of formatted text inside a line or paragraph, their stable ordering by
//! start position, and the reading cursor that walks over them.
use vstd::prelude::*;

verus! {

/// A formatted stretch of text: it starts at character `start`, and reading
/// the text goes on one byte past the start of character `end`.
pub struct Span<T> {
    pub start: usize,
    pub end: usize,
    pub token: T,
}

impl<T: View> View for Span<T> {
    type V = (int, int, T::V);

    open spec fn view(&self) -> (int, int, T::V) {
        (self.start as int, self.end as int, self.token@)
    }
}

/// The views of a sequence of spans.
pub open spec fn span_views<T: View>(v: Seq<Span<T>>) -> Seq<(int, int, T::V)> {
    v.map_values(|x: Span<T>| x@)
}

/// The first index at or after `from` whose span starts after `key`, or `v.len()`.
pub open spec fn insert_pos<V>(v: Seq<(int, int, V)>, key: int, from: int) -> int
    decreases v.len() - from,
{
    if from < 0 || from >= v.len() {
        v.len() as int
    } else if v[from].0 > key {
        from
    } else {
        insert_pos(v, key, from + 1)
    }
}

/// Stable sort by start position: each span, in order, goes after every span
/// already placed that starts at or before it.
pub open spec fn sort_by_start<V>(v: Seq<(int, int, V)>) -> Seq<(int, int, V)>
    decreases v.len(),
{
    if v.len() == 0 {
        v
    } else {
        let r = sort_by_start(v.drop_last());
        r.insert(insert_pos(r, v.last().0, 0), v.last())
    }
}

pub proof fn lemma_insert_pos<V>(v: Seq<(int, int, V)>, key: int, from: int)
    requires
        0 <= from <= v.len(),
    ensures
        from <= insert_pos(v, key, from) <= v.len(),
        forall|i: int| from <= i < insert_pos(v, key, from) ==> v[i].0 <= key,
        insert_pos(v, key, from) < v.len() ==> v[insert_pos(v, key, from)].0 > key,
    decreases v.len() - from,
{
    if from < v.len() && v[from].0 <= key {
        lemma_insert_pos(v, key, from + 1);
    }
}

pub proof fn lemma_sort_len<V>(v: Seq<(int, int, V)>)
    ensures
        sort_by_start(v).len() == v.len(),
    decreases v.len(),
{
    if v.len() > 0 {
        lemma_sort_len(v.drop_last());
        lemma_insert_pos(sort_by_start(v.drop_last()), v.last().0, 0);
    }
}

/// Whether a span starts at `k`.
pub open spec fn starts_at<V>(k: int) -> spec_fn((int, int, V)) -> bool {
    |x: (int, int, V)| x.0 == k
}

proof fn lemma_filter_one<V>(x: (int, int, V), k: int)
    ensures
        seq![x].filter(starts_at(k)) == (if x.0 == k {
            seq![x]
        } else {
            Seq::<(int, int, V)>::empty()
        }),
{
    Seq::<(int, int, V)>::empty().lemma_filter_push(x, starts_at(k));
    assert(Seq::<(int, int, V)>::empty().push(x) =~= seq![x]);
    reveal(Seq::filter);
    assert(Seq::<(int, int, V)>::empty().filter(starts_at(k)) =~= Seq::<(int, int, V)>::empty());
}

/// Sorting by start position orders the spans by start, and keeps the spans
/// that start at the same position in the order they came in, with no span
/// added or lost.
pub proof fn law_sort_stable<V>(v: Seq<(int, int, V)>)
    ensures
        sort_by_start(v).len() == v.len(),
        forall|i: int, j: int|
            0 <= i < j < sort_by_start(v).len() ==> #[trigger] sort_by_start(v)[i].0
                <= #[trigger] sort_by_start(v)[j].0,
        forall|k: int| #[trigger] sort_by_start(v).filter(starts_at(k)) == v.filter(starts_at(k)),
    decreases v.len(),
{
    lemma_sort_len(v);
    if v.len() == 0 {
        return;
    }
    let u = v.drop_last();
    let x = v.last();
    let r = sort_by_start(u);
    law_sort_stable(u);
    lemma_insert_pos(r, x.0, 0);
    let p = insert_pos(r, x.0, 0);
    let t = r.insert(p, x);
    assert(t == sort_by_start(v));
    assert(forall|i: int| p <= i < r.len() ==> #[trigger] r[i].0 > x.0) by {
        assert forall|i: int| p <= i < r.len() implies #[trigger] r[i].0 > x.0 by {
            if i > p {
                assert(r[p].0 <= r[i].0);
            }
        }
    }
    assert forall|i: int, j: int| 0 <= i < j < t.len() implies #[trigger] t[i].0 <= #[trigger] t[j].0 by {
        if j < p {
            assert(t[i] == r[i] && t[j] == r[j]);
        } else if j == p {
            assert(t[j] == x);
            assert(t[i] == r[i]);
        } else if i < p {
            assert(t[i] == r[i] && t[j] == r[j - 1]);
        } else if i == p {
            assert(t[i] == x && t[j] == r[j - 1]);
        } else {
            assert(t[i] == r[i - 1] && t[j] == r[j - 1]);
        }
    }
    assert(t =~= r.take(p) + seq![x] + r.skip(p));
    assert(r =~= r.take(p) + r.skip(p));
    assert(v =~= u.push(x));
    assert forall|k: int| #[trigger] t.filter(starts_at(k)) == v.filter(starts_at(k)) by {
        let pr = starts_at::<V>(k);
        Seq::filter_distributes_over_add(r.take(p) + seq![x], r.skip(p), pr);
        Seq::filter_distributes_over_add(r.take(p), seq![x], pr);
        Seq::filter_distributes_over_add(r.take(p), r.skip(p), pr);
        u.lemma_filter_push(x, pr);
        lemma_filter_one(x, k);
        assert(u.filter(pr) == r.filter(pr));
        if x.0 == k {
            assert(r.skip(p).all(|y: (int, int, V)| !pr(y))) by {
                assert forall|i: int| 0 <= i < r.skip(p).len() implies !pr(#[trigger] r.skip(p)[i]) by {
                    assert(r.skip(p)[i] == r[p + i]);
                }
            }
            r.skip(p).lemma_all_neg_filter_empty(pr);
            assert(r.skip(p).filter(pr) =~= Seq::<(int, int, V)>::empty());
            assert(t.filter(pr) =~= v.filter(pr));
        } else {
            assert(t.filter(pr) =~= v.filter(pr));
        }
    }
}

fn insert_index<T: View>(r: &Vec<Span<T>>, key: usize) -> (i: usize)
    ensures
        i as int == insert_pos(span_views(r@), key as int, 0),
{
    let mut i: usize = 0;
    while i < r.len() && r[i].start <= key
        invariant
            i <= r.len(),
            insert_pos(span_views(r@), key as int, 0) == insert_pos(
                span_views(r@),
                key as int,
                i as int,
            ),
        decreases r.len() - i,
    {
        i = i + 1;
    }
    i
}

/// Executable stable sort by start position.
pub fn sort_spans<T: View>(v: Vec<Span<T>>) -> (r: Vec<Span<T>>)
    ensures
        span_views(r@) == sort_by_start(span_views(v@)),
{
    let ghost orig = span_views(v@);
    let mut v = v;
    let mut r: Vec<Span<T>> = Vec::new();
    assert(v.len() == orig.len());
    let ghost mut i: int = 0;
    proof {
        assert(orig.take(0) =~= Seq::<(int, int, T::V)>::empty());
        assert(span_views(v@) =~= orig.skip(0));
        assert(span_views(r@) =~= sort_by_start(orig.take(0)));
    }
    while v.len() > 0
        invariant
            0 <= i <= orig.len(),
            v.len() + i == orig.len(),
            span_views(v@) == orig.skip(i),
            span_views(r@) == sort_by_start(orig.take(i)),
        decreases v.len(),
    {
        let ghost vbefore = v@;
        let x = v.remove(0);
        proof {
            assert(span_views(vbefore)[0] == x@);
            assert(orig.skip(i)[0] == orig[i]);
            assert(x@ == orig[i]);
            assert forall|j: int| 0 <= j < v.len() implies span_views(v@)[j] == orig.skip(i + 1)[j] by {
                assert(v@[j] == vbefore[j + 1]);
                assert(span_views(vbefore)[j + 1] == orig.skip(i)[j + 1]);
            }
            assert(span_views(v@) =~= orig.skip(i + 1));
            assert(orig.take(i + 1).drop_last() =~= orig.take(i));
            lemma_sort_len(orig.take(i));
            lemma_insert_pos(span_views(r@), x@.0, 0);
        }
        let pos = insert_index(&r, x.start);
        let ghost before = r@;
        r.insert(pos, x);
        proof {
            assert(span_views(r@) =~= span_views(before).insert(pos as int, x@));
            i = i + 1;
        }
    }
    proof {
        assert(orig.take(i) =~= orig);
    }
    r
}

/// Every span starts inside a text of length `n`, and ends within it, not
/// before its start.
pub open spec fn spans_within<V>(v: Seq<(int, int, V)>, n: int) -> bool {
    forall|j: int| 0 <= j < v.len() ==> 0 <= #[trigger] v[j].0 < n && v[j].0 <= v[j].1 <= n
}

pub proof fn lemma_sort_within<V>(v: Seq<(int, int, V)>, n: int)
    requires
        spans_within(v, n),
    ensures
        spans_within(sort_by_start(v), n),
    decreases v.len(),
{
    if v.len() > 0 {
        let r = sort_by_start(v.drop_last());
        lemma_sort_within(v.drop_last(), n);
        lemma_insert_pos(r, v.last().0, 0);
        let p = insert_pos(r, v.last().0, 0);
        let t = r.insert(p, v.last());
        assert forall|j: int| 0 <= j < t.len() implies 0 <= #[trigger] t[j].0 < n && t[j].0
            <= t[j].1 <= n by {
            if j < p {
                assert(t[j] == r[j]);
            } else if j > p {
                assert(t[j] == r[j - 1]);
            }
        }
    }
}

/// Where the reading of the text stands after a span: at a character
/// (`At`), one byte inside a character of more than one byte (`Mid`), or
/// beyond the end of the text (`Past`).
pub enum Cursor {
    At(int),
    Mid(int),
    Past,
}

/// Whether `c` is encoded in one byte.
pub open spec fn is_one_byte(c: char) -> bool {
    (c as u32) < 128
}

/// The cursor one byte past position `end`.
pub open spec fn cursor_after(s: Seq<char>, end: int) -> Cursor {
    if end >= s.len() {
        Cursor::Past
    } else if is_one_byte(s[end]) {
        Cursor::At(end + 1)
    } else {
        Cursor::Mid(end)
    }
}

/// Executable cursor; `CursorExec::At(k)` stands for `Cursor::At(k)`, and so on.
pub enum CursorExec {
    At(usize),
    Mid(usize),
    Past,
}

impl View for CursorExec {
    type V = Cursor;

    open spec fn view(&self) -> Cursor {
        match self {
            CursorExec::At(k) => Cursor::At(*k as int),
            CursorExec::Mid(k) => Cursor::Mid(*k as int),
            CursorExec::Past => Cursor::Past,
        }
    }
}

/// Executable `cursor_after`.
pub fn cursor_after_exec(s: &Vec<char>, end: usize) -> (c: CursorExec)
    ensures
        c@ == cursor_after(s@, end as int),
{
    if end >= s.len() {
        CursorExec::Past
    } else if (s[end] as u32) < 128 {
        CursorExec::At(end + 1)
    } else {
        CursorExec::Mid(end)
    }
}

} // verus!
