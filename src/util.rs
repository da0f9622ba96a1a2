use std::ops::Range;
use vstd::prelude::*;
use vstd::string::{StringExecFns, StringSliceAdditionalSpecFns};
use vstd::utf8::{
    decode_utf8, encode_utf8_decode_utf8, encode_utf8_valid_utf8, is_char_boundary,
    is_char_boundary_iff_not_is_continuation_byte, is_char_boundary_start_end_of_seq,
    valid_utf8_split,
};

verus! {

/// A value together with the half-open byte range `[start, end)` of source text it came from.
#[derive(Debug, Clone, Copy)]
pub struct Spanned<T> {
    pub start: usize,
    pub end: usize,
    pub value: T,
}

impl<T> Spanned<T> {
    /// The half-open range that this value covers.
    pub fn range(&self) -> (r: Range<usize>)
        ensures
            r.start == self.start,
            r.end == self.end,
    {
        self.start..self.end
    }
}

impl<T> std::ops::Deref for Spanned<T> {
    type Target = T;

    fn deref(&self) -> &T {
        &self.value
    }
}

impl<T> std::ops::DerefMut for Spanned<T> {
    fn deref_mut(&mut self) -> &mut T {
        &mut self.value
    }
}

/// Attaches a byte range to any value.
pub trait Span: Sized {
    /// Spans a value over some range.
    fn span(self, range: Range<usize>) -> (r: Spanned<Self>)
        ensures
            r.start == range.start,
            r.end == range.end,
            r.value == self,
    ;
}

impl<T> Span for T {
    fn span(self, range: Range<usize>) -> (r: Spanned<Self>) {
        Spanned { start: range.start, end: range.end, value: self }
    }
}

/// Where the text before span `k` begins: at 0 for the first span, else where span `k - 1` ends.
pub open spec fn gap_start<T>(spans: Seq<Spanned<T>>, k: int) -> int {
    if k == 0 {
        0
    } else {
        spans[k - 1].end as int
    }
}

/// True when every span can be cut out of the text `b`: each starts no earlier than the one
/// before it ends, does not end before it starts, lies inside the text, and begins and ends on
/// character boundaries.
pub open spec fn spans_fit<T>(b: Seq<u8>, spans: Seq<Spanned<T>>) -> bool {
    forall|k: int|
        0 <= k < spans.len() ==> gap_start(spans, k) <= (#[trigger] spans[k]).start <= spans[k].end
            <= b.len() && is_char_boundary(b, spans[k].start as int) && is_char_boundary(
            b,
            spans[k].end as int,
        )
}

/// The characters encoded by the bytes `b[i..j]`.
pub open spec fn piece(b: Seq<u8>, i: int, j: int) -> Seq<char> {
    decode_utf8(b.subrange(i, j))
}

/// The text with the first `n` spans replaced by the highlighted `hl`, up to the end of span
/// `n - 1`.
pub open spec fn highlighted_prefix<T>(
    b: Seq<u8>,
    spans: Seq<Spanned<T>>,
    hl: Seq<Seq<char>>,
    n: int,
) -> Seq<char>
    decreases n,
{
    if n <= 0 {
        Seq::empty()
    } else {
        highlighted_prefix(b, spans, hl, n - 1) + piece(
            b,
            gap_start(spans, n - 1),
            spans[n - 1].start as int,
        ) + hl[n - 1]
    }
}

/// `out` is the text with each span replaced by what `f` made of it: `args[k]` is the text of
/// span `k`, `outs[k]` is what `f` returned for it, and all text outside the spans is kept.
pub open spec fn highlighted<T, F: Fn(&str) -> String>(
    f: F,
    b: Seq<u8>,
    spans: Seq<Spanned<T>>,
    args: Seq<&str>,
    outs: Seq<String>,
    out: Seq<char>,
) -> bool {
    &&& args.len() == spans.len()
    &&& outs.len() == spans.len()
    &&& forall|k: int|
        0 <= k < spans.len() ==> (#[trigger] args[k])@ == piece(
            b,
            spans[k].start as int,
            spans[k].end as int,
        ) && call_ensures(f, (args[k],), outs[k])
    &&& out == highlighted_prefix(
        b,
        spans,
        outs.map_values(|o: String| o@),
        spans.len() as int,
    ) + piece(b, gap_start(spans, spans.len() as int), b.len() as int)
}

/// `out` is the text `b` with each span replaced by what `f` made of its text.
pub open spec fn is_highlighted<T, F: Fn(&str) -> String>(
    f: F,
    b: Seq<u8>,
    spans: Seq<Spanned<T>>,
    out: Seq<char>,
) -> bool {
    exists|args: Seq<&str>, outs: Seq<String>| #[trigger] highlighted(f, b, spans, args, outs, out)
}

/// The part of `text` between the byte offsets `i` and `j`.
fn substring(text: &str, i: usize, j: usize) -> (r: &str)
    requires
        i <= j <= text.spec_bytes().len(),
        is_char_boundary(text.spec_bytes(), i as int),
        is_char_boundary(text.spec_bytes(), j as int),
    ensures
        r@ == piece(text.spec_bytes(), i as int, j as int),
{
    let ghost b = text.spec_bytes();
    proof {
        encode_utf8_valid_utf8(text@);
        valid_utf8_split(b, i as int);
        let tail = b.subrange(i as int, b.len() as int);
        if j < b.len() {
            is_char_boundary_iff_not_is_continuation_byte(b, j as int);
            is_char_boundary_iff_not_is_continuation_byte(tail, j - i);
        } else {
            is_char_boundary_start_end_of_seq(tail);
        }
    }
    let (_, tail) = text.split_at(i);
    let (mid, _) = tail.split_at(j - i);
    proof {
        assert(mid.spec_bytes() =~= b.subrange(i as int, j as int));
        encode_utf8_decode_utf8(mid@);
    }
    mid
}

/// Rebuilds `text` with each spanned region replaced by `f` of its text, keeping everything
/// outside the spans; `None` when a span cannot be cut out of the text (see [`spans_fit`]).
pub fn map_spans<T, F: Fn(&str) -> String>(
    spans: &Vec<Spanned<T>>,
    text: &str,
    f: F,
) -> (r: Option<String>)
    requires
        forall|s: &str| #[trigger] call_requires(f, (s,)),
    ensures
        r is Some <==> spans_fit(text.spec_bytes(), spans@),
        r matches Some(out) ==> is_highlighted(f, text.spec_bytes(), spans@, out@),
{
    let ghost b = text.spec_bytes();
    let len = text.as_bytes().len();
    let mut out = String::new();
    let mut index: usize = 0;
    let mut i: usize = 0;
    let ghost mut args: Seq<&str> = Seq::empty();
    let ghost mut outs: Seq<String> = Seq::empty();
    proof {
        encode_utf8_valid_utf8(text@);
        is_char_boundary_start_end_of_seq(b);
    }
    while i < spans.len()
        invariant
            b == text.spec_bytes(),
            len == b.len(),
            i <= spans@.len(),
            index == gap_start(spans@, i as int),
            index <= len,
            is_char_boundary(b, index as int),
            args.len() == i,
            outs.len() == i,
            forall|k: int|
                0 <= k < i ==> gap_start(spans@, k) <= (#[trigger] spans@[k]).start <= spans@[k].end
                    <= b.len() && is_char_boundary(b, spans@[k].start as int) && is_char_boundary(
                    b,
                    spans@[k].end as int,
                ),
            forall|k: int|
                0 <= k < i ==> (#[trigger] args[k])@ == piece(
                    b,
                    spans@[k].start as int,
                    spans@[k].end as int,
                ) && call_ensures(f, (args[k],), outs[k]),
            out@ == highlighted_prefix(b, spans@, outs.map_values(|o: String| o@), i as int),
            forall|s: &str| #[trigger] call_requires(f, (s,)),
        decreases spans@.len() - i,
    {
        let span = &spans[i];
        let fits = index <= span.start && span.start <= span.end && span.end <= len
            && text.is_char_boundary(span.start) && text.is_char_boundary(span.end);
        if !fits {
            proof {
                assert(!spans_fit(b, spans@)) by {
                    assert(spans@[i as int] == *span);
                }
            }
            return None;
        }
        let before = substring(text, index, span.start);
        let inside = substring(text, span.start, span.end);
        let marked = f(inside);
        let ghost hl_before = outs.map_values(|o: String| o@);
        out.append(before);
        out.append(marked.as_str());
        proof {
            args = args.push(inside);
            outs = outs.push(marked);
            let hl = outs.map_values(|o: String| o@);
            assert(hl.subrange(0, i as int) =~= hl_before);
            assert(forall|n: int| 0 <= n <= i ==> highlighted_prefix(b, spans@, hl, n)
                == highlighted_prefix(b, spans@, hl_before, n)) by {
                assert forall|n: int| 0 <= n <= i implies highlighted_prefix(b, spans@, hl, n)
                    == highlighted_prefix(b, spans@, hl_before, n) by {
                    lemma_prefix_depends_on_first(b, spans@, hl, hl_before, n);
                }
            }
        }
        index = span.end;
        i = i + 1;
    }
    let rest = substring(text, index, len);
    out.append(rest);
    proof {
        assert(highlighted(f, text.spec_bytes(), spans@, args, outs, out@));
        assert(is_highlighted(f, text.spec_bytes(), spans@, out@));
        assert(spans_fit(text.spec_bytes(), spans@));
    }
    Some(out)
}

proof fn lemma_prefix_depends_on_first<T>(
    b: Seq<u8>,
    spans: Seq<Spanned<T>>,
    h1: Seq<Seq<char>>,
    h2: Seq<Seq<char>>,
    n: int,
)
    requires
        0 <= n <= h1.len(),
        n <= h2.len(),
        forall|k: int| 0 <= k < n ==> h1[k] == h2[k],
    ensures
        highlighted_prefix(b, spans, h1, n) == highlighted_prefix(b, spans, h2, n),
    decreases n,
{
    if n > 0 {
        lemma_prefix_depends_on_first(b, spans, h1, h2, n - 1);
    }
}

/// Sorts results into their two channels, keeping the order within each.
pub fn split_results<T, E>(results: Vec<Result<T, E>>) -> (r: (Vec<T>, Vec<E>))
    ensures
        r.0@ == oks(results@),
        r.1@ == errs(results@),
{
    let ghost all = results@;
    let mut results = results;
    let mut oks_rev: Vec<T> = Vec::new();
    let mut errs_rev: Vec<E> = Vec::new();
    // Taken from the back, so each channel comes out reversed.
    while results.len() > 0
        invariant
            results@.len() <= all.len(),
            results@ == all.subrange(0, results@.len() as int),
            oks(all) == oks(results@) + rev(oks_rev@),
            errs(all) == errs(results@) + rev(errs_rev@),
        decreases results@.len(),
    {
        let ghost before = results@;
        let last = results.pop().unwrap();
        proof {
            assert(results@ =~= all.subrange(0, results@.len() as int));
            assert(before == results@.push(last));
            lemma_oks_errs_push(results@, last);
        }
        match last {
            Ok(v) => {
                proof {
                    lemma_rev_push(oks_rev@, v);
                }
                oks_rev.push(v);
            },
            Err(e) => {
                proof {
                    lemma_rev_push(errs_rev@, e);
                }
                errs_rev.push(e);
            },
        }
    }
    let oks_out = reversed(oks_rev);
    let errs_out = reversed(errs_rev);
    proof {
        assert(oks(results@) =~= Seq::empty());
        assert(errs(results@) =~= Seq::empty());
        assert(oks(all) =~= rev(oks_rev@));
        assert(errs(all) =~= rev(errs_rev@));
    }
    (oks_out, errs_out)
}

/// The `Ok` values of `s`, in order.
pub open spec fn oks<T, E>(s: Seq<Result<T, E>>) -> Seq<T>
    decreases s.len(),
{
    if s.len() == 0 {
        Seq::empty()
    } else {
        oks(s.drop_last()) + match s.last() {
            Ok(v) => seq![v],
            Err(_) => Seq::empty(),
        }
    }
}

/// The `Err` values of `s`, in order.
pub open spec fn errs<T, E>(s: Seq<Result<T, E>>) -> Seq<E>
    decreases s.len(),
{
    if s.len() == 0 {
        Seq::empty()
    } else {
        errs(s.drop_last()) + match s.last() {
            Ok(_) => Seq::empty(),
            Err(e) => seq![e],
        }
    }
}

pub open spec fn rev<T>(s: Seq<T>) -> Seq<T> {
    Seq::new(s.len(), |k: int| s[s.len() - 1 - k])
}

proof fn lemma_oks_errs_push<T, E>(s: Seq<Result<T, E>>, x: Result<T, E>)
    ensures
        oks(s.push(x)) == oks(s) + match x {
            Ok(v) => seq![v],
            Err(_) => Seq::empty(),
        },
        errs(s.push(x)) == errs(s) + match x {
            Ok(_) => Seq::empty(),
            Err(e) => seq![e],
        },
{
    assert(s.push(x).drop_last() =~= s);
}

proof fn lemma_rev_push<T>(s: Seq<T>, x: T)
    ensures
        rev(s.push(x)) == seq![x] + rev(s),
{
    assert(rev(s.push(x)) =~= seq![x] + rev(s));
}

fn reversed<T>(v: Vec<T>) -> (r: Vec<T>)
    ensures
        r@ == rev(v@),
{
    let ghost all = v@;
    let mut v = v;
    let mut out: Vec<T> = Vec::new();
    while v.len() > 0
        invariant
            v@.len() <= all.len(),
            v@ == all.subrange(0, v@.len() as int),
            out@ == rev(all).subrange(0, all.len() - v@.len()),
        decreases v@.len(),
    {
        let x = v.pop().unwrap();
        assert(v@ =~= all.subrange(0, v@.len() as int));
        out.push(x);
        assert(out@ =~= rev(all).subrange(0, all.len() - v@.len()));
    }
    assert(out@ =~= rev(all));
    out
}

} // verus!
