use razor::util::{map_spans, split_results, Span, Spanned};

#[test]
fn map_spans_highlights_in_place() {
    let spans = vec![(2usize, 5usize).span_pair(), (8, 9).span_pair()];
    let out = map_spans(&spans, "ab cde fgh", |s: &str| format!("<{s}>")).unwrap();
    assert_eq!(out, "ab< cd>e f<g>h");
}

trait Pair {
    fn span_pair(self) -> Spanned<()>;
}

impl Pair for (usize, usize) {
    fn span_pair(self) -> Spanned<()> {
        ().span(self.0..self.1)
    }
}

#[test]
fn map_spans_without_spans_keeps_the_text() {
    let spans: Vec<Spanned<()>> = Vec::new();
    assert_eq!(map_spans(&spans, "hello", |s: &str| s.to_uppercase()).unwrap(), "hello");
}

#[test]
fn map_spans_rejects_out_of_bounds() {
    let spans = vec![(3, 9).span_pair()];
    assert!(map_spans(&spans, "short", |s: &str| s.to_string()).is_none());
}

#[test]
fn map_spans_rejects_overlap_and_split_characters() {
    let spans = vec![(0, 3).span_pair(), (2, 4).span_pair()];
    assert!(map_spans(&spans, "abcdef", |s: &str| s.to_string()).is_none());
    let spans = vec![(1, 2).span_pair()];
    assert!(map_spans(&spans, "é", |s: &str| s.to_string()).is_none());
    let spans = vec![(0, 2).span_pair()];
    assert_eq!(map_spans(&spans, "éa", |s: &str| format!("[{s}]")).unwrap(), "[é]a");
}

#[test]
fn span_and_range() {
    let s = 7u8.span(3..10);
    assert_eq!((s.start, s.end, s.value), (3, 10, 7));
    assert_eq!(s.range(), 3..10);
}

#[test]
fn split_results_keeps_order() {
    let results: Vec<Result<u32, char>> = vec![Ok(1), Err('a'), Ok(2), Err('b'), Ok(3)];
    let (oks, errs) = split_results(results);
    assert_eq!(oks, vec![1, 2, 3]);
    assert_eq!(errs, vec!['a', 'b']);
}
