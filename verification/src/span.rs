use vstd::prelude::*;

verus! {

/// Where a directive was written: its first and last line, its text and its file.
#[derive(Debug, Clone, PartialEq, Eq, Default)]
pub struct SpanInfo {
    pub start: usize,
    pub end: usize,
    pub content: String,
    pub filename: Option<String>,
}

impl SpanInfo {
    /// An equal span.
    pub fn copy(&self) -> (r: SpanInfo)
        ensures
            r == *self,
    {
        let filename = match &self.filename {
            Some(f) => Some(f.clone()),
            None => None,
        };
        SpanInfo { start: self.start, end: self.end, content: self.content.clone(), filename }
    }

    /// A span of lines with no text and no file.
    pub fn simple(start: usize, end: usize) -> (r: SpanInfo)
        ensures
            r.start == start,
            r.end == end,
            r.content@ == Seq::<char>::empty(),
            r.filename is None,
    {
        SpanInfo { start, end, content: String::new(), filename: None }
    }
}

/// A value with the span it was read from.
#[derive(Debug, Clone, PartialEq, Eq)]
pub struct Spanned<T> {
    pub data: T,
    pub span: SpanInfo,
}

impl<T> Spanned<T> {
    pub fn new(data: T, span: SpanInfo) -> (r: Spanned<T>)
        ensures
            r.data == data,
            r.span == span,
    {
        Spanned { data, span }
    }
}

} // verus!
