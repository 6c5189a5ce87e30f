//! The spans that a log records.

use crate::annotations::{entries_view, Annotation, Entry};
use vstd::prelude::*;

verus! {

/// One recorded span: a named interval of time with its annotations.
///
/// The times are in nanoseconds. Nothing asks that the end is not before the
/// start: a span is converted as it was recorded.
#[derive(Clone, Debug, PartialEq, Eq)]
pub struct SpanRecord {
    pub name: String,
    pub start: u64,
    pub end: u64,
    pub annotations: Vec<Annotation>,
}

/// A span as plain mathematical values.
pub struct SpanModel {
    pub name: Seq<char>,
    pub start: u64,
    pub end: u64,
    pub annotations: Seq<Entry>,
}

impl View for SpanRecord {
    type V = SpanModel;

    open spec fn view(&self) -> SpanModel {
        SpanModel {
            name: self.name@,
            start: self.start,
            end: self.end,
            annotations: entries_view(self.annotations@),
        }
    }
}

} // verus!
