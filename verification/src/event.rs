//! Trace events: the two that each span yields, and what they hold.

use crate::annotations::{
    entries_of, lemma_entries_sorted, lemma_last_write_wins, lemma_lookup_last, lemma_lookup_none,
    lemma_lookup_sorted, lookup, AnnotationMap, Entry,
};
use crate::number::{parse_u64, read_u64};
use crate::span::{SpanModel, SpanRecord};
use vstd::prelude::*;

verus! {

/// Whether an event begins an interval or ends one.
#[derive(Clone, Copy, Debug, PartialEq, Eq, Structural)]
pub enum Phase {
    Begin,
    End,
}

impl Phase {
    /// The letter that marks the phase in a trace.
    pub open spec fn letter(self) -> Seq<char> {
        match self {
            Phase::Begin => "B"@,
            Phase::End => "E"@,
        }
    }

    /// The letter that marks the phase in a trace.
    pub fn as_str(self) -> (r: &'static str)
        ensures
            r@ == self.letter(),
    {
        match self {
            Phase::Begin => "B",
            Phase::End => "E",
        }
    }
}

/// One event of a trace. The time `ts` is in microseconds.
#[derive(Clone, Copy, Debug)]
pub struct TraceEvent<'a> {
    pub name: &'a str,
    pub cat: &'a str,
    pub ph: Phase,
    pub ts: u64,
    pub pid: u64,
    pub tid: u64,
    pub args: &'a AnnotationMap<'a>,
}

/// A trace event as plain mathematical values, its arguments in the order in
/// which they are written.
pub struct EventModel {
    pub name: Seq<char>,
    pub cat: Seq<char>,
    pub ph: Phase,
    pub ts: u64,
    pub pid: u64,
    pub tid: u64,
    pub args: Seq<Entry>,
}

impl<'a> View for TraceEvent<'a> {
    type V = EventModel;

    open spec fn view(&self) -> EventModel {
        EventModel {
            name: self.name@,
            cat: self.cat@,
            ph: self.ph,
            ts: self.ts,
            pid: self.pid,
            tid: self.tid,
            args: self.args@,
        }
    }
}

/// The category that annotations give: the value of `categories`, and `all`
/// where they have no such key.
pub open spec fn category(args: Seq<Entry>) -> Seq<char> {
    match lookup(args, "categories"@) {
        Some(c) => c,
        None => "all"@,
    }
}

/// The thread that annotations give: the number that the value of `tid`
/// denotes, and 0 where they have no such key or its value denotes none.
pub open spec fn thread_id(args: Seq<Entry>) -> u64 {
    match lookup(args, "tid"@) {
        Some(t) => match parse_u64(t) {
            Some(n) => n,
            None => 0,
        },
        None => 0,
    }
}

/// The time of a span at which an event of the given phase stands, in
/// nanoseconds.
pub open spec fn time_of(span: SpanModel, ph: Phase) -> u64 {
    match ph {
        Phase::Begin => span.start,
        Phase::End => span.end,
    }
}

/// The event of a span for a phase, with the given arguments.
pub open spec fn event_with(span: SpanModel, ph: Phase, args: Seq<Entry>) -> EventModel {
    EventModel {
        name: span.name,
        cat: category(args),
        ph,
        ts: time_of(span, ph) / 1000,
        pid: 0,
        tid: thread_id(args),
        args,
    }
}

/// The event that a span yields for a phase: its arguments are the map that
/// the span's annotations make.
pub open spec fn event_model(span: SpanModel, ph: Phase) -> EventModel {
    event_with(span, ph, entries_of(span.annotations))
}

/// The category of the events that go with these annotations.
pub fn category_of<'a>(args: &AnnotationMap<'a>) -> (r: &'a str)
    ensures
        r@ == category(args@),
{
    match args.get("categories") {
        Some(c) => c,
        None => "all",
    }
}

/// The thread of the events that go with these annotations.
pub fn thread_id_of(args: &AnnotationMap<'_>) -> (r: u64)
    ensures
        r == thread_id(args@),
{
    match args.get("tid") {
        Some(t) => match read_u64(t) {
            Some(n) => n,
            None => 0,
        },
        None => 0,
    }
}

/// The event of a span for a phase, with the given map as its arguments. With
/// the map that the span's annotations make, it is the event that the span
/// yields; both events of a span take the same map.
pub fn span_event<'a>(span: &'a SpanRecord, ph: Phase, args: &'a AnnotationMap<'a>) -> (r:
    TraceEvent<'a>)
    ensures
        r@ == event_with(span@, ph, args@),
{
    let at = match ph {
        Phase::Begin => span.start,
        Phase::End => span.end,
    };
    TraceEvent {
        name: span.name.as_str(),
        cat: category_of(args),
        ph,
        ts: at / 1000,
        pid: 0,
        tid: thread_id_of(args),
        args,
    }
}

/// The time that an event shows is the time of the span in microseconds: the
/// nanoseconds divided by 1000, the remainder dropped.
pub proof fn lemma_event_time(span: SpanModel, ph: Phase)
    ensures
        event_model(span, ph).ts == time_of(span, ph) / 1000,
        event_model(span, ph).ts * 1000 <= time_of(span, ph) < (event_model(span, ph).ts + 1) * 1000,
{
}

/// The two events of a span differ in their phase and their time, and in
/// nothing else.
pub proof fn lemma_begin_end_pair(span: SpanModel)
    ensures
        event_model(span, Phase::End) == (EventModel {
            ph: Phase::End,
            ts: span.end / 1000,
            ..event_model(span, Phase::Begin)
        }),
        event_model(span, Phase::Begin).ph == Phase::Begin,
        event_model(span, Phase::Begin).ts == span.start / 1000,
{
}

/// A span without a `categories` annotation yields events of the category
/// `all`.
pub proof fn lemma_default_category(span: SpanModel, ph: Phase)
    requires
        forall|i: int| 0 <= i < span.annotations.len() ==> (#[trigger] span.annotations[i]).0 != "categories"@,
    ensures
        event_model(span, ph).cat == "all"@,
{
    lemma_lookup_none(span.annotations, "categories"@);
    lemma_last_write_wins(span.annotations, "categories"@);
}

/// A span without a `tid` annotation yields events of thread 0.
pub proof fn lemma_default_thread(span: SpanModel, ph: Phase)
    requires
        forall|i: int| 0 <= i < span.annotations.len() ==> (#[trigger] span.annotations[i]).0 != "tid"@,
    ensures
        event_model(span, ph).tid == 0,
{
    lemma_lookup_none(span.annotations, "tid"@);
    lemma_last_write_wins(span.annotations, "tid"@);
}

/// A span whose last `tid` annotation has a value that denotes no number
/// yields events of thread 0.
pub proof fn lemma_thread_not_a_number(span: SpanModel, ph: Phase, i: int)
    requires
        0 <= i < span.annotations.len(),
        span.annotations[i].0 == "tid"@,
        forall|j: int| i < j < span.annotations.len() ==> (#[trigger] span.annotations[j]).0 != "tid"@,
        parse_u64(span.annotations[i].1) is None,
    ensures
        event_model(span, ph).tid == 0,
{
    lemma_lookup_last(span.annotations, "tid"@, i);
    lemma_last_write_wins(span.annotations, "tid"@);
}

/// Where a span names a key more than once, the value that it names last is
/// the one that the events hold, as the value of that key and as an argument.
pub proof fn lemma_key_collision(span: SpanModel, ph: Phase, key: Seq<char>, i: int)
    requires
        0 <= i < span.annotations.len(),
        span.annotations[i].0 == key,
        forall|j: int| i < j < span.annotations.len() ==> (#[trigger] span.annotations[j]).0 != key,
    ensures
        lookup(event_model(span, ph).args, key) == Some(span.annotations[i].1),
        exists|k: int|
            0 <= k < event_model(span, ph).args.len() && event_model(span, ph).args[k] == (
                key,
                span.annotations[i].1,
            ),
        forall|k: int|
            0 <= k < event_model(span, ph).args.len() && (#[trigger] event_model(span, ph).args[k]).0 == key
                ==> event_model(span, ph).args[k].1 == span.annotations[i].1,
{
    let args = entries_of(span.annotations);
    lemma_lookup_last(span.annotations, key, i);
    lemma_last_write_wins(span.annotations, key);
    lemma_entries_sorted(span.annotations);
    lemma_lookup_sorted(args, key);
}

} // verus!
