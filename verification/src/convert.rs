//! The conversion of a decoded log into the lines of a trace.

use crate::annotations::AnnotationMap;
use crate::event::{event_model, span_event, Phase};
use crate::json::event_json;
use crate::order::{
    lemma_stable_sort_keeps_order, lemma_stable_sort_maps, lemma_stable_sort_permutes,
    lemma_stable_sort_sorted, sort_by_time, stable_sort,
};
use crate::span::{SpanModel, SpanRecord};
use vstd::prelude::*;
use vstd::string::StringExecFns;

verus! {

/// What a decoder got out of a log: the records that it decoded, in the order
/// of the log, and then the message of the failure that stopped it, or `None`
/// where it reached the end of the log.
#[derive(Clone, Debug, PartialEq, Eq)]
pub struct SpanLog {
    pub records: Vec<SpanRecord>,
    pub failure: Option<String>,
}

/// Why a conversion failed.
#[derive(Debug)]
pub enum ConvertError {
    /// The log could not be decoded to its end. The message is the decoder's.
    Malformed(String),
    /// An event could not be written as JSON.
    Serialize(serde_json::Error),
}

/// A line of a trace as plain values: the time by which it is ordered, in
/// nanoseconds, and its text.
pub type Line = (u64, Seq<char>);

/// The spans that records stand for, one by one.
pub open spec fn spans_view(records: Seq<SpanRecord>) -> Seq<SpanModel> {
    records.map_values(|r: SpanRecord| r@)
}

/// A timed string as a line.
pub open spec fn line_view() -> spec_fn((u64, String)) -> Line {
    |l: (u64, String)| (l.0, l.1@)
}

/// The lines that timed strings stand for, one by one.
pub open spec fn lines_view(lines: Seq<(u64, String)>) -> Seq<Line> {
    lines.map_values(line_view())
}

/// The two lines of a span: its begin event at its start, then its end event
/// at its end. `None` where an event has no JSON text.
pub open spec fn span_lines(span: SpanModel) -> Option<Seq<Line>> {
    match (event_json(event_model(span, Phase::Begin)), event_json(event_model(span, Phase::End))) {
        (Some(begin), Some(end)) => Some(seq![(span.start, begin), (span.end, end)]),
        _ => None,
    }
}

/// The lines of all spans, in the order of the spans. `None` where an event
/// of some span has no JSON text.
pub open spec fn log_lines(spans: Seq<SpanModel>) -> Option<Seq<Line>>
    decreases spans.len(),
{
    if spans.len() == 0 {
        Some(Seq::empty())
    } else {
        match (log_lines(spans.drop_last()), span_lines(spans.last())) {
            (Some(lines), Some(two)) => Some(lines + two),
            _ => None,
        }
    }
}

/// The text of lines in a trace: behind each line a comma and a line feed,
/// also behind the last.
pub open spec fn lines_text(lines: Seq<Line>) -> Seq<char>
    decreases lines.len(),
{
    if lines.len() == 0 {
        Seq::empty()
    } else {
        lines_text(lines.drop_last()) + lines.last().1 + ",\n"@
    }
}

/// The text of a whole trace: the opening bracket on a line of its own, then
/// the lines in ascending order of their times. No bracket closes it.
pub open spec fn trace_text(lines: Seq<Line>) -> Seq<char> {
    "[\n"@ + lines_text(stable_sort(lines))
}

/// Where the spans up to some place have no lines, all of them have none.
proof fn lemma_log_lines_prefix(spans: Seq<SpanModel>, k: int)
    requires
        0 <= k <= spans.len(),
    ensures
        log_lines(spans.take(k)) is None ==> log_lines(spans) is None,
    decreases spans.len() - k,
{
    if k == spans.len() {
        assert(spans.take(k) =~= spans);
    } else {
        assert(spans.take(k + 1).drop_last() =~= spans.take(k));
        lemma_log_lines_prefix(spans, k + 1);
    }
}

/// The begin line and the end line of each record, in the order of the
/// records, each with the time in nanoseconds at which it stands.
pub fn assemble(records: &Vec<SpanRecord>) -> (r: Result<Vec<(u64, String)>, serde_json::Error>)
    ensures
        match r {
            Ok(lines) => log_lines(spans_view(records@)) == Some(lines_view(lines@)),
            Err(_) => log_lines(spans_view(records@)) is None,
        },
{
    let mut lines: Vec<(u64, String)> = Vec::new();
    let ghost spans = spans_view(records@);
    let mut i: usize = 0;
    while i < records.len()
        invariant
            i <= records.len(),
            spans == spans_view(records@),
            log_lines(spans.take(i as int)) == Some(lines_view(lines@)),
        decreases records.len() - i,
    {
        let span = &records[i];
        proof {
            assert(spans.take(i + 1).drop_last() =~= spans.take(i as int));
            assert(spans.take(i + 1).last() == span@);
            lemma_log_lines_prefix(spans, i + 1);
        }
        let args = AnnotationMap::collect(&span.annotations);
        let begin = span_event(span, Phase::Begin, &args).to_json()?;
        let end = span_event(span, Phase::End, &args).to_json()?;
        let ghost before = lines@;
        lines.push((span.start, begin));
        lines.push((span.end, end));
        i = i + 1;
        assert(lines_view(lines@) =~= lines_view(before) + seq![(span.start, begin@), (span.end, end@)]);
    }
    assert(spans.take(i as int) =~= spans);
    Ok(lines)
}

/// Writes lines to `output`, behind each a comma and a line feed.
pub fn write_lines(lines: &Vec<(u64, String)>, output: &mut String)
    ensures
        final(output)@ == old(output)@ + lines_text(lines_view(lines@)),
{
    let ghost all = lines_view(lines@);
    let mut i: usize = 0;
    assert(lines_text(all.take(0)) =~= Seq::<char>::empty());
    while i < lines.len()
        invariant
            i <= lines.len(),
            all == lines_view(lines@),
            output@ == old(output)@ + lines_text(all.take(i as int)),
        decreases lines.len() - i,
    {
        proof {
            assert(all.take(i + 1).drop_last() =~= all.take(i as int));
            assert(all.take(i + 1).last().1 == lines@[i as int].1@);
        }
        output.append(lines[i].1.as_str());
        output.append(",\n");
        i = i + 1;
        assert(output@ =~= old(output)@ + lines_text(all.take(i as int)));
    }
    assert(all.take(i as int) =~= all);
}

/// A trace of no spans is the opening bracket and nothing else.
pub proof fn lemma_empty_trace()
    ensures
        log_lines(Seq::<SpanModel>::empty()) == Some(Seq::<Line>::empty()),
        trace_text(Seq::<Line>::empty()) == "[\n"@,
{
    assert(lines_text(stable_sort(Seq::<Line>::empty())) =~= Seq::<char>::empty());
    assert(trace_text(Seq::<Line>::empty()) =~= "[\n"@);
}

/// A trace has two lines for each span: at the places `2 * k` and `2 * k + 1`
/// of the lines before they are sorted stand the begin event and the end
/// event of span `k`, at its start and at its end.
pub proof fn lemma_two_lines_per_span(spans: Seq<SpanModel>)
    ensures
        log_lines(spans) matches Some(lines) ==> {
            &&& lines.len() == 2 * spans.len()
            &&& stable_sort(lines).len() == 2 * spans.len()
            &&& forall|k: int|
                0 <= k < spans.len() ==> {
                    &&& event_json(event_model(#[trigger] spans[k], Phase::Begin)) == Some(lines[2 * k].1)
                    &&& event_json(event_model(spans[k], Phase::End)) == Some(lines[2 * k + 1].1)
                    &&& lines[2 * k].0 == spans[k].start
                    &&& lines[2 * k + 1].0 == spans[k].end
                }
        },
    decreases spans.len(),
{
    if log_lines(spans) is Some {
        let lines = log_lines(spans)->0;
        lemma_stable_sort_permutes(lines);
        if spans.len() > 0 {
            let rest = spans.drop_last();
            lemma_two_lines_per_span(rest);
            assert forall|k: int| 0 <= k < spans.len() implies {
                &&& event_json(event_model(#[trigger] spans[k], Phase::Begin)) == Some(lines[2 * k].1)
                &&& event_json(event_model(spans[k], Phase::End)) == Some(lines[2 * k + 1].1)
                &&& lines[2 * k].0 == spans[k].start
                &&& lines[2 * k + 1].0 == spans[k].end
            } by {
                if k < spans.len() - 1 {
                    assert(rest[k] == spans[k]);
                    assert(lines[2 * k] == log_lines(rest)->0[2 * k]);
                    assert(lines[2 * k + 1] == log_lines(rest)->0[2 * k + 1]);
                }
            }
        }
    }
}

/// The lines of a trace ascend in time: no line stands before one of an
/// earlier time in nanoseconds, nor, therefore, before one whose event shows
/// an earlier time in microseconds.
pub proof fn lemma_trace_ascends(lines: Seq<Line>, i: int, j: int)
    requires
        0 <= i <= j < stable_sort(lines).len(),
    ensures
        stable_sort(lines)[i].0 <= stable_sort(lines)[j].0,
        stable_sort(lines)[i].0 / 1000 <= stable_sort(lines)[j].0 / 1000,
{
    lemma_stable_sort_sorted(lines);
}

/// Of two lines, the one that comes first in the log comes first in the trace
/// too, unless it is of a later time: lines of the same time keep the order
/// of the log.
pub proof fn lemma_trace_keeps_log_order(lines: Seq<Line>, i: int, j: int)
    requires
        0 <= i < j < lines.len(),
        lines[i].0 <= lines[j].0,
    ensures
        exists|p: int, q: int|
            0 <= p < q < stable_sort(lines).len() && stable_sort(lines)[p] == lines[i] && stable_sort(
                lines,
            )[q] == lines[j],
{
    lemma_stable_sort_keeps_order(lines);
}

/// The begin event of a span stands in the trace before its end event, unless
/// the span ends before it starts.
pub proof fn lemma_begin_before_end(spans: Seq<SpanModel>, k: int)
    requires
        0 <= k < spans.len(),
        spans[k].start <= spans[k].end,
    ensures
        log_lines(spans) matches Some(lines) ==> exists|p: int, q: int|
            {
                &&& 0 <= p < q < stable_sort(lines).len()
                &&& event_json(event_model(spans[k], Phase::Begin)) == Some(stable_sort(lines)[p].1)
                &&& event_json(event_model(spans[k], Phase::End)) == Some(stable_sort(lines)[q].1)
                &&& stable_sort(lines)[p].0 == spans[k].start
                &&& stable_sort(lines)[q].0 == spans[k].end
            },
{
    if log_lines(spans) is Some {
        let lines = log_lines(spans)->0;
        lemma_two_lines_per_span(spans);
        assert(lines[2 * k].0 == spans[k].start && lines[2 * k + 1].0 == spans[k].end);
        lemma_trace_keeps_log_order(lines, 2 * k, 2 * k + 1);
        let (p, q) = choose|p: int, q: int|
            0 <= p < q < stable_sort(lines).len() && stable_sort(lines)[p] == lines[2 * k] && stable_sort(
                lines,
            )[q] == lines[2 * k + 1];
        assert(event_json(event_model(spans[k], Phase::Begin)) == Some(stable_sort(lines)[p].1));
        assert(event_json(event_model(spans[k], Phase::End)) == Some(stable_sort(lines)[q].1));
    }
}

/// Converts a decoded log to a trace and writes the trace to `output`.
///
/// The opening bracket is written whatever comes after it. Where the log is
/// malformed or an event cannot be written as JSON, the conversion fails and
/// nothing follows the bracket: the events that were assembled up to there are
/// dropped. A failure to write an event is reported before a malformed log,
/// since the decoder gave the records before it failed.
pub fn process(input: &SpanLog, output: &mut String) -> (r: Result<(), ConvertError>)
    ensures
        r is Ok <==> log_lines(spans_view(input.records@)) is Some && input.failure is None,
        r matches Err(ConvertError::Serialize(_)) <==> log_lines(spans_view(input.records@)) is None,
        r matches Err(ConvertError::Malformed(message)) ==> input.failure == Some(message),
        final(output)@ == old(output)@ + if r is Ok {
            trace_text(log_lines(spans_view(input.records@))->0)
        } else {
            "[\n"@
        },
{
    output.append("[\n");
    let lines = match assemble(&input.records) {
        Ok(lines) => lines,
        Err(e) => {
            return Err(ConvertError::Serialize(e));
        },
    };
    match &input.failure {
        Some(message) => {
            return Err(ConvertError::Malformed(message.clone()));
        },
        None => {},
    }
    proof {
        lemma_stable_sort_maps(lines@, line_view());
    }
    let sorted = sort_by_time(lines);
    write_lines(&sorted, output);
    assert(output@ =~= old(output)@ + trace_text(log_lines(spans_view(input.records@))->0));
    Ok(())
}

} // verus!
