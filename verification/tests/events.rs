use convert_to_chrome_trace::annotations::{Annotation, AnnotationMap};
use convert_to_chrome_trace::event::{category_of, span_event, thread_id_of, Phase, TraceEvent};
use convert_to_chrome_trace::json::frame_event;
use convert_to_chrome_trace::span::SpanRecord;

fn record(name: &str, start: u64, end: u64, pairs: &[(&str, &str)]) -> SpanRecord {
    SpanRecord {
        name: name.to_string(),
        start,
        end,
        annotations: pairs
            .iter()
            .map(|(k, v)| Annotation { key: k.to_string(), value: v.to_string() })
            .collect(),
    }
}

fn both_json(span: &SpanRecord) -> (String, String) {
    let args = AnnotationMap::collect(&span.annotations);
    let begin = span_event(span, Phase::Begin, &args).to_json().unwrap();
    let end = span_event(span, Phase::End, &args).to_json().unwrap();
    (begin, end)
}

#[test]
fn phase_letters() {
    assert_eq!(Phase::Begin.as_str(), "B");
    assert_eq!(Phase::End.as_str(), "E");
}

#[test]
fn category_is_the_value_of_categories() {
    let span = record("load", 0, 0, &[("tid", "4"), ("categories", "io")]);
    let args = AnnotationMap::collect(&span.annotations);
    assert_eq!(category_of(&args), "io");
}

#[test]
fn category_falls_back_to_all() {
    let span = record("load", 0, 0, &[("tid", "4"), ("category", "io")]);
    let args = AnnotationMap::collect(&span.annotations);
    assert_eq!(category_of(&args), "all");
    assert_eq!(category_of(&AnnotationMap::new()), "all");
}

#[test]
fn thread_is_the_number_of_tid() {
    let span = record("load", 0, 0, &[("tid", "4"), ("categories", "io")]);
    let args = AnnotationMap::collect(&span.annotations);
    assert_eq!(thread_id_of(&args), 4);
}

#[test]
fn thread_falls_back_to_zero() {
    assert_eq!(thread_id_of(&AnnotationMap::new()), 0);
    for value in ["main", "", "-1", "4.0", "18446744073709551616", " 4"].iter() {
        let span = record("load", 0, 0, &[("tid", *value)]);
        let args = AnnotationMap::collect(&span.annotations);
        assert_eq!(thread_id_of(&args), 0, "{:?}", value);
    }
}

#[test]
fn thread_goes_by_the_last_tid() {
    let span = record("load", 0, 0, &[("tid", "4"), ("tid", "main")]);
    let args = AnnotationMap::collect(&span.annotations);
    assert_eq!(thread_id_of(&args), 0);
    let span = record("load", 0, 0, &[("tid", "main"), ("tid", "+12")]);
    let args = AnnotationMap::collect(&span.annotations);
    assert_eq!(thread_id_of(&args), 12);
}

#[test]
fn events_of_a_span_share_all_but_phase_and_time() {
    let span = record("load", 1_500_000, 3_999_999, &[("categories", "io"), ("tid", "4")]);
    let args = AnnotationMap::collect(&span.annotations);
    let begin = span_event(&span, Phase::Begin, &args);
    let end = span_event(&span, Phase::End, &args);
    assert_eq!(begin.name, end.name);
    assert_eq!(begin.cat, end.cat);
    assert_eq!(begin.pid, end.pid);
    assert_eq!(begin.tid, end.tid);
    assert_eq!(begin.args.len(), end.args.len());
    for i in 0..begin.args.len() {
        assert_eq!(begin.args.entry(i), end.args.entry(i));
    }
    assert_eq!(begin.ph, Phase::Begin);
    assert_eq!(end.ph, Phase::End);
    assert_eq!(begin.ts, 1500);
    assert_eq!(end.ts, 3999);
    assert_eq!(begin.name, "load");
    assert_eq!(begin.cat, "io");
    assert_eq!(begin.pid, 0);
    assert_eq!(begin.tid, 4);
}

#[test]
fn time_is_cut_to_microseconds() {
    let span = record("s", 999, 1000, &[]);
    let args = AnnotationMap::collect(&span.annotations);
    assert_eq!(span_event(&span, Phase::Begin, &args).ts, 0);
    assert_eq!(span_event(&span, Phase::End, &args).ts, 1);
    let span = record("s", 1999, u64::MAX, &[]);
    let args = AnnotationMap::collect(&span.annotations);
    assert_eq!(span_event(&span, Phase::Begin, &args).ts, 1);
    assert_eq!(span_event(&span, Phase::End, &args).ts, 18446744073709551);
}

#[test]
fn json_of_the_events_of_a_span() {
    let span = record("load", 1_000_000, 3_000_000, &[("categories", "io"), ("tid", "4")]);
    let (begin, end) = both_json(&span);
    assert_eq!(
        begin,
        "{\"name\":\"load\",\"cat\":\"io\",\"ph\":\"B\",\"ts\":1000,\"pid\":0,\"tid\":4,\"args\":{\"categories\":\"io\",\"tid\":\"4\"}}"
    );
    assert_eq!(
        end,
        "{\"name\":\"load\",\"cat\":\"io\",\"ph\":\"E\",\"ts\":3000,\"pid\":0,\"tid\":4,\"args\":{\"categories\":\"io\",\"tid\":\"4\"}}"
    );
}

#[test]
fn json_of_a_span_without_annotations() {
    let span = record("idle", 1_500_000, 1_500_999, &[]);
    let (begin, end) = both_json(&span);
    assert_eq!(
        begin,
        "{\"name\":\"idle\",\"cat\":\"all\",\"ph\":\"B\",\"ts\":1500,\"pid\":0,\"tid\":0,\"args\":{}}"
    );
    assert_eq!(
        end,
        "{\"name\":\"idle\",\"cat\":\"all\",\"ph\":\"E\",\"ts\":1500,\"pid\":0,\"tid\":0,\"args\":{}}"
    );
}

#[test]
fn json_keeps_the_reserved_keys_among_the_arguments() {
    let span = record("s", 0, 0, &[("tid", "x"), ("path", "/a"), ("categories", "c")]);
    let (begin, _) = both_json(&span);
    assert_eq!(
        begin,
        "{\"name\":\"s\",\"cat\":\"c\",\"ph\":\"B\",\"ts\":0,\"pid\":0,\"tid\":0,\"args\":{\"categories\":\"c\",\"path\":\"/a\",\"tid\":\"x\"}}"
    );
}

#[test]
fn json_shows_the_later_value_of_a_key() {
    let span = record("s", 0, 0, &[("k", "first"), ("k", "second")]);
    let (begin, end) = both_json(&span);
    assert_eq!(
        begin,
        "{\"name\":\"s\",\"cat\":\"all\",\"ph\":\"B\",\"ts\":0,\"pid\":0,\"tid\":0,\"args\":{\"k\":\"second\"}}"
    );
    assert_eq!(
        end,
        "{\"name\":\"s\",\"cat\":\"all\",\"ph\":\"E\",\"ts\":0,\"pid\":0,\"tid\":0,\"args\":{\"k\":\"second\"}}"
    );
}

#[test]
fn json_escapes_strings() {
    let span = record("say \"hi\"\n", 0, 0, &[("a\\b", "tab\there"), ("categories", "\u{1}/\u{e9}")]);
    let (begin, _) = both_json(&span);
    assert_eq!(
        begin,
        "{\"name\":\"say \\\"hi\\\"\\n\",\"cat\":\"\\u0001/\u{e9}\",\"ph\":\"B\",\"ts\":0,\"pid\":0,\"tid\":0,\"args\":{\"a\\\\b\":\"tab\\there\",\"categories\":\"\\u0001/\u{e9}\"}}"
    );
}

#[test]
fn json_is_read_back_by_a_json_reader() {
    let span = record(
        "say \"hi\"",
        7_000,
        9_000,
        &[("tid", "18446744073709551615"), ("q\"k", "line\nbreak"), ("categories", "a,b")],
    );
    let (begin, end) = both_json(&span);
    let begin: serde_json::Value = serde_json::from_str(&begin).unwrap();
    let end: serde_json::Value = serde_json::from_str(&end).unwrap();
    assert_eq!(begin["name"], "say \"hi\"");
    assert_eq!(begin["cat"], "a,b");
    assert_eq!(begin["ph"], "B");
    assert_eq!(begin["ts"], 7u64);
    assert_eq!(begin["pid"], 0u64);
    assert_eq!(begin["tid"], u64::MAX);
    assert_eq!(begin["args"]["tid"], "18446744073709551615");
    assert_eq!(begin["args"]["q\"k"], "line\nbreak");
    assert_eq!(begin["args"]["categories"], "a,b");
    assert_eq!(begin["args"].as_object().unwrap().len(), 3);
    assert_eq!(begin.as_object().unwrap().len(), 7);
    assert_eq!(end["ph"], "E");
    assert_eq!(end["ts"], 9u64);
    assert_eq!(end["name"], begin["name"]);
    assert_eq!(end["cat"], begin["cat"]);
    assert_eq!(end["tid"], begin["tid"]);
    assert_eq!(end["args"], begin["args"]);
}

#[test]
fn json_of_an_event_built_by_hand() {
    let mut args = AnnotationMap::new();
    args.insert("b", "2");
    args.insert("a", "1");
    let event = TraceEvent { name: "n", cat: "c", ph: Phase::End, ts: 12, pid: 3, tid: 45, args: &args };
    assert_eq!(
        event.to_json().unwrap(),
        "{\"name\":\"n\",\"cat\":\"c\",\"ph\":\"E\",\"ts\":12,\"pid\":3,\"tid\":45,\"args\":{\"a\":\"1\",\"b\":\"2\"}}"
    );
}

#[test]
fn frame_event_writes_the_texts_as_they_are() {
    let args = vec![("\"k\"".to_string(), "\"v\"".to_string()), ("\"l\"".to_string(), "\"w\"".to_string())];
    assert_eq!(
        frame_event("\"load\"", "\"io\"", Phase::Begin, 1000, 0, 4, &args),
        "{\"name\":\"load\",\"cat\":\"io\",\"ph\":\"B\",\"ts\":1000,\"pid\":0,\"tid\":4,\"args\":{\"k\":\"v\",\"l\":\"w\"}}"
    );
    assert_eq!(
        frame_event("N", "C", Phase::End, u64::MAX, 1, 2, &Vec::new()),
        "{\"name\":N,\"cat\":C,\"ph\":\"E\",\"ts\":18446744073709551615,\"pid\":1,\"tid\":2,\"args\":{}}"
    );
}

#[test]
fn json_escapes_what_json_asks_to_be_escaped() {
    let mut samples: Vec<char> = (0u8..=0x7f).map(|b| b as char).collect();
    samples.extend(['\u{80}', '\u{e9}', '\u{2028}', '\u{ffff}', '\u{10000}', '\u{10ffff}']);
    for c in samples {
        let text = match c {
            '"' => "\\\"".to_string(),
            '\\' => "\\\\".to_string(),
            '\u{8}' => "\\b".to_string(),
            '\t' => "\\t".to_string(),
            '\n' => "\\n".to_string(),
            '\u{c}' => "\\f".to_string(),
            '\r' => "\\r".to_string(),
            c if (c as u32) < 0x20 => format!("\\u{:04x}", c as u32),
            c => c.to_string(),
        };
        let name = format!("a{}z", c);
        let span = record(&name, 0, 0, &[]);
        let (begin, _) = both_json(&span);
        assert_eq!(
            begin,
            format!(
                "{{\"name\":\"a{}z\",\"cat\":\"all\",\"ph\":\"B\",\"ts\":0,\"pid\":0,\"tid\":0,\"args\":{{}}}}",
                text
            )
        );
    }
}
