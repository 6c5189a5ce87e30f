//! Trace events as JSON text.
//!
//! The text of a string is taken from `serde_json`; the object around the
//! members of an event is written here.

use crate::annotations::Entry;
use crate::event::{EventModel, Phase, TraceEvent};
use crate::number::{append_decimal, decimal};
use vstd::prelude::*;
use vstd::string::StringExecFns;

verus! {

/// The error of `serde_json`. Nothing is known of its contents.
#[verifier::external_type_specification]
#[verifier::external_body]
pub struct ExJsonError(serde_json::Error);

/// The JSON text of a string, as `serde_json::to_string` gives it for a `str`:
/// the string between quotes, with the characters escaped that JSON asks to be.
/// It is `None` for a string on which that function fails.
pub uninterp spec fn json_string(s: Seq<char>) -> Option<Seq<char>>;

/// Calls `serde_json::to_string` on a `str`. What it returns depends on the
/// characters of the string alone: that is all this contract claims, by giving
/// the outcome the name `json_string`.
#[verifier::external_body]
pub(crate) fn quote(s: &str) -> (r: Result<String, serde_json::Error>)
    ensures
        match r {
            Ok(t) => json_string(s@) == Some(t@),
            Err(_) => json_string(s@) is None,
        },
{
    serde_json::to_string(s)
}

/// Pairs of strings as pairs of sequences of characters.
pub open spec fn pairs_view(pairs: Seq<(String, String)>) -> Seq<Entry> {
    pairs.map_values(|p: (String, String)| (p.0@, p.1@))
}

/// The JSON texts of the keys and values of entries, or `None` where one of
/// them has none.
pub open spec fn entries_json(entries: Seq<Entry>) -> Option<Seq<Entry>>
    decreases entries.len(),
{
    if entries.len() == 0 {
        Some(Seq::empty())
    } else {
        match (
            entries_json(entries.drop_last()),
            json_string(entries.last().0),
            json_string(entries.last().1),
        ) {
            (Some(rest), Some(key), Some(value)) => Some(rest.push((key, value))),
            _ => None,
        }
    }
}

/// The members of an object, given the JSON texts of their keys and values:
/// each key, a colon and the value, with commas between the members.
pub open spec fn members_text(members: Seq<Entry>) -> Seq<char>
    decreases members.len(),
{
    if members.len() == 0 {
        Seq::empty()
    } else if members.len() == 1 {
        members[0].0 + ":"@ + members[0].1
    } else {
        members_text(members.drop_last()) + ","@ + members.last().0 + ":"@ + members.last().1
    }
}

/// The object of an event, given the JSON texts of its strings.
pub open spec fn event_text(
    name: Seq<char>,
    cat: Seq<char>,
    ph: Phase,
    ts: u64,
    pid: u64,
    tid: u64,
    args: Seq<Entry>,
) -> Seq<char> {
    "{\"name\":"@ + name + ",\"cat\":"@ + cat + ",\"ph\":\""@ + ph.letter() + "\",\"ts\":"@ + decimal(
        ts as nat,
    ) + ",\"pid\":"@ + decimal(pid as nat) + ",\"tid\":"@ + decimal(tid as nat) + ",\"args\":{"@
        + members_text(args) + "}}"@
}

/// The JSON object of an event, or `None` where one of its strings has no
/// JSON text.
pub open spec fn event_json(e: EventModel) -> Option<Seq<char>> {
    match (json_string(e.name), json_string(e.cat), entries_json(e.args)) {
        (Some(name), Some(cat), Some(args)) => Some(
            event_text(name, cat, e.ph, e.ts, e.pid, e.tid, args),
        ),
        _ => None,
    }
}

/// Writes the object of an event around the JSON texts of its strings:
/// `name` and `cat` are the texts of the name and of the category, `args`
/// those of the keys and values of the arguments.
pub fn frame_event(
    name: &str,
    cat: &str,
    ph: Phase,
    ts: u64,
    pid: u64,
    tid: u64,
    args: &Vec<(String, String)>,
) -> (r: String)
    ensures
        r@ == event_text(name@, cat@, ph, ts, pid, tid, pairs_view(args@)),
{
    let mut out = String::new();
    out.append("{\"name\":");
    out.append(name);
    out.append(",\"cat\":");
    out.append(cat);
    out.append(",\"ph\":\"");
    out.append(ph.as_str());
    out.append("\",\"ts\":");
    append_decimal(&mut out, ts);
    out.append(",\"pid\":");
    append_decimal(&mut out, pid);
    out.append(",\"tid\":");
    append_decimal(&mut out, tid);
    out.append(",\"args\":{");
    let ghost head = out@;
    let ghost all = pairs_view(args@);
    let mut i: usize = 0;
    while i < args.len()
        invariant
            i <= args.len(),
            all == pairs_view(args@),
            out@ == head + members_text(all.take(i as int)),
        decreases args.len() - i,
    {
        proof {
            assert(all.take(i + 1).drop_last() =~= all.take(i as int));
            assert(all.take(i + 1).last() == (args@[i as int].0@, args@[i as int].1@));
            if i == 0 {
                assert(members_text(all.take(0)) =~= Seq::<char>::empty());
            }
        }
        if i > 0 {
            out.append(",");
        }
        out.append(args[i].0.as_str());
        out.append(":");
        out.append(args[i].1.as_str());
        i = i + 1;
        assert(out@ =~= head + members_text(all.take(i as int)));
    }
    out.append("}}");
    proof {
        assert(all.take(i as int) =~= all);
        assert(out@ =~= event_text(name@, cat@, ph, ts, pid, tid, all));
    }
    out
}

impl<'a> TraceEvent<'a> {
    /// The event as a JSON object on one line.
    pub fn to_json(&self) -> (r: Result<String, serde_json::Error>)
        ensures
            match r {
                Ok(t) => event_json(self@) == Some(t@),
                Err(_) => event_json(self@) is None,
            },
    {
        let name = quote(self.name)?;
        let cat = quote(self.cat)?;
        let mut args: Vec<(String, String)> = Vec::new();
        let n = self.args.len();
        let mut i: usize = 0;
        while i < n
            invariant
                i <= n,
                n == self.args@.len(),
                entries_json(self.args@.take(i as int)) == Some(pairs_view(args@)),
            decreases n - i,
        {
            let (k, v) = self.args.entry(i);
            proof {
                assert(self.args@.take(i + 1).drop_last() =~= self.args@.take(i as int));
                assert(self.args@.take(i + 1).last() == (k@, v@));
                lemma_entries_json_prefix(self.args@, i + 1);
            }
            let key = quote(k)?;
            let value = quote(v)?;
            args.push((key, value));
            i = i + 1;
            assert(pairs_view(args@) =~= pairs_view(args@.drop_last()).push((key@, value@)));
        }
        assert(self.args@.take(i as int) =~= self.args@);
        Ok(frame_event(name.as_str(), cat.as_str(), self.ph, self.ts, self.pid, self.tid, &args))
    }
}

/// Where a prefix of the entries has no JSON text, the entries have none.
proof fn lemma_entries_json_prefix(entries: Seq<Entry>, k: int)
    requires
        0 <= k <= entries.len(),
    ensures
        entries_json(entries.take(k)) is None ==> entries_json(entries) is None,
    decreases entries.len() - k,
{
    if k == entries.len() {
        assert(entries.take(k) =~= entries);
    } else {
        assert(entries.take(k + 1).drop_last() =~= entries.take(k));
        lemma_entries_json_prefix(entries, k + 1);
    }
}

} // verus!
