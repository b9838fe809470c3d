use crate::compact::{dec_int, sig_json};
use crate::discover::{ev_views, DiscoveryEvent, EventView};
use crate::time::Timestamp;
use vstd::prelude::*;

verus! {

/// The RFC 3339 text that chrono renders for a UTC instant, as its serde
/// serialization does; it depends on the instant alone.
pub uninterp spec fn rfc3339_of(millis: int) -> Seq<char>;

/// Relies on chrono::DateTime::from_timestamp_millis and to_rfc3339_opts:
/// the RFC 3339 text of the instant, with a trailing Z and seconds shown as
/// chrono's serde form writes them.
#[verifier::external_body]
fn rfc3339_utc(t: &Timestamp) -> (r: String)
    requires
        -8_000_000_000_000_000 <= t@ <= 8_000_000_000_000_000,
    ensures
        r@ == rfc3339_of(t@),
{
    chrono::DateTime::<chrono::Utc>::from_timestamp_millis(t.millis)
        .unwrap()
        .to_rfc3339_opts(chrono::SecondsFormat::AutoSi, true)
}

/// One event as a line of JSON: when, who, how loud.
pub open spec fn event_json(e: EventView) -> Seq<char> {
    "{\"date_time\":\""@ + rfc3339_of(e.date_time) + "\",\"signature\":"@ + sig_json(e.signature)
        + ",\"rssi\":"@ + dec_int(e.rssi) + "}"@
}

/// A batch of events as JSON lines, one per event, each newline terminated.
pub open spec fn events_jsonl(evs: Seq<EventView>) -> Seq<char>
    decreases evs.len(),
{
    if evs.len() == 0 {
        Seq::empty()
    } else {
        event_json(evs[0]) + "\n"@ + events_jsonl(evs.drop_first())
    }
}

/// One more event appends one more line.
proof fn lemma_events_jsonl_push(evs: Seq<EventView>, e: EventView)
    ensures
        events_jsonl(evs.push(e)) == events_jsonl(evs) + event_json(e) + "\n"@,
    decreases evs.len(),
{
    if evs.len() == 0 {
        assert(evs.push(e)[0] == e);
        assert(evs.push(e).drop_first() =~= Seq::<EventView>::empty());
        assert(events_jsonl(evs.push(e).drop_first()) =~= Seq::<char>::empty());
        assert(events_jsonl(evs.push(e)) =~= events_jsonl(evs) + event_json(e) + "\n"@);
    } else {
        assert(evs.push(e)[0] == evs[0]);
        assert(evs.push(e).drop_first() =~= evs.drop_first().push(e));
        lemma_events_jsonl_push(evs.drop_first(), e);
        assert(events_jsonl(evs.push(e)) =~= events_jsonl(evs) + event_json(e) + "\n"@);
    }
}

/// Renders a batch of discovery events in the JSON-lines record form, one
/// event per line.
pub fn events_to_jsonl(events: &Vec<DiscoveryEvent>) -> (r: String)
    requires
        forall|i: int|
            0 <= i < events@.len() ==> -8_000_000_000_000_000 <= (#[trigger] events@[i])@.date_time
                <= 8_000_000_000_000_000,
    ensures
        r@ == events_jsonl(ev_views(events@)),
{
    let ghost evs = ev_views(events@);
    let mut out = String::new();
    let mut i: usize = 0;
    while i < events.len()
        invariant
            i <= events@.len(),
            evs == ev_views(events@),
            evs.len() == events@.len(),
            forall|k: int|
                0 <= k < events@.len() ==> -8_000_000_000_000_000 <= (
                #[trigger] events@[k])@.date_time <= 8_000_000_000_000_000,
            out@ == events_jsonl(evs.take(i as int)),
        decreases events@.len() - i,
    {
        let e = &events[i];
        out.append("{\"date_time\":\"");
        let stamp = rfc3339_utc(&e.date_time);
        out.append(stamp.as_str());
        out.append("\",\"signature\":");
        crate::compact::append_sig_json(&mut out, &e.signature);
        out.append(",\"rssi\":");
        let rs = crate::compact::i32_to_string(e.rssi as i32);
        out.append(rs.as_str());
        out.append("}");
        out.append("\n");
        proof {
            assert(evs.take(i + 1) =~= evs.take(i as int).push(evs[i as int]));
            lemma_events_jsonl_push(evs.take(i as int), evs[i as int]);
            assert(evs[i as int] == e@);
            assert(out@ =~= events_jsonl(evs.take(i + 1)));
        }
        i = i + 1;
    }
    proof {
        assert(evs.take(evs.len() as int) =~= evs);
    }
    out
}

/// Where the last path separator stands, or minus one.
pub open spec fn last_slash(p: Seq<char>) -> int
    decreases p.len(),
{
    if p.len() == 0 {
        -1
    } else if p.last() == '/' {
        p.len() - 1
    } else {
        last_slash(p.drop_last())
    }
}

/// Where the last dot stands, or minus one.
pub open spec fn last_dot(p: Seq<char>) -> int
    decreases p.len(),
{
    if p.len() == 0 {
        -1
    } else if p.last() == '.' {
        p.len() - 1
    } else {
        last_dot(p.drop_last())
    }
}

/// The path's extension: what follows the last dot of the file name, if
/// that dot exists and does not begin the name.
pub open spec fn ext_of(p: Seq<char>) -> Option<Seq<char>> {
    let d = last_dot(p);
    if d > last_slash(p) + 1 {
        Option::Some(p.skip(d + 1))
    } else {
        Option::None
    }
}

/// The sink format a recording path calls for, named by its extension.
#[derive(Debug)]
pub enum EventSinkFormat {
    JSONL(String),
    SQLITE(String),
}

impl View for EventSinkFormat {
    type V = crate::history::EventSinkFormatView;

    open spec fn view(&self) -> EventSinkFormatView {
        match self {
            EventSinkFormat::JSONL(p) => EventSinkFormatView::JSONL(p@),
            EventSinkFormat::SQLITE(p) => EventSinkFormatView::SQLITE(p@),
        }
    }
}

/// The mathematical value of an [`EventSinkFormat`].
pub enum EventSinkFormatView {
    JSONL(Seq<char>),
    SQLITE(Seq<char>),
}

impl PartialEq for EventSinkFormat {
    fn eq(&self, other: &EventSinkFormat) -> (r: bool) {
        match (self, other) {
            (EventSinkFormat::JSONL(a), EventSinkFormat::JSONL(b)) => *a == *b,
            (EventSinkFormat::SQLITE(a), EventSinkFormat::SQLITE(b)) => *a == *b,
            (EventSinkFormat::JSONL(a), EventSinkFormat::SQLITE(b)) => false,
            (EventSinkFormat::SQLITE(a), EventSinkFormat::JSONL(b)) => false,
        }
    }
}

impl vstd::std_specs::cmp::PartialEqSpecImpl for EventSinkFormat {
    open spec fn obeys_eq_spec() -> bool {
        true
    }

    open spec fn eq_spec(&self, other: &EventSinkFormat) -> bool {
        self@ == other@
    }
}

impl Eq for EventSinkFormat {}

/// Scans backwards for the last occurrence of a character.
fn rfind_char(p: &str, c: char) -> (r: Option<usize>)
    ensures
        match r {
            Some(j) => j < p@.len() && p@[j as int] == c && (forall|k: int|
                j < k < p@.len() ==> p@[k] != c),
            None => forall|k: int| 0 <= k < p@.len() ==> p@[k] != c,
        },
{
    let n = p.unicode_len();
    let mut j: usize = n;
    while j > 0
        invariant
            j <= n,
            n == p@.len(),
            forall|k: int| j <= k < p@.len() ==> p@[k] != c,
        decreases j,
    {
        if p.get_char(j - 1) == c {
            return Some(j - 1);
        }
        j = j - 1;
    }
    None
}

/// The last-position scan agrees with the backwards recursion.
proof fn lemma_last_pos(p: Seq<char>, c: char, pos: int)
    requires
        -1 <= pos < p.len(),
        pos >= 0 ==> p[pos] == c,
        forall|k: int| pos < k < p.len() ==> p[k] != c,
    ensures
        c == '/' ==> last_slash(p) == pos,
        c == '.' ==> last_dot(p) == pos,
    decreases p.len(),
{
    if p.len() > 0 {
        if pos == p.len() - 1 {
        } else {
            assert(p.last() != c);
            assert(forall|k: int| pos < k < p.drop_last().len() ==> p.drop_last()[k] != c);
            if pos >= 0 {
                assert(p.drop_last()[pos] == c);
            }
            lemma_last_pos(p.drop_last(), c, pos);
        }
    }
}

impl EventSinkFormat {
    /// Which sink a recording path names: ".jsonl" records JSON lines,
    /// ".sqlite" an embedded database; any other path is refused with a
    /// message naming it.
    pub fn create_from_file(path: &str) -> (r: Result<EventSinkFormat, String>)
        ensures
            match r {
                Ok(f) => ext_of(path@) is Some && (f@ == EventSinkFormatView::JSONL(path@)
                    && ext_of(path@)->Some_0 == "jsonl"@ || f@ == EventSinkFormatView::SQLITE(path@)
                    && ext_of(path@)->Some_0 == "sqlite"@),
                Err(m) => (ext_of(path@) is None || (ext_of(path@)->Some_0 != "jsonl"@ && ext_of(
                    path@,
                )->Some_0 != "sqlite"@)) && m@ == "unknown type: "@ + path@,
            },
    {
        let n = p_len(path);
        let dot = rfind_char(path, '.');
        let slash = rfind_char(path, '/');
        proof {
            match dot {
                Some(j) => lemma_last_pos(path@, '.', j as int),
                None => lemma_last_pos(path@, '.', -1),
            }
            match slash {
                Some(j) => lemma_last_pos(path@, '/', j as int),
                None => lemma_last_pos(path@, '/', -1),
            }
        }
        let ext_start: Option<usize> = match (dot, slash) {
            (Some(d), Some(s)) => if d > s + 1 {
                Some(d + 1)
            } else {
                None
            },
            (Some(d), None) => if d > 0 {
                Some(d + 1)
            } else {
                None
            },
            (None, _) => None,
        };
        match ext_start {
            Some(start) => {
                let mut ext = String::new();
                let mut i: usize = start;
                while i < n
                    invariant
                        start <= i <= n,
                        n == path@.len(),
                        start >= 1,
                        ext@ =~= path@.skip(start as int).take(i - start),
                    decreases n - i,
                {
                    crate::compact::push_char(&mut ext, path.get_char(i));
                    proof {
                        assert(path@.skip(start as int).take(i + 1 - start) =~= path@.skip(
                            start as int,
                        ).take(i - start).push(path@[i as int]));
                    }
                    i = i + 1;
                }
                proof {
                    assert(ext@ =~= path@.skip(start as int));
                    assert(ext_of(path@) == Option::Some(path@.skip(start as int)));
                }
                let jsonl_name = String::from_str("jsonl");
                let sqlite_name = String::from_str("sqlite");
                if ext == jsonl_name {
                    Ok(EventSinkFormat::JSONL(String::from_str(path)))
                } else if ext == sqlite_name {
                    Ok(EventSinkFormat::SQLITE(String::from_str(path)))
                } else {
                    let mut m = String::from_str("unknown type: ");
                    m.append(path);
                    Err(m)
                }
            },
            None => {
                let mut m = String::from_str("unknown type: ");
                m.append(path);
                Err(m)
            },
        }
    }
}

/// The string length in characters.
fn p_len(p: &str) -> (r: usize)
    ensures
        r == p@.len(),
{
    p.unicode_len()
}

/// A sink that durably records the events of each scan cycle; the engine
/// only guarantees that every event handed to a sink equals, field for
/// field, the event handed to the store. Implementations live with the
/// caller: writing is I/O and outside this engine.
pub trait EventSink {
    fn save(&mut self, events: &Vec<DiscoveryEvent>) -> Result<(), String>;
}

/// The sink that records nothing and never fails.
pub struct NoopEventSink;

impl NoopEventSink {
    pub fn new() -> (r: NoopEventSink) {
        NoopEventSink
    }
}

impl EventSink for NoopEventSink {
    fn save(&mut self, events: &Vec<DiscoveryEvent>) -> Result<(), String> {
        Ok(())
    }
}

} // verus!
