//! Conversion of a parsed Jaeger trace dump into the canonical span
//! list.  Reading and JSON-decoding the dump file happen outside the
//! library; this module receives plain parsed values, resolves the
//! `CHILD_OF` reference, decodes hex identifiers, picks the error tag,
//! and collects the events out of the logs.

use vstd::prelude::*;

use crate::trace::{Event, EventModel, Span, SpanModel, SpanStatus, Trace};

verus! {

/// Why a hex identifier could not be decoded.
#[derive(Debug, Clone, Copy, PartialEq, Eq, Structural)]
pub enum HexError {
    OddLength,
    InvalidChar { ch: char, index: usize },
    InvalidLength,
}

/// The fragment of a decoded JSON value that the converter reads: a
/// boolean, a piece of text, or anything else.
#[derive(Debug, PartialEq)]
pub enum JsonScalar {
    Bool(bool),
    Text(String),
    Other,
}

/// One reference of a Jaeger span to another span.
#[derive(Debug, PartialEq)]
pub struct JaegerReference {
    pub ref_type: String,
    pub trace_id: String,
    pub span_id: String,
}

/// One key/value tag on a Jaeger span or log entry.
#[derive(Debug, PartialEq)]
pub struct JaegerValue {
    pub key: String,
    pub type_: String,
    pub value: JsonScalar,
}

/// One log entry of a Jaeger span.
#[derive(Debug, PartialEq)]
pub struct JaegerLog {
    pub timestamp: u64,
    pub fields: Vec<JaegerValue>,
}

/// One span of a Jaeger trace; times are in microseconds.
#[derive(Debug, PartialEq)]
pub struct JaegerSpan {
    pub span_id: String,
    pub operation_name: String,
    pub references: Vec<JaegerReference>,
    pub tags: Vec<JaegerValue>,
    pub logs: Vec<JaegerLog>,
    pub start_time: u64,
    pub duration: u64,
}

/// One trace of a Jaeger dump.
#[derive(Debug, PartialEq)]
pub struct JaegerTrace {
    pub trace_id: String,
    pub spans: Vec<JaegerSpan>,
}

/// A whole Jaeger dump: a list of traces.
#[derive(Debug, PartialEq)]
pub struct JaegerSave {
    pub data: Vec<JaegerTrace>,
}

/// Is `ch` one of the sixteen hex digits, in either case?
pub open spec fn is_hex_digit(ch: char) -> bool {
    ('0' <= ch && ch <= '9') || ('a' <= ch && ch <= 'f') || ('A' <= ch && ch <= 'F')
}

/// The value of a hex digit.
pub open spec fn hex_digit_val(ch: char) -> int {
    if '0' <= ch && ch <= '9' {
        ch as int - '0' as int
    } else if 'a' <= ch && ch <= 'f' {
        ch as int - 'a' as int + 10
    } else {
        ch as int - 'A' as int + 10
    }
}

/// Can `s` be decoded as hex: an even number of characters, all of them
/// hex digits?
pub open spec fn valid_hex(s: Seq<char>) -> bool {
    s.len() % 2 == 0 && forall|i: int| 0 <= i < s.len() ==> is_hex_digit(#[trigger] s[i])
}

/// The bytes a hex string decodes to: one byte per digit pair.
pub open spec fn spec_hex_bytes(s: Seq<char>) -> Seq<u8> {
    Seq::new((s.len() / 2) as nat, |i: int| (16 * hex_digit_val(s[2 * i]) + hex_digit_val(s[2 * i + 1])) as u8)
}

/// Is `ch` plain ASCII?
pub open spec fn char_is_ascii(ch: char) -> bool {
    ch <= '\u{7f}'
}

/// Is every character plain ASCII?
pub open spec fn all_ascii(s: Seq<char>) -> bool {
    forall|i: int| 0 <= i < s.len() ==> char_is_ascii(#[trigger] s[i])
}

/// Does `e` report the first character of `s` that is not a hex digit?
pub open spec fn reports_first_bad_digit(s: Seq<char>, e: HexError) -> bool {
    &&& e matches HexError::InvalidChar { ch, index }
    &&& 0 <= index < s.len()
    &&& ch == s[index as int]
    &&& !is_hex_digit(ch)
    &&& forall|k: int| 0 <= k < index ==> is_hex_digit(#[trigger] s[k])
}

/// Relies on `hex::decode`: succeeds exactly on an even number of hex
/// digits, yielding one byte per pair; an odd length is reported before
/// a bad character, and the bad character reported is the first.
#[verifier::external_body]
fn hex_decode(s: &str) -> (r: Result<Vec<u8>, HexError>)
    ensures
        r is Ok <==> valid_hex(s@),
        r matches Ok(v) ==> v@ == spec_hex_bytes(s@),
        r matches Err(e) ==> ((all_ascii(s@) && s@.len() % 2 != 0) ==> e == HexError::OddLength),
        r matches Err(e) ==> ((all_ascii(s@) && s@.len() % 2 == 0 && !valid_hex(s@))
            ==> reports_first_bad_digit(s@, e)),
{
    match hex::decode(s) {
        Ok(v) => Ok(v),
        Err(hex::FromHexError::OddLength) => Err(HexError::OddLength),
        Err(hex::FromHexError::InvalidHexCharacter { c, index }) => Err(
            HexError::InvalidChar { ch: c, index },
        ),
        Err(hex::FromHexError::InvalidStringLength) => Err(HexError::InvalidLength),
    }
}

/// The first index in `[0, upto)` whose reference is a `CHILD_OF`
/// reference, if any.
pub open spec fn first_child_of_upto(refs: Seq<JaegerReference>, upto: int) -> Option<int>
    decreases upto,
{
    if upto <= 0 {
        None
    } else {
        let prev = first_child_of_upto(refs, upto - 1);
        if prev is Some {
            prev
        } else if refs[upto - 1].ref_type@ == "CHILD_OF"@ {
            Some(upto - 1)
        } else {
            None
        }
    }
}

/// The first `CHILD_OF` reference of a span, if any.
pub open spec fn first_child_of(refs: Seq<JaegerReference>) -> Option<int> {
    first_child_of_upto(refs, refs.len() as int)
}

/// The first index in `[0, upto)` holding a boolean `error` tag, if any.
pub open spec fn first_error_tag_upto(tags: Seq<JaegerValue>, upto: int) -> Option<int>
    decreases upto,
{
    if upto <= 0 {
        None
    } else {
        let prev = first_error_tag_upto(tags, upto - 1);
        if prev is Some {
            prev
        } else if tags[upto - 1].key@ == "error"@ && tags[upto - 1].type_@ == "bool"@ && tags[upto
            - 1].value is Bool {
            Some(upto - 1)
        } else {
            None
        }
    }
}

/// The first boolean `error` tag of a span, if any.
pub open spec fn first_error_tag(tags: Seq<JaegerValue>) -> Option<int> {
    first_error_tag_upto(tags, tags.len() as int)
}

/// Whether the span's tags mark it as failed: the first boolean `error`
/// tag decides; no such tag means no error.
pub open spec fn spec_error_flag(tags: Seq<JaegerValue>) -> bool {
    match first_error_tag(tags) {
        Some(k) => tags[k].value matches JsonScalar::Bool(b) && b,
        None => false,
    }
}

/// The text of a log field, empty when the field holds no text.
pub open spec fn field_text(f: JaegerValue) -> Seq<char> {
    match f.value {
        JsonScalar::Text(s) => s@,
        _ => Seq::empty(),
    }
}

/// The events contributed by the first `upto` fields of one log entry:
/// one event per `event` field of string type, at the log's timestamp
/// converted to nanoseconds.
pub open spec fn log_events_upto(log: JaegerLog, upto: int) -> Seq<EventModel>
    decreases upto,
{
    if upto <= 0 {
        Seq::empty()
    } else {
        let prev = log_events_upto(log, upto - 1);
        let f = log.fields@[upto - 1];
        if f.key@ == "event"@ && f.type_@ == "string"@ {
            prev.push(
                EventModel {
                    time_unix_nano: (log.timestamp * 1000) as u64,
                    name: field_text(f),
                },
            )
        } else {
            prev
        }
    }
}

/// The events contributed by one log entry.
pub open spec fn spec_log_events(log: JaegerLog) -> Seq<EventModel> {
    log_events_upto(log, log.fields@.len() as int)
}

/// The events contributed by the first `upto` log entries.
pub open spec fn spec_events_upto(logs: Seq<JaegerLog>, upto: int) -> Seq<EventModel>
    decreases upto,
{
    if upto <= 0 {
        Seq::empty()
    } else {
        spec_events_upto(logs, upto - 1) + spec_log_events(logs[upto - 1])
    }
}

/// All events of a span, in log order and field order.
pub open spec fn spec_events(logs: Seq<JaegerLog>) -> Seq<EventModel> {
    spec_events_upto(logs, logs.len() as int)
}

impl JaegerSpan {
    /// The hex text naming the span's parent: the span id of its first
    /// `CHILD_OF` reference, if it has one.
    pub open spec fn parent_hex(&self) -> Option<Seq<char>> {
        match first_child_of(self.references@) {
            Some(k) => Some(self.references@[k].span_id@),
            None => None,
        }
    }

    /// Do both identifiers of the span decode as hex: its own id, and
    /// its parent reference's id when it has one?
    pub open spec fn ids_ok(&self) -> bool {
        &&& valid_hex(self.span_id@)
        &&& (self.parent_hex() matches Some(h) ==> valid_hex(h))
    }

    /// The span's times converted to nanoseconds stay within 64 bits,
    /// for the span itself and for each of its logs.
    pub open spec fn times_fit(&self) -> bool {
        &&& self.start_time * 1000 + self.duration * 1000 <= u64::MAX
        &&& forall|k: int|
            0 <= k < self.logs@.len() ==> (#[trigger] self.logs@[k]).timestamp * 1000 <= u64::MAX
    }

    /// The canonical span this Jaeger span denotes.
    pub open spec fn spec_to_span(&self) -> SpanModel {
        SpanModel {
            span_id: spec_hex_bytes(self.span_id@),
            parent_span_id: match self.parent_hex() {
                Some(h) => spec_hex_bytes(h),
                None => Seq::empty(),
            },
            name: self.operation_name@,
            start_time_unix_nano: (self.start_time * 1000) as u64,
            end_time_unix_nano: (self.start_time * 1000 + self.duration * 1000) as u64,
            status: if spec_error_flag(self.tags@) {
                SpanStatus::Error
            } else {
                SpanStatus::Okay
            },
            events: spec_events(self.logs@),
        }
    }

    /// Converts the Jaeger span to a canonical span: decodes its ids,
    /// scales microseconds to nanoseconds, reads the error tag, and
    /// collects the events from the logs.  Fails exactly when an
    /// identifier is not hex.
    pub fn to_span(&self) -> (r: Result<Span, HexError>)
        requires
            self.times_fit(),
        ensures
            r is Ok <==> self.ids_ok(),
            r matches Ok(sp) ==> sp@ == self.spec_to_span(),
    {
        let child_of = String::new().concat("CHILD_OF");
        let nrefs = self.references.len();
        let mut k: usize = 0;
        let mut parent_span_id: Vec<u8> = Vec::new();
        let mut found: bool = false;
        while k < nrefs && !found
            invariant
                k <= nrefs,
                nrefs == self.references@.len(),
                child_of@ == "CHILD_OF"@,
                !found ==> first_child_of_upto(self.references@, k as int) is None,
                !found ==> parent_span_id@ == Seq::<u8>::empty(),
                found ==> {
                    &&& first_child_of(self.references@) matches Some(j)
                    &&& k > 0
                    &&& first_child_of(self.references@) == Some(k as int - 1)
                },
            decreases nrefs - k,
        {
            if self.references[k].ref_type == child_of {
                found = true;
                proof {
                    lemma_first_upto_stable_child(self.references@, k as int + 1,
                    self.references@.len() as int);
                }
            }
            k += 1;
        }
        let parent_res: Result<Vec<u8>, HexError> = if found {
            hex_decode(self.references[k - 1].span_id.as_str())
        } else {
            Ok(Vec::new())
        };
        let parent_span_id = match parent_res {
            Ok(v) => v,
            Err(e) => {
                return Err(e);
            },
        };
        let own_res = hex_decode(self.span_id.as_str());
        let span_id = match own_res {
            Ok(v) => v,
            Err(e) => {
                return Err(e);
            },
        };

        let start_time_unix_nano = self.start_time * 1000;
        let end_time_unix_nano = start_time_unix_nano + self.duration * 1000;

        let error_lit = String::new().concat("error");
        let bool_lit = String::new().concat("bool");
        let ntags = self.tags.len();
        let mut t: usize = 0;
        let mut error_flag: bool = false;
        let mut tag_found: bool = false;
        while t < ntags && !tag_found
            invariant
                t <= ntags,
                ntags == self.tags@.len(),
                error_lit@ == "error"@,
                bool_lit@ == "bool"@,
                !tag_found ==> first_error_tag_upto(self.tags@, t as int) is None,
                !tag_found ==> !error_flag,
                tag_found ==> {
                    &&& t > 0
                    &&& first_error_tag(self.tags@) == Some(t as int - 1)
                    &&& error_flag == spec_error_flag(self.tags@)
                },
            decreases ntags - t,
        {
            if self.tags[t].key == error_lit && self.tags[t].type_ == bool_lit {
                match &self.tags[t].value {
                    JsonScalar::Bool(b) => {
                        error_flag = *b;
                        tag_found = true;
                        proof {
                            lemma_first_upto_stable_error(self.tags@, t as int + 1,
                            self.tags@.len() as int);
                        }
                    },
                    _ => {},
                }
            }
            t += 1;
        }
        let status = if error_flag {
            SpanStatus::Error
        } else {
            SpanStatus::Okay
        };

        let event_lit = String::new().concat("event");
        let string_lit = String::new().concat("string");
        let nlogs = self.logs.len();
        let mut events: Vec<Event> = Vec::new();
        let mut li: usize = 0;
        proof {
            assert(events.deep_view() =~= spec_events_upto(self.logs@, 0));
        }
        while li < nlogs
            invariant
                li <= nlogs,
                nlogs == self.logs@.len(),
                event_lit@ == "event"@,
                string_lit@ == "string"@,
                self.times_fit(),
                events.deep_view() == spec_events_upto(self.logs@, li as int),
            decreases nlogs - li,
        {
            let nfields = self.logs[li].fields.len();
            let mut fi: usize = 0;
            proof {
                assert(log_events_upto(self.logs@[li as int], 0) =~= Seq::<EventModel>::empty());
                assert(events.deep_view() =~= spec_events_upto(self.logs@, li as int)
                    + log_events_upto(self.logs@[li as int], 0));
            }
            while fi < nfields
                invariant
                    fi <= nfields,
                    li < nlogs,
                    nlogs == self.logs@.len(),
                    nfields == self.logs@[li as int].fields@.len(),
                    event_lit@ == "event"@,
                    string_lit@ == "string"@,
                    self.times_fit(),
                    events.deep_view() == spec_events_upto(self.logs@, li as int)
                        + log_events_upto(self.logs@[li as int], fi as int),
                decreases nfields - fi,
            {
                let field = &self.logs[li].fields[fi];
                if field.key == event_lit && field.type_ == string_lit {
                    let name = match &field.value {
                        JsonScalar::Text(s) => s.clone(),
                        _ => String::new(),
                    };
                    let ev = Event {
                        time_unix_nano: self.logs[li].timestamp * 1000,
                        name,
                    };
                    proof {
                        assert(ev@ == log_events_upto(self.logs@[li as int], fi as int
                            + 1).last());
                    }
                    let ghost prev_dv = events.deep_view();
                    events.push(ev);
                    proof {
                        assert(events.deep_view() =~= prev_dv.push(ev@));
                        assert(log_events_upto(self.logs@[li as int], fi as int + 1)
                            == log_events_upto(self.logs@[li as int], fi as int).push(ev@));
                        assert(prev_dv.push(ev@) =~= spec_events_upto(self.logs@, li as int)
                            + log_events_upto(self.logs@[li as int], fi as int + 1));
                    }
                } else {
                    proof {
                        assert(log_events_upto(self.logs@[li as int], fi as int + 1)
                            == log_events_upto(self.logs@[li as int], fi as int));
                    }
                }
                fi += 1;
            }
            proof {
                assert(events.deep_view() =~= spec_events_upto(self.logs@, li as int + 1));
            }
            li += 1;
        }

        let sp = Span {
            span_id,
            parent_span_id,
            name: self.operation_name.clone(),
            start_time_unix_nano,
            end_time_unix_nano,
            status,
            events,
        };
        proof {
            assert(sp@ == self.spec_to_span());
        }
        Ok(sp)
    }
}

/// Once a `CHILD_OF` reference is found, scanning further keeps it.
proof fn lemma_first_upto_stable_child(refs: Seq<JaegerReference>, from: int, upto: int)
    requires
        0 < from <= upto,
        first_child_of_upto(refs, from) is Some,
    ensures
        first_child_of_upto(refs, upto) == first_child_of_upto(refs, from),
    decreases upto - from,
{
    if from < upto {
        lemma_first_upto_stable_child(refs, from, upto - 1);
    }
}

/// Once a boolean `error` tag is found, scanning further keeps it.
proof fn lemma_first_upto_stable_error(tags: Seq<JaegerValue>, from: int, upto: int)
    requires
        0 < from <= upto,
        first_error_tag_upto(tags, from) is Some,
    ensures
        first_error_tag_upto(tags, upto) == first_error_tag_upto(tags, from),
    decreases upto - from,
{
    if from < upto {
        lemma_first_upto_stable_error(tags, from, upto - 1);
    }
}

impl Trace {
    /// Decodes one parsed Jaeger trace into the canonical span list: the
    /// trace id must be hex, and every span is converted with
    /// [`JaegerSpan::to_span`].  Fails exactly when the trace id or any
    /// span's identifiers are not hex.
    pub fn from_jaeger(value: &JaegerTrace) -> (r: Result<Trace, HexError>)
        requires
            forall|i: int| 0 <= i < value.spans@.len() ==> (#[trigger] value.spans@[i]).times_fit(),
        ensures
            r is Ok <==> valid_hex(value.trace_id@) && (forall|i: int|
                0 <= i < value.spans@.len() ==> (#[trigger] value.spans@[i]).ids_ok()),
            r matches Ok(tr) ==> tr@.len() == value.spans@.len() && (forall|i: int|
                0 <= i < value.spans@.len() ==> tr@[i] == (#[trigger] value.spans@[i]).spec_to_span()),
    {
        let trace_id_res = hex_decode(value.trace_id.as_str());
        match trace_id_res {
            Ok(_) => {},
            Err(e) => {
                return Err(e);
            },
        }
        let n = value.spans.len();
        let mut spans: Vec<Span> = Vec::new();
        let mut i: usize = 0;
        while i < n
            invariant
                i <= n,
                n == value.spans@.len(),
                forall|k: int| 0 <= k < n ==> (#[trigger] value.spans@[k]).times_fit(),
                spans@.len() == i,
                forall|k: int|
                    0 <= k < i ==> (#[trigger] value.spans@[k]).ids_ok() && spans.deep_view()[k]
                        == value.spans@[k].spec_to_span(),
            decreases n - i,
        {
            let converted = value.spans[i].to_span();
            match converted {
                Ok(sp) => {
                    spans.push(sp);
                },
                Err(e) => {
                    return Err(e);
                },
            }
            i += 1;
        }
        Ok(Trace { spans })
    }
}

} // verus!
