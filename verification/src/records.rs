//! The match data model: positions, capture events, match records, and the
//! verified conversion from engine events to reported records.

use crate::text::decode_utf8_bytes;
use vstd::prelude::*;

verus! {

/// A zero-based (row, column) position in a source file.
#[derive(Clone, Copy, Debug, PartialEq, Eq, Structural)]
pub struct Position {
    pub row: usize,
    pub column: usize,
}

/// One capture event handed over by the matching engine, in the engine's
/// natural traversal order: which capture slot fired, where the node stands,
/// and which byte span of the source it covers.
#[derive(Clone, Copy, Debug, PartialEq, Eq, Structural)]
pub struct CaptureEvent {
    pub slot: usize,
    pub start: Position,
    pub end: Position,
    pub byte_start: usize,
    pub byte_end: usize,
}

/// One reported occurrence of the pattern.
#[derive(Debug)]
pub struct MatchRecord {
    pub file: String,
    pub start: Position,
    pub end: Position,
    pub capture: String,
    pub text: String,
}

/// The mathematical shape of a match record.
pub struct RecordModel {
    pub file: Seq<char>,
    pub start_row: nat,
    pub start_col: nat,
    pub end_row: nat,
    pub end_col: nat,
    pub capture: Seq<char>,
    pub text: Seq<char>,
}

impl View for MatchRecord {
    type V = RecordModel;

    open spec fn view(&self) -> RecordModel {
        RecordModel {
            file: self.file@,
            start_row: self.start.row as nat,
            start_col: self.start.column as nat,
            end_row: self.end.row as nat,
            end_col: self.end.column as nat,
            capture: self.capture@,
            text: self.text@,
        }
    }
}

/// The shape of the final output.
#[derive(Clone, Copy, Debug, PartialEq, Eq, Structural)]
pub enum OutputMode {
    Records,
    TextOnly,
    ListOnly,
}

/// Whether a capture-slot name marks a hidden capture: it starts with the
/// reserved marker `_`.
pub open spec fn hidden_slot(name: Seq<char>) -> bool {
    name.len() > 0 && name[0] == '_'
}

/// Decides `hidden_slot` on a slot name.
pub fn is_hidden_slot(name: &str) -> (r: bool)
    ensures
        r == hidden_slot(name@),
{
    name.unicode_len() > 0 && name.get_char(0) == '_'
}

/// Whether position `a` is at or before position `b`, comparing rows first.
pub open spec fn pos_le(a: Position, b: Position) -> bool {
    a.row < b.row || (a.row == b.row && a.column <= b.column)
}

/// Whether a record's start position is at or before its end position.
pub open spec fn span_ordered(m: RecordModel) -> bool {
    m.start_row < m.end_row || (m.start_row == m.end_row && m.start_col <= m.end_col)
}

/// Whether an event's capture appears in output: its slot must exist, and a
/// hidden slot is shown only when hidden captures are requested.
pub open spec fn event_visible(ev: CaptureEvent, names: Seq<Seq<char>>, include_hidden: bool) -> bool {
    ev.slot < names.len() && (include_hidden || !hidden_slot(names[ev.slot as int]))
}

/// Whether an event's byte span lies inside the source and decodes as UTF-8.
pub open spec fn span_ok(ev: CaptureEvent, src: Seq<u8>) -> bool {
    ev.byte_start <= ev.byte_end <= src.len() && vstd::utf8::valid_utf8(
        src.subrange(ev.byte_start as int, ev.byte_end as int),
    )
}

/// Whether an event produces a record: visible, and its span decodes.
pub open spec fn reported(
    ev: CaptureEvent,
    names: Seq<Seq<char>>,
    include_hidden: bool,
    src: Seq<u8>,
) -> bool {
    event_visible(ev, names, include_hidden) && span_ok(ev, src)
}

/// The record one reported event produces.
pub open spec fn model_of(
    ev: CaptureEvent,
    names: Seq<Seq<char>>,
    src: Seq<u8>,
    file: Seq<char>,
) -> RecordModel {
    RecordModel {
        file: file,
        start_row: ev.start.row as nat,
        start_col: ev.start.column as nat,
        end_row: ev.end.row as nat,
        end_col: ev.end.column as nat,
        capture: names[ev.slot as int],
        text: vstd::utf8::decode_utf8(src.subrange(ev.byte_start as int, ev.byte_end as int)),
    }
}

/// The records an event sequence produces, in event order: one per reported
/// event, skipping hidden captures and spans that do not decode.
pub open spec fn visible_models(
    events: Seq<CaptureEvent>,
    names: Seq<Seq<char>>,
    include_hidden: bool,
    src: Seq<u8>,
    file: Seq<char>,
) -> Seq<RecordModel>
    decreases events.len(),
{
    if events.len() == 0 {
        Seq::empty()
    } else {
        visible_models(events.drop_last(), names, include_hidden, src, file) + (
        if reported(events.last(), names, include_hidden, src) {
            seq![model_of(events.last(), names, src, file)]
        } else {
            Seq::<RecordModel>::empty()
        })
    }
}

/// The record views of a record sequence.
pub open spec fn views_of(s: Seq<MatchRecord>) -> Seq<RecordModel> {
    s.map_values(|r: MatchRecord| r@)
}

/// No record of a run without `include_hidden` carries a hidden capture name.
pub proof fn lemma_visible_models_hidden_filter(
    events: Seq<CaptureEvent>,
    names: Seq<Seq<char>>,
    include_hidden: bool,
    src: Seq<u8>,
    file: Seq<char>,
)
    ensures
        !include_hidden ==> forall|i: int|
            0 <= i < visible_models(events, names, include_hidden, src, file).len()
                ==> !hidden_slot(
                #[trigger] visible_models(events, names, include_hidden, src, file)[i].capture,
            ),
    decreases events.len(),
{
    if events.len() > 0 && !include_hidden {
        lemma_visible_models_hidden_filter(events.drop_last(), names, include_hidden, src, file);
        let prev = visible_models(events.drop_last(), names, include_hidden, src, file);
        let all = visible_models(events, names, include_hidden, src, file);
        assert forall|i: int| 0 <= i < all.len() implies !hidden_slot(all[i].capture) by {
            if i < prev.len() {
                assert(all[i] == prev[i]);
            } else {
                assert(reported(events.last(), names, include_hidden, src));
                assert(all[i] == model_of(events.last(), names, src, file));
            }
        }
    }
}


/// Records inherit ordered positions from their events: when no event's
/// start position exceeds its end position, the same holds of every record
/// produced.
pub proof fn lemma_visible_models_span_ordered(
    events: Seq<CaptureEvent>,
    names: Seq<Seq<char>>,
    include_hidden: bool,
    src: Seq<u8>,
    file: Seq<char>,
)
    requires
        forall|i: int| 0 <= i < events.len() ==> pos_le(#[trigger] events[i].start, events[i].end),
    ensures
        forall|i: int|
            0 <= i < visible_models(events, names, include_hidden, src, file).len()
                ==> span_ordered(
                #[trigger] visible_models(events, names, include_hidden, src, file)[i],
            ),
    decreases events.len(),
{
    if events.len() > 0 {
        assert forall|i: int|
            0 <= i < events.drop_last().len() implies pos_le(
            #[trigger] events.drop_last()[i].start,
            events.drop_last()[i].end,
        ) by {
            assert(events.drop_last()[i] == events[i]);
        }
        lemma_visible_models_span_ordered(events.drop_last(), names, include_hidden, src, file);
        let prev = visible_models(events.drop_last(), names, include_hidden, src, file);
        let all = visible_models(events, names, include_hidden, src, file);
        assert forall|i: int| 0 <= i < all.len() implies span_ordered(all[i]) by {
            if i < prev.len() {
                assert(all[i] == prev[i]);
            } else {
                assert(reported(events.last(), names, include_hidden, src));
                assert(all[i] == model_of(events.last(), names, src, file));
                assert(pos_le(events[events.len() - 1].start, events[events.len() - 1].end));
            }
        }
    }
}

/// Converts the engine's capture events for one file into match records.
///
/// `path` is the file's reported name (already normalized), `src` the file's
/// bytes, `names` the pattern's capture-slot names in declaration order.
pub fn events_to_records(
    path: &String,
    src: &[u8],
    events: &Vec<CaptureEvent>,
    names: &Vec<String>,
    include_hidden: bool,
) -> (r: Vec<MatchRecord>)
    ensures
        views_of(r@) == visible_models(events@, names.deep_view(), include_hidden, src@, path@),
{
    let mut r: Vec<MatchRecord> = Vec::new();
    let n = events.len();
    let mut i: usize = 0;
    while i < n
        invariant
            i <= n,
            n == events@.len(),
            views_of(r@) == visible_models(
                events@.subrange(0, i as int),
                names.deep_view(),
                include_hidden,
                src@,
                path@,
            ),
        decreases n - i,
    {
        let ev = events[i];
        proof {
            assert(events@.subrange(0, i + 1).drop_last() =~= events@.subrange(0, i as int));
            assert(events@.subrange(0, i + 1).last() == ev);
        }
        let ghost prev = visible_models(
            events@.subrange(0, i as int),
            names.deep_view(),
            include_hidden,
            src@,
            path@,
        );
        if ev.slot < names.len() && (include_hidden || !is_hidden_slot(names[ev.slot].as_str())) {
            proof {
                assert(names.deep_view()[ev.slot as int] == names@[ev.slot as int]@);
                assert(event_visible(ev, names.deep_view(), include_hidden));
            }
            if ev.byte_start <= ev.byte_end && ev.byte_end <= src.len() {
                let span = vstd::slice::slice_subrange(src, ev.byte_start, ev.byte_end);
                match decode_utf8_bytes(span) {
                    Some(text) => {
                        let rec = MatchRecord {
                            file: path.clone(),
                            start: ev.start,
                            end: ev.end,
                            capture: names[ev.slot].clone(),
                            text,
                        };
                        r.push(rec);
                        proof {
                            assert(views_of(r@) =~= prev + seq![
                                model_of(ev, names.deep_view(), src@, path@),
                            ]);
                        }
                    },
                    None => {
                        proof {
                            assert(!span_ok(ev, src@));
                        }
                    },
                }
            } else {
                proof {
                    assert(!span_ok(ev, src@));
                }
            }
        } else {
            proof {
                if ev.slot < names.len() {
                    assert(names.deep_view()[ev.slot as int] == names@[ev.slot as int]@);
                }
                assert(!event_visible(ev, names.deep_view(), include_hidden));
            }
        }
        i += 1;
    }
    proof {
        assert(events@.subrange(0, n as int) =~= events@);
    }
    r
}


/// How many visible events cover a byte span that does not decode as UTF-8:
/// each is a non-fatal per-node error, reported and skipped.
pub open spec fn undecodable_count(
    events: Seq<CaptureEvent>,
    names: Seq<Seq<char>>,
    include_hidden: bool,
    src: Seq<u8>,
) -> nat
    decreases events.len(),
{
    if events.len() == 0 {
        0
    } else {
        undecodable_count(events.drop_last(), names, include_hidden, src) + (
        if event_visible(events.last(), names, include_hidden) && !span_ok(events.last(), src) {
            1nat
        } else {
            0nat
        })
    }
}

/// Counts the visible events whose span does not decode: what the per-node
/// diagnostics report.
pub fn count_undecodable(
    events: &Vec<CaptureEvent>,
    names: &Vec<String>,
    include_hidden: bool,
    src: &[u8],
) -> (n: usize)
    ensures
        n == undecodable_count(events@, names.deep_view(), include_hidden, src@),
{
    let mut n: usize = 0;
    let total = events.len();
    let mut i: usize = 0;
    while i < total
        invariant
            i <= total,
            total == events@.len(),
            n <= i,
            n == undecodable_count(
                events@.subrange(0, i as int),
                names.deep_view(),
                include_hidden,
                src@,
            ),
        decreases total - i,
    {
        let ev = events[i];
        proof {
            assert(events@.subrange(0, i + 1).drop_last() =~= events@.subrange(0, i as int));
            assert(events@.subrange(0, i + 1).last() == ev);
        }
        if ev.slot < names.len() && (include_hidden || !is_hidden_slot(names[ev.slot].as_str())) {
            proof {
                assert(names.deep_view()[ev.slot as int] == names@[ev.slot as int]@);
                assert(event_visible(ev, names.deep_view(), include_hidden));
            }
            let mut bad = true;
            if ev.byte_start <= ev.byte_end && ev.byte_end <= src.len() {
                let span = vstd::slice::slice_subrange(src, ev.byte_start, ev.byte_end);
                if decode_utf8_bytes(span).is_some() {
                    bad = false;
                }
            }
            proof {
                assert(bad == !span_ok(ev, src@));
            }
            if bad {
                n += 1;
            }
        } else {
            proof {
                if ev.slot < names.len() {
                    assert(names.deep_view()[ev.slot as int] == names@[ev.slot as int]@);
                }
                assert(!event_visible(ev, names.deep_view(), include_hidden));
            }
        }
        i += 1;
    }
    proof {
        assert(events@.subrange(0, total as int) =~= events@);
    }
    n
}

/// Whether any event is visible: what list-only mode reports for a file.
pub open spec fn any_visible(
    events: Seq<CaptureEvent>,
    names: Seq<Seq<char>>,
    include_hidden: bool,
) -> bool {
    exists|i: int| 0 <= i < events.len() && event_visible(events[i], names, include_hidden)
}

/// Decides `any_visible`: whether a file has at least one reportable capture.
pub fn has_visible_event(
    events: &Vec<CaptureEvent>,
    names: &Vec<String>,
    include_hidden: bool,
) -> (r: bool)
    ensures
        r == any_visible(events@, names.deep_view(), include_hidden),
{
    let n = events.len();
    let mut i: usize = 0;
    while i < n
        invariant
            i <= n,
            n == events@.len(),
            forall|j: int| 0 <= j < i ==> !event_visible(events@[j], names.deep_view(), include_hidden),
        decreases n - i,
    {
        let ev = events[i];
        if ev.slot < names.len() && (include_hidden || !is_hidden_slot(names[ev.slot].as_str())) {
            proof {
                assert(names.deep_view()[ev.slot as int] == names@[ev.slot as int]@);
                assert(event_visible(events@[i as int], names.deep_view(), include_hidden));
            }
            return true;
        }
        proof {
            if ev.slot < names.len() {
                assert(names.deep_view()[ev.slot as int] == names@[ev.slot as int]@);
            }
            assert(!event_visible(events@[i as int], names.deep_view(), include_hidden));
        }
        i += 1;
    }
    false
}

} // verus!
